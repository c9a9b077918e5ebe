//! Application identifiers: a desktop entry file name without its `.desktop` suffix.

use vstd::prelude::*;
use crate::desktop_entry::desktop_suffix;
use crate::error::MimeAssocError;
use crate::text::{ends_with, ends_with_str, find_str, first_occurrence, substring};

verus! {

/// An application id, made from a desktop entry file name such as `org.foo.Bar.desktop`.
#[derive(Debug, Clone, PartialEq, Eq, Hash)]
pub struct AppId {
    desktop_entry: String,
}

impl View for AppId {
    type V = Seq<char>;

    /// The desktop entry file name the id was made from.
    closed spec fn view(&self) -> Seq<char> {
        self.desktop_entry@
    }
}

/// The text before the first `.desktop`.
pub open spec fn app_id_of(desktop_entry: Seq<char>) -> Seq<char> {
    desktop_entry.take(first_occurrence(desktop_entry, desktop_suffix()) as int)
}

impl AppId {
    /// Accepts `desktop_entry` where it ends with `.desktop`.
    pub fn parse(desktop_entry: &str) -> (r: Result<AppId, MimeAssocError>)
        ensures
            r is Ok <==> ends_with(desktop_entry@, desktop_suffix()),
            r matches Ok(a) ==> a@ == desktop_entry@,
            r matches Err(e) ==> (e matches MimeAssocError::InvalidDesktopEntryId(t) && t@ == desktop_entry@),
    {
        let suffix = ".desktop";
        proof {
            reveal_strlit(".desktop");
            assert(suffix@ =~= desktop_suffix());
        }
        if ends_with_str(desktop_entry, suffix) {
            Ok(AppId { desktop_entry: desktop_entry.to_owned() })
        } else {
            Err(MimeAssocError::InvalidDesktopEntryId(desktop_entry.to_owned()))
        }
    }

    /// The id: the file name up to its first `.desktop`, e.g. `org.foo.Bar`.
    pub fn id(&self) -> (r: String)
        ensures
            r@ == app_id_of(self@),
    {
        let suffix = ".desktop";
        proof {
            reveal_strlit(".desktop");
            assert(suffix@ =~= desktop_suffix());
        }
        let i = find_str(self.desktop_entry.as_str(), suffix);
        proof {
            assert(first_occurrence(self@, desktop_suffix()) <= self@.len()) by {
                crate::text::lemma_first_occurrence_bound(self@, desktop_suffix());
            }
        }
        substring(self.desktop_entry.as_str(), 0, i)
    }
}

} // verus!
