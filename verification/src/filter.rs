//! Searching the mime types: which match a search string, and how a change of the search
//! string changes the precision of the filter it sets.

use vstd::prelude::*;
use crate::desktop_entry::{spec_to_lowercase, to_lowercase};
use crate::mime_info::{info_lookup, MimeInfoStoreView, MimeTypeInfoStore};
use crate::mime_type::MimeType;
use crate::text::{find_str, lemma_first_occurrence_finds, lemma_first_occurrence_miss, occurs_at};

verus! {

/// The change in precision of a filter string; what a list keeps selected follows from it.
#[derive(Debug, Clone, Copy, PartialEq, Eq, Structural)]
pub enum FilterPrecisionChange {
    Unchanged,
    MorePrecise,
    LessPrecise,
}

impl FilterPrecisionChange {
    /// Compares the lengths in bytes: a longer filter is more precise, a shorter one less;
    /// a filter that appears is more precise, one that goes away less.
    pub fn change_for(previous_text: Option<&str>, new_text: Option<&str>) -> (r: FilterPrecisionChange)
        ensures
            r == match (previous_text, new_text) {
                (Some(p), Some(n)) => if n.len() < p.len() {
                    FilterPrecisionChange::LessPrecise
                } else if n.len() == p.len() {
                    FilterPrecisionChange::Unchanged
                } else {
                    FilterPrecisionChange::MorePrecise
                },
                (Some(_), None) => FilterPrecisionChange::LessPrecise,
                (None, Some(_)) => FilterPrecisionChange::MorePrecise,
                (None, None) => FilterPrecisionChange::Unchanged,
            },
    {
        match (previous_text, new_text) {
            (Some(previous_text), Some(new_text)) => {
                let previous_len = previous_text.len();
                let new_len = new_text.len();
                if new_len < previous_len {
                    FilterPrecisionChange::LessPrecise
                } else if new_len == previous_len {
                    FilterPrecisionChange::Unchanged
                } else {
                    FilterPrecisionChange::MorePrecise
                }
            },
            (Some(_), None) => FilterPrecisionChange::LessPrecise,
            (None, Some(_)) => FilterPrecisionChange::MorePrecise,
            (None, None) => FilterPrecisionChange::Unchanged,
        }
    }
}

/// `true` when `pat` occurs in `s`.
pub open spec fn contains_text(s: Seq<char>, pat: Seq<char>) -> bool {
    exists|i: int| occurs_at(s, pat, i)
}

/// `true` when the mime type `m` matches the lower cased search `q`: `q` occurs in `m`,
/// lower cased, or in the description the database gives for `m`, lower cased.
pub open spec fn matches_search(q: Seq<char>, m: Seq<char>, infos: MimeInfoStoreView) -> bool {
    ||| contains_text(spec_to_lowercase(m), q)
    ||| (info_lookup(infos, m) matches Some(info) && (info.comment matches Some(c) && contains_text(spec_to_lowercase(c), q)))
}

/// `true` when `pat` occurs in `s`.
fn contains_str(s: &str, pat: &str) -> (r: bool)
    ensures
        r == contains_text(s@, pat@),
{
    let i = find_str(s, pat);
    proof {
        lemma_first_occurrence_finds(s@, pat@);
        lemma_first_occurrence_miss(s@, pat@);
        if pat@.len() == 0 {
            assert(s@.subrange(0, 0) =~= pat@);
            assert(occurs_at(s@, pat@, 0));
        }
    }
    i < s.unicode_len() || pat.unicode_len() == 0
}

/// Whether the mime types list shows `mime_type` under the search `search`: without a search
/// every mime type shows; with one, those whose id or description holds it, ignoring case.
pub fn mime_type_matches_search(search: Option<&str>, mime_type: &MimeType, mime_info_store: &MimeTypeInfoStore) -> (r: bool)
    ensures
        r == match search {
            None => true,
            Some(s) => matches_search(spec_to_lowercase(s@), mime_type@, mime_info_store@),
        },
{
    match search {
        None => true,
        Some(s) => {
            let q = to_lowercase(s);
            let id = to_lowercase(mime_type.id());
            if contains_str(id.as_str(), q.as_str()) {
                return true;
            }
            match mime_info_store.get_info_for_mime_type(mime_type) {
                Some(info) => match info.comment() {
                    Some(c) => {
                        let lc = to_lowercase(c);
                        contains_str(lc.as_str(), q.as_str())
                    },
                    None => false,
                },
                None => false,
            }
        },
    }
}

} // verus!
