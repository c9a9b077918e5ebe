//! Mime type identifiers, such as `image/png` or `image/*`.

use vstd::prelude::*;
use crate::error::MimeAssocError;
use crate::text::{Textual, chars_of, find_char_from, first_index, split, split_on, substring};

verus! {

/// `true` when `s` splits on `/` into exactly two pieces, as a mime type must.
pub open spec fn is_mime_type_text(s: Seq<char>) -> bool {
    split(s, '/').len() == 2
}

/// The part before the first `/`.
pub open spec fn major_of(s: Seq<char>) -> Seq<char> {
    s.take(first_index(s, '/') as int)
}

/// The part after the first `/` (empty where there is none).
pub open spec fn minor_of(s: Seq<char>) -> Seq<char> {
    if first_index(s, '/') < s.len() {
        s.skip(first_index(s, '/') + 1int)
    } else {
        Seq::empty()
    }
}

pub open spec fn is_wildcard_text(s: Seq<char>) -> bool {
    minor_of(s) == seq!['*']
}

/// A mime type, such as `image/png`; its view is its text.
#[derive(Debug, Clone, PartialEq, Eq, Hash, PartialOrd, Ord)]
pub struct MimeType {
    id: String,
}

impl View for MimeType {
    type V = Seq<char>;

    closed spec fn view(&self) -> Seq<char> {
        self.id@
    }
}

impl MimeType {
    /// Accepts `id` where it holds exactly one `/`.
    pub fn parse(id: &str) -> (r: Result<MimeType, MimeAssocError>)
        ensures
            r matches Ok(m) ==> m@ == id@,
            r is Ok <==> is_mime_type_text(id@),
            r matches Err(e) ==> (e matches MimeAssocError::InvalidMimeType(t) && t@ == id@),
    {
        let components = split_on(id, '/');
        if components.len() != 2 {
            return Err(MimeAssocError::InvalidMimeType(id.to_owned()));
        }
        Ok(MimeType { id: id.to_owned() })
    }

    /// The full text, e.g. `image/png`.
    pub fn id(&self) -> (r: &str)
        ensures
            r@ == self@,
    {
        self.id.as_str()
    }

    /// The part before the `/`, e.g. `image`.
    pub fn major_type(&self) -> (r: String)
        ensures
            r@ == major_of(self@),
    {
        let cs = chars_of(self.id.as_str());
        assert(cs@.skip(0) =~= cs@);
        let i = find_char_from(&cs, 0, '/');
        substring(self.id.as_str(), 0, i)
    }

    /// The part after the `/`, e.g. `png`.
    pub fn minor_type(&self) -> (r: String)
        ensures
            r@ == minor_of(self@),
    {
        let cs = chars_of(self.id.as_str());
        assert(cs@.skip(0) =~= cs@);
        let i = find_char_from(&cs, 0, '/');
        if i < cs.len() {
            assert(self@.skip(i + 1) =~= self@.subrange(i + 1, self@.len() as int));
            substring(self.id.as_str(), i + 1, cs.len())
        } else {
            String::new()
        }
    }

    /// The part after the `/`; another name of `minor_type`.
    pub fn sub_type(&self) -> (r: String)
        ensures
            r@ == minor_of(self@),
    {
        self.minor_type()
    }

    /// True if the minor type is `*`, e.g. `image/*`.
    pub fn is_minor_type_wildcard(&self) -> (r: bool)
        ensures
            r == is_wildcard_text(self@),
    {
        let minor = self.minor_type();
        let cs = chars_of(minor.as_str());
        let r = cs.len() == 1 && cs[0] == '*';
        assert(r ==> cs@ =~= seq!['*']);
        r
    }

    /// True if this mime type has a wildcard minor type and `other` has the same major type.
    pub fn wildcard_match(&self, other: &MimeType) -> (r: bool)
        ensures
            r == (is_wildcard_text(self@) && major_of(self@) == major_of(other@)),
    {
        if self.is_minor_type_wildcard() {
            self.major_type() == other.major_type()
        } else {
            false
        }
    }

    /// `true` when both name the same mime type.
    pub fn same_as(&self, other: &MimeType) -> (r: bool)
        ensures
            r == (self@ == other@),
    {
        self.id == other.id
    }

    /// A copy with the same text.
    pub fn duplicate(&self) -> (r: MimeType)
        ensures
            r@ == self@,
    {
        MimeType { id: self.id.clone() }
    }

    /// The text, owned: what `Display` prints.
    pub fn to_string(&self) -> (r: String)
        ensures
            r@ == self@,
    {
        self.id.clone()
    }
}

impl Textual for MimeType {
    open spec fn text(&self) -> Seq<char> {
        self@
    }

    fn as_text(&self) -> (r: &str) {
        self.id()
    }
}

} // verus!
