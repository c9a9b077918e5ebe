//! The freedesktop.org shared mime info database: for each mime type its description, in
//! several languages, its icon, its file name patterns and its aliases, read from the XML
//! files of `/usr/share/mime/packages`.

use vstd::prelude::*;
use crate::assoc::{has_key, keys_unique, lemma_key_index, lemma_to_map_empty, lemma_to_map_push, lemma_to_map_update, to_map};
use crate::error::MimeAssocError;
use crate::mime_type::{is_mime_type_text, MimeType};
use crate::text::{split, split_on, str_equals, trim, trimmed, views};

verus! {

/// What the XML reader reports, item by item: elements by their local name, attributes as
/// `(local name, value)` pairs.
#[derive(Debug, Clone, PartialEq, Eq)]
pub enum XmlItem {
    StartElement(String, Vec<(String, String)>),
    EndElement(String),
    Characters(String),
    /// Anything else the reader reports: the document's start and end, whitespace, comments.
    Other,
    /// The reader stopped on malformed XML; its message.
    Error(String),
}

pub ghost enum XmlItemView {
    StartElement(Seq<char>, Seq<(Seq<char>, Seq<char>)>),
    EndElement(Seq<char>),
    Characters(Seq<char>),
    Other,
    Error(Seq<char>),
}

pub open spec fn attribute_views(v: Seq<(String, String)>) -> Seq<(Seq<char>, Seq<char>)> {
    v.map_values(|p: (String, String)| (p.0@, p.1@))
}

impl View for XmlItem {
    type V = XmlItemView;

    open spec fn view(&self) -> XmlItemView {
        match self {
            XmlItem::StartElement(n, a) => XmlItemView::StartElement(n@, attribute_views(a@)),
            XmlItem::EndElement(n) => XmlItemView::EndElement(n@),
            XmlItem::Characters(c) => XmlItemView::Characters(c@),
            XmlItem::Other => XmlItemView::Other,
            XmlItem::Error(m) => XmlItemView::Error(m@),
        }
    }
}

pub open spec fn xml_item_views(v: Seq<XmlItem>) -> Seq<XmlItemView> {
    v.map_values(|i: XmlItem| i@)
}

/// The items that the XML reader reports for the document `source`, up to its end or its
/// first error.
pub uninterp spec fn xml_document_events(source: Seq<u8>) -> Seq<XmlItemView>;

/// Reads the XML document `source` with `xml::EventReader` (xml-rs), collecting its events up
/// to the end of the document or the first error. The contract claims only that the result is
/// the reader's function of the bytes, named `xml_document_events`.
#[verifier::external_body]
fn xml_events(source: &[u8]) -> (r: Vec<XmlItem>)
    ensures
        xml_item_views(r@) == xml_document_events(source@),
{
    xml::EventReader::new(source).into_iter().map(|e| match e {
        Ok(xml::reader::XmlEvent::StartElement { name, attributes, .. }) => XmlItem::StartElement(
            name.local_name,
            attributes.into_iter().map(|a| (a.name.local_name, a.value)).collect(),
        ),
        Ok(xml::reader::XmlEvent::EndElement { name }) => XmlItem::EndElement(name.local_name),
        Ok(xml::reader::XmlEvent::Characters(characters)) => XmlItem::Characters(characters),
        Ok(_) => XmlItem::Other,
        Err(e) => XmlItem::Error(e.to_string()),
    }).collect()
}

/// What the database says of one mime type.
pub ghost struct MimeTypeInfoView {
    pub mime_type: Seq<char>,
    /// The description in the default language.
    pub comment: Option<Seq<char>>,
    /// The descriptions in other languages, by language.
    pub comments: Map<Seq<char>, Seq<char>>,
    pub generic_icon: Option<Seq<char>>,
    pub glob_patterns: Seq<Seq<char>>,
    pub aliases: Seq<Seq<char>>,
}

pub open spec fn opt_string_view(o: Option<String>) -> Option<Seq<char>> {
    match o {
        Some(s) => Some(s@),
        None => None,
    }
}

pub open spec fn opt_str_view(o: Option<&str>) -> Option<Seq<char>> {
    match o {
        Some(s) => Some(s@),
        None => None,
    }
}

pub open spec fn comment_pairs(v: Seq<(String, String)>) -> Seq<(Seq<char>, Seq<char>)> {
    v.map_values(|p: (String, String)| (p.0@, p.1@))
}

pub open spec fn mime_type_views(v: Seq<MimeType>) -> Seq<Seq<char>> {
    v.map_values(|m: MimeType| m@)
}

/// The information on one mime type.
#[derive(Debug, PartialEq, Eq)]
pub struct MimeTypeInfo {
    mime_type: MimeType,
    comment: Option<String>,
    comments: Vec<(String, String)>,
    generic_icon: Option<String>,
    glob_patterns: Vec<String>,
    aliases: Vec<MimeType>,
}

impl View for MimeTypeInfo {
    type V = MimeTypeInfoView;

    closed spec fn view(&self) -> MimeTypeInfoView {
        MimeTypeInfoView {
            mime_type: self.mime_type@,
            comment: opt_string_view(self.comment),
            comments: to_map(comment_pairs(self.comments@)),
            generic_icon: opt_string_view(self.generic_icon),
            glob_patterns: views(self.glob_patterns@),
            aliases: mime_type_views(self.aliases@),
        }
    }
}

/// What `new` holds: the mime type and nothing else.
pub open spec fn new_info(m: Seq<char>) -> MimeTypeInfoView {
    MimeTypeInfoView {
        mime_type: m,
        comment: None,
        comments: Map::empty(),
        generic_icon: None,
        glob_patterns: Seq::empty(),
        aliases: Seq::empty(),
    }
}

/// The extension a glob pattern gives: the text after its first `.` up to the next, where it
/// has one (`*.tar.gz` gives `tar`).
pub open spec fn glob_extension(glob: Seq<char>) -> Option<Seq<char>> {
    if split(glob, '.').len() > 1 {
        Some(split(glob, '.')[1])
    } else {
        None
    }
}

/// The extensions of the glob patterns, in order, skipping those that give none.
pub open spec fn extensions_of(globs: Seq<Seq<char>>) -> Seq<Seq<char>>
    decreases globs.len(),
{
    if globs.len() == 0 {
        Seq::empty()
    } else {
        extensions_of(globs.drop_last()) + match glob_extension(globs.last()) {
            Some(e) => seq![e],
            None => Seq::empty(),
        }
    }
}

/// Where the pair for `k` stands in `v`, if anywhere.
fn comment_position(v: &Vec<(String, String)>, k: &str) -> (r: Option<usize>)
    ensures
        r matches Some(i) ==> i < v@.len() && v@[i as int].0@ == k@,
        r is None ==> !has_key(comment_pairs(v@), k@),
{
    let mut i: usize = 0;
    while i < v.len()
        invariant
            i <= v@.len(),
            forall|j: int| 0 <= j < i ==> v@[j].0@ != k@,
        decreases v@.len() - i,
    {
        if str_equals(v[i].0.as_str(), k) {
            return Some(i);
        }
        i = i + 1;
    }
    proof {
        if has_key(comment_pairs(v@), k@) {
            let j = choose|j: int| 0 <= j < comment_pairs(v@).len() && #[trigger] comment_pairs(v@)[j].0 == k@;
            assert(comment_pairs(v@)[j].0 == v@[j].0@);
        }
    }
    None
}

impl MimeTypeInfo {
    #[verifier::type_invariant]
    closed spec fn comment_keys_unique(self) -> bool {
        keys_unique(comment_pairs(self.comments@))
    }

    /// The information on `mime_type` before any is read: none.
    pub fn new(mime_type: &MimeType) -> (r: MimeTypeInfo)
        ensures
            r@ == new_info(mime_type@),
    {
        let comments: Vec<(String, String)> = Vec::new();
        proof {
            lemma_to_map_empty(comment_pairs(comments@));
        }
        let r = MimeTypeInfo {
            mime_type: mime_type.duplicate(),
            comment: None,
            comments,
            generic_icon: None,
            glob_patterns: Vec::new(),
            aliases: Vec::new(),
        };
        assert(views(r.glob_patterns@) =~= Seq::<Seq<char>>::empty());
        assert(mime_type_views(r.aliases@) =~= Seq::<Seq<char>>::empty());
        r
    }

    /// A copy holding the same information.
    pub fn duplicate(&self) -> (r: MimeTypeInfo)
        ensures
            r@ == self@,
    {
        proof {
            use_type_invariant(self);
        }
        let mut comments: Vec<(String, String)> = Vec::new();
        let mut i: usize = 0;
        while i < self.comments.len()
            invariant
                i <= self.comments@.len(),
                comment_pairs(comments@) == comment_pairs(self.comments@).take(i as int),
            decreases self.comments@.len() - i,
        {
            let ghost before = comment_pairs(comments@);
            comments.push((self.comments[i].0.clone(), self.comments[i].1.clone()));
            assert(comment_pairs(comments@) =~= before.push(comment_pairs(self.comments@)[i as int]));
            assert(comment_pairs(self.comments@).take(i + 1) =~= comment_pairs(self.comments@).take(i as int).push(comment_pairs(self.comments@)[i as int]));
            i = i + 1;
        }
        assert(comment_pairs(self.comments@).take(i as int) =~= comment_pairs(self.comments@));
        let mut globs: Vec<String> = Vec::new();
        let mut j: usize = 0;
        while j < self.glob_patterns.len()
            invariant
                j <= self.glob_patterns@.len(),
                views(globs@) == views(self.glob_patterns@).take(j as int),
            decreases self.glob_patterns@.len() - j,
        {
            let ghost before = views(globs@);
            globs.push(self.glob_patterns[j].clone());
            assert(views(globs@) =~= before.push(self.glob_patterns@[j as int]@));
            assert(views(self.glob_patterns@).take(j + 1) =~= views(self.glob_patterns@).take(j as int).push(self.glob_patterns@[j as int]@));
            j = j + 1;
        }
        assert(views(self.glob_patterns@).take(j as int) =~= views(self.glob_patterns@));
        let mut aliases: Vec<MimeType> = Vec::new();
        let mut k: usize = 0;
        while k < self.aliases.len()
            invariant
                k <= self.aliases@.len(),
                mime_type_views(aliases@) == mime_type_views(self.aliases@).take(k as int),
            decreases self.aliases@.len() - k,
        {
            let ghost before = mime_type_views(aliases@);
            aliases.push(self.aliases[k].duplicate());
            assert(mime_type_views(aliases@) =~= before.push(self.aliases@[k as int]@));
            assert(mime_type_views(self.aliases@).take(k + 1) =~= mime_type_views(self.aliases@).take(k as int).push(self.aliases@[k as int]@));
            k = k + 1;
        }
        assert(mime_type_views(self.aliases@).take(k as int) =~= mime_type_views(self.aliases@));
        let comment = match &self.comment {
            Some(c) => Some(c.clone()),
            None => None,
        };
        let generic_icon = match &self.generic_icon {
            Some(c) => Some(c.clone()),
            None => None,
        };
        MimeTypeInfo {
            mime_type: self.mime_type.duplicate(),
            comment,
            comments,
            generic_icon,
            glob_patterns: globs,
            aliases,
        }
    }

    pub fn mime_type(&self) -> (r: &MimeType)
        ensures
            r@ == self@.mime_type,
    {
        &self.mime_type
    }

    /// The description in the default language.
    pub fn comment(&self) -> (r: Option<&str>)
        ensures
            opt_str_view(r) == self@.comment,
    {
        match &self.comment {
            Some(c) => Some(c.as_str()),
            None => None,
        }
    }

    /// The languages of the other descriptions, each once.
    pub fn comment_languages(&self) -> (r: Vec<&str>)
        ensures
            r@.len() == self@.comments.dom().len(),
            forall|i: int, j: int| 0 <= i < j < r@.len() ==> (#[trigger] r@[i])@ != (#[trigger] r@[j])@,
            forall|l: Seq<char>| self@.comments.contains_key(l) <==> exists|i: int| 0 <= i < r@.len() && (#[trigger] r@[i])@ == l,
    {
        proof {
            use_type_invariant(self);
        }
        let ghost pairs = comment_pairs(self.comments@);
        let mut r: Vec<&str> = Vec::new();
        let mut i: usize = 0;
        while i < self.comments.len()
            invariant
                i <= self.comments@.len(),
                pairs == comment_pairs(self.comments@),
                r@.len() == i,
                forall|j: int| 0 <= j < i ==> (#[trigger] r@[j])@ == pairs[j].0,
            decreases self.comments@.len() - i,
        {
            r.push(self.comments[i].0.as_str());
            i = i + 1;
        }
        proof {
            let keys = pairs.map_values(|p: (Seq<char>, Seq<char>)| p.0);
            assert forall|a: int, b: int| 0 <= a < b < r@.len() implies (#[trigger] r@[a])@ != (#[trigger] r@[b])@ by {
                assert(pairs[a].0 != pairs[b].0);
            }
            assert forall|l: Seq<char>| self@.comments.contains_key(l) <==> exists|q: int| 0 <= q < r@.len() && (#[trigger] r@[q])@ == l by {
                if self@.comments.contains_key(l) {
                    let q = choose|q: int| 0 <= q < pairs.len() && #[trigger] pairs[q].0 == l;
                    assert(r@[q]@ == l);
                }
                if exists|q: int| 0 <= q < r@.len() && (#[trigger] r@[q])@ == l {
                    let q = choose|q: int| 0 <= q < r@.len() && (#[trigger] r@[q])@ == l;
                    lemma_key_index(pairs, q);
                }
            }
            assert(keys.no_duplicates()) by {
                assert forall|a: int, b: int| 0 <= a < keys.len() && 0 <= b < keys.len() && a != b implies keys[a] != keys[b] by {
                    assert(pairs[a].0 != pairs[b].0);
                }
            }
            assert(keys.to_set() =~= self@.comments.dom()) by {
                assert forall|l: Seq<char>| keys.to_set().contains(l) <==> self@.comments.dom().contains(l) by {
                    if keys.contains(l) {
                        let q = choose|q: int| 0 <= q < keys.len() && keys[q] == l;
                        lemma_key_index(pairs, q);
                    }
                    if self@.comments.contains_key(l) {
                        let q = choose|q: int| 0 <= q < pairs.len() && #[trigger] pairs[q].0 == l;
                        assert(keys[q] == l);
                    }
                }
            }
            keys.unique_seq_to_set();
        }
        r
    }

    /// The description in language `lang`.
    pub fn comment_language(&self, lang: &str) -> (r: Option<&str>)
        ensures
            match r {
                Some(c) => self@.comments.contains_key(lang@) && c@ == self@.comments[lang@],
                None => !self@.comments.contains_key(lang@),
            },
    {
        proof {
            use_type_invariant(self);
        }
        match comment_position(&self.comments, lang) {
            Some(i) => {
                proof {
                    lemma_key_index(comment_pairs(self.comments@), i as int);
                }
                Some(self.comments[i].1.as_str())
            },
            None => None,
        }
    }

    /// The name of the icon for the mime type.
    pub fn generic_icon(&self) -> (r: Option<&str>)
        ensures
            opt_str_view(r) == self@.generic_icon,
    {
        match &self.generic_icon {
            Some(c) => Some(c.as_str()),
            None => None,
        }
    }

    /// The file name extensions the glob patterns give (see `glob_extension`), in order.
    pub fn extensions(&self) -> (r: Vec<String>)
        ensures
            views(r@) == extensions_of(self@.glob_patterns),
    {
        let ghost globs = views(self.glob_patterns@);
        let mut r: Vec<String> = Vec::new();
        let mut i: usize = 0;
        assert(globs.take(0) =~= Seq::<Seq<char>>::empty());
        while i < self.glob_patterns.len()
            invariant
                i <= self.glob_patterns@.len(),
                globs == views(self.glob_patterns@),
                views(r@) == extensions_of(globs.take(i as int)),
            decreases self.glob_patterns@.len() - i,
        {
            assert(globs.take(i + 1).drop_last() =~= globs.take(i as int));
            assert(globs.take(i + 1).last() == self.glob_patterns@[i as int]@);
            let pieces = split_on(self.glob_patterns[i].as_str(), '.');
            let ghost before = views(r@);
            if pieces.len() > 1 {
                assert(views(pieces@)[1] == pieces@[1]@);
                r.push(pieces[1].clone());
                assert(views(r@) =~= before + seq![pieces@[1]@]);
            } else {
                assert(views(r@) =~= before + Seq::<Seq<char>>::empty());
            }
            i = i + 1;
        }
        assert(globs.take(i as int) =~= globs);
        r
    }

    /// The other names of the mime type.
    pub fn aliases(&self) -> (r: Vec<&MimeType>)
        ensures
            r@.len() == self@.aliases.len(),
            forall|i: int| 0 <= i < r@.len() ==> (#[trigger] r@[i])@ == self@.aliases[i],
    {
        let mut r: Vec<&MimeType> = Vec::new();
        let mut i: usize = 0;
        while i < self.aliases.len()
            invariant
                i <= self.aliases@.len(),
                r@.len() == i,
                forall|j: int| 0 <= j < i ==> (#[trigger] r@[j])@ == self.aliases@[j]@,
            decreases self.aliases@.len() - i,
        {
            r.push(&self.aliases[i]);
            i = i + 1;
        }
        r
    }
}

pub open spec fn mime_type_tag() -> Seq<char> {
    seq!['m', 'i', 'm', 'e', '-', 't', 'y', 'p', 'e']
}

pub open spec fn comment_tag() -> Seq<char> {
    seq!['c', 'o', 'm', 'm', 'e', 'n', 't']
}

pub open spec fn generic_icon_tag() -> Seq<char> {
    seq!['g', 'e', 'n', 'e', 'r', 'i', 'c', '-', 'i', 'c', 'o', 'n']
}

pub open spec fn glob_tag() -> Seq<char> {
    seq!['g', 'l', 'o', 'b']
}

pub open spec fn alias_tag() -> Seq<char> {
    seq!['a', 'l', 'i', 'a', 's']
}

pub open spec fn type_attr() -> Seq<char> {
    seq!['t', 'y', 'p', 'e']
}

pub open spec fn lang_attr() -> Seq<char> {
    seq!['l', 'a', 'n', 'g']
}

pub open spec fn name_attr() -> Seq<char> {
    seq!['n', 'a', 'm', 'e']
}

pub open spec fn pattern_attr() -> Seq<char> {
    seq!['p', 'a', 't', 't', 'e', 'r', 'n']
}

/// The value of the first attribute named `name`.
pub open spec fn first_attribute(attrs: Seq<(Seq<char>, Seq<char>)>, name: Seq<char>) -> Option<Seq<char>>
    decreases attrs.len(),
{
    if attrs.len() == 0 {
        None
    } else if attrs[0].0 == name {
        Some(attrs[0].1)
    } else {
        first_attribute(attrs.drop_first(), name)
    }
}

/// Where reading the XML of the database stands: the mime type being read, whether a
/// comment is open and in which language, the mime types read so far, and the reader's
/// error if it stopped.
pub ghost struct XmlScan {
    pub current: Option<MimeTypeInfoView>,
    pub in_comment: bool,
    pub comment_lang: Option<Seq<char>>,
    pub infos: Map<Seq<char>, MimeTypeInfoView>,
    pub error: Option<Seq<char>>,
}

pub open spec fn initial_scan(infos: Map<Seq<char>, MimeTypeInfoView>) -> XmlScan {
    XmlScan { current: None, in_comment: false, comment_lang: None, infos, error: None }
}

/// An opening tag: `<mime-type type=..>` starts a mime type (where its type is one);
/// `<comment xml:lang=..>` opens a comment in that language (trimmed) or the default one;
/// `<generic-icon name=..>`, `<glob pattern=..>` and `<alias type=..>` (trimmed, where it is
/// a mime type) add to the mime type being read.
pub open spec fn scan_start(st: XmlScan, name: Seq<char>, attrs: Seq<(Seq<char>, Seq<char>)>) -> XmlScan {
    if name == mime_type_tag() {
        match first_attribute(attrs, type_attr()) {
            Some(t) => if is_mime_type_text(t) { XmlScan { current: Some(new_info(t)), ..st } } else { st },
            None => st,
        }
    } else if name == comment_tag() {
        XmlScan {
            in_comment: true,
            comment_lang: match first_attribute(attrs, lang_attr()) {
                Some(l) => Some(trim(l)),
                None => None,
            },
            ..st
        }
    } else if name == generic_icon_tag() {
        match (first_attribute(attrs, name_attr()), st.current) {
            (Some(n), Some(c)) => XmlScan { current: Some(MimeTypeInfoView { generic_icon: Some(n), ..c }), ..st },
            _ => st,
        }
    } else if name == glob_tag() {
        match (first_attribute(attrs, pattern_attr()), st.current) {
            (Some(g), Some(c)) => XmlScan { current: Some(MimeTypeInfoView { glob_patterns: c.glob_patterns.push(g), ..c }), ..st },
            _ => st,
        }
    } else if name == alias_tag() {
        match (first_attribute(attrs, type_attr()), st.current) {
            (Some(t), Some(c)) => if is_mime_type_text(trim(t)) {
                XmlScan { current: Some(MimeTypeInfoView { aliases: c.aliases.push(trim(t)), ..c }), ..st }
            } else {
                st
            },
            _ => st,
        }
    } else {
        st
    }
}

/// Text inside an open comment, trimmed, is the mime type's description: in the comment's
/// language, which it then consumes, or the default one.
pub open spec fn scan_characters(st: XmlScan, text: Seq<char>) -> XmlScan {
    if !st.in_comment {
        st
    } else {
        match st.current {
            None => st,
            Some(c) => match st.comment_lang {
                Some(l) => XmlScan {
                    current: Some(MimeTypeInfoView { comments: c.comments.insert(l, trim(text)), ..c }),
                    comment_lang: None,
                    ..st
                },
                None => XmlScan { current: Some(MimeTypeInfoView { comment: Some(trim(text)), ..c }), ..st },
            },
        }
    }
}

/// A closing tag: `</mime-type>` stores the mime type being read (replacing what was stored
/// for it); `</comment>` closes the comment.
pub open spec fn scan_end(st: XmlScan, name: Seq<char>) -> XmlScan {
    if name == mime_type_tag() {
        match st.current {
            Some(c) => XmlScan { infos: st.infos.insert(c.mime_type, c), current: None, ..st },
            None => st,
        }
    } else if name == comment_tag() {
        XmlScan { in_comment: false, ..st }
    } else {
        st
    }
}

pub open spec fn scan_xml_item(st: XmlScan, item: XmlItemView) -> XmlScan {
    if st.error is Some {
        st
    } else {
        match item {
            XmlItemView::StartElement(name, attrs) => scan_start(st, name, attrs),
            XmlItemView::EndElement(name) => scan_end(st, name),
            XmlItemView::Characters(text) => scan_characters(st, text),
            XmlItemView::Other => st,
            XmlItemView::Error(msg) => XmlScan { error: Some(msg), ..st },
        }
    }
}

pub open spec fn scan_xml(st: XmlScan, items: Seq<XmlItemView>) -> XmlScan
    decreases items.len(),
{
    if items.len() == 0 {
        st
    } else {
        scan_xml_item(scan_xml(st, items.drop_last()), items.last())
    }
}

pub proof fn lemma_scan_xml_error_sticks(st: XmlScan, items: Seq<XmlItemView>, i: int)
    requires
        0 <= i <= items.len(),
        scan_xml(st, items.take(i)).error is Some,
    ensures
        scan_xml(st, items) == scan_xml(st, items.take(i)),
    decreases items.len() - i,
{
    if i < items.len() {
        assert(items.take(i + 1).drop_last() =~= items.take(i));
        lemma_scan_xml_error_sticks(st, items, i + 1);
    } else {
        assert(items.take(i) =~= items);
    }
}

/// The value of the first attribute named `name`.
fn get_attribute_named<'a>(attributes: &'a Vec<(String, String)>, name: &str) -> (r: Option<&'a String>)
    ensures
        opt_string_view(match r { Some(v) => Some(*v), None => None }) == first_attribute(attribute_views(attributes@), name@),
{
    let ghost av = attribute_views(attributes@);
    let mut i: usize = 0;
    assert(av.skip(0) =~= av);
    while i < attributes.len()
        invariant
            i <= attributes@.len(),
            av == attribute_views(attributes@),
            first_attribute(av, name@) == first_attribute(av.skip(i as int), name@),
        decreases attributes@.len() - i,
    {
        assert(av.skip(i as int)[0] == (attributes@[i as int].0@, attributes@[i as int].1@));
        assert(av.skip(i as int).drop_first() =~= av.skip(i + 1));
        if str_equals(attributes[i].0.as_str(), name) {
            return Some(&attributes[i].1);
        }
        i = i + 1;
    }
    None
}

impl MimeTypeInfo {
    fn set_comment(&mut self, comment: String)
        ensures
            final(self)@ == (MimeTypeInfoView { comment: Some(comment@), ..old(self)@ }),
    {
        proof {
            use_type_invariant(&*self);
        }
        self.comment = Some(comment);
    }

    fn insert_comment(&mut self, lang: String, comment: String)
        ensures
            final(self)@ == (MimeTypeInfoView { comments: old(self)@.comments.insert(lang@, comment@), ..old(self)@ }),
    {
        proof {
            use_type_invariant(&*self);
        }
        let ghost lv = lang@;
        let ghost cv = comment@;
        let mut comments: Vec<(String, String)> = Vec::new();
        std::mem::swap(&mut comments, &mut self.comments);
        let ghost old_c = comments@;
        match comment_position(&comments, lang.as_str()) {
            Some(i) => {
                proof {
                    lemma_to_map_update(comment_pairs(old_c), i as int, cv);
                }
                comments.set(i, (lang, comment));
                assert(comment_pairs(comments@) =~= comment_pairs(old_c).update(i as int, (comment_pairs(old_c)[i as int].0, cv)));
            },
            None => {
                proof {
                    lemma_to_map_push(comment_pairs(old_c), lv, cv);
                }
                comments.push((lang, comment));
                assert(comment_pairs(comments@) =~= comment_pairs(old_c).push((lv, cv)));
            },
        }
        self.comments = comments;
    }

    fn set_generic_icon(&mut self, icon: String)
        ensures
            final(self)@ == (MimeTypeInfoView { generic_icon: Some(icon@), ..old(self)@ }),
    {
        proof {
            use_type_invariant(&*self);
        }
        self.generic_icon = Some(icon);
    }

    fn push_glob(&mut self, glob: String)
        ensures
            final(self)@ == (MimeTypeInfoView { glob_patterns: old(self)@.glob_patterns.push(glob@), ..old(self)@ }),
    {
        proof {
            use_type_invariant(&*self);
        }
        let mut globs: Vec<String> = Vec::new();
        std::mem::swap(&mut globs, &mut self.glob_patterns);
        let ghost before = globs@;
        globs.push(glob);
        assert(views(globs@) =~= views(before).push(globs@[before.len() as int]@));
        self.glob_patterns = globs;
    }

    fn push_alias(&mut self, alias: MimeType)
        ensures
            final(self)@ == (MimeTypeInfoView { aliases: old(self)@.aliases.push(alias@), ..old(self)@ }),
    {
        proof {
            use_type_invariant(&*self);
        }
        let mut aliases: Vec<MimeType> = Vec::new();
        std::mem::swap(&mut aliases, &mut self.aliases);
        let ghost before = aliases@;
        aliases.push(alias);
        assert(mime_type_views(aliases@) =~= mime_type_views(before).push(aliases@[before.len() as int]@));
        self.aliases = aliases;
    }
}

pub open spec fn opt_info_view(o: Option<MimeTypeInfo>) -> Option<MimeTypeInfoView> {
    match o {
        Some(i) => Some(i@),
        None => None,
    }
}

pub open spec fn opt_lang_view(o: Option<String>) -> Option<Seq<char>> {
    opt_string_view(o)
}

/// What the database holds: the information by mime type, and the mime type each alias
/// stands for.
pub ghost struct MimeInfoStoreView {
    pub infos: Map<Seq<char>, MimeTypeInfoView>,
    pub aliases: Map<Seq<char>, Seq<char>>,
}

pub open spec fn info_pairs(v: Seq<MimeTypeInfo>) -> Seq<(Seq<char>, MimeTypeInfoView)> {
    v.map_values(|i: MimeTypeInfo| (i@.mime_type, i@))
}

pub open spec fn alias_pairs(v: Seq<(MimeType, MimeType)>) -> Seq<(Seq<char>, Seq<char>)> {
    v.map_values(|p: (MimeType, MimeType)| (p.0@, p.1@))
}

/// The shared mime info database.
pub struct MimeTypeInfoStore {
    mime_types: Vec<MimeTypeInfo>,
    aliases: Vec<(MimeType, MimeType)>,
}

impl View for MimeTypeInfoStore {
    type V = MimeInfoStoreView;

    closed spec fn view(&self) -> MimeInfoStoreView {
        MimeInfoStoreView { infos: to_map(info_pairs(self.mime_types@)), aliases: to_map(alias_pairs(self.aliases@)) }
    }
}

/// Where the information on `m` stands in `v`, if anywhere.
fn info_position(v: &Vec<MimeTypeInfo>, m: &MimeType) -> (r: Option<usize>)
    ensures
        r matches Some(i) ==> i < v@.len() && v@[i as int]@.mime_type == m@,
        r is None ==> !has_key(info_pairs(v@), m@),
{
    let mut i: usize = 0;
    while i < v.len()
        invariant
            i <= v@.len(),
            forall|j: int| 0 <= j < i ==> v@[j]@.mime_type != m@,
        decreases v@.len() - i,
    {
        if v[i].mime_type().same_as(m) {
            return Some(i);
        }
        i = i + 1;
    }
    proof {
        if has_key(info_pairs(v@), m@) {
            let j = choose|j: int| 0 <= j < info_pairs(v@).len() && #[trigger] info_pairs(v@)[j].0 == m@;
            assert(info_pairs(v@)[j].0 == v@[j]@.mime_type);
        }
    }
    None
}

/// Where the pair for alias `m` stands in `v`, if anywhere.
fn alias_position(v: &Vec<(MimeType, MimeType)>, m: &MimeType) -> (r: Option<usize>)
    ensures
        r matches Some(i) ==> i < v@.len() && v@[i as int].0@ == m@,
        r is None ==> !has_key(alias_pairs(v@), m@),
{
    let mut i: usize = 0;
    while i < v.len()
        invariant
            i <= v@.len(),
            forall|j: int| 0 <= j < i ==> v@[j].0@ != m@,
        decreases v@.len() - i,
    {
        if v[i].0.same_as(m) {
            return Some(i);
        }
        i = i + 1;
    }
    proof {
        if has_key(alias_pairs(v@), m@) {
            let j = choose|j: int| 0 <= j < alias_pairs(v@).len() && #[trigger] alias_pairs(v@)[j].0 == m@;
            assert(alias_pairs(v@)[j].0 == v@[j].0@);
        }
    }
    None
}

impl MimeTypeInfoStore {
    #[verifier::type_invariant]
    closed spec fn keys_are_unique(self) -> bool {
        keys_unique(info_pairs(self.mime_types@)) && keys_unique(alias_pairs(self.aliases@))
    }

    /// A database holding nothing.
    pub fn new() -> (r: MimeTypeInfoStore)
        ensures
            r@ == (MimeInfoStoreView { infos: Map::empty(), aliases: Map::empty() }),
    {
        let mime_types: Vec<MimeTypeInfo> = Vec::new();
        let aliases: Vec<(MimeType, MimeType)> = Vec::new();
        proof {
            lemma_to_map_empty(info_pairs(mime_types@));
            lemma_to_map_empty(alias_pairs(aliases@));
        }
        MimeTypeInfoStore { mime_types, aliases }
    }

    /// Stores `info` under its mime type, replacing what was stored for it.
    fn insert_info(&mut self, info: MimeTypeInfo)
        ensures
            final(self)@ == (MimeInfoStoreView { infos: old(self)@.infos.insert(info@.mime_type, info@), ..old(self)@ }),
    {
        proof {
            use_type_invariant(&*self);
        }
        let ghost iv = info@;
        let mut v: Vec<MimeTypeInfo> = Vec::new();
        std::mem::swap(&mut v, &mut self.mime_types);
        let ghost old_v = v@;
        match info_position(&v, info.mime_type()) {
            Some(i) => {
                proof {
                    lemma_to_map_update(info_pairs(old_v), i as int, iv);
                }
                v.set(i, info);
                assert(info_pairs(v@) =~= info_pairs(old_v).update(i as int, (info_pairs(old_v)[i as int].0, iv)));
            },
            None => {
                proof {
                    lemma_to_map_push(info_pairs(old_v), iv.mime_type, iv);
                }
                v.push(info);
                assert(info_pairs(v@) =~= info_pairs(old_v).push((iv.mime_type, iv)));
            },
        }
        self.mime_types = v;
    }
}

/// The state of a read in progress.
struct XmlReadState {
    current: Option<MimeTypeInfo>,
    in_comment: bool,
    comment_lang: Option<String>,
}

impl XmlReadState {
    spec fn agrees(&self, st: XmlScan, store: MimeInfoStoreView) -> bool {
        &&& st.error is None
        &&& opt_info_view(self.current) == st.current
        &&& self.in_comment == st.in_comment
        &&& opt_lang_view(self.comment_lang) == st.comment_lang
        &&& store.infos == st.infos
    }

    fn start_element(&mut self, name: &str, attrs: &Vec<(String, String)>)
        ensures
            forall|st: XmlScan, store: MimeInfoStoreView| old(self).agrees(st, store) ==> final(self).agrees(scan_start(st, name@, attribute_views(attrs@)), store),
    {
        let mime_type_name = "mime-type";
        let comment_name = "comment";
        let icon_name = "generic-icon";
        let glob_name = "glob";
        let alias_name = "alias";
        let type_key_name = "type";
        let lang_name = "lang";
        let name_name = "name";
        let pattern_name = "pattern";
        proof {
            reveal_strlit("mime-type");
            reveal_strlit("comment");
            reveal_strlit("generic-icon");
            reveal_strlit("glob");
            reveal_strlit("alias");
            reveal_strlit("type");
            reveal_strlit("lang");
            reveal_strlit("name");
            reveal_strlit("pattern");
            assert(mime_type_name@ =~= mime_type_tag());
            assert(comment_name@ =~= comment_tag());
            assert(icon_name@ =~= generic_icon_tag());
            assert(glob_name@ =~= glob_tag());
            assert(alias_name@ =~= alias_tag());
            assert(type_key_name@ =~= type_attr());
            assert(lang_name@ =~= lang_attr());
            assert(name_name@ =~= name_attr());
            assert(pattern_name@ =~= pattern_attr());
        }
        if str_equals(name, mime_type_name) {
            if let Some(t) = get_attribute_named(attrs, type_key_name) {
                if let Ok(m) = MimeType::parse(t.as_str()) {
                    self.current = Some(MimeTypeInfo::new(&m));
                }
            }
        } else if str_equals(name, comment_name) {
            self.in_comment = true;
            self.comment_lang = match get_attribute_named(attrs, lang_name) {
                Some(l) => Some(trimmed(l.as_str())),
                None => None,
            };
        } else if str_equals(name, icon_name) {
            if let Some(n) = get_attribute_named(attrs, name_name) {
                if let Some(c) = &mut self.current {
                    c.set_generic_icon(n.clone());
                }
            }
        } else if str_equals(name, glob_name) {
            if let Some(g) = get_attribute_named(attrs, pattern_name) {
                if let Some(c) = &mut self.current {
                    c.push_glob(g.clone());
                }
            }
        } else if str_equals(name, alias_name) {
            if let Some(t) = get_attribute_named(attrs, type_key_name) {
                if let Some(c) = &mut self.current {
                    let a = trimmed(t.as_str());
                    if let Ok(m) = MimeType::parse(a.as_str()) {
                        c.push_alias(m);
                    }
                }
            }
        }
    }

    fn characters(&mut self, text: &str)
        ensures
            forall|st: XmlScan, store: MimeInfoStoreView| old(self).agrees(st, store) ==> final(self).agrees(scan_characters(st, text@), store),
    {
        if self.in_comment {
            let comment = trimmed(text);
            if let Some(c) = &mut self.current {
                match self.comment_lang.take() {
                    Some(l) => c.insert_comment(l, comment),
                    None => c.set_comment(comment),
                }
            }
        }
    }

    fn end_element(&mut self, name: &str, store: &mut MimeTypeInfoStore)
        ensures
            forall|st: XmlScan| old(self).agrees(st, old(store)@) ==> final(self).agrees(scan_end(st, name@), final(store)@),
            final(store)@.aliases == old(store)@.aliases,
    {
        let mime_type_name = "mime-type";
        let comment_name = "comment";
        proof {
            reveal_strlit("mime-type");
            reveal_strlit("comment");
            assert(mime_type_name@ =~= mime_type_tag());
            assert(comment_name@ =~= comment_tag());
        }
        if str_equals(name, mime_type_name) {
            if let Some(c) = self.current.take() {
                store.insert_info(c);
            }
        } else if str_equals(name, comment_name) {
            self.in_comment = false;
        }
    }
}

impl MimeTypeInfoStore {
    /// Reads the items of one XML file of the database into the store: each `<mime-type>`
    /// element, once closed, replaces what the store held for its mime type. Fails with the
    /// reader's message where it stopped on malformed XML; what was read before stays.
    pub fn load_single_xml_into_store(events: &Vec<XmlItem>, store: &mut MimeTypeInfoStore) -> (r: Result<(), MimeAssocError>)
        ensures
            ({
                let scan = scan_xml(initial_scan(old(store)@.infos), xml_item_views(events@));
                &&& final(store)@ == (MimeInfoStoreView { infos: scan.infos, ..old(store)@ })
                &&& match scan.error {
                    None => r is Ok,
                    Some(msg) => r matches Err(e) && (e matches MimeAssocError::XmlRead(x) && x@ == msg),
                }
            }),
    {
        let ghost items = xml_item_views(events@);
        let ghost st0 = initial_scan(store@.infos);
        let mut state = XmlReadState { current: None, in_comment: false, comment_lang: None };
        let mut i: usize = 0;
        assert(items.take(0) =~= Seq::<XmlItemView>::empty());
        while i < events.len()
            invariant
                i <= events@.len(),
                items == xml_item_views(events@),
                st0 == initial_scan(old(store)@.infos),
                store@.aliases == old(store)@.aliases,
                state.agrees(scan_xml(st0, items.take(i as int)), store@),
            decreases events@.len() - i,
        {
            let ghost st = scan_xml(st0, items.take(i as int));
            assert(items.take(i + 1).drop_last() =~= items.take(i as int));
            assert(items.take(i + 1).last() == events@[i as int]@);
            match &events[i] {
                XmlItem::StartElement(name, attrs) => {
                    state.start_element(name.as_str(), attrs);
                },
                XmlItem::EndElement(name) => {
                    state.end_element(name.as_str(), store);
                },
                XmlItem::Characters(text) => {
                    state.characters(text.as_str());
                },
                XmlItem::Other => {},
                XmlItem::Error(msg) => {
                    proof {
                        lemma_scan_xml_error_sticks(st0, items, i + 1);
                    }
                    return Err(MimeAssocError::XmlRead(msg.clone()));
                },
            }
            i = i + 1;
        }
        assert(items.take(i as int) =~= items);
        Ok(())
    }
}

/// `true` when some stored mime type lists `a` among its aliases.
pub open spec fn aliased(infos: Map<Seq<char>, MimeTypeInfoView>, a: Seq<char>) -> bool {
    exists|k: Seq<char>| infos.contains_key(k) && (#[trigger] infos[k]).aliases.contains(a)
}

/// `true` when `aliases` maps every alias the stored mime types list to one of the mime types
/// that lists it, and keeps `old`'s mapping of any other alias.
pub open spec fn aliases_resolved(
    infos: Map<Seq<char>, MimeTypeInfoView>,
    old: Map<Seq<char>, Seq<char>>,
    aliases: Map<Seq<char>, Seq<char>>,
) -> bool {
    &&& forall|a: Seq<char>| #[trigger] aliases.contains_key(a) <==> (old.contains_key(a) || aliased(infos, a))
    &&& forall|a: Seq<char>| #[trigger] aliased(infos, a) ==> infos.contains_key(aliases[a]) && infos[aliases[a]].aliases.contains(a)
    &&& forall|a: Seq<char>| !aliased(infos, a) && old.contains_key(a) ==> #[trigger] aliases[a] == old[a]
}

/// The information on `m`: stored under it, or else under the mime type it is an alias of.
pub open spec fn info_lookup(sv: MimeInfoStoreView, m: Seq<char>) -> Option<MimeTypeInfoView> {
    if sv.infos.contains_key(m) {
        Some(sv.infos[m])
    } else if sv.aliases.contains_key(m) && sv.infos.contains_key(sv.aliases[m]) {
        Some(sv.infos[sv.aliases[m]])
    } else {
        None
    }
}

pub open spec fn opt_info_ref_view(o: Option<&MimeTypeInfo>) -> Option<MimeTypeInfoView> {
    match o {
        Some(i) => Some(i@),
        None => None,
    }
}

pub open spec fn byte_views(v: Seq<Vec<u8>>) -> Seq<Seq<u8>> {
    v.map_values(|b: Vec<u8>| b@)
}

/// The mime types read from the XML files `files` in turn, on top of `infos`, and the
/// reader's message where it stopped on malformed XML.
pub open spec fn scan_files(infos: Map<Seq<char>, MimeTypeInfoView>, files: Seq<Seq<u8>>) -> (Map<Seq<char>, MimeTypeInfoView>, Option<Seq<char>>)
    decreases files.len(),
{
    if files.len() == 0 {
        (infos, None)
    } else {
        let scan = scan_xml(initial_scan(infos), xml_document_events(files[0]));
        match scan.error {
            Some(e) => (scan.infos, Some(e)),
            None => scan_files(scan.infos, files.drop_first()),
        }
    }
}

/// `true` when one of the first `i` pairs lists alias `a`.
spec fn listed_before(pairs: Seq<(Seq<char>, MimeTypeInfoView)>, i: int, a: Seq<char>) -> bool {
    exists|p: int| 0 <= p < i && (#[trigger] pairs[p]).1.aliases.contains(a)
}

/// `true` when `a` maps to the mime type of one of the first `i` pairs that lists it.
spec fn mapped_to_lister(pairs: Seq<(Seq<char>, MimeTypeInfoView)>, i: int, a: Seq<char>, m: Map<Seq<char>, Seq<char>>) -> bool {
    exists|p: int| 0 <= p < i && (#[trigger] pairs[p]).1.aliases.contains(a) && m[a] == pairs[p].0
}

/// Maps each alias that `info` lists to its mime type.
fn add_aliases_of(v: &mut Vec<(MimeType, MimeType)>, info: &MimeTypeInfo)
    requires
        keys_unique(alias_pairs(old(v)@)),
    ensures
        keys_unique(alias_pairs(final(v)@)),
        forall|a: Seq<char>| #[trigger] to_map(alias_pairs(final(v)@)).contains_key(a) <==> (to_map(alias_pairs(old(v)@)).contains_key(a) || info@.aliases.contains(a)),
        forall|a: Seq<char>| info@.aliases.contains(a) ==> #[trigger] to_map(alias_pairs(final(v)@))[a] == info@.mime_type,
        forall|a: Seq<char>| !info@.aliases.contains(a) && to_map(alias_pairs(old(v)@)).contains_key(a) ==> #[trigger] to_map(alias_pairs(final(v)@))[a] == to_map(alias_pairs(old(v)@))[a],
{
    let ghost start = to_map(alias_pairs(v@));
    let list = info.aliases();
    let ghost al = info@.aliases;
    let mut j: usize = 0;
    while j < list.len()
        invariant
            j <= list@.len(),
            list@.len() == al.len(),
            forall|q: int| 0 <= q < list@.len() ==> (#[trigger] list@[q])@ == al[q],
            al == info@.aliases,
            keys_unique(alias_pairs(v@)),
            to_map(alias_pairs(v@)) == start.union_prefer_right(Map::new(|a: Seq<char>| al.take(j as int).contains(a), |a: Seq<char>| info@.mime_type)),
        decreases list@.len() - j,
    {
        let ghost old_v = v@;
        let a = list[j].duplicate();
        let target = info.mime_type().duplicate();
        let ghost av = a@;
        let ghost tv = target@;
        match alias_position(v, &a) {
            Some(i) => {
                proof {
                    lemma_to_map_update(alias_pairs(old_v), i as int, tv);
                }
                v.set(i, (a, target));
                assert(alias_pairs(v@) =~= alias_pairs(old_v).update(i as int, (alias_pairs(old_v)[i as int].0, tv)));
            },
            None => {
                proof {
                    lemma_to_map_push(alias_pairs(old_v), av, tv);
                }
                v.push((a, target));
                assert(alias_pairs(v@) =~= alias_pairs(old_v).push((av, tv)));
            },
        }
        proof {
            assert(av == al[j as int]);
            assert(tv == info@.mime_type);
            assert(al.take(j + 1) =~= al.take(j as int).push(av));
            let prev = start.union_prefer_right(Map::new(|a: Seq<char>| al.take(j as int).contains(a), |a: Seq<char>| info@.mime_type));
            let next = start.union_prefer_right(Map::new(|a: Seq<char>| al.take(j + 1).contains(a), |a: Seq<char>| info@.mime_type));
            assert forall|x: Seq<char>| al.take(j + 1).contains(x) <==> (al.take(j as int).contains(x) || x == av) by {
                if al.take(j + 1).contains(x) {
                    let q = choose|q: int| 0 <= q < al.take(j + 1).len() && #[trigger] al.take(j + 1)[q] == x;
                    if q < j {
                        assert(al.take(j as int)[q] == x);
                    }
                }
                if al.take(j as int).contains(x) {
                    let q = choose|q: int| 0 <= q < al.take(j as int).len() && #[trigger] al.take(j as int)[q] == x;
                    assert(al.take(j + 1)[q] == x);
                }
                if x == av {
                    assert(al.take(j + 1)[j as int] == x);
                }
            }
            let ins = prev.insert(av, tv);
            assert forall|x: Seq<char>| #![trigger next.dom().contains(x)] #![trigger ins.dom().contains(x)] next.dom().contains(x) == ins.dom().contains(x) by {
                assert(al.take(j + 1).contains(x) <==> (al.take(j as int).contains(x) || x == av));
            }
            assert(next.dom() =~= ins.dom());
            assert forall|x: Seq<char>| #[trigger] next.dom().contains(x) implies next[x] == ins[x] by {
                assert(al.take(j + 1).contains(x) <==> (al.take(j as int).contains(x) || x == av));
            }
            assert(next =~= ins);
        }
        j = j + 1;
    }
    assert(al.take(j as int) =~= al);
}

impl MimeTypeInfoStore {
    /// Maps each alias that a stored mime type lists to that mime type (to one of them, where
    /// several list it).
    pub fn resolve_aliases(&mut self)
        ensures
            final(self)@.infos == old(self)@.infos,
            aliases_resolved(old(self)@.infos, old(self)@.aliases, final(self)@.aliases),
    {
        proof {
            use_type_invariant(&*self);
        }
        let ghost pairs = info_pairs(self.mime_types@);
        let ghost infos = to_map(pairs);
        let ghost start = to_map(alias_pairs(self.aliases@));
        let mut aliases: Vec<(MimeType, MimeType)> = Vec::new();
        std::mem::swap(&mut aliases, &mut self.aliases);
        let mut i: usize = 0;
        while i < self.mime_types.len()
            invariant
                i <= self.mime_types@.len(),
                pairs == info_pairs(self.mime_types@),
                keys_unique(pairs),
                infos == to_map(pairs),
                keys_unique(alias_pairs(aliases@)),
                forall|a: Seq<char>| #[trigger] to_map(alias_pairs(aliases@)).contains_key(a) <==> (start.contains_key(a) || listed_before(pairs, i as int, a)),
                forall|a: Seq<char>| #[trigger] listed_before(pairs, i as int, a) ==> mapped_to_lister(pairs, i as int, a, to_map(alias_pairs(aliases@))),
                forall|a: Seq<char>| !listed_before(pairs, i as int, a) && start.contains_key(a) ==> #[trigger] to_map(alias_pairs(aliases@))[a] == start[a],
            decreases self.mime_types@.len() - i,
        {
            let ghost before = to_map(alias_pairs(aliases@));
            assert(pairs[i as int] == (self.mime_types@[i as int]@.mime_type, self.mime_types@[i as int]@));
            add_aliases_of(&mut aliases, &self.mime_types[i]);
            proof {
                let now = to_map(alias_pairs(aliases@));
                assert forall|a: Seq<char>| #[trigger] now.contains_key(a) <==> (start.contains_key(a) || listed_before(pairs, i + 1, a)) by {
                    if listed_before(pairs, i + 1, a) {
                        let p = choose|p: int| 0 <= p < i + 1 && (#[trigger] pairs[p]).1.aliases.contains(a);
                        if p < i {
                            assert(listed_before(pairs, i as int, a));
                            assert(before.contains_key(a));
                        }
                    }
                    if listed_before(pairs, i as int, a) {
                        let p = choose|p: int| 0 <= p < i && (#[trigger] pairs[p]).1.aliases.contains(a);
                        assert(listed_before(pairs, i + 1, a));
                    }
                    if pairs[i as int].1.aliases.contains(a) {
                        assert(listed_before(pairs, i + 1, a));
                    }
                }
                assert forall|a: Seq<char>| #[trigger] listed_before(pairs, i + 1, a) implies mapped_to_lister(pairs, i + 1, a, now) by {
                    if pairs[i as int].1.aliases.contains(a) {
                        assert(now[a] == pairs[i as int].0);
                    } else {
                        let p = choose|p: int| 0 <= p < i + 1 && (#[trigger] pairs[p]).1.aliases.contains(a);
                        assert(p < i);
                        assert(listed_before(pairs, i as int, a));
                        assert(before.contains_key(a));
                        let q = choose|q: int| 0 <= q < i && (#[trigger] pairs[q]).1.aliases.contains(a) && before[a] == pairs[q].0;
                        assert(now[a] == before[a]);
                    }
                }
                assert forall|a: Seq<char>| !listed_before(pairs, i + 1, a) && start.contains_key(a) implies #[trigger] now[a] == start[a] by {
                    if pairs[i as int].1.aliases.contains(a) {
                        assert(listed_before(pairs, i + 1, a));
                    }
                    if listed_before(pairs, i as int, a) {
                        let p = choose|p: int| 0 <= p < i && (#[trigger] pairs[p]).1.aliases.contains(a);
                        assert(listed_before(pairs, i + 1, a));
                    }
                    assert(before.contains_key(a));
                }
            }
            i = i + 1;
        }
        proof {
            let fin = to_map(alias_pairs(aliases@));
            assert forall|a: Seq<char>| listed_before(pairs, pairs.len() as int, a) <==> #[trigger] aliased(infos, a) by {
                if listed_before(pairs, pairs.len() as int, a) {
                    let p = choose|p: int| 0 <= p < pairs.len() && (#[trigger] pairs[p]).1.aliases.contains(a);
                    lemma_key_index(pairs, p);
                    assert(infos[pairs[p].0].aliases.contains(a));
                }
                if aliased(infos, a) {
                    let k = choose|k: Seq<char>| infos.contains_key(k) && (#[trigger] infos[k]).aliases.contains(a);
                    let p = choose|p: int| 0 <= p < pairs.len() && #[trigger] pairs[p].0 == k;
                    lemma_key_index(pairs, p);
                    assert(listed_before(pairs, pairs.len() as int, a));
                }
            }
            assert forall|a: Seq<char>| #[trigger] aliased(infos, a) implies infos.contains_key(fin[a]) && infos[fin[a]].aliases.contains(a) by {
                assert(listed_before(pairs, pairs.len() as int, a));
                let p = choose|p: int| 0 <= p < pairs.len() && (#[trigger] pairs[p]).1.aliases.contains(a) && fin[a] == pairs[p].0;
                lemma_key_index(pairs, p);
            }
        }
        self.aliases = aliases;
    }

    /// The information on `mime_type`, or on the mime type it is an alias of.
    pub fn get_info_for_mime_type(&self, mime_type: &MimeType) -> (r: Option<&MimeTypeInfo>)
        ensures
            opt_info_ref_view(r) == info_lookup(self@, mime_type@),
    {
        proof {
            use_type_invariant(self);
        }
        match info_position(&self.mime_types, mime_type) {
            Some(i) => {
                proof {
                    lemma_key_index(info_pairs(self.mime_types@), i as int);
                }
                Some(&self.mime_types[i])
            },
            None => match alias_position(&self.aliases, mime_type) {
                Some(a) => {
                    proof {
                        lemma_key_index(alias_pairs(self.aliases@), a as int);
                    }
                    match info_position(&self.mime_types, &self.aliases[a].1) {
                        Some(i) => {
                            proof {
                                lemma_key_index(info_pairs(self.mime_types@), i as int);
                            }
                            Some(&self.mime_types[i])
                        },
                        None => None,
                    }
                },
                None => None,
            },
        }
    }

    /// The database read from the XML files `sources`, in turn (a later file's mime type
    /// replaces an earlier one's), with their aliases resolved. Fails with the reader's message
    /// where a file is malformed XML.
    pub fn load(sources: &Vec<Vec<u8>>) -> (r: Result<MimeTypeInfoStore, MimeAssocError>)
        ensures
            ({
                let (infos, err) = scan_files(Map::empty(), byte_views(sources@));
                match err {
                    None => r matches Ok(st) && st@.infos == infos && aliases_resolved(infos, Map::empty(), st@.aliases),
                    Some(msg) => r matches Err(e) && (e matches MimeAssocError::XmlRead(x) && x@ == msg),
                }
            }),
    {
        let mut store = MimeTypeInfoStore::new();
        let ghost files = byte_views(sources@);
        let mut k: usize = 0;
        assert(files.skip(0) =~= files);
        while k < sources.len()
            invariant
                k <= sources@.len(),
                files == byte_views(sources@),
                store@.aliases == Map::<Seq<char>, Seq<char>>::empty(),
                scan_files(Map::empty(), files) == scan_files(store@.infos, files.skip(k as int)),
            decreases sources@.len() - k,
        {
            assert(files.skip(k as int)[0] == sources@[k as int]@);
            assert(files.skip(k as int).drop_first() =~= files.skip(k + 1));
            let events = xml_events(sources[k].as_slice());
            match Self::load_single_xml_into_store(&events, &mut store) {
                Ok(()) => {},
                Err(e) => {
                    return Err(e);
                },
            }
            k = k + 1;
        }
        assert(files.skip(k as int) =~= Seq::<Seq<u8>>::empty());
        store.resolve_aliases();
        Ok(store)
    }
}

/// With the aliases resolved (as `MimeTypeInfoStore::load` leaves them), the information found
/// for an alias is that of a mime type that lists the alias.
pub proof fn lemma_alias_lookup_names_alias(sv: MimeInfoStoreView, a: Seq<char>)
    requires
        aliases_resolved(sv.infos, Map::empty(), sv.aliases),
        !sv.infos.contains_key(a),
        info_lookup(sv, a) is Some,
    ensures
        (info_lookup(sv, a)->0).aliases.contains(a),
{
    assert(sv.aliases.contains_key(a));
    assert(aliased(sv.infos, a));
}

/// Each mime type's information is stored under that mime type.
pub proof fn lemma_infos_keyed(store: MimeTypeInfoStore)
    ensures
        forall|k: Seq<char>| #[trigger] store@.infos.contains_key(k) ==> store@.infos[k].mime_type == k,
{
    let pairs = info_pairs(store.mime_types@);
    assert forall|k: Seq<char>| #[trigger] store@.infos.contains_key(k) implies store@.infos[k].mime_type == k by {
        let j = crate::assoc::key_index(pairs, k);
        assert(pairs[j].0 == k);
        assert(pairs[j].1.mime_type == pairs[j].0);
    }
}

/// With the aliases resolved (as `MimeTypeInfoStore::load` leaves them), a lookup gives the
/// mime type's own information where there is some, and else information that lists the mime
/// type as an alias.
pub proof fn lemma_info_lookup_names_type(store: MimeTypeInfoStore, m: Seq<char>)
    requires
        aliases_resolved(store@.infos, Map::empty(), store@.aliases),
    ensures
        store@.infos.contains_key(m) ==> info_lookup(store@, m) == Some(store@.infos[m]),
        info_lookup(store@, m) matches Some(i) ==> i.mime_type == m || i.aliases.contains(m),
{
    lemma_infos_keyed(store);
    if !store@.infos.contains_key(m) && info_lookup(store@, m) is Some {
        lemma_alias_lookup_names_alias(store@, m);
    }
}

} // verus!
