//! `mimeapps.list` files: which application opens which mime type, over a chain of scopes
//! from the user's own list down to the system's.

use vstd::prelude::*;
use crate::assoc::{has_key, keys_unique, key_index, lemma_key_index, lemma_to_map_empty, lemma_to_map_push, lemma_to_map_remove, lemma_to_map_update, to_map};
use crate::desktop_entry::{desktop_suffix, valid_application, DesktopEntryId};
use crate::desktop_entry_store::{scope_lookup, DesktopEntryStore, EntryScopeView};
use crate::error::MimeAssocError;
use crate::mime_type::{is_mime_type_text, is_wildcard_text, major_of, MimeType};
use crate::text::{is_ws, lemma_sorted_enumeration, lemma_join_ends, lemma_join_lacks, lemma_split_append, lemma_split_join, lemma_split_no_sep, lemma_split_pieces_lack, lemma_trim_clean, lemma_trim_fixed, lemma_trim_idempotent, concat_str, insert_sorted_unique, join, lemma_sorted_unique, strictly_sorted, texts, Textual, contains_char, ends_with, split, split_on, starts_with_char, str_equals, trim, trimmed, views};

verus! {

/// The sections of a mimeapps list that are read.
#[derive(Debug, Clone, Copy, PartialEq, Eq, Structural)]
pub enum MimeTypeAssociationsSections {
    AddedAssociations,
    DefaultApplications,
}

pub open spec fn added_associations_text() -> Seq<char> {
    seq!['[', 'A', 'd', 'd', 'e', 'd', ' ', 'A', 's', 's', 'o', 'c', 'i', 'a', 't', 'i', 'o', 'n', 's', ']']
}

pub open spec fn default_applications_text() -> Seq<char> {
    seq!['[', 'D', 'e', 'f', 'a', 'u', 'l', 't', ' ', 'A', 'p', 'p', 'l', 'i', 'c', 'a', 't', 'i', 'o', 'n', 's', ']']
}

/// The section a header line opens, if it is one.
pub open spec fn section_of(line: Seq<char>) -> Option<MimeTypeAssociationsSections> {
    if trim(line) == added_associations_text() {
        Some(MimeTypeAssociationsSections::AddedAssociations)
    } else if trim(line) == default_applications_text() {
        Some(MimeTypeAssociationsSections::DefaultApplications)
    } else {
        None
    }
}

pub open spec fn section_text(s: MimeTypeAssociationsSections) -> Seq<char> {
    match s {
        MimeTypeAssociationsSections::AddedAssociations => added_associations_text(),
        MimeTypeAssociationsSections::DefaultApplications => default_applications_text(),
    }
}

impl MimeTypeAssociationsSections {
    /// The section the trimmed text names, if any.
    pub fn try_parse(desc: &str) -> (r: Option<MimeTypeAssociationsSections>)
        ensures
            r == section_of(desc@),
    {
        let t = trimmed(desc);
        let added = "[Added Associations]";
        let defaults = "[Default Applications]";
        proof {
            reveal_strlit("[Added Associations]");
            reveal_strlit("[Default Applications]");
            assert(added@ =~= added_associations_text());
            assert(defaults@ =~= default_applications_text());
        }
        if str_equals(t.as_str(), added) {
            Some(MimeTypeAssociationsSections::AddedAssociations)
        } else if str_equals(t.as_str(), defaults) {
            Some(MimeTypeAssociationsSections::DefaultApplications)
        } else {
            None
        }
    }

    /// The header line of the section.
    pub fn to_string(&self) -> (r: &'static str)
        ensures
            r@ == section_text(*self),
    {
        match self {
            MimeTypeAssociationsSections::AddedAssociations => {
                let t = "[Added Associations]";
                proof {
                    reveal_strlit("[Added Associations]");
                    assert(t@ =~= added_associations_text());
                }
                t
            },
            MimeTypeAssociationsSections::DefaultApplications => {
                let t = "[Default Applications]";
                proof {
                    reveal_strlit("[Default Applications]");
                    assert(t@ =~= default_applications_text());
                }
                t
            },
        }
    }
}

/// The pieces trimmed, the empty ones left out.
pub open spec fn trimmed_pieces(s: Seq<Seq<char>>) -> Seq<Seq<char>>
    decreases s.len(),
{
    if s.len() == 0 {
        s
    } else if trim(s.last()).len() > 0 {
        trimmed_pieces(s.drop_last()).push(trim(s.last()))
    } else {
        trimmed_pieces(s.drop_last())
    }
}

/// The desktop entry ids that the right-hand side of an association line lists: the whole
/// text where it holds no `;`, else its trimmed non-empty `;` separated pieces.
pub open spec fn id_list(t: Seq<char>) -> Seq<Seq<char>> {
    if !t.contains(';') {
        seq![t]
    } else {
        trimmed_pieces(split(t, ';'))
    }
}

/// The first of `ids` that is no desktop entry id.
pub open spec fn first_bad_id(ids: Seq<Seq<char>>) -> Option<Seq<char>>
    decreases ids.len(),
{
    if ids.len() == 0 {
        None
    } else if !ends_with(ids[0], desktop_suffix()) {
        Some(ids[0])
    } else {
        first_bad_id(ids.drop_first())
    }
}

/// How a line `mime/type=a.desktop;b.desktop;` reads.
pub ghost enum LineParse {
    Parsed(Seq<char>, Seq<Seq<char>>),
    Malformed,
    BadMimeType(Seq<char>),
    BadId(Seq<char>),
}

pub open spec fn parse_association_line(line: Seq<char>) -> LineParse {
    let c = split(line, '=');
    if c.len() != 2 {
        LineParse::Malformed
    } else if !is_mime_type_text(trim(c[0])) {
        LineParse::BadMimeType(trim(c[0]))
    } else {
        match first_bad_id(id_list(trim(c[1]))) {
            Some(b) => LineParse::BadId(b),
            None => LineParse::Parsed(trim(c[0]), id_list(trim(c[1]))),
        }
    }
}

pub open spec fn id_seq_views(v: Seq<DesktopEntryId>) -> Seq<Seq<char>> {
    v.map_values(|d: DesktopEntryId| d@)
}

pub proof fn lemma_first_bad_id_none(ids: Seq<Seq<char>>)
    ensures
        first_bad_id(ids) is None <==> forall|i: int| 0 <= i < ids.len() ==> ends_with(#[trigger] ids[i], desktop_suffix()),
        first_bad_id(ids) matches Some(b) ==> exists|i: int| 0 <= i < ids.len() && ids[i] == b && !ends_with(b, desktop_suffix()) && forall|j: int| 0 <= j < i ==> ends_with(#[trigger] ids[j], desktop_suffix()),
    decreases ids.len(),
{
    if ids.len() > 0 {
        lemma_first_bad_id_none(ids.drop_first());
        if ends_with(ids[0], desktop_suffix()) {
            assert forall|i: int| 0 <= i < ids.len() && (forall|k: int| 0 <= k < ids.drop_first().len() ==> ends_with(#[trigger] ids.drop_first()[k], desktop_suffix())) implies ends_with(#[trigger] ids[i], desktop_suffix()) by {
                if i > 0 {
                    assert(ids[i] == ids.drop_first()[i - 1]);
                }
            }
            if first_bad_id(ids) is None {
                assert forall|i: int| 0 <= i < ids.len() implies ends_with(#[trigger] ids[i], desktop_suffix()) by {
                    if i > 0 {
                        assert(ids[i] == ids.drop_first()[i - 1]);
                    }
                }
            } else {
                let i = choose|i: int| 0 <= i < ids.drop_first().len() && ids.drop_first()[i] == first_bad_id(ids)->0 && !ends_with(first_bad_id(ids)->0, desktop_suffix()) && forall|j: int| 0 <= j < i ==> ends_with(#[trigger] ids.drop_first()[j], desktop_suffix());
                assert(ids[i + 1] == ids.drop_first()[i]);
                assert forall|j: int| 0 <= j < i + 1 implies ends_with(#[trigger] ids[j], desktop_suffix()) by {
                    if j > 0 {
                        assert(ids[j] == ids.drop_first()[j - 1]);
                    }
                }
                if forall|k: int| 0 <= k < ids.len() ==> ends_with(#[trigger] ids[k], desktop_suffix()) {
                    assert(ends_with(ids[i + 1], desktop_suffix()));
                }
            }
        }
    }
}

/// Parses the ids of `t` as `id_list` reads them.
fn parse_id_list(t: &str) -> (r: Result<Vec<DesktopEntryId>, MimeAssocError>)
    ensures
        match first_bad_id(id_list(t@)) {
            None => r matches Ok(ids) && id_seq_views(ids@) == id_list(t@),
            Some(b) => r matches Err(e) && (e matches MimeAssocError::InvalidDesktopEntryId(x) && x@ == b),
        },
{
    if !contains_char(t, ';') {
        proof {
            lemma_first_bad_id_none(seq![t@]);
        }
        match DesktopEntryId::parse(t) {
            Ok(id) => {
                let mut v: Vec<DesktopEntryId> = Vec::new();
                v.push(id);
                assert(id_seq_views(v@) =~= seq![t@]);
                return Ok(v);
            },
            Err(e) => {
                assert(seq![t@][0] == t@);
                return Err(e);
            },
        }
    }
    let pieces = split_on(t, ';');
    let ghost sp = split(t@, ';');
    let mut ids: Vec<DesktopEntryId> = Vec::new();
    let mut k: usize = 0;
    assert(sp.take(0) =~= Seq::<Seq<char>>::empty());
    while k < pieces.len()
        invariant
            k <= pieces@.len(),
            views(pieces@) == sp,
            sp == split(t@, ';'),
            t@.contains(';'),
            id_seq_views(ids@) == trimmed_pieces(sp.take(k as int)),
            first_bad_id(trimmed_pieces(sp.take(k as int))) is None,
        decreases pieces@.len() - k,
    {
        let ghost before = id_seq_views(ids@);
        proof {
            assert(sp.take(k + 1).drop_last() =~= sp.take(k as int));
            assert(sp.take(k + 1).last() == pieces@[k as int]@);
            lemma_first_bad_id_none(trimmed_pieces(sp.take(k as int)));
        }
        let p = trimmed(pieces[k].as_str());
        if p.unicode_len() > 0 {
            match DesktopEntryId::parse(p.as_str()) {
                Ok(id) => {
                    ids.push(id);
                    assert(id_seq_views(ids@) =~= before.push(p@));
                    proof {
                        lemma_first_bad_id_none(before.push(p@));
                        assert forall|i: int| 0 <= i < before.push(p@).len() implies ends_with(#[trigger] before.push(p@)[i], desktop_suffix()) by {
                            if i < before.len() {
                                assert(before.push(p@)[i] == before[i]);
                            }
                        }
                    }
                },
                Err(e) => {
                    proof {
                        lemma_prefix_bad_id(sp, k as int);
                    }
                    return Err(e);
                },
            }
        }
        k = k + 1;
    }
    assert(sp.take(pieces@.len() as int) =~= sp);
    Ok(ids)
}

/// Where the first `k` pieces give only good ids and piece `k` trims to a bad one, that one is
/// the first bad id of the whole list.
proof fn lemma_prefix_bad_id(sp: Seq<Seq<char>>, k: int)
    requires
        0 <= k < sp.len(),
        first_bad_id(trimmed_pieces(sp.take(k))) is None,
        trim(sp[k]).len() > 0,
        !ends_with(trim(sp[k]), desktop_suffix()),
    ensures
        first_bad_id(trimmed_pieces(sp)) == Some(trim(sp[k])),
    decreases sp.len() - k,
{
    lemma_trimmed_pieces_prefix(sp, k + 1);
    assert(sp.take(k + 1).drop_last() =~= sp.take(k));
    let pre = trimmed_pieces(sp.take(k));
    let whole = trimmed_pieces(sp.take(k + 1));
    assert(whole == pre.push(trim(sp[k])));
    lemma_first_bad_id_append(pre, trimmed_pieces(sp).skip(pre.len() as int));
    lemma_first_bad_id_none(pre);
    assert(trimmed_pieces(sp) =~= pre + trimmed_pieces(sp).skip(pre.len() as int));
    assert(trimmed_pieces(sp).skip(pre.len() as int)[0] == trim(sp[k]));
}

/// The trimmed pieces of a prefix are a prefix of the trimmed pieces.
proof fn lemma_trimmed_pieces_prefix(sp: Seq<Seq<char>>, k: int)
    requires
        0 <= k <= sp.len(),
    ensures
        trimmed_pieces(sp.take(k)).len() <= trimmed_pieces(sp).len(),
        trimmed_pieces(sp) =~= trimmed_pieces(sp.take(k)) + trimmed_pieces(sp).skip(trimmed_pieces(sp.take(k)).len() as int),
    decreases sp.len() - k,
{
    if k == sp.len() {
        assert(sp.take(k) =~= sp);
    } else {
        lemma_trimmed_pieces_prefix(sp, k + 1);
        assert(sp.take(k + 1).drop_last() =~= sp.take(k));
    }
}

proof fn lemma_first_bad_id_append(a: Seq<Seq<char>>, b: Seq<Seq<char>>)
    requires
        first_bad_id(a) is None,
    ensures
        first_bad_id(a + b) == first_bad_id(b),
    decreases a.len(),
{
    if a.len() > 0 {
        assert((a + b).drop_first() =~= a.drop_first() + b);
        lemma_first_bad_id_append(a.drop_first(), b);
    } else {
        assert(a + b =~= b);
    }
}

/// What a mimeapps list scope holds: the file it was read from, whether the user may change
/// it, whether it has changes not yet saved, and its two sections as maps.
pub ghost struct AssocScopeView {
    pub file_path: Seq<char>,
    pub user: bool,
    pub dirty: bool,
    pub added: Map<Seq<char>, Seq<Seq<char>>>,
    pub defaults: Map<Seq<char>, Seq<char>>,
}

pub open spec fn added_pairs(v: Seq<(MimeType, Vec<DesktopEntryId>)>) -> Seq<(Seq<char>, Seq<Seq<char>>)> {
    v.map_values(|p: (MimeType, Vec<DesktopEntryId>)| (p.0@, id_seq_views(p.1@)))
}

pub open spec fn default_pairs(v: Seq<(MimeType, DesktopEntryId)>) -> Seq<(Seq<char>, Seq<char>)> {
    v.map_values(|p: (MimeType, DesktopEntryId)| (p.0@, p.1@))
}

/// Why reading a mimeapps list stopped.
pub ghost enum ListError {
    Malformed(Seq<char>),
    EmptyDefault(Seq<char>),
}

/// What the lines of a mimeapps list have given so far.
pub ghost struct ListScan {
    pub section: Option<MimeTypeAssociationsSections>,
    pub added: Map<Seq<char>, Seq<Seq<char>>>,
    pub defaults: Map<Seq<char>, Seq<char>>,
    pub error: Option<ListError>,
}

/// One line of a mimeapps list read into the scan: a section header switches the section;
/// inside a section an association line sets the entry for its mime type (the first id, in
/// `[Default Applications]`); comments and blank lines are skipped; anything else stops the read.
/// Lines before the first section are ignored.
pub open spec fn scan_list_line(st: ListScan, raw: Seq<char>) -> ListScan {
    if st.error is Some {
        st
    } else if section_of(raw) is Some {
        ListScan { section: section_of(raw), ..st }
    } else if st.section is None {
        st
    } else {
        let t = trim(raw);
        match parse_association_line(t) {
            LineParse::Parsed(m, ids) => match st.section->0 {
                MimeTypeAssociationsSections::AddedAssociations => ListScan { added: st.added.insert(m, ids), ..st },
                MimeTypeAssociationsSections::DefaultApplications => if ids.len() > 0 {
                    ListScan { defaults: st.defaults.insert(m, ids[0]), ..st }
                } else {
                    ListScan { error: Some(ListError::EmptyDefault(t)), ..st }
                },
            },
            _ => if t.len() > 0 && t[0] != '#' {
                ListScan { error: Some(ListError::Malformed(t)), ..st }
            } else {
                st
            },
        }
    }
}

pub open spec fn scan_list_lines(lines: Seq<Seq<char>>) -> ListScan
    decreases lines.len(),
{
    if lines.len() == 0 {
        ListScan { section: None, added: Map::empty(), defaults: Map::empty(), error: None }
    } else {
        scan_list_line(scan_list_lines(lines.drop_last()), lines.last())
    }
}

pub proof fn lemma_scan_list_error_sticks(lines: Seq<Seq<char>>, i: int)
    requires
        0 <= i <= lines.len(),
        scan_list_lines(lines.take(i)).error is Some,
    ensures
        scan_list_lines(lines) == scan_list_lines(lines.take(i)),
    decreases lines.len() - i,
{
    if i < lines.len() {
        assert(lines.take(i + 1).drop_last() =~= lines.take(i));
        lemma_scan_list_error_sticks(lines, i + 1);
    } else {
        assert(lines.take(i) =~= lines);
    }
}

/// In `[Default Applications]`, a line `m=a;b;...` that reads as an association makes the
/// first id it lists, `a`, the default application of `m`, whatever ids follow; the default
/// applications of the other mime types stay as they were.
pub proof fn lemma_default_line_takes_first_id(pre: Seq<Seq<char>>, raw: Seq<char>, m: Seq<char>, ids: Seq<Seq<char>>)
    requires
        scan_list_lines(pre).error is None,
        scan_list_lines(pre).section == Some(MimeTypeAssociationsSections::DefaultApplications),
        section_of(raw) is None,
        parse_association_line(trim(raw)) == LineParse::Parsed(m, ids),
        ids.len() > 0,
    ensures
        scan_list_lines(pre.push(raw)).error is None,
        scan_list_lines(pre.push(raw)).defaults.contains_key(m),
        scan_list_lines(pre.push(raw)).defaults[m] == ids[0],
        forall|k: Seq<char>| k != m ==> (#[trigger] scan_list_lines(pre.push(raw)).defaults.contains_key(k) <==> scan_list_lines(pre).defaults.contains_key(k)),
        forall|k: Seq<char>| k != m && #[trigger] scan_list_lines(pre).defaults.contains_key(k) ==> scan_list_lines(pre.push(raw)).defaults[k] == scan_list_lines(pre).defaults[k],
{
    assert(pre.push(raw).drop_last() =~= pre);
}

/// The associations of one mimeapps list file.
pub struct MimeTypeAssociationScope {
    file_path: String,
    is_user_customizable: bool,
    is_dirty: bool,
    added_associations: Vec<(MimeType, Vec<DesktopEntryId>)>,
    default_applications: Vec<(MimeType, DesktopEntryId)>,
}

impl View for MimeTypeAssociationScope {
    type V = AssocScopeView;

    closed spec fn view(&self) -> AssocScopeView {
        AssocScopeView {
            file_path: self.file_path@,
            user: self.is_user_customizable,
            dirty: self.is_dirty,
            added: to_map(added_pairs(self.added_associations@)),
            defaults: to_map(default_pairs(self.default_applications@)),
        }
    }
}

/// Where the pair for `m` stands in `v`, if anywhere.
fn default_position(v: &Vec<(MimeType, DesktopEntryId)>, m: &MimeType) -> (r: Option<usize>)
    ensures
        r matches Some(i) ==> i < v@.len() && v@[i as int].0@ == m@,
        r is None ==> !has_key(default_pairs(v@), m@),
{
    let mut i: usize = 0;
    while i < v.len()
        invariant
            i <= v@.len(),
            forall|j: int| 0 <= j < i ==> v@[j].0@ != m@,
        decreases v@.len() - i,
    {
        if v[i].0.same_as(m) {
            return Some(i);
        }
        i = i + 1;
    }
    proof {
        if has_key(default_pairs(v@), m@) {
            let j = choose|j: int| 0 <= j < default_pairs(v@).len() && #[trigger] default_pairs(v@)[j].0 == m@;
            assert(default_pairs(v@)[j].0 == v@[j].0@);
        }
    }
    None
}

/// Where the pair for `m` stands in `v`, if anywhere.
fn added_position(v: &Vec<(MimeType, Vec<DesktopEntryId>)>, m: &MimeType) -> (r: Option<usize>)
    ensures
        r matches Some(i) ==> i < v@.len() && v@[i as int].0@ == m@,
        r is None ==> !has_key(added_pairs(v@), m@),
{
    let mut i: usize = 0;
    while i < v.len()
        invariant
            i <= v@.len(),
            forall|j: int| 0 <= j < i ==> v@[j].0@ != m@,
        decreases v@.len() - i,
    {
        if v[i].0.same_as(m) {
            return Some(i);
        }
        i = i + 1;
    }
    proof {
        if has_key(added_pairs(v@), m@) {
            let j = choose|j: int| 0 <= j < added_pairs(v@).len() && #[trigger] added_pairs(v@)[j].0 == m@;
            assert(added_pairs(v@)[j].0 == v@[j].0@);
        }
    }
    None
}

/// Sets the entry for `m` to `id`; gives back the entry it had.
fn insert_default(v: &mut Vec<(MimeType, DesktopEntryId)>, m: MimeType, id: DesktopEntryId) -> (prev: Option<DesktopEntryId>)
    requires
        keys_unique(default_pairs(old(v)@)),
    ensures
        keys_unique(default_pairs(final(v)@)),
        to_map(default_pairs(final(v)@)) == to_map(default_pairs(old(v)@)).insert(m@, id@),
        match prev {
            Some(p) => to_map(default_pairs(old(v)@)).contains_key(m@) && p@ == to_map(default_pairs(old(v)@))[m@],
            None => !to_map(default_pairs(old(v)@)).contains_key(m@),
        },
{
    let ghost mv = m@;
    let ghost iv = id@;
    match default_position(v, &m) {
        Some(i) => {
            proof {
                lemma_key_index(default_pairs(v@), i as int);
                lemma_to_map_update(default_pairs(v@), i as int, iv);
            }
            let ghost old_v = v@;
            let prev = v[i].1.duplicate();
            v.set(i, (m, id));
            assert(default_pairs(v@) =~= default_pairs(old_v).update(i as int, (default_pairs(old_v)[i as int].0, iv)));
            Some(prev)
        },
        None => {
            proof {
                lemma_to_map_push(default_pairs(v@), mv, iv);
            }
            let ghost old_v = v@;
            v.push((m, id));
            assert(default_pairs(v@) =~= default_pairs(old_v).push((mv, iv)));
            None
        },
    }
}

/// Sets the ids for `m` to `ids`.
fn insert_added(v: &mut Vec<(MimeType, Vec<DesktopEntryId>)>, m: MimeType, ids: Vec<DesktopEntryId>)
    requires
        keys_unique(added_pairs(old(v)@)),
    ensures
        keys_unique(added_pairs(final(v)@)),
        to_map(added_pairs(final(v)@)) == to_map(added_pairs(old(v)@)).insert(m@, id_seq_views(ids@)),
{
    let ghost mv = m@;
    let ghost iv = id_seq_views(ids@);
    match added_position(v, &m) {
        Some(i) => {
            proof {
                lemma_to_map_update(added_pairs(v@), i as int, iv);
            }
            let ghost old_v = v@;
            v.set(i, (m, ids));
            assert(added_pairs(v@) =~= added_pairs(old_v).update(i as int, (added_pairs(old_v)[i as int].0, iv)));
        },
        None => {
            proof {
                lemma_to_map_push(added_pairs(v@), mv, iv);
            }
            let ghost old_v = v@;
            v.push((m, ids));
            assert(added_pairs(v@) =~= added_pairs(old_v).push((mv, iv)));
        },
    }
}

impl MimeTypeAssociationScope {
    #[verifier::type_invariant]
    closed spec fn keys_are_unique(self) -> bool {
        keys_unique(added_pairs(self.added_associations@)) && keys_unique(default_pairs(self.default_applications@))
    }

    /// Reads a line `mime/type=a.desktop;b.desktop;`: the trimmed mime type left of the one `=`,
    /// and the ids on its right (see `id_list`).
    pub fn parse_line(line: &str) -> (r: Result<(MimeType, Vec<DesktopEntryId>), MimeAssocError>)
        ensures
            match parse_association_line(line@) {
                LineParse::Parsed(m, ids) => r matches Ok((mt, v)) && mt@ == m && id_seq_views(v@) == ids,
                LineParse::Malformed => r matches Err(e) && (e matches MimeAssocError::MalformedAssociationLine(t) && t@ == line@),
                LineParse::BadMimeType(m) => r matches Err(e) && (e matches MimeAssocError::InvalidMimeType(t) && t@ == m),
                LineParse::BadId(b) => r matches Err(e) && (e matches MimeAssocError::InvalidDesktopEntryId(t) && t@ == b),
            },
    {
        let components = split_on(line, '=');
        if components.len() != 2 {
            return Err(MimeAssocError::MalformedAssociationLine(line.to_owned()));
        }
        assert(views(components@)[0] == components@[0]@);
        assert(views(components@)[1] == components@[1]@);
        let mime_type_component = trimmed(components[0].as_str());
        let id_components = trimmed(components[1].as_str());
        let mime_type = match MimeType::parse(mime_type_component.as_str()) {
            Ok(m) => m,
            Err(e) => {
                return Err(e);
            },
        };
        match parse_id_list(id_components.as_str()) {
            Ok(ids) => Ok((mime_type, ids)),
            Err(e) => Err(e),
        }
    }

    /// Reads the scope of the mimeapps list at `file_path` from its lines; the caller tells
    /// whether the user may change it. Fails where a line inside a section is neither a section
    /// header, an association, a comment nor blank, and where a default application line names
    /// no application.
    pub fn load(file_path: &str, is_user_customizable: bool, lines: &Vec<String>) -> (r: Result<MimeTypeAssociationScope, MimeAssocError>)
        ensures
            ({
                let scan = scan_list_lines(views(lines@));
                match r {
                    Ok(sc) => {
                        &&& scan.error is None
                        &&& sc@ == (AssocScopeView {
                            file_path: file_path@,
                            user: is_user_customizable,
                            dirty: false,
                            added: scan.added,
                            defaults: scan.defaults,
                        })
                    },
                    Err(e) => match scan.error {
                        Some(ListError::Malformed(t)) => e matches MimeAssocError::MalformedAssociationLine(x) && x@ == t,
                        Some(ListError::EmptyDefault(t)) => e matches MimeAssocError::EmptyDefaultApplicationLine(x) && x@ == t,
                        None => false,
                    },
                }
            }),
    {
        let mut section: Option<MimeTypeAssociationsSections> = None;
        let mut added: Vec<(MimeType, Vec<DesktopEntryId>)> = Vec::new();
        let mut defaults: Vec<(MimeType, DesktopEntryId)> = Vec::new();
        proof {
            lemma_to_map_empty(added_pairs(added@));
            lemma_to_map_empty(default_pairs(defaults@));
            assert(views(lines@).take(0) =~= Seq::<Seq<char>>::empty());
        }
        let mut i: usize = 0;
        while i < lines.len()
            invariant
                i <= lines@.len(),
                keys_unique(added_pairs(added@)),
                keys_unique(default_pairs(defaults@)),
                ({
                    let scan = scan_list_lines(views(lines@).take(i as int));
                    &&& scan.error is None
                    &&& scan.section == section
                    &&& scan.added == to_map(added_pairs(added@))
                    &&& scan.defaults == to_map(default_pairs(defaults@))
                }),
            decreases lines@.len() - i,
        {
            proof {
                assert(views(lines@).take(i + 1).drop_last() =~= views(lines@).take(i as int));
                assert(views(lines@).take(i + 1).last() == lines@[i as int]@);
            }
            let line = lines[i].as_str();
            if let Some(s) = MimeTypeAssociationsSections::try_parse(line) {
                section = Some(s);
            } else if let Some(current) = section {
                let t = trimmed(line);
                match Self::parse_line(t.as_str()) {
                    Ok((mime_type, ids)) => {
                        match current {
                            MimeTypeAssociationsSections::AddedAssociations => {
                                insert_added(&mut added, mime_type, ids);
                            },
                            MimeTypeAssociationsSections::DefaultApplications => {
                                if ids.len() > 0 {
                                    assert(id_seq_views(ids@)[0] == ids@[0]@);
                                    let first = ids[0].duplicate();
                                    insert_default(&mut defaults, mime_type, first);
                                } else {
                                    proof {
                                        lemma_scan_list_error_sticks(views(lines@), i + 1);
                                    }
                                    return Err(MimeAssocError::EmptyDefaultApplicationLine(t));
                                }
                            },
                        }
                    },
                    Err(_) => {
                        if t.unicode_len() > 0 && !starts_with_char(t.as_str(), '#') {
                            proof {
                                lemma_scan_list_error_sticks(views(lines@), i + 1);
                            }
                            return Err(MimeAssocError::MalformedAssociationLine(t));
                        }
                    },
                }
            }
            i = i + 1;
        }
        proof {
            assert(views(lines@).take(lines@.len() as int) =~= views(lines@));
        }
        Ok(MimeTypeAssociationScope {
            file_path: file_path.to_owned(),
            is_user_customizable,
            is_dirty: false,
            added_associations: added,
            default_applications: defaults,
        })
    }
}

/// The keys of `m`, each once, in order.
pub open spec fn sorted_keys<V>(m: Map<Seq<char>, V>) -> Seq<Seq<char>> {
    choose|q: Seq<Seq<char>>| strictly_sorted(q) && (forall|k: Seq<char>| q.contains(k) <==> m.contains_key(k))
}

/// The line `mime/type=a.desktop;b.desktop` of an added association.
pub open spec fn added_line(m: Seq<char>, ids: Seq<Seq<char>>) -> Seq<char> {
    m + seq!['='] + join(ids, seq![';'])
}

/// The line `mime/type=a.desktop` of a default application.
pub open spec fn default_line(m: Seq<char>, id: Seq<char>) -> Seq<char> {
    m + seq!['='] + id
}

/// The `[Added Associations]` lines for `keys`, in order, each ending with `;`; keys whose
/// list is empty give no line.
pub open spec fn added_section_lines(keys: Seq<Seq<char>>, added: Map<Seq<char>, Seq<Seq<char>>>) -> Seq<Seq<char>>
    decreases keys.len(),
{
    if keys.len() == 0 {
        Seq::empty()
    } else if added[keys.last()].len() > 0 {
        added_section_lines(keys.drop_last(), added).push(added_line(keys.last(), added[keys.last()]) + seq![';'])
    } else {
        added_section_lines(keys.drop_last(), added)
    }
}

/// The `[Default Applications]` lines for `keys`, in order.
pub open spec fn default_section_lines(keys: Seq<Seq<char>>, defaults: Map<Seq<char>, Seq<char>>) -> Seq<Seq<char>> {
    keys.map_values(|k: Seq<char>| default_line(k, defaults[k]))
}

/// The lines of the mimeapps list file that holds the scope: the `[Added Associations]`
/// section (where there are any), closed by a blank line, then `[Default Applications]`
/// (where there are any); mime types in order within each.
pub open spec fn scope_text_lines(sc: AssocScopeView) -> Seq<Seq<char>> {
    (if sc.added != Map::<Seq<char>, Seq<Seq<char>>>::empty() {
        seq![added_associations_text()] + added_section_lines(sorted_keys(sc.added), sc.added) + seq![Seq::<char>::empty()]
    } else {
        Seq::empty()
    }) + (if sc.defaults != Map::<Seq<char>, Seq<char>>::empty() {
        seq![default_applications_text()] + default_section_lines(sorted_keys(sc.defaults), sc.defaults)
    } else {
        Seq::empty()
    })
}

pub open spec fn string_views(v: Seq<String>) -> Seq<Seq<char>> {
    views(v)
}

/// `ids` joined with `;`.
fn join_ids(ids: &[DesktopEntryId]) -> (r: String)
    ensures
        r@ == join(id_seq_views(ids@), seq![';']),
{
    let sep = ";";
    proof {
        reveal_strlit(";");
        assert(sep@ =~= seq![';']);
    }
    let mut r = String::new();
    if ids.len() == 0 {
        assert(id_seq_views(ids@) =~= Seq::<Seq<char>>::empty());
        return r;
    }
    r.append(ids[0].id());
    let mut i: usize = 1;
    assert(id_seq_views(ids@).take(1) =~= seq![ids@[0]@]);
    while i < ids.len()
        invariant
            1 <= i <= ids@.len(),
            sep@ == seq![';'],
            r@ == join(id_seq_views(ids@).take(i as int), seq![';']),
        decreases ids@.len() - i,
    {
        r.append(sep);
        r.append(ids[i].id());
        assert(id_seq_views(ids@).take(i + 1).drop_last() =~= id_seq_views(ids@).take(i as int));
        assert(id_seq_views(ids@).take(i + 1).last() == ids@[i as int]@);
        i = i + 1;
    }
    assert(id_seq_views(ids@).take(i as int) =~= id_seq_views(ids@));
    r
}

/// The keys of `v`, each once, in order.
fn sorted_default_keys(v: &Vec<(MimeType, DesktopEntryId)>) -> (r: Vec<&MimeType>)
    requires
        keys_unique(default_pairs(v@)),
    ensures
        texts(r@) == sorted_keys(to_map(default_pairs(v@))),
        strictly_sorted(texts(r@)),
        forall|k: Seq<char>| texts(r@).contains(k) <==> to_map(default_pairs(v@)).contains_key(k),
{
    let mut keys: Vec<&MimeType> = Vec::new();
    let mut i: usize = 0;
    while i < v.len()
        invariant
            i <= v@.len(),
            strictly_sorted(texts(keys@)),
            forall|k: Seq<char>| texts(keys@).contains(k) <==> exists|j: int| 0 <= j < i && #[trigger] v@[j].0@ == k,
        decreases v@.len() - i,
    {
        insert_sorted_unique(&mut keys, &v[i].0);
        i = i + 1;
    }
    proof {
        let m = to_map(default_pairs(v@));
        assert forall|k: Seq<char>| texts(keys@).contains(k) <==> m.contains_key(k) by {
            if exists|j: int| 0 <= j < v@.len() && #[trigger] v@[j].0@ == k {
                let j = choose|j: int| 0 <= j < v@.len() && #[trigger] v@[j].0@ == k;
                lemma_key_index(default_pairs(v@), j);
            }
            if m.contains_key(k) {
                let j = choose|j: int| 0 <= j < default_pairs(v@).len() && #[trigger] default_pairs(v@)[j].0 == k;
                assert(v@[j].0@ == k);
            }
        }
        lemma_sorted_unique(texts(keys@), sorted_keys(m));
    }
    keys
}

/// The keys of `v`, each once, in order.
fn sorted_added_keys(v: &Vec<(MimeType, Vec<DesktopEntryId>)>) -> (r: Vec<&MimeType>)
    requires
        keys_unique(added_pairs(v@)),
    ensures
        texts(r@) == sorted_keys(to_map(added_pairs(v@))),
        strictly_sorted(texts(r@)),
        forall|k: Seq<char>| texts(r@).contains(k) <==> to_map(added_pairs(v@)).contains_key(k),
{
    let mut keys: Vec<&MimeType> = Vec::new();
    let mut i: usize = 0;
    while i < v.len()
        invariant
            i <= v@.len(),
            strictly_sorted(texts(keys@)),
            forall|k: Seq<char>| texts(keys@).contains(k) <==> exists|j: int| 0 <= j < i && #[trigger] v@[j].0@ == k,
        decreases v@.len() - i,
    {
        insert_sorted_unique(&mut keys, &v[i].0);
        i = i + 1;
    }
    proof {
        let m = to_map(added_pairs(v@));
        assert forall|k: Seq<char>| texts(keys@).contains(k) <==> m.contains_key(k) by {
            if exists|j: int| 0 <= j < v@.len() && #[trigger] v@[j].0@ == k {
                let j = choose|j: int| 0 <= j < v@.len() && #[trigger] v@[j].0@ == k;
                lemma_key_index(added_pairs(v@), j);
            }
            if m.contains_key(k) {
                let j = choose|j: int| 0 <= j < added_pairs(v@).len() && #[trigger] added_pairs(v@)[j].0 == k;
                assert(v@[j].0@ == k);
            }
        }
        lemma_sorted_unique(texts(keys@), sorted_keys(m));
    }
    keys
}

impl MimeTypeAssociationScope {
    /// The line `mime/type=a.desktop;b.desktop` for the added associations of a mime type.
    pub fn generate_added_associations_line(mime_type: &MimeType, desktop_entries: &[DesktopEntryId]) -> (r: String)
        ensures
            r@ == added_line(mime_type@, id_seq_views(desktop_entries@)),
    {
        let eq = "=";
        proof {
            reveal_strlit("=");
            assert(eq@ =~= seq!['=']);
        }
        let ids = join_ids(desktop_entries);
        let head = concat_str(mime_type.id(), eq);
        concat_str(head.as_str(), ids.as_str())
    }

    /// The line `mime/type=a.desktop` for a default application.
    pub fn generate_default_application_line(mime_type: &MimeType, desktop_entry: &DesktopEntryId) -> (r: String)
        ensures
            r@ == default_line(mime_type@, desktop_entry@),
    {
        let eq = "=";
        proof {
            reveal_strlit("=");
            assert(eq@ =~= seq!['=']);
        }
        let head = concat_str(mime_type.id(), eq);
        concat_str(head.as_str(), desktop_entry.id())
    }

    /// The lines of the mimeapps list file holding this scope.
    pub fn write(&self) -> (r: Vec<String>)
        ensures
            string_views(r@) == scope_text_lines(self@),
    {
        proof {
            use_type_invariant(self);
        }
        let mut out: Vec<String> = Vec::new();
        let ghost sc = self@;
        if self.added_associations.len() > 0 {
            proof {
                lemma_key_index(added_pairs(self.added_associations@), 0);
                assert(!Map::<Seq<char>, Seq<Seq<char>>>::empty().contains_key(added_pairs(self.added_associations@)[0].0));
            }
            out.push(MimeTypeAssociationsSections::AddedAssociations.to_string().to_owned());
            let keys = sorted_added_keys(&self.added_associations);
            let ghost ks = sorted_keys(sc.added);
            let ghost head = string_views(out@);
            let mut k: usize = 0;
            assert(ks.take(0) =~= Seq::<Seq<char>>::empty());
            assert(string_views(out@) =~= head + added_section_lines(ks.take(0), sc.added));
            while k < keys.len()
                invariant
                    k <= keys@.len(),
                    texts(keys@) == ks,
                    sc == self@,
                    keys_unique(added_pairs(self.added_associations@)),
                    forall|q: Seq<char>| ks.contains(q) <==> sc.added.contains_key(q),
                    string_views(out@) == head + added_section_lines(ks.take(k as int), sc.added),
                decreases keys@.len() - k,
            {
                let ghost before = string_views(out@);
                proof {
                    assert(ks.take(k + 1).drop_last() =~= ks.take(k as int));
                    assert(ks.take(k + 1).last() == keys@[k as int]@);
                    assert(ks.contains(ks[k as int]));
                }
                match added_position(&self.added_associations, keys[k]) {
                    Some(p) => {
                        proof {
                            lemma_key_index(added_pairs(self.added_associations@), p as int);
                        }
                        let ids = &self.added_associations[p].1;
                        if ids.len() > 0 {
                            let line = Self::generate_added_associations_line(keys[k], ids.as_slice());
                            let semi = ";";
                            proof {
                                reveal_strlit(";");
                                assert(semi@ =~= seq![';']);
                            }
                            let full = concat_str(line.as_str(), semi);
                            out.push(full);
                            assert(string_views(out@) =~= before.push(full@));
                        }
                    },
                    None => {
                        assert(false);
                    },
                }
                k = k + 1;
            }
            assert(ks.take(keys@.len() as int) =~= ks);
            let ghost before = string_views(out@);
            out.push(String::new());
            assert(string_views(out@) =~= before.push(Seq::<char>::empty()));
        } else {
            proof {
                lemma_to_map_empty(added_pairs(self.added_associations@));
            }
        }
        let ghost first_part = string_views(out@);
        if self.default_applications.len() > 0 {
            proof {
                lemma_key_index(default_pairs(self.default_applications@), 0);
                assert(!Map::<Seq<char>, Seq<char>>::empty().contains_key(default_pairs(self.default_applications@)[0].0));
            }
            out.push(MimeTypeAssociationsSections::DefaultApplications.to_string().to_owned());
            let keys = sorted_default_keys(&self.default_applications);
            let ghost ks = sorted_keys(sc.defaults);
            let ghost head = string_views(out@);
            let mut k: usize = 0;
            while k < keys.len()
                invariant
                    k <= keys@.len(),
                    texts(keys@) == ks,
                    sc == self@,
                    keys_unique(default_pairs(self.default_applications@)),
                    forall|q: Seq<char>| ks.contains(q) <==> sc.defaults.contains_key(q),
                    string_views(out@) == head + default_section_lines(ks.take(k as int), sc.defaults),
                decreases keys@.len() - k,
            {
                let ghost before = string_views(out@);
                proof {
                    assert(ks.contains(ks[k as int]));
                    assert(ks[k as int] == keys@[k as int]@);
                }
                match default_position(&self.default_applications, keys[k]) {
                    Some(p) => {
                        proof {
                            lemma_key_index(default_pairs(self.default_applications@), p as int);
                        }
                        let line = Self::generate_default_application_line(keys[k], &self.default_applications[p].1);
                        proof {
                            assert(default_pairs(self.default_applications@)[p as int] == (self.default_applications@[p as int].0@, self.default_applications@[p as int].1@));
                            assert(sc.defaults[ks[k as int]] == self.default_applications@[p as int].1@);
                            assert(line@ == default_line(ks[k as int], sc.defaults[ks[k as int]]));
                            assert(default_section_lines(ks.take(k + 1), sc.defaults) =~= default_section_lines(ks.take(k as int), sc.defaults).push(line@));
                        }
                        out.push(line);
                        assert(string_views(out@) =~= before.push(line@));
                    },
                    None => {
                        assert(false);
                    },
                }
                k = k + 1;
            }
            assert(ks.take(keys@.len() as int) =~= ks);
            assert(string_views(out@) =~= first_part + (seq![default_applications_text()] + default_section_lines(ks, sc.defaults)));
        } else {
            proof {
                lemma_to_map_empty(default_pairs(self.default_applications@));
            }
            assert(string_views(out@) =~= first_part + Seq::<Seq<char>>::empty());
        }
        out
    }
}

/// `true` when removing the assignments for `m` removes the one of `k`: for a wildcard such as
/// `image/*` every key with the same major type, else `m` alone.
pub open spec fn removal_match(m: Seq<char>, k: Seq<char>) -> bool {
    if is_wildcard_text(m) {
        major_of(m) == major_of(k)
    } else {
        k == m
    }
}

/// `d` without the keys that `m` removes.
pub open spec fn without_matching(d: Map<Seq<char>, Seq<char>>, m: Seq<char>) -> Map<Seq<char>, Seq<char>> {
    Map::new(|k: Seq<char>| d.contains_key(k) && !removal_match(m, k), |k: Seq<char>| d[k])
}

/// `true` when `d` has a key that `m` removes.
pub open spec fn has_matching(d: Map<Seq<char>, Seq<char>>, m: Seq<char>) -> bool {
    exists|k: Seq<char>| d.contains_key(k) && removal_match(m, k)
}

/// `true` when some key of `d` has a value that `gone` picks.
pub open spec fn has_value_in(d: Map<Seq<char>, Seq<char>>, gone: spec_fn(Seq<char>) -> bool) -> bool {
    exists|k: Seq<char>| d.contains_key(k) && gone(d[k])
}

/// `d` without the entries whose value satisfies `gone`.
pub open spec fn without_values(d: Map<Seq<char>, Seq<char>>, gone: spec_fn(Seq<char>) -> bool) -> Map<Seq<char>, Seq<char>> {
    Map::new(|k: Seq<char>| d.contains_key(k) && !gone(d[k]), |k: Seq<char>| d[k])
}

impl MimeTypeAssociationScope {
    /// A copy with the same contents.
    pub fn duplicate(&self) -> (r: MimeTypeAssociationScope)
        ensures
            r@ == self@,
    {
        proof {
            use_type_invariant(self);
        }
        let mut added: Vec<(MimeType, Vec<DesktopEntryId>)> = Vec::new();
        let mut i: usize = 0;
        while i < self.added_associations.len()
            invariant
                i <= self.added_associations@.len(),
                added_pairs(added@) == added_pairs(self.added_associations@).take(i as int),
            decreases self.added_associations@.len() - i,
        {
            let ids = &self.added_associations[i].1;
            let mut copy: Vec<DesktopEntryId> = Vec::new();
            let mut k: usize = 0;
            while k < ids.len()
                invariant
                    k <= ids@.len(),
                    id_seq_views(copy@) == id_seq_views(ids@).take(k as int),
                decreases ids@.len() - k,
            {
                let ghost before = id_seq_views(copy@);
                let d = ids[k].duplicate();
                assert(id_seq_views(ids@)[k as int] == ids@[k as int]@);
                copy.push(d);
                assert(id_seq_views(copy@) =~= before.push(ids@[k as int]@));
                assert(id_seq_views(copy@) =~= id_seq_views(ids@).take(k + 1));
                k = k + 1;
            }
            assert(id_seq_views(ids@).take(k as int) =~= id_seq_views(ids@));
            let ghost before_added = added_pairs(added@);
            let m = self.added_associations[i].0.duplicate();
            let ghost entry = (m@, id_seq_views(copy@));
            assert(added_pairs(self.added_associations@)[i as int] == entry);
            added.push((m, copy));
            assert(added_pairs(added@) =~= before_added.push(entry));
            assert(added_pairs(added@) =~= added_pairs(self.added_associations@).take(i + 1));
            i = i + 1;
        }
        assert(added_pairs(self.added_associations@).take(i as int) =~= added_pairs(self.added_associations@));
        let mut defaults: Vec<(MimeType, DesktopEntryId)> = Vec::new();
        let mut j: usize = 0;
        while j < self.default_applications.len()
            invariant
                j <= self.default_applications@.len(),
                default_pairs(defaults@) == default_pairs(self.default_applications@).take(j as int),
            decreases self.default_applications@.len() - j,
        {
            let ghost before_defaults = default_pairs(defaults@);
            let m = self.default_applications[j].0.duplicate();
            let d = self.default_applications[j].1.duplicate();
            let ghost entry = (m@, d@);
            assert(default_pairs(self.default_applications@)[j as int] == entry);
            defaults.push((m, d));
            assert(default_pairs(defaults@) =~= before_defaults.push(entry));
            assert(default_pairs(defaults@) =~= default_pairs(self.default_applications@).take(j + 1));
            j = j + 1;
        }
        assert(default_pairs(self.default_applications@).take(j as int) =~= default_pairs(self.default_applications@));
        MimeTypeAssociationScope {
            file_path: self.file_path.clone(),
            is_user_customizable: self.is_user_customizable,
            is_dirty: self.is_dirty,
            added_associations: added,
            default_applications: defaults,
        }
    }

    /// The path of the mimeapps list the scope was read from.
    pub fn file_path(&self) -> (r: &str)
        ensures
            r@ == self@.file_path,
    {
        self.file_path.as_str()
    }

    /// `true` when the user may change this scope.
    pub fn is_user_customizable(&self) -> (r: bool)
        ensures
            r == self@.user,
    {
        self.is_user_customizable
    }

    /// Makes the scope changeable by the user, or not.
    pub fn set_user_customizable(&mut self, user: bool)
        ensures
            final(self)@ == (AssocScopeView { user, ..old(self)@ }),
    {
        proof {
            use_type_invariant(&*self);
        }
        self.is_user_customizable = user;
    }

    /// `true` when the scope has changes that are not saved.
    pub fn is_dirty(&self) -> (r: bool)
        ensures
            r == self@.dirty,
    {
        self.is_dirty
    }

    /// The default application the scope gives for `mime_type`.
    pub fn default_application(&self, mime_type: &MimeType) -> (r: Option<&DesktopEntryId>)
        ensures
            match r {
                Some(id) => self@.defaults.contains_key(mime_type@) && id@ == self@.defaults[mime_type@],
                None => !self@.defaults.contains_key(mime_type@),
            },
    {
        proof {
            use_type_invariant(self);
        }
        match default_position(&self.default_applications, mime_type) {
            Some(p) => {
                proof {
                    lemma_key_index(default_pairs(self.default_applications@), p as int);
                }
                Some(&self.default_applications[p].1)
            },
            None => None,
        }
    }

    /// The added associations the scope gives for `mime_type`.
    pub fn added_associations(&self, mime_type: &MimeType) -> (r: Option<&Vec<DesktopEntryId>>)
        ensures
            match r {
                Some(ids) => self@.added.contains_key(mime_type@) && id_seq_views(ids@) == self@.added[mime_type@],
                None => !self@.added.contains_key(mime_type@),
            },
    {
        proof {
            use_type_invariant(self);
        }
        match added_position(&self.added_associations, mime_type) {
            Some(p) => {
                proof {
                    lemma_key_index(added_pairs(self.added_associations@), p as int);
                }
                Some(&self.added_associations[p].1)
            },
            None => None,
        }
    }

    /// `true` when the scope assigns no default application.
    pub fn has_no_default_applications(&self) -> (r: bool)
        ensures
            r == (self@.defaults == Map::<Seq<char>, Seq<char>>::empty()),
    {
        proof {
            use_type_invariant(self);
        }
        if self.default_applications.len() == 0 {
            proof {
                lemma_to_map_empty(default_pairs(self.default_applications@));
            }
            true
        } else {
            proof {
                lemma_key_index(default_pairs(self.default_applications@), 0);
                assert(!Map::<Seq<char>, Seq<char>>::empty().contains_key(default_pairs(self.default_applications@)[0].0));
            }
            false
        }
    }

    /// The mime types that have a default application, each once, in order.
    pub fn default_mime_types(&self) -> (r: Vec<&MimeType>)
        ensures
            texts(r@) == sorted_keys(self@.defaults),
    {
        proof {
            use_type_invariant(self);
        }
        sorted_default_keys(&self.default_applications)
    }

    /// Marks the scope as having changes not yet saved.
    pub fn mark_dirty(&mut self)
        ensures
            final(self)@ == (AssocScopeView { dirty: true, ..old(self)@ }),
    {
        proof {
            use_type_invariant(&*self);
        }
        self.is_dirty = true;
    }

    /// The mime types the scope names, in either section: each once.
    pub fn mime_type_refs(&self) -> (r: Vec<&MimeType>)
        ensures
            strictly_sorted(texts(r@)),
            forall|k: Seq<char>| texts(r@).contains(k) <==> (self@.defaults.contains_key(k) || self@.added.contains_key(k)),
    {
        proof {
            use_type_invariant(self);
        }
        let mut keys = sorted_default_keys(&self.default_applications);
        let mut i: usize = 0;
        while i < self.added_associations.len()
            invariant
                i <= self.added_associations@.len(),
                keys_unique(added_pairs(self.added_associations@)),
                strictly_sorted(texts(keys@)),
                forall|k: Seq<char>| texts(keys@).contains(k) <==> (self@.defaults.contains_key(k) || exists|j: int| 0 <= j < i && #[trigger] self.added_associations@[j].0@ == k),
            decreases self.added_associations@.len() - i,
        {
            insert_sorted_unique(&mut keys, &self.added_associations[i].0);
            i = i + 1;
        }
        proof {
            assert forall|k: Seq<char>| texts(keys@).contains(k) <==> (self@.defaults.contains_key(k) || self@.added.contains_key(k)) by {
                if exists|j: int| 0 <= j < self.added_associations@.len() && #[trigger] self.added_associations@[j].0@ == k {
                    let j = choose|j: int| 0 <= j < self.added_associations@.len() && #[trigger] self.added_associations@[j].0@ == k;
                    lemma_key_index(added_pairs(self.added_associations@), j);
                }
                if self@.added.contains_key(k) {
                    let j = choose|j: int| 0 <= j < added_pairs(self.added_associations@).len() && #[trigger] added_pairs(self.added_associations@)[j].0 == k;
                    assert(self.added_associations@[j].0@ == k);
                }
            }
        }
        keys
    }

    /// Takes the user flag and contents of `fresh`, the scope as read again from its file;
    /// the scope is clean afterwards and keeps its path.
    pub fn reload(&mut self, fresh: MimeTypeAssociationScope)
        ensures
            final(self)@ == (AssocScopeView { file_path: old(self)@.file_path, dirty: false, ..fresh@ }),
    {
        proof {
            use_type_invariant(&fresh);
        }
        let path = self.file_path.clone();
        *self = MimeTypeAssociationScope {
            file_path: path,
            is_user_customizable: fresh.is_user_customizable,
            is_dirty: false,
            added_associations: fresh.added_associations,
            default_applications: fresh.default_applications,
        };
    }

    /// The lines to persist this scope: fails where the user may not change it.
    pub fn save(&self) -> (r: Result<Vec<String>, MimeAssocError>)
        ensures
            self@.user ==> (r matches Ok(lines) && string_views(lines@) == scope_text_lines(self@)),
            !self@.user ==> (r matches Err(e) && (e matches MimeAssocError::ScopeNotUserCustomizable(p) && p@ == self@.file_path)),
    {
        if !self.is_user_customizable {
            return Err(MimeAssocError::ScopeNotUserCustomizable(self.file_path.clone()));
        }
        Ok(self.write())
    }

    /// `true` when each default application of this scope is also one of `other`.
    fn defaults_within(&self, other: &MimeTypeAssociationScope) -> (r: bool)
        ensures
            r == forall|k: Seq<char>| #[trigger] self@.defaults.contains_key(k) ==> other@.defaults.contains_key(k) && other@.defaults[k] == self@.defaults[k],
    {
        proof {
            use_type_invariant(self);
        }
        let ghost pairs = default_pairs(self.default_applications@);
        let mut i: usize = 0;
        while i < self.default_applications.len()
            invariant
                i <= self.default_applications@.len(),
                pairs == default_pairs(self.default_applications@),
                keys_unique(pairs),
                forall|j: int| 0 <= j < i ==> other@.defaults.contains_key(#[trigger] pairs[j].0) && other@.defaults[pairs[j].0] == pairs[j].1,
            decreases self.default_applications@.len() - i,
        {
            proof {
                lemma_key_index(pairs, i as int);
            }
            let same = match other.default_application(&self.default_applications[i].0) {
                Some(id) => id.same_as(&self.default_applications[i].1),
                None => false,
            };
            if !same {
                proof {
                    let k = pairs[i as int].0;
                    assert(self@.defaults.contains_key(k));
                    assert(!(other@.defaults.contains_key(k) && other@.defaults[k] == self@.defaults[k]));
                }
                return false;
            }
            i = i + 1;
        }
        proof {
            assert forall|k: Seq<char>| #[trigger] self@.defaults.contains_key(k) implies other@.defaults.contains_key(k) && other@.defaults[k] == self@.defaults[k] by {
                let j = key_index(pairs, k);
                lemma_key_index(pairs, j);
            }
        }
        true
    }

    /// `true` when each added association list of this scope is also one of `other`.
    fn added_within(&self, other: &MimeTypeAssociationScope) -> (r: bool)
        ensures
            r == forall|k: Seq<char>| #[trigger] self@.added.contains_key(k) ==> other@.added.contains_key(k) && other@.added[k] == self@.added[k],
    {
        proof {
            use_type_invariant(self);
        }
        let ghost pairs = added_pairs(self.added_associations@);
        let mut i: usize = 0;
        while i < self.added_associations.len()
            invariant
                i <= self.added_associations@.len(),
                pairs == added_pairs(self.added_associations@),
                keys_unique(pairs),
                forall|j: int| 0 <= j < i ==> other@.added.contains_key(#[trigger] pairs[j].0) && other@.added[pairs[j].0] == pairs[j].1,
            decreases self.added_associations@.len() - i,
        {
            proof {
                lemma_key_index(pairs, i as int);
            }
            let same = match other.added_associations(&self.added_associations[i].0) {
                Some(ids) => same_ids(ids, &self.added_associations[i].1),
                None => false,
            };
            if !same {
                proof {
                    let k = pairs[i as int].0;
                    assert(self@.added.contains_key(k));
                    assert(!(other@.added.contains_key(k) && other@.added[k] == self@.added[k]));
                }
                return false;
            }
            i = i + 1;
        }
        proof {
            assert forall|k: Seq<char>| #[trigger] self@.added.contains_key(k) implies other@.added.contains_key(k) && other@.added[k] == self@.added[k] by {
                let j = key_index(pairs, k);
                lemma_key_index(pairs, j);
            }
        }
        true
    }

    /// `true` when the associations differ from those of the file as read again (`file`), or
    /// the file could not be read: unlike `is_dirty`, changes that were undone again do not
    /// count.
    pub fn differs_from_file_representation(&self, file: &Result<MimeTypeAssociationScope, MimeAssocError>) -> (r: bool)
        ensures
            match file {
                Ok(f) => r == (self@.defaults != f@.defaults || self@.added != f@.added),
                Err(_) => r,
            },
    {
        match file {
            Ok(f) => {
                let same_defaults = self.defaults_within(f) && f.defaults_within(self);
                let same_added = self.added_within(f) && f.added_within(self);
                proof {
                    if same_defaults {
                        assert(self@.defaults =~= f@.defaults);
                    }
                    if same_added {
                        assert(self@.added =~= f@.added);
                    }
                }
                !(same_defaults && same_added)
            },
            Err(_) => true,
        }
    }

    /// Records that the scope's lines were written to its file.
    pub fn mark_saved(&mut self)
        ensures
            final(self)@ == (AssocScopeView { dirty: false, ..old(self)@ }),
    {
        proof {
            use_type_invariant(&*self);
        }
        self.is_dirty = false;
    }

    /// Removes the default applications of the keys that `mime_type` removes (every key of
    /// the same major type for a wildcard); marks the scope dirty where one was removed.
    pub fn remove_defaults_matching(&mut self, mime_type: &MimeType) -> (r: bool)
        ensures
            r == has_matching(old(self)@.defaults, mime_type@),
            final(self)@ == (AssocScopeView {
                defaults: without_matching(old(self)@.defaults, mime_type@),
                dirty: old(self)@.dirty || r,
                ..old(self)@
            }),
    {
        proof {
            use_type_invariant(&*self);
        }
        let wildcard = mime_type.is_minor_type_wildcard();
        let ghost pairs = default_pairs(self.default_applications@);
        let ghost d = to_map(pairs);
        let ghost m = mime_type@;
        let mut kept: Vec<(MimeType, DesktopEntryId)> = Vec::new();
        let mut removed = false;
        let mut rest: Vec<(MimeType, DesktopEntryId)> = Vec::new();
        std::mem::swap(&mut rest, &mut self.default_applications);
        let n = rest.len();
        let mut taken: usize = 0;
        let mut removed = false;
        proof {
            lemma_to_map_empty(default_pairs(kept@));
            assert(to_map(default_pairs(kept@)) =~= Map::new(|k: Seq<char>| has_key(pairs.take(0), k) && !removal_match(m, k), |k: Seq<char>| d[k]));
            assert(forall|q: int| 0 <= q < rest@.len() ==> #[trigger] default_pairs(rest@)[q] == pairs[q]);
        }
        while rest.len() > 0
            invariant
                n == pairs.len(),
                taken + rest@.len() == n,
                keys_unique(pairs),
                d == to_map(pairs),
                m == mime_type@,
                wildcard == is_wildcard_text(m),
                forall|q: int| 0 <= q < rest@.len() ==> #[trigger] default_pairs(rest@)[q] == pairs[taken + q],
                keys_unique(default_pairs(kept@)),
                to_map(default_pairs(kept@)) == Map::new(|k: Seq<char>| has_key(pairs.take(taken as int), k) && !removal_match(m, k), |k: Seq<char>| d[k]),
                removed == exists|j: int| 0 <= j < taken && removal_match(m, #[trigger] pairs[j].0),
            decreases rest@.len(),
        {
            let ghost before = to_map(default_pairs(kept@));
            let ghost old_rest = rest@;
            let pair = rest.remove(0);
            proof {
                assert(default_pairs(old_rest)[0] == pairs[taken as int]);
                assert((pair.0@, pair.1@) == pairs[taken as int]);
                assert forall|q: int| 0 <= q < rest@.len() implies #[trigger] default_pairs(rest@)[q] == pairs[taken + 1 + q] by {
                    assert(rest@[q] == old_rest[q + 1]);
                    assert(default_pairs(old_rest)[q + 1] == pairs[taken + q + 1]);
                }
                lemma_key_index(pairs, taken as int);
            }
            let matched = if wildcard {
                mime_type.wildcard_match(&pair.0)
            } else {
                pair.0.same_as(mime_type)
            };
            if matched {
                removed = true;
                proof {
                    assert(to_map(default_pairs(kept@)) =~= Map::new(|k: Seq<char>| has_key(pairs.take(taken + 1), k) && !removal_match(m, k), |k: Seq<char>| d[k])) by {
                        lemma_take_keys(pairs, taken as int);
                    }
                }
            } else {
                proof {
                    assert(!has_key(default_pairs(kept@), pair.0@)) by {
                        if has_key(default_pairs(kept@), pair.0@) {
                            assert(to_map(default_pairs(kept@)).contains_key(pair.0@));
                            let j = choose|j: int| 0 <= j < pairs.take(taken as int).len() && #[trigger] pairs.take(taken as int)[j].0 == pair.0@;
                            assert(pairs[j].0 == pairs[taken as int].0);
                        }
                    }
                    lemma_to_map_push(default_pairs(kept@), pair.0@, pair.1@);
                }
                let ghost old_kept = kept@;
                let ghost pv = (pair.0@, pair.1@);
                kept.push(pair);
                proof {
                    assert(default_pairs(kept@) =~= default_pairs(old_kept).push(pv));
                    lemma_take_keys(pairs, taken as int);
                    assert(pv == pairs[taken as int]);
                    assert(d[pv.0] == pv.1);
                    assert(!removal_match(m, pv.0));
                    let target = Map::new(|k: Seq<char>| has_key(pairs.take(taken + 1), k) && !removal_match(m, k), |k: Seq<char>| d[k]);
                    let after = before.insert(pv.0, pv.1);
                    assert(before == Map::new(|k: Seq<char>| has_key(pairs.take(taken as int), k) && !removal_match(m, k), |k: Seq<char>| d[k]));
                    assert forall|k: Seq<char>| #![trigger target.dom().contains(k)] #![trigger after.dom().contains(k)] target.dom().contains(k) == after.dom().contains(k) by {
                        assert(has_key(pairs.take(taken + 1), k) <==> (has_key(pairs.take(taken as int), k) || k == pairs[taken as int].0));
                    }
                    assert(target.dom() =~= after.dom());
                    assert forall|k: Seq<char>| #[trigger] target.dom().contains(k) implies target[k] == after[k] by {
                        if k != pv.0 {
                            assert(has_key(pairs.take(taken as int), k));
                        }
                    }
                    assert(after =~= target);
                }
            }
            taken = taken + 1;
        }
        proof {
            assert(pairs.take(n as int) =~= pairs);
            assert(to_map(default_pairs(kept@)) =~= without_matching(d, m));
            if removed {
                let j = choose|j: int| 0 <= j < taken && removal_match(m, #[trigger] pairs[j].0);
                lemma_key_index(pairs, j);
            }
            if has_matching(d, m) {
                let k = choose|k: Seq<char>| d.contains_key(k) && removal_match(m, k);
                let j = choose|j: int| 0 <= j < pairs.len() && #[trigger] pairs[j].0 == k;
            }
        }
        self.default_applications = kept;
        if removed {
            self.is_dirty = true;
        }
        removed
    }
}

/// `ids` with those of `more` that it lacks appended, in order, each once.
pub open spec fn append_new(ids: Seq<Seq<char>>, more: Seq<Seq<char>>) -> Seq<Seq<char>>
    decreases more.len(),
{
    if more.len() == 0 {
        ids
    } else if ids.contains(more[0]) {
        append_new(ids, more.drop_first())
    } else {
        append_new(ids.push(more[0]), more.drop_first())
    }
}

/// Appending the new ids of `more` keeps `ids` in front and lists each id of `more`; without
/// repeats in `ids` there are none after.
pub proof fn lemma_append_new(ids: Seq<Seq<char>>, more: Seq<Seq<char>>)
    ensures
        forall|x: Seq<char>| append_new(ids, more).contains(x) <==> (ids.contains(x) || more.contains(x)),
        append_new(ids, more).len() >= ids.len(),
        append_new(ids, more).take(ids.len() as int) == ids,
        ids.no_duplicates() ==> append_new(ids, more).no_duplicates(),
    decreases more.len(),
{
    if more.len() > 0 {
        let rest = more.drop_first();
        let next = if ids.contains(more[0]) { ids } else { ids.push(more[0]) };
        lemma_append_new(next, rest);
        let r = append_new(ids, more);
        assert forall|x: Seq<char>| r.contains(x) <==> (ids.contains(x) || more.contains(x)) by {
            if more.contains(x) && x != more[0] {
                let q = choose|q: int| 0 <= q < more.len() && more[q] == x;
                assert(rest[q - 1] == x);
            }
            if rest.contains(x) {
                let q = choose|q: int| 0 <= q < rest.len() && rest[q] == x;
                assert(more[q + 1] == x);
            }
            if !ids.contains(more[0]) {
                assert(next[ids.len() as int] == more[0]);
                if ids.contains(x) {
                    let q = choose|q: int| 0 <= q < ids.len() && ids[q] == x;
                    assert(next[q] == x);
                }
                if next.contains(x) {
                    let q = choose|q: int| 0 <= q < next.len() && next[q] == x;
                    if q < ids.len() {
                        assert(ids[q] == x);
                    }
                }
            }
        }
        if !ids.contains(more[0]) {
            assert(r.take(next.len() as int) == next);
            assert forall|k: int| 0 <= k < ids.len() implies r[k] == next[k] by {
                assert(r.take(next.len() as int)[k] == r[k]);
            }
            assert(r.take(ids.len() as int) =~= next.take(ids.len() as int));
            assert(next.take(ids.len() as int) =~= ids);
            if ids.no_duplicates() {
                assert(next.no_duplicates());
            }
        }
    } else {
        assert(ids.take(ids.len() as int) =~= ids);
    }
}

/// The added associations of `m` after appending `ids`: the list it had (or none), with the
/// ids it lacks appended.
pub open spec fn added_after(added: Map<Seq<char>, Seq<Seq<char>>>, m: Seq<char>, ids: Seq<Seq<char>>) -> Seq<Seq<char>> {
    append_new(if added.contains_key(m) { added[m] } else { Seq::empty() }, ids)
}

/// `true` when the desktop entry store has no entry with id `id`, or only one that does not
/// appear to be a launchable application.
pub open spec fn is_orphan(entries: Seq<EntryScopeView>, id: Seq<char>) -> bool {
    match scope_lookup(entries, id) {
        None => true,
        Some(e) => !valid_application(e),
    }
}

/// `true` when `id` is the default application of some mime type in `d`.
pub open spec fn is_default_value(d: Map<Seq<char>, Seq<char>>, id: Seq<char>) -> bool {
    exists|k: Seq<char>| d.contains_key(k) && d[k] == id
}

/// `true` when `id` is in `v`.
pub fn contains_id(v: &Vec<DesktopEntryId>, id: &DesktopEntryId) -> (r: bool)
    ensures
        r == id_seq_views(v@).contains(id@),
{
    let mut i: usize = 0;
    while i < v.len()
        invariant
            i <= v@.len(),
            forall|j: int| 0 <= j < i ==> v@[j]@ != id@,
        decreases v@.len() - i,
    {
        if v[i].same_as(id) {
            assert(id_seq_views(v@)[i as int] == id@);
            return true;
        }
        i = i + 1;
    }
    proof {
        if id_seq_views(v@).contains(id@) {
            let j = choose|j: int| 0 <= j < id_seq_views(v@).len() && id_seq_views(v@)[j] == id@;
            assert(id_seq_views(v@)[j] == v@[j]@);
        }
    }
    false
}

impl MimeTypeAssociationScope {
    /// Removes every default application; marks the scope dirty where there was one.
    pub fn clear_defaults(&mut self) -> (r: bool)
        ensures
            r == (old(self)@.defaults != Map::<Seq<char>, Seq<char>>::empty()),
            final(self)@ == (AssocScopeView {
                defaults: Map::empty(),
                dirty: old(self)@.dirty || r,
                ..old(self)@
            }),
    {
        proof {
            use_type_invariant(&*self);
        }
        if self.default_applications.len() == 0 {
            proof {
                lemma_to_map_empty(default_pairs(self.default_applications@));
            }
            return false;
        }
        proof {
            lemma_key_index(default_pairs(self.default_applications@), 0);
            assert(!Map::<Seq<char>, Seq<char>>::empty().contains_key(default_pairs(self.default_applications@)[0].0));
        }
        let empty: Vec<(MimeType, DesktopEntryId)> = Vec::new();
        proof {
            lemma_to_map_empty(default_pairs(empty@));
        }
        self.default_applications = empty;
        self.is_dirty = true;
        true
    }

    /// Makes `id` the default application of `mime_type`; marks the scope dirty where that
    /// changes what it held. Returns whether it did.
    pub fn set_default_application(&mut self, mime_type: MimeType, id: DesktopEntryId) -> (changed: bool)
        ensures
            changed == !(old(self)@.defaults.contains_key(mime_type@) && old(self)@.defaults[mime_type@] == id@),
            final(self)@ == (AssocScopeView {
                defaults: old(self)@.defaults.insert(mime_type@, id@),
                dirty: old(self)@.dirty || changed,
                ..old(self)@
            }),
    {
        proof {
            use_type_invariant(&*self);
        }
        let mut defaults: Vec<(MimeType, DesktopEntryId)> = Vec::new();
        std::mem::swap(&mut defaults, &mut self.default_applications);
        let id_copy = id.duplicate();
        let prev = insert_default(&mut defaults, mime_type, id);
        self.default_applications = defaults;
        let changed = match prev {
            Some(p) => !p.same_as(&id_copy),
            None => true,
        };
        if changed {
            self.is_dirty = true;
        }
        changed
    }

    /// Appends to the added associations of `mime_type` the ids of `ids` it lacks, each once,
    /// starting a list for it where it has none; marks the scope dirty where that changes what
    /// it held. Returns whether it did.
    pub fn add_associations(&mut self, mime_type: &MimeType, ids: &Vec<DesktopEntryId>) -> (changed: bool)
        ensures
            changed == !(old(self)@.added.contains_key(mime_type@) && old(self)@.added[mime_type@] == added_after(old(self)@.added, mime_type@, id_seq_views(ids@))),
            final(self)@ == (AssocScopeView {
                added: old(self)@.added.insert(mime_type@, added_after(old(self)@.added, mime_type@, id_seq_views(ids@))),
                dirty: old(self)@.dirty || changed,
                ..old(self)@
            }),
    {
        proof {
            use_type_invariant(&*self);
        }
        let ghost added0 = self@.added;
        let ghost target = added_after(added0, mime_type@, id_seq_views(ids@));
        let mut list: Vec<DesktopEntryId> = Vec::new();
        let had = match self.added_associations(mime_type) {
            Some(existing) => {
                let mut j: usize = 0;
                while j < existing.len()
                    invariant
                        j <= existing@.len(),
                        id_seq_views(list@) == id_seq_views(existing@).take(j as int),
                    decreases existing@.len() - j,
                {
                    let ghost before = id_seq_views(list@);
                    list.push(existing[j].duplicate());
                    assert(id_seq_views(list@) =~= before.push(existing@[j as int]@));
                    assert(id_seq_views(existing@).take(j + 1) =~= id_seq_views(existing@).take(j as int).push(existing@[j as int]@));
                    j = j + 1;
                }
                assert(id_seq_views(existing@).take(j as int) =~= id_seq_views(existing@));
                true
            },
            None => {
                assert(id_seq_views(list@) =~= Seq::<Seq<char>>::empty());
                false
            },
        };
        let ghost start = id_seq_views(list@);
        let mut k: usize = 0;
        assert(id_seq_views(ids@).skip(0) =~= id_seq_views(ids@));
        while k < ids.len()
            invariant
                k <= ids@.len(),
                append_new(id_seq_views(list@), id_seq_views(ids@).skip(k as int)) == append_new(start, id_seq_views(ids@)),
            decreases ids@.len() - k,
        {
            let ghost cur = id_seq_views(list@);
            let ghost rest = id_seq_views(ids@).skip(k as int);
            assert(rest[0] == ids@[k as int]@);
            assert(rest.drop_first() =~= id_seq_views(ids@).skip(k + 1));
            if !contains_id(&list, &ids[k]) {
                list.push(ids[k].duplicate());
                assert(id_seq_views(list@) =~= cur.push(ids@[k as int]@));
            }
            k = k + 1;
        }
        assert(id_seq_views(ids@).skip(k as int) =~= Seq::<Seq<char>>::empty());
        assert(id_seq_views(list@) == target);
        let unchanged = had && match self.added_associations(mime_type) {
            Some(existing) => same_ids(existing, &list),
            None => false,
        };
        let mut added: Vec<(MimeType, Vec<DesktopEntryId>)> = Vec::new();
        std::mem::swap(&mut added, &mut self.added_associations);
        insert_added(&mut added, mime_type.duplicate(), list);
        self.added_associations = added;
        if !unchanged {
            self.is_dirty = true;
        }
        !unchanged
    }

    /// Gathers into `orphans` the default applications of this scope that `entries` lacks,
    /// or that do not appear to be launchable applications; each id once.
    pub fn collect_orphans(&self, entries: &DesktopEntryStore, orphans: &mut Vec<DesktopEntryId>)
        requires
            id_seq_views(old(orphans)@).no_duplicates(),
        ensures
            id_seq_views(final(orphans)@).no_duplicates(),
            forall|v: Seq<char>| #[trigger] id_seq_views(final(orphans)@).contains(v) <==> (id_seq_views(old(orphans)@).contains(v) || (is_default_value(self@.defaults, v) && is_orphan(entries@, v))),
    {
        proof {
            use_type_invariant(self);
        }
        let ghost pairs = default_pairs(self.default_applications@);
        let ghost start = id_seq_views(orphans@);
        let mut i: usize = 0;
        while i < self.default_applications.len()
            invariant
                i <= self.default_applications@.len(),
                pairs == default_pairs(self.default_applications@),
                keys_unique(pairs),
                id_seq_views(orphans@).no_duplicates(),
                forall|v: Seq<char>| #[trigger] id_seq_views(orphans@).contains(v) <==> (start.contains(v) || (exists|j: int| 0 <= j < i && #[trigger] pairs[j].1 == v && is_orphan(entries@, v))),
            decreases self.default_applications@.len() - i,
        {
            let id = &self.default_applications[i].1;
            assert(pairs[i as int].1 == id@);
            let orphan = match entries.get_desktop_entry(id) {
                Some(e) => !e.appears_valid_application(),
                None => true,
            };
            assert(orphan == is_orphan(entries@, id@));
            let ghost before = id_seq_views(orphans@);
            if orphan && !contains_id(orphans, id) {
                orphans.push(id.duplicate());
                assert(id_seq_views(orphans@) =~= before.push(id@));
            }
            proof {
                assert forall|v: Seq<char>| #[trigger] id_seq_views(orphans@).contains(v) <==> (start.contains(v) || (exists|j: int| 0 <= j < i + 1 && #[trigger] pairs[j].1 == v && is_orphan(entries@, v))) by {
                    if exists|j: int| 0 <= j < i + 1 && #[trigger] pairs[j].1 == v && is_orphan(entries@, v) {
                        let j = choose|j: int| 0 <= j < i + 1 && #[trigger] pairs[j].1 == v && is_orphan(entries@, v);
                        if j == i {
                            assert(v == id@);
                            if !before.contains(v) {
                                assert(id_seq_views(orphans@)[before.len() as int] == v);
                            } else {
                                let q = choose|q: int| 0 <= q < before.len() && before[q] == v;
                                assert(id_seq_views(orphans@)[q] == v);
                            }
                        } else {
                            assert(before.contains(v));
                            let q = choose|q: int| 0 <= q < before.len() && before[q] == v;
                            assert(id_seq_views(orphans@)[q] == v);
                        }
                    }
                    if id_seq_views(orphans@).contains(v) {
                        let q = choose|q: int| 0 <= q < id_seq_views(orphans@).len() && id_seq_views(orphans@)[q] == v;
                        if q < before.len() {
                            assert(before[q] == v);
                            assert(before.contains(v));
                        } else {
                            assert(v == id@);
                            assert(pairs[i as int].1 == v);
                        }
                    }
                    if start.contains(v) {
                        assert(before.contains(v));
                        let q = choose|q: int| 0 <= q < before.len() && before[q] == v;
                        assert(id_seq_views(orphans@)[q] == v);
                    }
                }
            }
            i = i + 1;
        }
        proof {
            assert forall|v: Seq<char>| (exists|j: int| 0 <= j < self.default_applications@.len() && #[trigger] pairs[j].1 == v && is_orphan(entries@, v)) <==> (is_default_value(self@.defaults, v) && is_orphan(entries@, v)) by {
                if exists|j: int| 0 <= j < self.default_applications@.len() && #[trigger] pairs[j].1 == v && is_orphan(entries@, v) {
                    let j = choose|j: int| 0 <= j < self.default_applications@.len() && #[trigger] pairs[j].1 == v && is_orphan(entries@, v);
                    lemma_key_index(pairs, j);
                    assert(self@.defaults.contains_key(pairs[j].0));
                }
                if is_default_value(self@.defaults, v) {
                    let k = choose|k: Seq<char>| self@.defaults.contains_key(k) && self@.defaults[k] == v;
                    let j = key_index(pairs, k);
                    lemma_key_index(pairs, j);
                }
            }
        }
    }
}

impl MimeTypeAssociationScope {
    /// Removes the default applications whose id is one of `gone`; marks the scope dirty
    /// where one was removed.
    pub fn remove_defaults_with_ids(&mut self, gone: &Vec<DesktopEntryId>)
        ensures
            final(self)@ == (AssocScopeView {
                defaults: without_values(old(self)@.defaults, |v: Seq<char>| id_seq_views(gone@).contains(v)),
                dirty: old(self)@.dirty || has_value_in(old(self)@.defaults, |v: Seq<char>| id_seq_views(gone@).contains(v)),
                ..old(self)@
            }),
    {
        proof {
            use_type_invariant(&*self);
        }
        let ghost pairs = default_pairs(self.default_applications@);
        let ghost d = to_map(pairs);
        let ghost g = id_seq_views(gone@);
        let mut kept: Vec<(MimeType, DesktopEntryId)> = Vec::new();
        let mut rest: Vec<(MimeType, DesktopEntryId)> = Vec::new();
        std::mem::swap(&mut rest, &mut self.default_applications);
        let n = rest.len();
        let mut taken: usize = 0;
        let mut removed = false;
        proof {
            lemma_to_map_empty(default_pairs(kept@));
            assert(to_map(default_pairs(kept@)) =~= Map::new(|k: Seq<char>| has_key(pairs.take(0), k) && !g.contains(d[k]), |k: Seq<char>| d[k]));
            assert(forall|q: int| 0 <= q < rest@.len() ==> #[trigger] default_pairs(rest@)[q] == pairs[q]);
        }
        while rest.len() > 0
            invariant
                n == pairs.len(),
                taken + rest@.len() == n,
                keys_unique(pairs),
                d == to_map(pairs),
                g == id_seq_views(gone@),
                forall|q: int| 0 <= q < rest@.len() ==> #[trigger] default_pairs(rest@)[q] == pairs[taken + q],
                keys_unique(default_pairs(kept@)),
                to_map(default_pairs(kept@)) == Map::new(|k: Seq<char>| has_key(pairs.take(taken as int), k) && !g.contains(d[k]), |k: Seq<char>| d[k]),
                removed == exists|q: int| 0 <= q < taken && g.contains(#[trigger] pairs[q].1),
            decreases rest@.len(),
        {
            let ghost before = to_map(default_pairs(kept@));
            let ghost old_rest = rest@;
            let pair = rest.remove(0);
            proof {
                assert(default_pairs(old_rest)[0] == pairs[taken as int]);
                assert((pair.0@, pair.1@) == pairs[taken as int]);
                assert forall|q: int| 0 <= q < rest@.len() implies #[trigger] default_pairs(rest@)[q] == pairs[taken + 1 + q] by {
                    assert(rest@[q] == old_rest[q + 1]);
                    assert(default_pairs(old_rest)[q + 1] == pairs[taken + q + 1]);
                }
                lemma_key_index(pairs, taken as int);
                lemma_take_keys(pairs, taken as int);
            }
            let ghost pv = (pair.0@, pair.1@);
            let ghost target = Map::new(|k: Seq<char>| has_key(pairs.take(taken + 1), k) && !g.contains(d[k]), |k: Seq<char>| d[k]);
            if contains_id(gone, &pair.1) {
                removed = true;
                proof {
                    assert forall|k: Seq<char>| #![trigger target.dom().contains(k)] #![trigger before.dom().contains(k)] target.dom().contains(k) == before.dom().contains(k) by {
                        assert(has_key(pairs.take(taken + 1), k) <==> (has_key(pairs.take(taken as int), k) || k == pairs[taken as int].0));
                    }
                    assert(target.dom() =~= before.dom());
                    assert(before =~= target);
                }
            } else {
                proof {
                    assert(!has_key(default_pairs(kept@), pair.0@)) by {
                        if has_key(default_pairs(kept@), pair.0@) {
                            assert(to_map(default_pairs(kept@)).contains_key(pair.0@));
                            let j = choose|j: int| 0 <= j < pairs.take(taken as int).len() && #[trigger] pairs.take(taken as int)[j].0 == pair.0@;
                            assert(pairs[j].0 == pairs[taken as int].0);
                        }
                    }
                    lemma_to_map_push(default_pairs(kept@), pair.0@, pair.1@);
                }
                let ghost old_kept = kept@;
                kept.push(pair);
                proof {
                    assert(default_pairs(kept@) =~= default_pairs(old_kept).push(pv));
                    let after = before.insert(pv.0, pv.1);
                    assert forall|k: Seq<char>| #![trigger target.dom().contains(k)] #![trigger after.dom().contains(k)] target.dom().contains(k) == after.dom().contains(k) by {
                        assert(has_key(pairs.take(taken + 1), k) <==> (has_key(pairs.take(taken as int), k) || k == pairs[taken as int].0));
                    }
                    assert(target.dom() =~= after.dom());
                    assert forall|k: Seq<char>| #[trigger] target.dom().contains(k) implies target[k] == after[k] by {
                        if k != pv.0 {
                            assert(has_key(pairs.take(taken as int), k));
                        }
                    }
                    assert(after =~= target);
                }
            }
            taken = taken + 1;
        }
        proof {
            assert(pairs.take(n as int) =~= pairs);
            assert(to_map(default_pairs(kept@)) =~= without_values(d, |v: Seq<char>| id_seq_views(gone@).contains(v)));
            if removed {
                let q = choose|q: int| 0 <= q < taken && g.contains(#[trigger] pairs[q].1);
                lemma_key_index(pairs, q);
            }
            if has_value_in(d, |v: Seq<char>| g.contains(v)) {
                let k = choose|k: Seq<char>| d.contains_key(k) && g.contains(d[k]);
                let q = key_index(pairs, k);
                lemma_key_index(pairs, q);
            }
        }
        self.default_applications = kept;
        if removed {
            self.is_dirty = true;
        }
    }
}

/// `true` when both lists hold the same ids in the same order.
fn same_ids(a: &Vec<DesktopEntryId>, b: &Vec<DesktopEntryId>) -> (r: bool)
    ensures
        r == (id_seq_views(a@) == id_seq_views(b@)),
{
    if a.len() != b.len() {
        return false;
    }
    let mut i: usize = 0;
    while i < a.len()
        invariant
            a@.len() == b@.len(),
            i <= a@.len(),
            forall|j: int| 0 <= j < i ==> a@[j]@ == b@[j]@,
        decreases a@.len() - i,
    {
        if !a[i].same_as(&b[i]) {
            assert(id_seq_views(a@)[i as int] != id_seq_views(b@)[i as int]);
            return false;
        }
        i = i + 1;
    }
    assert(id_seq_views(a@) =~= id_seq_views(b@));
    true
}

/// A mime type as an association line holds it: one `/`, no `=`, no white space at its ends.
pub open spec fn clean_mime_text(m: Seq<char>) -> bool {
    is_mime_type_text(m) && trim(m) == m && !m.contains('=')
}

/// A desktop entry id as an association line holds it: ending with `.desktop`, no `;` or `=`,
/// no white space at its ends.
pub open spec fn clean_id_text(id: Seq<char>) -> bool {
    ends_with(id, desktop_suffix()) && trim(id) == id && !id.contains(';') && !id.contains('=')
}

proof fn lemma_trimmed_pieces_clean(ids: Seq<Seq<char>>)
    requires
        forall|i: int| 0 <= i < ids.len() ==> trim(#[trigger] ids[i]) == ids[i] && ids[i].len() > 0,
    ensures
        trimmed_pieces(ids) == ids,
    decreases ids.len(),
{
    if ids.len() > 0 {
        lemma_trimmed_pieces_clean(ids.drop_last());
        assert(trim(ids.last()) == ids.last() && ids.last().len() > 0);
        assert(ids.drop_last().push(ids.last()) =~= ids);
    }
}

/// The line of a default application reads back as what it was written from.
pub proof fn lemma_default_line_roundtrip(m: Seq<char>, id: Seq<char>)
    requires
        clean_mime_text(m),
        clean_id_text(id),
    ensures
        parse_association_line(default_line(m, id)) == LineParse::Parsed(m, seq![id]),
{
    lemma_split_append(m, id, '=');
    lemma_split_no_sep(m, '=');
    assert(seq![m] + seq![id] =~= seq![m, id]);
    lemma_first_bad_id_none(seq![id]);
}

/// The line of added associations, with or without the `;` that ends it in a file, reads
/// back as what it was written from.
pub proof fn lemma_added_line_roundtrip(m: Seq<char>, ids: Seq<Seq<char>>)
    requires
        clean_mime_text(m),
        ids.len() > 0,
        forall|i: int| 0 <= i < ids.len() ==> clean_id_text(#[trigger] ids[i]),
    ensures
        parse_association_line(added_line(m, ids)) == LineParse::Parsed(m, ids),
        parse_association_line(added_line(m, ids) + seq![';']) == LineParse::Parsed(m, ids),
{
    let semi = seq![';'];
    let j = join(ids, semi);
    assert forall|i: int| 0 <= i < ids.len() implies !(#[trigger] ids[i]).contains('=') && !ids[i].contains(';') && ids[i].len() > 0 && trim(ids[i]) == ids[i] by {
        assert(clean_id_text(ids[i]));
    }
    assert(!semi.contains('=')) by {
        if semi.contains('=') {
            let q = choose|q: int| 0 <= q < semi.len() && semi[q] == '=';
        }
    }
    lemma_join_lacks(ids, semi, '=');
    lemma_join_ends(ids, semi);
    lemma_trim_fixed(ids[0]);
    lemma_trim_fixed(ids.last());
    lemma_trim_clean(j);
    lemma_split_no_sep(m, '=');
    lemma_first_bad_id_none(ids);
    // Without the closing `;`.
    lemma_split_append(m, j, '=');
    assert(seq![m] + seq![j] =~= seq![m, j]);
    assert(added_line(m, ids) == m + seq!['='] + j);
    if ids.len() == 1 {
        assert(j == ids[0]);
        assert(seq![ids[0]] =~= ids);
    } else {
        let init = join(ids.drop_last(), semi);
        assert(j == init + semi + ids.last());
        assert(j[init.len() as int] == ';');
        assert(j.contains(';'));
        lemma_split_join(ids, ';');
        lemma_trimmed_pieces_clean(ids);
    }
    // With it.
    let j2 = j + semi;
    assert(!j2.contains('=')) by {
        if j2.contains('=') {
            let q = choose|q: int| 0 <= q < j2.len() && j2[q] == '=';
            if q < j.len() {
                assert(j2[q] == j[q]);
                assert(j.contains('='));
            }
        }
    }
    assert(added_line(m, ids) + semi =~= m + seq!['='] + j2);
    lemma_split_append(m, j2, '=');
    assert(seq![m] + seq![j2] =~= seq![m, j2]);
    assert(j2[0] == j[0]);
    lemma_trim_clean(j2);
    assert(j2[j.len() as int] == ';');
    assert(j2.contains(';'));
    assert(j + seq![';'] + Seq::<char>::empty() =~= j2);
    assert(!Seq::<char>::empty().contains(';'));
    lemma_split_append(j, Seq::<char>::empty(), ';');
    if ids.len() == 1 {
        lemma_split_no_sep(j, ';');
        assert(split(j, ';') =~= ids);
    } else {
        lemma_split_join(ids, ';');
    }
    let sp = split(j2, ';');
    assert(sp =~= ids.push(Seq::<char>::empty()));
    assert(sp.drop_last() =~= ids);
    assert(trim(Seq::<char>::empty()) =~= Seq::<char>::empty());
    lemma_trimmed_pieces_clean(ids);
}

/// The sorted keys of a finite map are strictly sorted and are its keys.
pub proof fn lemma_sorted_keys<V>(m: Map<Seq<char>, V>)
    requires
        m.dom().finite(),
    ensures
        strictly_sorted(sorted_keys(m)),
        forall|k: Seq<char>| sorted_keys(m).contains(k) <==> m.contains_key(k),
{
    let q = lemma_sorted_enumeration(m.dom());
    assert(strictly_sorted(q) && (forall|k: Seq<char>| q.contains(k) <==> m.contains_key(k)));
}

/// The lines read into the scan `st`, one after another.
pub open spec fn scan_more(st: ListScan, lines: Seq<Seq<char>>) -> ListScan
    decreases lines.len(),
{
    if lines.len() == 0 {
        st
    } else {
        scan_list_line(scan_more(st, lines.drop_last()), lines.last())
    }
}

pub open spec fn initial_list_scan() -> ListScan {
    ListScan { section: None, added: Map::empty(), defaults: Map::empty(), error: None }
}

proof fn lemma_scan_more_concat(st: ListScan, a: Seq<Seq<char>>, b: Seq<Seq<char>>)
    ensures
        scan_more(st, a + b) == scan_more(scan_more(st, a), b),
    decreases b.len(),
{
    if b.len() == 0 {
        assert(a + b =~= a);
    } else {
        assert((a + b).drop_last() =~= a + b.drop_last());
        assert((a + b).last() == b.last());
        lemma_scan_more_concat(st, a, b.drop_last());
    }
}

proof fn lemma_scan_lines_from_initial(lines: Seq<Seq<char>>)
    ensures
        scan_list_lines(lines) == scan_more(initial_list_scan(), lines),
    decreases lines.len(),
{
    if lines.len() > 0 {
        lemma_scan_lines_from_initial(lines.drop_last());
    }
}

/// The `[Added Associations]` lines of clean keys read into a scan inside that section add
/// the non-empty lists.
proof fn lemma_added_lines_scan(st: ListScan, keys: Seq<Seq<char>>, added: Map<Seq<char>, Seq<Seq<char>>>)
    requires
        st.error is None,
        st.section == Some(MimeTypeAssociationsSections::AddedAssociations),
        forall|i: int| 0 <= i < keys.len() ==> added.contains_key(#[trigger] keys[i]) && clean_mime_text(keys[i])
            && (forall|j: int| 0 <= j < added[keys[i]].len() ==> clean_id_text(#[trigger] added[keys[i]][j])),
    ensures
        scan_more(st, added_section_lines(keys, added)) == (ListScan {
            added: st.added.union_prefer_right(Map::new(|k: Seq<char>| keys.contains(k) && added[k].len() > 0, |k: Seq<char>| added[k])),
            ..st
        }),
    decreases keys.len(),
{
    if keys.len() == 0 {
        assert(st.added.union_prefer_right(Map::new(|k: Seq<char>| keys.contains(k) && added[k].len() > 0, |k: Seq<char>| added[k])) =~= st.added);
    } else {
        let init = keys.drop_last();
        let k = keys.last();
        assert forall|i: int| 0 <= i < init.len() implies added.contains_key(#[trigger] init[i]) && clean_mime_text(init[i])
            && (forall|j: int| 0 <= j < added[init[i]].len() ==> clean_id_text(#[trigger] added[init[i]][j])) by {
            assert(init[i] == keys[i]);
        }
        lemma_added_lines_scan(st, init, added);
        let mid = ListScan {
            added: st.added.union_prefer_right(Map::new(|q: Seq<char>| init.contains(q) && added[q].len() > 0, |q: Seq<char>| added[q])),
            ..st
        };
        let target = st.added.union_prefer_right(Map::new(|q: Seq<char>| keys.contains(q) && added[q].len() > 0, |q: Seq<char>| added[q]));
        assert forall|q: Seq<char>| keys.contains(q) <==> (init.contains(q) || q == k) by {
            if keys.contains(q) {
                let i = choose|i: int| 0 <= i < keys.len() && keys[i] == q;
                if i < init.len() {
                    assert(init[i] == q);
                }
            }
            if init.contains(q) {
                let i = choose|i: int| 0 <= i < init.len() && init[i] == q;
                assert(keys[i] == q);
            }
        }
        assert(added.contains_key(keys[keys.len() - 1]));
        if added[k].len() > 0 {
            let ids = added[k];
            assert forall|j: int| 0 <= j < ids.len() implies clean_id_text(#[trigger] ids[j]) by {
                assert(clean_id_text(added[keys[keys.len() - 1]][j]));
            }
            lemma_added_line_roundtrip(k, ids);
            let line = added_line(k, ids) + seq![';'];
            assert(added_section_lines(keys, added) == added_section_lines(init, added).push(line));
            assert(line =~= k + seq!['='] + (join(ids, seq![';']) + seq![';']));
            lemma_clean_line_is_no_header(line, k, join(ids, seq![';']) + seq![';']);
            assert(added_section_lines(init, added).push(line).drop_last() =~= added_section_lines(init, added));
            assert(scan_more(st, added_section_lines(keys, added)) == scan_list_line(mid, line));
            assert(scan_list_line(mid, line) == ListScan { added: mid.added.insert(k, ids), ..mid });
            let after = mid.added.insert(k, ids);
            assert forall|q: Seq<char>| #![trigger after.dom().contains(q)] #![trigger target.dom().contains(q)] after.dom().contains(q) == target.dom().contains(q) by {
            }
            assert(after.dom() =~= target.dom());
            assert forall|q: Seq<char>| #[trigger] after.dom().contains(q) implies after[q] == target[q] by {
            }
            assert(after =~= target);
        } else {
            assert(added_section_lines(keys, added) == added_section_lines(init, added));
            assert(scan_more(st, added_section_lines(keys, added)) == mid);
            let a = mid.added;
            assert forall|q: Seq<char>| #![trigger a.dom().contains(q)] #![trigger target.dom().contains(q)] a.dom().contains(q) == target.dom().contains(q) by {
            }
            assert(a.dom() =~= target.dom());
            assert(a =~= target);
        }
    }
}

/// The `[Default Applications]` lines of clean keys read into a scan inside that section add
/// their applications.
proof fn lemma_default_lines_scan(st: ListScan, keys: Seq<Seq<char>>, defaults: Map<Seq<char>, Seq<char>>)
    requires
        st.error is None,
        st.section == Some(MimeTypeAssociationsSections::DefaultApplications),
        forall|i: int| 0 <= i < keys.len() ==> defaults.contains_key(#[trigger] keys[i]) && clean_mime_text(keys[i]) && clean_id_text(defaults[keys[i]]),
    ensures
        scan_more(st, default_section_lines(keys, defaults)) == (ListScan {
            defaults: st.defaults.union_prefer_right(Map::new(|k: Seq<char>| keys.contains(k), |k: Seq<char>| defaults[k])),
            ..st
        }),
    decreases keys.len(),
{
    if keys.len() == 0 {
        assert(default_section_lines(keys, defaults) =~= Seq::<Seq<char>>::empty());
        assert(st.defaults.union_prefer_right(Map::new(|k: Seq<char>| keys.contains(k), |k: Seq<char>| defaults[k])) =~= st.defaults);
    } else {
        let init = keys.drop_last();
        let k = keys.last();
        assert forall|i: int| 0 <= i < init.len() implies defaults.contains_key(#[trigger] init[i]) && clean_mime_text(init[i]) && clean_id_text(defaults[init[i]]) by {
            assert(init[i] == keys[i]);
        }
        lemma_default_lines_scan(st, init, defaults);
        assert(defaults.contains_key(keys[keys.len() - 1]));
        let id = defaults[k];
        lemma_default_line_roundtrip(k, id);
        let line = default_line(k, id);
        assert(default_section_lines(keys, defaults) =~= default_section_lines(init, defaults).push(line));
        lemma_clean_line_is_no_header(line, k, id);
        assert(id.len() > 0);
        assert(default_section_lines(init, defaults).push(line).drop_last() =~= default_section_lines(init, defaults));
        let mid_st = ListScan {
            defaults: st.defaults.union_prefer_right(Map::new(|q: Seq<char>| init.contains(q), |q: Seq<char>| defaults[q])),
            ..st
        };
        assert(scan_more(st, default_section_lines(keys, defaults)) == scan_list_line(mid_st, line));
        assert(scan_list_line(mid_st, line) == ListScan { defaults: mid_st.defaults.insert(k, id), ..mid_st });
        let mid = st.defaults.union_prefer_right(Map::new(|q: Seq<char>| init.contains(q), |q: Seq<char>| defaults[q]));
        let target = st.defaults.union_prefer_right(Map::new(|q: Seq<char>| keys.contains(q), |q: Seq<char>| defaults[q]));
        assert forall|q: Seq<char>| keys.contains(q) <==> (init.contains(q) || q == k) by {
            if keys.contains(q) {
                let i = choose|i: int| 0 <= i < keys.len() && keys[i] == q;
                if i < init.len() {
                    assert(init[i] == q);
                }
            }
            if init.contains(q) {
                let i = choose|i: int| 0 <= i < init.len() && init[i] == q;
                assert(keys[i] == q);
            }
        }
        let after = mid.insert(k, id);
        assert forall|q: Seq<char>| #![trigger after.dom().contains(q)] #![trigger target.dom().contains(q)] after.dom().contains(q) == target.dom().contains(q) by {
        }
        assert(after.dom() =~= target.dom());
        assert forall|q: Seq<char>| #[trigger] after.dom().contains(q) implies after[q] == target[q] by {
        }
        assert(after =~= target);
    }
}

/// An association line `m=rest` of a clean mime type, ending in neither white space nor in
/// anything a header ends with, trims to itself and is no section header.
proof fn lemma_clean_line_is_no_header(line: Seq<char>, m: Seq<char>, rest: Seq<char>)
    requires
        clean_mime_text(m),
        line == m + seq!['='] + rest,
        rest.len() > 0,
        !is_ws(rest.last()),
    ensures
        trim(line) == line,
        section_of(line) is None,
{
    assert(m.len() > 0) by {
        if m.len() == 0 {
            assert(split(m, '/') =~= seq![m]);
        }
    }
    lemma_trim_fixed(m);
    assert(line[0] == m[0]);
    assert(line.last() == rest.last());
    lemma_trim_clean(line);
    assert(line[m.len() as int] == '=');
    assert(added_associations_text() != line) by {
        if added_associations_text() == line {
            assert(added_associations_text().contains('='));
        }
    }
    assert(default_applications_text() != line) by {
        if default_applications_text() == line {
            assert(default_applications_text().contains('='));
        }
    }
}

/// `added` without the mime types whose list is empty: what a written file keeps of it.
pub open spec fn nonempty_added(added: Map<Seq<char>, Seq<Seq<char>>>) -> Map<Seq<char>, Seq<Seq<char>>> {
    Map::new(|k: Seq<char>| added.contains_key(k) && added[k].len() > 0, |k: Seq<char>| added[k])
}

/// `true` when every mime type and id of the scope is clean (see `clean_mime_text` and
/// `clean_id_text`), as in a scope read from a file.
pub open spec fn clean_scope(sc: AssocScopeView) -> bool {
    &&& forall|k: Seq<char>| #[trigger] sc.added.contains_key(k) ==> clean_mime_text(k) && (forall|j: int| 0 <= j < sc.added[k].len() ==> clean_id_text(#[trigger] sc.added[k][j]))
    &&& forall|k: Seq<char>| #[trigger] sc.defaults.contains_key(k) ==> clean_mime_text(k) && clean_id_text(sc.defaults[k])
}

/// A scope names finitely many mime types.
pub proof fn lemma_scope_maps_finite(sc: MimeTypeAssociationScope)
    ensures
        sc@.added.dom().finite(),
        sc@.defaults.dom().finite(),
{
    crate::assoc::lemma_to_map_finite(added_pairs(sc.added_associations@));
    crate::assoc::lemma_to_map_finite(default_pairs(sc.default_applications@));
}

/// The lines written for a scope read back as its associations: the default applications
/// all, the added associations all but the empty lists, which no line holds.
pub proof fn lemma_written_scope_reads_back(sc: AssocScopeView)
    requires
        sc.added.dom().finite(),
        sc.defaults.dom().finite(),
        clean_scope(sc),
    ensures
        scan_list_lines(scope_text_lines(sc)).error is None,
        scan_list_lines(scope_text_lines(sc)).added == nonempty_added(sc.added),
        scan_list_lines(scope_text_lines(sc)).defaults == sc.defaults,
{
    lemma_sorted_keys(sc.added);
    lemma_sorted_keys(sc.defaults);
    let ka = sorted_keys(sc.added);
    let kd = sorted_keys(sc.defaults);
    let a_part = if sc.added != Map::<Seq<char>, Seq<Seq<char>>>::empty() {
        seq![added_associations_text()] + added_section_lines(ka, sc.added) + seq![Seq::<char>::empty()]
    } else {
        Seq::empty()
    };
    let d_part = if sc.defaults != Map::<Seq<char>, Seq<char>>::empty() {
        seq![default_applications_text()] + default_section_lines(kd, sc.defaults)
    } else {
        Seq::empty()
    };
    assert(scope_text_lines(sc) == a_part + d_part);
    lemma_scan_lines_from_initial(scope_text_lines(sc));
    lemma_scan_more_concat(initial_list_scan(), a_part, d_part);
    let init = initial_list_scan();
    assert(trim(added_associations_text()) == added_associations_text()) by {
        lemma_trim_clean(added_associations_text());
    }
    assert(trim(default_applications_text()) == default_applications_text()) by {
        lemma_trim_clean(default_applications_text());
    }
    assert(default_applications_text() != added_associations_text()) by {
        assert(default_applications_text()[1] != added_associations_text()[1]);
    }
    let after_a = scan_more(init, a_part);
    if sc.added != Map::<Seq<char>, Seq<Seq<char>>>::empty() {
        let hdr = seq![added_associations_text()];
        lemma_scan_more_concat(init, hdr + added_section_lines(ka, sc.added), seq![Seq::<char>::empty()]);
        lemma_scan_more_concat(init, hdr, added_section_lines(ka, sc.added));
        assert(hdr.drop_last() =~= Seq::<Seq<char>>::empty());
        let st1 = scan_more(init, hdr);
        assert(hdr.last() == added_associations_text());
        assert(section_of(added_associations_text()) == Some(MimeTypeAssociationsSections::AddedAssociations));
        assert(scan_more(init, Seq::<Seq<char>>::empty()) == init);
        assert(scan_more(init, hdr.drop_last()) == init);
        assert(st1 == scan_list_line(init, added_associations_text()));
        assert(st1 == ListScan { section: Some(MimeTypeAssociationsSections::AddedAssociations), ..init });
        assert forall|i: int| 0 <= i < ka.len() implies sc.added.contains_key(#[trigger] ka[i]) && clean_mime_text(ka[i])
            && (forall|j: int| 0 <= j < sc.added[ka[i]].len() ==> clean_id_text(#[trigger] sc.added[ka[i]][j])) by {
            assert(ka.contains(ka[i]));
        }
        lemma_added_lines_scan(st1, ka, sc.added);
        let st2 = scan_more(st1, added_section_lines(ka, sc.added));
        let blank = seq![Seq::<char>::empty()];
        assert(blank.drop_last() =~= Seq::<Seq<char>>::empty());
        assert(trim(Seq::<char>::empty()) =~= Seq::<char>::empty());
        assert(split(Seq::<char>::empty(), '=') =~= seq![Seq::<char>::empty()]);
        assert(section_of(Seq::<char>::empty()) is None) by {
            assert(added_associations_text().len() != 0);
            assert(default_applications_text().len() != 0);
        }
        assert(parse_association_line(Seq::<char>::empty()) == LineParse::Malformed);
        assert(scan_list_line(st2, Seq::<char>::empty()) == st2);
        assert(scan_more(st2, Seq::<Seq<char>>::empty()) == st2);
        assert(scan_more(st2, blank.drop_last()) == st2);
        assert(scan_more(st2, blank) == scan_list_line(st2, Seq::<char>::empty()));
        assert(scan_more(st2, blank) == st2);
        assert(st2.added =~= nonempty_added(sc.added));
    } else {
        assert(after_a == init);
        assert(init.added =~= nonempty_added(sc.added));
    }
    if sc.defaults != Map::<Seq<char>, Seq<char>>::empty() {
        let hdr = seq![default_applications_text()];
        lemma_scan_more_concat(after_a, hdr, default_section_lines(kd, sc.defaults));
        assert(hdr.drop_last() =~= Seq::<Seq<char>>::empty());
        let st1 = scan_more(after_a, hdr);
        assert(hdr.last() == default_applications_text());
        assert(section_of(default_applications_text()) == Some(MimeTypeAssociationsSections::DefaultApplications));
        assert(scan_more(after_a, Seq::<Seq<char>>::empty()) == after_a);
        assert(scan_more(after_a, hdr.drop_last()) == after_a);
        assert(st1 == scan_list_line(after_a, default_applications_text()));
        assert(after_a.error is None);
        assert(st1 == ListScan { section: Some(MimeTypeAssociationsSections::DefaultApplications), ..after_a });
        assert forall|i: int| 0 <= i < kd.len() implies sc.defaults.contains_key(#[trigger] kd[i]) && clean_mime_text(kd[i]) && clean_id_text(sc.defaults[kd[i]]) by {
            assert(kd.contains(kd[i]));
        }
        lemma_default_lines_scan(st1, kd, sc.defaults);
        assert(after_a.defaults == Map::<Seq<char>, Seq<char>>::empty());
        assert(Map::<Seq<char>, Seq<char>>::empty().union_prefer_right(Map::new(|k: Seq<char>| kd.contains(k), |k: Seq<char>| sc.defaults[k])) =~= sc.defaults);
    } else {
        assert(d_part =~= Seq::<Seq<char>>::empty());
        assert(after_a.defaults =~= sc.defaults);
    }
}

pub proof fn lemma_take_keys<V>(pairs: Seq<(Seq<char>, V)>, t: int)
    requires
        0 <= t < pairs.len(),
    ensures
        forall|k: Seq<char>| has_key(pairs.take(t + 1), k) <==> (has_key(pairs.take(t), k) || k == pairs[t].0),
{
    assert forall|k: Seq<char>| has_key(pairs.take(t + 1), k) <==> (has_key(pairs.take(t), k) || k == pairs[t].0) by {
        if has_key(pairs.take(t + 1), k) {
            let j = choose|j: int| 0 <= j < pairs.take(t + 1).len() && #[trigger] pairs.take(t + 1)[j].0 == k;
            if j < t {
                assert(pairs.take(t)[j] == pairs[j]);
            }
        }
        if has_key(pairs.take(t), k) {
            let j = choose|j: int| 0 <= j < pairs.take(t).len() && #[trigger] pairs.take(t)[j].0 == k;
            assert(pairs.take(t + 1)[j] == pairs[j]);
        }
        if k == pairs[t].0 {
            assert(pairs.take(t + 1)[t] == pairs[t]);
        }
    }
}

proof fn lemma_trimmed_pieces_trimmed(ps: Seq<Seq<char>>)
    requires
        forall|j: int| 0 <= j < ps.len() ==> !(#[trigger] ps[j]).contains(';') && !ps[j].contains('='),
    ensures
        forall|i: int| 0 <= i < trimmed_pieces(ps).len() ==> {
            let x = #[trigger] trimmed_pieces(ps)[i];
            trim(x) == x && !x.contains(';') && !x.contains('=')
        },
    decreases ps.len(),
{
    if ps.len() > 0 {
        lemma_trimmed_pieces_trimmed(ps.drop_last());
        let t = trim(ps.last());
        lemma_trim_idempotent(ps.last());
        assert(!ps[ps.len() - 1].contains(';') && !ps[ps.len() - 1].contains('='));
        assert(!t.contains(';') && !t.contains('='));
        let init = trimmed_pieces(ps.drop_last());
        assert forall|i: int| 0 <= i < trimmed_pieces(ps).len() implies {
            let x = #[trigger] trimmed_pieces(ps)[i];
            trim(x) == x && !x.contains(';') && !x.contains('=')
        } by {
            if i < init.len() {
                assert(trimmed_pieces(ps)[i] == init[i]);
            }
        }
    }
}

/// The mime type and the ids of a line that reads as an association are clean.
proof fn lemma_parsed_line_clean(line: Seq<char>)
    ensures
        parse_association_line(line) matches LineParse::Parsed(m, ids) ==> {
            &&& clean_mime_text(m)
            &&& forall|i: int| 0 <= i < ids.len() ==> clean_id_text(#[trigger] ids[i])
        },
{
    let c = split(line, '=');
    if let LineParse::Parsed(m, ids) = parse_association_line(line) {
        lemma_split_pieces_lack(line, '=');
        assert(!c[0].contains('=') && !c[1].contains('='));
        lemma_trim_idempotent(c[0]);
        lemma_trim_idempotent(c[1]);
        let t = trim(c[1]);
        assert(!t.contains('='));
        lemma_first_bad_id_none(ids);
        if !t.contains(';') {
            assert(ids == seq![t]);
            assert forall|i: int| 0 <= i < ids.len() implies clean_id_text(#[trigger] ids[i]) by {
                assert(ids[i] == t);
                assert(ends_with(ids[i], desktop_suffix()));
            }
        } else {
            lemma_split_pieces_lack(t, ';');
            let ps = split(t, ';');
            assert forall|j: int| 0 <= j < ps.len() implies !(#[trigger] ps[j]).contains(';') && !ps[j].contains('=') by {
                assert(!split(t, ';')[j].contains('='));
            }
            lemma_trimmed_pieces_trimmed(ps);
            assert forall|i: int| 0 <= i < ids.len() implies clean_id_text(#[trigger] ids[i]) by {
                assert(ids[i] == trimmed_pieces(ps)[i]);
                assert(ends_with(ids[i], desktop_suffix()));
            }
        }
    }
}

/// What the lines of a mimeapps list give is clean, with finitely many mime types.
proof fn lemma_scan_clean(lines: Seq<Seq<char>>)
    ensures
        scan_list_lines(lines).added.dom().finite(),
        scan_list_lines(lines).defaults.dom().finite(),
        forall|k: Seq<char>| #[trigger] scan_list_lines(lines).added.contains_key(k) ==> clean_mime_text(k)
            && (forall|j: int| 0 <= j < scan_list_lines(lines).added[k].len() ==> clean_id_text(#[trigger] scan_list_lines(lines).added[k][j])),
        forall|k: Seq<char>| #[trigger] scan_list_lines(lines).defaults.contains_key(k) ==> clean_mime_text(k) && clean_id_text(scan_list_lines(lines).defaults[k]),
    decreases lines.len(),
{
    if lines.len() > 0 {
        lemma_scan_clean(lines.drop_last());
        let raw = lines.last();
        lemma_parsed_line_clean(trim(raw));
    }
}

/// A mimeapps list that reads without error, once written back, reads again as the same
/// associations: the default applications all, the added associations all but the empty
/// lists, which no written line holds.
pub proof fn lemma_loaded_scope_reads_back(lines: Seq<Seq<char>>, sc: AssocScopeView)
    requires
        scan_list_lines(lines).error is None,
        sc.added == scan_list_lines(lines).added,
        sc.defaults == scan_list_lines(lines).defaults,
    ensures
        scan_list_lines(scope_text_lines(sc)).error is None,
        scan_list_lines(scope_text_lines(sc)).added == nonempty_added(sc.added),
        scan_list_lines(scope_text_lines(sc)).defaults == sc.defaults,
{
    lemma_scan_clean(lines);
    lemma_written_scope_reads_back(sc);
}

} // verus!
