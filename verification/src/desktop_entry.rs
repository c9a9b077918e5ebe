//! Desktop entries (`.desktop` files) and their identifiers.

use core::cmp::Ordering;
use vstd::prelude::*;
use crate::assoc::{has_key, keys_unique, lemma_key_index, lemma_to_map_empty, lemma_to_map_push, lemma_to_map_update, to_map};
use crate::error::MimeAssocError;
use crate::mime_type::{is_mime_type_text, MimeType};
use crate::text::{Textual, 
    chars_of, compare_str, concat_str, ends_with, ends_with_char, ends_with_str, find_char_from,
    first_index, lex_compare, split, split_on, starts_with_char, str_equals, substring, trim,
    trimmed, views,
};

verus! {

pub open spec fn desktop_suffix() -> Seq<char> {
    seq!['.', 'd', 'e', 's', 'k', 't', 'o', 'p']
}

/// The identifier of a desktop entry: its file name, ending with `.desktop`.
#[derive(Debug, Clone, PartialEq, Eq, Hash, PartialOrd, Ord)]
pub struct DesktopEntryId {
    id: String,
}

impl View for DesktopEntryId {
    type V = Seq<char>;

    closed spec fn view(&self) -> Seq<char> {
        self.id@
    }
}

impl DesktopEntryId {
    /// Accepts `desktop_entry` where it ends with `.desktop`.
    pub fn parse(desktop_entry: &str) -> (r: Result<DesktopEntryId, MimeAssocError>)
        ensures
            r is Ok <==> ends_with(desktop_entry@, desktop_suffix()),
            r matches Ok(id) ==> id@ == desktop_entry@,
            r matches Err(e) ==> (e matches MimeAssocError::InvalidDesktopEntryId(t) && t@ == desktop_entry@),
    {
        let suffix = ".desktop";
        proof {
            reveal_strlit(".desktop");
            assert(suffix@ =~= desktop_suffix());
        }
        if ends_with_str(desktop_entry, suffix) {
            Ok(DesktopEntryId { id: desktop_entry.to_owned() })
        } else {
            Err(MimeAssocError::InvalidDesktopEntryId(desktop_entry.to_owned()))
        }
    }

    /// The full identifier, e.g. `org.gnome.Evince.desktop`.
    pub fn id(&self) -> (r: &str)
        ensures
            r@ == self@,
    {
        self.id.as_str()
    }

    /// `true` when both name the same entry.
    pub fn same_as(&self, other: &DesktopEntryId) -> (r: bool)
        ensures
            r == (self@ == other@),
    {
        self.id == other.id
    }

    /// A copy with the same text.
    pub fn duplicate(&self) -> (r: DesktopEntryId)
        ensures
            r@ == self@,
    {
        DesktopEntryId { id: self.id.clone() }
    }

    /// The text, owned: what `Display` prints.
    pub fn to_string(&self) -> (r: String)
        ensures
            r@ == self@,
    {
        self.id.clone()
    }
}

/// The value of a desktop entry's `Type` field.
#[derive(Debug, Clone, Copy, PartialEq, Eq, Structural)]
pub enum DesktopEntryType {
    Application,
    Other,
}

pub open spec fn application_text() -> Seq<char> {
    seq!['A', 'p', 'p', 'l', 'i', 'c', 'a', 't', 'i', 'o', 'n']
}

pub open spec fn entry_type_of(text: Seq<char>) -> DesktopEntryType {
    if trim(text) == application_text() {
        DesktopEntryType::Application
    } else {
        DesktopEntryType::Other
    }
}

impl DesktopEntryType {
    /// `Application` where the trimmed text is `Application`, else `Other`.
    pub fn parse(text: &str) -> (r: DesktopEntryType)
        ensures
            r == entry_type_of(text@),
    {
        let t = trimmed(text);
        let application = "Application";
        proof {
            reveal_strlit("Application");
            assert(application@ =~= application_text());
        }
        if str_equals(t.as_str(), application) {
            DesktopEntryType::Application
        } else {
            DesktopEntryType::Other
        }
    }
}

pub open spec fn desktop_entry_section_text() -> Seq<char> {
    seq!['[', 'D', 'e', 's', 'k', 't', 'o', 'p', ' ', 'E', 'n', 't', 'r', 'y', ']']
}

/// `true` when the trimmed line is a `[...]` section header.
pub open spec fn is_section_line(line: Seq<char>) -> bool {
    let t = trim(line);
    t.len() > 0 && t[0] == '[' && t.last() == ']'
}

/// The sections of a desktop entry file that are read; only `[Desktop Entry]`.
#[derive(Debug, Clone, Copy, PartialEq, Eq, Structural)]
pub enum DesktopEntrySections {
    DesktopEntry,
}

impl DesktopEntrySections {
    /// `true` when the trimmed line starts with `[` and ends with `]`.
    pub fn appears_to_be_desktop_entry_line(line: &str) -> (r: bool)
        ensures
            r == is_section_line(line@),
    {
        let t = trimmed(line);
        starts_with_char(t.as_str(), '[') && ends_with_char(t.as_str(), ']')
    }

    /// `DesktopEntry` where the trimmed text is `[Desktop Entry]`.
    pub fn try_parse(desc: &str) -> (r: Option<DesktopEntrySections>)
        ensures
            r is Some <==> trim(desc@) == desktop_entry_section_text(),
    {
        let t = trimmed(desc);
        let header = "[Desktop Entry]";
        proof {
            reveal_strlit("[Desktop Entry]");
            assert(header@ =~= desktop_entry_section_text());
        }
        if str_equals(t.as_str(), header) {
            Some(DesktopEntrySections::DesktopEntry)
        } else {
            None
        }
    }
}

/// What the lines of a desktop entry file have given so far.
pub ghost struct DesktopScan {
    pub in_entry: bool,
    pub fields: Map<Seq<char>, Seq<char>>,
    pub mime_types: Seq<Seq<char>>,
    pub malformed: Option<Seq<char>>,
}

pub open spec fn mime_type_key() -> Seq<char> {
    seq!['M', 'i', 'm', 'e', 'T', 'y', 'p', 'e']
}

/// The mime types listed in a `MimeType=` value: its `;` separated pieces that are mime types.
pub open spec fn mime_types_of_value(value: Seq<char>) -> Seq<Seq<char>> {
    keep_mime_types(split(value, ';'))
}

/// The pieces that are mime types, in order.
pub open spec fn keep_mime_types(s: Seq<Seq<char>>) -> Seq<Seq<char>>
    decreases s.len(),
{
    if s.len() == 0 {
        s
    } else if is_mime_type_text(s.last()) {
        keep_mime_types(s.drop_last()).push(s.last())
    } else {
        keep_mime_types(s.drop_last())
    }
}

/// One line of a desktop entry file read into the scan.
pub open spec fn scan_desktop_line(st: DesktopScan, raw: Seq<char>) -> DesktopScan {
    let line = trim(raw);
    if st.malformed is Some {
        st
    } else if line.len() == 0 || line[0] == '#' {
        st
    } else if is_section_line(line) {
        DesktopScan { in_entry: trim(line) == desktop_entry_section_text(), ..st }
    } else if !st.in_entry {
        st
    } else if first_index(line, '=') >= line.len() {
        DesktopScan { malformed: Some(line), ..st }
    } else {
        let i = first_index(line, '=') as int;
        let name = trim(line.take(i));
        let value = trim(line.skip(i + 1));
        if name == mime_type_key() {
            DesktopScan { mime_types: st.mime_types + mime_types_of_value(value), ..st }
        } else {
            DesktopScan { fields: st.fields.insert(name, value), ..st }
        }
    }
}

/// The lines of a desktop entry file read in order.
pub open spec fn scan_desktop_lines(lines: Seq<Seq<char>>) -> DesktopScan
    decreases lines.len(),
{
    if lines.len() == 0 {
        DesktopScan { in_entry: false, fields: Map::empty(), mime_types: Seq::empty(), malformed: None }
    } else {
        scan_desktop_line(scan_desktop_lines(lines.drop_last()), lines.last())
    }
}

/// Once a malformed line is met, the scan keeps it whatever lines follow.
pub proof fn lemma_scan_malformed_sticks(lines: Seq<Seq<char>>, i: int)
    requires
        0 <= i <= lines.len(),
        scan_desktop_lines(lines.take(i)).malformed is Some,
    ensures
        scan_desktop_lines(lines) == scan_desktop_lines(lines.take(i)),
    decreases lines.len() - i,
{
    if i < lines.len() {
        assert(lines.take(i + 1).drop_last() =~= lines.take(i));
        lemma_scan_malformed_sticks(lines, i + 1);
    } else {
        assert(lines.take(i) =~= lines);
    }
}

/// A scan outside `[Desktop Entry]`, or stopped at a malformed line, is left as it is by lines
/// that are no section header.
proof fn lemma_scan_outside_entry_keeps(pre: Seq<Seq<char>>, rest: Seq<Seq<char>>)
    requires
        scan_desktop_lines(pre).malformed is Some || !scan_desktop_lines(pre).in_entry,
        forall|j: int| 0 <= j < rest.len() ==> !is_section_line(trim(#[trigger] rest[j])),
    ensures
        scan_desktop_lines(pre + rest) == scan_desktop_lines(pre),
    decreases rest.len(),
{
    if rest.len() == 0 {
        assert(pre + rest =~= pre);
    } else {
        assert forall|j: int| 0 <= j < rest.drop_last().len() implies !is_section_line(trim(#[trigger] rest.drop_last()[j])) by {
            assert(rest.drop_last()[j] == rest[j]);
        }
        lemma_scan_outside_entry_keeps(pre, rest.drop_last());
        assert((pre + rest).drop_last() =~= pre + rest.drop_last());
        assert((pre + rest).last() == rest[rest.len() - 1]);
    }
}

/// Only the `[Desktop Entry]` section is read: after the header of any other section (such
/// as `[Desktop Action new-window]`), the lines up to the next section header change neither
/// the fields, nor the mime types, nor whether the file is malformed, whatever came before.
pub proof fn lemma_other_sections_are_skipped(pre: Seq<Seq<char>>, header: Seq<char>, rest: Seq<Seq<char>>)
    requires
        is_section_line(header),
        trim(header) != desktop_entry_section_text(),
        forall|j: int| 0 <= j < rest.len() ==> !is_section_line(trim(#[trigger] rest[j])),
    ensures
        scan_desktop_lines(pre.push(header) + rest).fields == scan_desktop_lines(pre).fields,
        scan_desktop_lines(pre.push(header) + rest).mime_types == scan_desktop_lines(pre).mime_types,
        scan_desktop_lines(pre.push(header) + rest).malformed == scan_desktop_lines(pre).malformed,
{
    crate::text::lemma_trim_idempotent(header);
    let st = scan_desktop_lines(pre);
    assert(pre.push(header).drop_last() =~= pre);
    let st1 = scan_desktop_lines(pre.push(header));
    assert(st1 == scan_desktop_line(st, header));
    if st.malformed is None {
        let line = trim(header);
        assert(is_section_line(line));
        assert(line.len() > 0 && line[0] == '[');
        assert(!st1.in_entry);
    }
    lemma_scan_outside_entry_keeps(pre.push(header), rest);
}

/// Names what `Path::file_name` gives for a path, as text.
pub uninterp spec fn spec_path_file_name(path: Seq<char>) -> Option<Seq<char>>;

/// Calls `std::path::Path::file_name` on `path`. Claimed: the result is the file name that
/// `Path::file_name` gives, as text, and `None` exactly where it gives none.
#[verifier::external_body]
fn path_file_name(path: &str) -> (r: Option<String>)
    ensures
        r is Some <==> spec_path_file_name(path@) is Some,
        r matches Some(name) ==> spec_path_file_name(path@) == Some(name@),
{
    std::path::Path::new(path).file_name().and_then(|n| n.to_str()).map(|n| n.to_owned())
}

/// Names what `str::to_lowercase` gives for a text.
pub uninterp spec fn spec_to_lowercase(s: Seq<char>) -> Seq<char>;

/// Calls `str::to_lowercase`. Claimed: the result is the Unicode lower case of `s`, a
/// function of `s` alone.
#[verifier::external_body]
pub(crate) fn to_lowercase(s: &str) -> (r: String)
    ensures
        r@ == spec_to_lowercase(s@),
{
    s.to_lowercase()
}

/// Names what `str::to_uppercase` gives for a text.
pub uninterp spec fn spec_to_uppercase(s: Seq<char>) -> Seq<char>;

/// Calls `str::to_uppercase`. Claimed: the result is the Unicode upper case of `s`, a
/// function of `s` alone.
#[verifier::external_body]
pub(crate) fn to_uppercase(s: &str) -> (r: String)
    ensures
        r@ == spec_to_uppercase(s@),
{
    s.to_uppercase()
}

/// Where a program of an `Exec` command is to be found: a program holding a `/` is the path
/// given (`Some`); any other is to be looked up on `PATH` (`None`).
pub fn program_lookup(program: &str) -> (r: Option<String>)
    ensures
        r is Some <==> program@.contains('/'),
        r matches Some(p) ==> p@ == program@,
{
    if crate::text::contains_char(program, '/') {
        Some(program.to_owned())
    } else {
        None
    }
}

/// What a desktop entry holds.
pub ghost struct DesktopEntryView {
    pub path: Seq<char>,
    pub fields: Map<Seq<char>, Seq<char>>,
    pub mime_types: Seq<Seq<char>>,
    pub id: Seq<char>,
    pub executable_resolves: bool,
}

pub open spec fn field_pairs(v: Seq<(String, String)>) -> Seq<(Seq<char>, Seq<char>)> {
    v.map_values(|p: (String, String)| (p.0@, p.1@))
}

pub open spec fn mime_views(v: Seq<MimeType>) -> Seq<Seq<char>> {
    v.map_values(|m: MimeType| m@)
}

/// The value of field `key`, if the entry has it.
pub open spec fn field_of(e: DesktopEntryView, key: Seq<char>) -> Option<Seq<char>> {
    if e.fields.contains_key(key) {
        Some(e.fields[key])
    } else {
        None
    }
}

pub open spec fn opt_view(o: Option<&str>) -> Option<Seq<char>> {
    match o {
        Some(s) => Some(s@),
        None => None,
    }
}

pub open spec fn name_key() -> Seq<char> {
    seq!['N', 'a', 'm', 'e']
}

pub open spec fn icon_key() -> Seq<char> {
    seq!['I', 'c', 'o', 'n']
}

pub open spec fn exec_key() -> Seq<char> {
    seq!['E', 'x', 'e', 'c']
}

pub open spec fn type_key() -> Seq<char> {
    seq!['T', 'y', 'p', 'e']
}

/// The key of a localised name: `Name[locale]`.
pub open spec fn localised_name_key(locale: Seq<char>) -> Seq<char> {
    seq!['N', 'a', 'm', 'e', '['] + locale + seq![']']
}

/// The program that the `Exec` command launches: the text before its first space.
pub open spec fn program_of(command: Seq<char>) -> Seq<char> {
    command.take(first_index(command, ' ') as int)
}

/// `true` when the entry has a name and an icon, is of type `Application`, and its program
/// was found and is executable.
pub open spec fn valid_application(e: DesktopEntryView) -> bool {
    &&& e.fields.contains_key(name_key())
    &&& e.fields.contains_key(icon_key())
    &&& e.fields.contains_key(type_key())
    &&& entry_type_of(e.fields[type_key()]) == DesktopEntryType::Application
    &&& e.executable_resolves
}

/// A desktop entry: the fields of its `[Desktop Entry]` section, its mime types and id.
#[derive(Debug, PartialEq, Eq)]
pub struct DesktopEntry {
    path: String,
    fields: Vec<(String, String)>,
    mime_types: Vec<MimeType>,
    id: DesktopEntryId,
    executable_resolves: bool,
}

impl View for DesktopEntry {
    type V = DesktopEntryView;

    closed spec fn view(&self) -> DesktopEntryView {
        DesktopEntryView {
            path: self.path@,
            fields: to_map(field_pairs(self.fields@)),
            mime_types: mime_views(self.mime_types@),
            id: self.id@,
            executable_resolves: self.executable_resolves,
        }
    }
}

impl DesktopEntry {
    #[verifier::type_invariant]
    closed spec fn fields_unique(self) -> bool {
        keys_unique(field_pairs(self.fields@))
    }

    /// Where the pair with key `key` stands, if any.
    fn field_position(fields: &Vec<(String, String)>, key: &str) -> (r: Option<usize>)
        ensures
            r matches Some(i) ==> i < fields@.len() && fields@[i as int].0@ == key@,
            r is None ==> !has_key(field_pairs(fields@), key@),
    {
        let mut i: usize = 0;
        while i < fields.len()
            invariant
                i <= fields@.len(),
                forall|j: int| 0 <= j < i ==> fields@[j].0@ != key@,
            decreases fields@.len() - i,
        {
            if str_equals(fields[i].0.as_str(), key) {
                return Some(i);
            }
            i = i + 1;
        }
        proof {
            if has_key(field_pairs(fields@), key@) {
                let j = choose|j: int| 0 <= j < fields@.len() && #[trigger] field_pairs(fields@)[j].0 == key@;
                assert(field_pairs(fields@)[j].0 == fields@[j].0@);
            }
        }
        None
    }

    /// The value of field `key`.
    fn field(&self, key: &str) -> (r: Option<&str>)
        ensures
            opt_view(r) == field_of(self@, key@),
    {
        proof {
            use_type_invariant(self);
        }
        match Self::field_position(&self.fields, key) {
            Some(i) => {
                proof {
                    lemma_key_index(field_pairs(self.fields@), i as int);
                }
                Some(self.fields[i].1.as_str())
            },
            None => None,
        }
    }

    /// Reads a desktop entry from the lines of its file at `path`: the fields of its
    /// `[Desktop Entry]` section (comments and blank lines skipped), with `MimeType` split
    /// into mime types. Fails on a line with no `=` in that section, on a file with no field,
    /// and where the file name is no desktop entry id.
    pub fn load(path: &str, lines: &Vec<String>) -> (r: Result<DesktopEntry, MimeAssocError>)
        ensures
            ({
                let scan = scan_desktop_lines(views(lines@));
                match r {
                    Ok(e) => {
                        &&& scan.malformed is None
                        &&& scan.fields != Map::<Seq<char>, Seq<char>>::empty()
                        &&& spec_path_file_name(path@) == Some(e@.id)
                        &&& ends_with(e@.id, desktop_suffix())
                        &&& e@.path == path@
                        &&& e@.fields == scan.fields
                        &&& e@.mime_types == scan.mime_types
                        &&& !e@.executable_resolves
                    },
                    Err(err) => {
                        ||| (scan.malformed matches Some(l) && (err matches MimeAssocError::MalformedDesktopEntryLine(t) && t@ == l))
                        ||| (scan.malformed is None && scan.fields == Map::<Seq<char>, Seq<char>>::empty() && err == MimeAssocError::NoDesktopEntryFields)
                        ||| (scan.malformed is None && scan.fields != Map::<Seq<char>, Seq<char>>::empty() && match spec_path_file_name(path@) {
                            None => err matches MimeAssocError::NoFileName(t) && t@ == path@,
                            Some(name) => !ends_with(name, desktop_suffix()) && (err matches MimeAssocError::InvalidDesktopEntryId(t) && t@ == name),
                        })
                    },
                }
            }),
    {
        let mut in_entry = false;
        let mut fields: Vec<(String, String)> = Vec::new();
        let mut mime_types: Vec<MimeType> = Vec::new();
        let mime_type_name = "MimeType";
        proof {
            reveal_strlit("MimeType");
            assert(mime_type_name@ =~= mime_type_key());
            lemma_to_map_empty(field_pairs(fields@));
            assert(views(lines@).take(0) =~= Seq::<Seq<char>>::empty());
        }
        let mut i: usize = 0;
        while i < lines.len()
            invariant
                i <= lines@.len(),
                mime_type_name@ == mime_type_key(),
                keys_unique(field_pairs(fields@)),
                ({
                    let scan = scan_desktop_lines(views(lines@).take(i as int));
                    &&& scan.malformed is None
                    &&& scan.in_entry == in_entry
                    &&& scan.fields == to_map(field_pairs(fields@))
                    &&& scan.mime_types == mime_views(mime_types@)
                }),
            decreases lines@.len() - i,
        {
            let ghost before = scan_desktop_lines(views(lines@).take(i as int));
            proof {
                assert(views(lines@).take(i + 1).drop_last() =~= views(lines@).take(i as int));
                assert(views(lines@).take(i + 1).last() == lines@[i as int]@);
            }
            let line = trimmed(lines[i].as_str());
            let lc = chars_of(line.as_str());
            if lc.len() == 0 || lc[0] == '#' {
                i = i + 1;
                continue;
            }
            if DesktopEntrySections::appears_to_be_desktop_entry_line(line.as_str()) {
                in_entry = DesktopEntrySections::try_parse(line.as_str()).is_some();
                i = i + 1;
                continue;
            }
            if !in_entry {
                i = i + 1;
                continue;
            }
            assert(lc@.skip(0) =~= lc@);
            let eq = find_char_from(&lc, 0, '=');
            if eq >= lc.len() {
                proof {
                    lemma_scan_malformed_sticks(views(lines@), i + 1);
                }
                return Err(MimeAssocError::MalformedDesktopEntryLine(line));
            }
            let name_raw = substring(line.as_str(), 0, eq);
            let value_raw = substring(line.as_str(), eq + 1, lc.len());
            let name = trimmed(name_raw.as_str());
            let value = trimmed(value_raw.as_str());
            proof {
                assert(line@.take(eq as int) =~= name_raw@);
                assert(line@.skip(eq + 1) =~= value_raw@);
            }
            if str_equals(name.as_str(), mime_type_name) {
                let pieces = split_on(value.as_str(), ';');
                let ghost start = mime_views(mime_types@);
                let mut k: usize = 0;
                assert(keep_mime_types(split(value@, ';').take(0)) =~= Seq::<Seq<char>>::empty());
                while k < pieces.len()
                    invariant
                        k <= pieces@.len(),
                        views(pieces@) == split(value@, ';'),
                        mime_views(mime_types@) == start + keep_mime_types(split(value@, ';').take(k as int)),
                    decreases pieces@.len() - k,
                {
                    let ghost before_k = mime_views(mime_types@);
                    proof {
                        let sp = split(value@, ';');
                        assert(sp.take(k + 1).drop_last() =~= sp.take(k as int));
                        assert(sp.take(k + 1).last() == pieces@[k as int]@);
                        assert(sp.take(k + 1) =~= sp.take(k as int).push(pieces@[k as int]@));
                    }
                    match MimeType::parse(pieces[k].as_str()) {
                        Ok(m) => {
                            mime_types.push(m);
                            assert(mime_views(mime_types@) =~= before_k.push(pieces@[k as int]@));
                        },
                        Err(_) => {},
                    }
                    k = k + 1;
                }
                assert(split(value@, ';').take(pieces@.len() as int) =~= split(value@, ';'));
            } else {
                match Self::field_position(&fields, name.as_str()) {
                    Some(p) => {
                        proof {
                            lemma_to_map_update(field_pairs(fields@), p as int, value@);
                        }
                        let ghost old_fields = fields@;
                        fields.set(p, (name, value));
                        proof {
                            assert(field_pairs(fields@) =~= field_pairs(old_fields).update(p as int, (field_pairs(old_fields)[p as int].0, value@)));
                        }
                    },
                    None => {
                        proof {
                            lemma_to_map_push(field_pairs(fields@), name@, value@);
                        }
                        let ghost old_fields = fields@;
                        let ghost nv = name@;
                        let ghost vv = value@;
                        fields.push((name, value));
                        proof {
                            assert(field_pairs(fields@) =~= field_pairs(old_fields).push((nv, vv)));
                        }
                    },
                }
            }
            i = i + 1;
        }
        proof {
            assert(views(lines@).take(lines@.len() as int) =~= views(lines@));
        }
        if fields.len() == 0 {
            proof {
                assert(to_map(field_pairs(fields@)) =~= Map::<Seq<char>, Seq<char>>::empty());
            }
            return Err(MimeAssocError::NoDesktopEntryFields);
        }
        proof {
            crate::assoc::lemma_key_index(field_pairs(fields@), 0);
            assert(to_map(field_pairs(fields@)).dom().contains(field_pairs(fields@)[0].0));
            assert(!Map::<Seq<char>, Seq<char>>::empty().dom().contains(field_pairs(fields@)[0].0));
        }
        let file_name = match path_file_name(path) {
            Some(n) => n,
            None => {
                return Err(MimeAssocError::NoFileName(path.to_owned()));
            },
        };
        let id = match DesktopEntryId::parse(file_name.as_str()) {
            Ok(id) => id,
            Err(e) => {
                return Err(e);
            },
        };
        Ok(DesktopEntry { path: path.to_owned(), fields, mime_types, id, executable_resolves: false })
    }
}

/// The text an entry is sorted by: its name, or its id where it has none.
pub open spec fn sort_name(e: DesktopEntryView) -> Seq<char> {
    match field_of(e, name_key()) {
        Some(n) => n,
        None => e.id,
    }
}

/// `true` when the entry declares the mime type.
pub open spec fn supports_mime_type(e: DesktopEntryView, m: Seq<char>) -> bool {
    e.mime_types.contains(m)
}

impl DesktopEntry {
    /// The `Name` field.
    pub fn name(&self) -> (r: Option<&str>)
        ensures
            opt_view(r) == field_of(self@, name_key()),
    {
        let key = "Name";
        proof {
            reveal_strlit("Name");
            assert(key@ =~= name_key());
        }
        self.field(key)
    }

    /// The `Name[locale]` field.
    pub fn localised_name(&self, locale: &str) -> (r: Option<&str>)
        ensures
            opt_view(r) == field_of(self@, localised_name_key(locale@)),
    {
        let open = "Name[";
        let close = "]";
        proof {
            reveal_strlit("Name[");
            reveal_strlit("]");
        }
        let key = concat_str(concat_str(open, locale).as_str(), close);
        assert(key@ =~= localised_name_key(locale@));
        self.field(key.as_str())
    }

    /// The `Icon` field.
    pub fn icon(&self) -> (r: Option<&str>)
        ensures
            opt_view(r) == field_of(self@, icon_key()),
    {
        let key = "Icon";
        proof {
            reveal_strlit("Icon");
            assert(key@ =~= icon_key());
        }
        self.field(key)
    }

    /// The `Exec` field.
    pub fn executable_command(&self) -> (r: Option<&str>)
        ensures
            opt_view(r) == field_of(self@, exec_key()),
    {
        let key = "Exec";
        proof {
            reveal_strlit("Exec");
            assert(key@ =~= exec_key());
        }
        self.field(key)
    }

    /// The program that `executable_command` launches: the command up to its first space.
    /// A program holding a `/` is a path; any other is looked up on `PATH`.
    pub fn executable_program(&self) -> (r: Result<String, MimeAssocError>)
        ensures
            match field_of(self@, exec_key()) {
                Some(command) => r matches Ok(p) && p@ == program_of(command),
                None => r matches Err(e) && e == MimeAssocError::NoExecutableCommand,
            },
    {
        match self.executable_command() {
            Some(command) => {
                let cs = chars_of(command);
                assert(cs@.skip(0) =~= cs@);
                let i = find_char_from(&cs, 0, ' ');
                Ok(substring(command, 0, i))
            },
            None => Err(MimeAssocError::NoExecutableCommand),
        }
    }

    /// The `Type` field, parsed.
    pub fn entry_type(&self) -> (r: Option<DesktopEntryType>)
        ensures
            r == (match field_of(self@, type_key()) {
                Some(t) => Some(entry_type_of(t)),
                None => None::<DesktopEntryType>,
            }),
    {
        let key = "Type";
        proof {
            reveal_strlit("Type");
            assert(key@ =~= type_key());
        }
        match self.field(key) {
            Some(t) => Some(DesktopEntryType::parse(t)),
            None => None,
        }
    }

    /// Records whether the program of `Exec` was found and is executable; the file system
    /// check is made by the caller.
    pub fn set_executable_resolves(&mut self, resolves: bool)
        ensures
            final(self)@ == (DesktopEntryView { executable_resolves: resolves, ..old(self)@ }),
    {
        proof {
            use_type_invariant(&*self);
        }
        self.executable_resolves = resolves;
    }

    /// `true` when the entry has a `Name` and an `Icon`, is of `Type` `Application`, and its
    /// program was found and is executable.
    pub fn appears_valid_application(&self) -> (r: bool)
        ensures
            r == valid_application(self@),
    {
        let has_name = self.name().is_some();
        let has_icon = self.icon().is_some();
        let is_application = match self.entry_type() {
            Some(DesktopEntryType::Application) => true,
            _ => false,
        };
        has_name && has_icon && is_application && self.executable_resolves
    }

    pub fn id(&self) -> (r: &DesktopEntryId)
        ensures
            r@ == self@.id,
    {
        &self.id
    }

    /// The path the entry was read from.
    pub fn path(&self) -> (r: &str)
        ensures
            r@ == self@.path,
    {
        self.path.as_str()
    }

    pub fn mime_types(&self) -> (r: &Vec<MimeType>)
        ensures
            mime_views(r@) == self@.mime_types,
    {
        &self.mime_types
    }

    /// `true` when the entry declares `mime_type`.
    pub fn can_open_mime_type(&self, mime_type: &MimeType) -> (r: bool)
        ensures
            r == supports_mime_type(self@, mime_type@),
    {
        let mut i: usize = 0;
        while i < self.mime_types.len()
            invariant
                i <= self.mime_types@.len(),
                forall|j: int| 0 <= j < i ==> self.mime_types@[j]@ != mime_type@,
            decreases self.mime_types@.len() - i,
        {
            if self.mime_types[i].same_as(mime_type) {
                assert(mime_views(self.mime_types@)[i as int] == mime_type@);
                return true;
            }
            i = i + 1;
        }
        proof {
            if mime_views(self.mime_types@).contains(mime_type@) {
                let j = choose|j: int| 0 <= j < mime_views(self.mime_types@).len() && mime_views(self.mime_types@)[j] == mime_type@;
                assert(mime_views(self.mime_types@)[j] == self.mime_types@[j]@);
            }
        }
        false
    }

    /// The text the entry sorts by: its name, or its id.
    pub fn sort_name(&self) -> (r: &str)
        ensures
            r@ == sort_name(self@),
    {
        match self.name() {
            Some(n) => n,
            None => self.id.id(),
        }
    }

    /// Orders two entries by their names (ids where they have none), ignoring case.
    pub fn cmp_by_name_alpha_inensitive(&self, other: &DesktopEntry) -> (r: Ordering)
        ensures
            ({
                let c = lex_compare(spec_to_lowercase(sort_name(self@)), spec_to_lowercase(sort_name(other@)));
                &&& (r == Ordering::Less <==> c < 0)
                &&& (r == Ordering::Equal <==> c == 0)
                &&& (r == Ordering::Greater <==> c > 0)
            }),
    {
        let name = to_lowercase(self.sort_name());
        let other_name = to_lowercase(other.sort_name());
        let c = compare_str(name.as_str(), other_name.as_str());
        if c < 0 {
            Ordering::Less
        } else if c == 0 {
            Ordering::Equal
        } else {
            Ordering::Greater
        }
    }
}
impl Textual for DesktopEntryId {
    open spec fn text(&self) -> Seq<char> {
        self@
    }

    fn as_text(&self) -> (r: &str) {
        self.id()
    }
}

} // verus!
