//! The desktop entries installed in a chain of directories, earlier ones overriding later ones.

use vstd::prelude::*;
use crate::mime_type::MimeType;
use crate::text::{insert_sorted_unique, texts, lemma_sorted_unique, strictly_sorted, compare_str, concat_str, ends_with, ends_with_str, eq_ignore_ascii_case, lemma_lex_compare_antisym, lemma_lex_compare_equal, lemma_lex_compare_trans, lex_compare, split, split_on, str_eq_ignore_ascii_case, views};
use crate::assoc::{has_key, keys_unique, lemma_key_index, lemma_to_map_empty, lemma_to_map_push, lemma_to_map_update, to_map};
use crate::desktop_entry::{
    desktop_suffix, name_key, supports_mime_type, entry_type_of, field_of, type_key, DesktopEntry, DesktopEntryId, DesktopEntryType,
    DesktopEntryView,
};

verus! {

/// What a directory of desktop entries holds: its path and its applications by id.
pub ghost struct EntryScopeView {
    pub directory: Seq<char>,
    pub entries: Map<Seq<char>, DesktopEntryView>,
}

pub open spec fn entry_pairs(v: Seq<DesktopEntry>) -> Seq<(Seq<char>, DesktopEntryView)> {
    v.map_values(|e: DesktopEntry| (e@.id, e@))
}

pub open spec fn entry_views(v: Seq<DesktopEntry>) -> Seq<DesktopEntryView> {
    v.map_values(|e: DesktopEntry| e@)
}

/// `true` when the entry's `Type` is `Application`.
pub open spec fn is_application(e: DesktopEntryView) -> bool {
    match field_of(e, type_key()) {
        Some(t) => entry_type_of(t) == DesktopEntryType::Application,
        None => false,
    }
}

/// The applications among `entries` by id, a later entry with the same id replacing an earlier.
pub open spec fn applications_by_id(entries: Seq<DesktopEntryView>) -> Map<Seq<char>, DesktopEntryView>
    decreases entries.len(),
{
    if entries.len() == 0 {
        Map::empty()
    } else if is_application(entries.last()) {
        applications_by_id(entries.drop_last()).insert(entries.last().id, entries.last())
    } else {
        applications_by_id(entries.drop_last())
    }
}

/// The desktop entries of one directory, such as `/usr/share/applications`.
pub struct DesktopEntryScope {
    directory: String,
    application_entries: Vec<DesktopEntry>,
}

impl View for DesktopEntryScope {
    type V = EntryScopeView;

    closed spec fn view(&self) -> EntryScopeView {
        EntryScopeView { directory: self.directory@, entries: to_map(entry_pairs(self.application_entries@)) }
    }
}

impl DesktopEntryScope {
    #[verifier::type_invariant]
    closed spec fn ids_unique(self) -> bool {
        keys_unique(entry_pairs(self.application_entries@))
    }

    /// The scope of `directory` holding the applications among `entries` (the desktop
    /// entries read from its `.desktop` files): entries of other types are left out.
    pub fn load(directory: &str, entries: Vec<DesktopEntry>) -> (r: DesktopEntryScope)
        ensures
            r@.directory == directory@,
            r@.entries == applications_by_id(entry_views(entries@)),
    {
        let mut kept: Vec<DesktopEntry> = Vec::new();
        let mut rest = entries;
        let ghost all = entry_views(rest@);
        let mut taken: usize = 0;
        let n = rest.len();
        proof {
            lemma_to_map_empty(entry_pairs(kept@));
            assert(all.take(0) =~= Seq::<DesktopEntryView>::empty());
        }
        while rest.len() > 0
            invariant
                all.len() == taken + rest@.len(),
                n == all.len(),
                forall|q: int| 0 <= q < rest@.len() ==> #[trigger] rest@[q]@ == all[taken + q],
                keys_unique(entry_pairs(kept@)),
                to_map(entry_pairs(kept@)) == applications_by_id(all.take(taken as int)),
            decreases rest@.len(),
        {
            let e = rest.remove(0);
            proof {
                assert(e@ == all[taken as int]);
                assert(all.take(taken + 1).drop_last() =~= all.take(taken as int));
                assert(all.take(taken + 1).last() == e@);
            }
            if is_app(&e) {
                match position_of(&kept, e.id()) {
                    Some(p) => {
                        proof {
                            lemma_to_map_update(entry_pairs(kept@), p as int, e@);
                        }
                        let ghost old_kept = kept@;
                        let ghost ev = e@;
                        kept.set(p, e);
                        assert(entry_pairs(kept@) =~= entry_pairs(old_kept).update(p as int, (entry_pairs(old_kept)[p as int].0, ev)));
                    },
                    None => {
                        proof {
                            lemma_to_map_push(entry_pairs(kept@), e@.id, e@);
                        }
                        let ghost old_kept = kept@;
                        let ghost ev = e@;
                        kept.push(e);
                        assert(entry_pairs(kept@) =~= entry_pairs(old_kept).push((ev.id, ev)));
                    },
                }
            }
            taken = taken + 1;
        }
        assert(all.take(taken as int) =~= all);
        DesktopEntryScope { directory: directory.to_owned(), application_entries: kept }
    }

    /// The application with id `id`, if this scope has it.
    pub fn application_entry(&self, id: &DesktopEntryId) -> (r: Option<&DesktopEntry>)
        ensures
            match r {
                Some(e) => self@.entries.contains_key(id@) && e@ == self@.entries[id@] && e@.id == id@,
                None => !self@.entries.contains_key(id@),
            },
    {
        proof {
            use_type_invariant(self);
        }
        match position_of(&self.application_entries, id) {
            Some(p) => {
                proof {
                    lemma_key_index(entry_pairs(self.application_entries@), p as int);
                }
                Some(&self.application_entries[p])
            },
            None => None,
        }
    }

    /// The directory the scope was read from.
    pub fn directory(&self) -> (r: &str)
        ensures
            r@ == self@.directory,
    {
        self.directory.as_str()
    }

    /// The applications of this scope, each once.
    pub fn application_entries(&self) -> (r: &Vec<DesktopEntry>)
        ensures
            keys_unique(entry_pairs(r@)),
            to_map(entry_pairs(r@)) == self@.entries,
    {
        proof {
            use_type_invariant(self);
        }
        &self.application_entries
    }
}

/// `true` when the entry's `Type` is `Application`.
fn is_app(e: &DesktopEntry) -> (r: bool)
    ensures
        r == is_application(e@),
{
    match e.entry_type() {
        Some(DesktopEntryType::Application) => true,
        _ => false,
    }
}

/// Where the entry with id `id` stands in `v`, if anywhere.
fn position_of(v: &Vec<DesktopEntry>, id: &DesktopEntryId) -> (r: Option<usize>)
    ensures
        r matches Some(i) ==> i < v@.len() && v@[i as int]@.id == id@,
        r is None ==> !has_key(entry_pairs(v@), id@),
{
    let mut i: usize = 0;
    while i < v.len()
        invariant
            i <= v@.len(),
            forall|j: int| 0 <= j < i ==> v@[j]@.id != id@,
        decreases v@.len() - i,
    {
        if v[i].id().same_as(id) {
            return Some(i);
        }
        i = i + 1;
    }
    proof {
        if has_key(entry_pairs(v@), id@) {
            let j = choose|j: int| 0 <= j < entry_pairs(v@).len() && #[trigger] entry_pairs(v@)[j].0 == id@;
            assert(entry_pairs(v@)[j].0 == v@[j]@.id);
        }
    }
    None
}

/// The first scope, in chain order, that has an entry with id `id` gives it.
pub open spec fn scope_lookup(scopes: Seq<EntryScopeView>, id: Seq<char>) -> Option<DesktopEntryView>
    decreases scopes.len(),
{
    if scopes.len() == 0 {
        None
    } else if scopes[0].entries.contains_key(id) {
        Some(scopes[0].entries[id])
    } else {
        scope_lookup(scopes.drop_first(), id)
    }
}

/// `true` when some scope has an entry with id `id`.
pub open spec fn installed(scopes: Seq<EntryScopeView>, id: Seq<char>) -> bool {
    exists|s: int| 0 <= s < scopes.len() && #[trigger] scopes[s].entries.contains_key(id)
}

/// The ids of all installed entries, each once, in order.
pub open spec fn sorted_ids(scopes: Seq<EntryScopeView>) -> Seq<Seq<char>> {
    choose|q: Seq<Seq<char>>| strictly_sorted(q) && (forall|id: Seq<char>| q.contains(id) <==> installed(scopes, id))
}

/// The entries in effect, one per installed id, in id order: for each id, the entry of the
/// earliest scope that has it.
pub open spec fn effective_entries(scopes: Seq<EntryScopeView>) -> Seq<DesktopEntryView> {
    sorted_ids(scopes).map_values(|id: Seq<char>| scope_lookup(scopes, id)->0)
}

/// The entries in effect that declare mime type `m`, in id order.
pub open spec fn entries_supporting(entries: Seq<DesktopEntryView>, m: Seq<char>) -> Seq<DesktopEntryView>
    decreases entries.len(),
{
    if entries.len() == 0 {
        entries
    } else if supports_mime_type(entries.last(), m) {
        entries_supporting(entries.drop_last(), m).push(entries.last())
    } else {
        entries_supporting(entries.drop_last(), m)
    }
}

/// The first entry whose `Name` equals `ident`, ignoring ASCII case.
pub open spec fn first_named(entries: Seq<DesktopEntryView>, ident: Seq<char>) -> Option<DesktopEntryView>
    decreases entries.len(),
{
    if entries.len() == 0 {
        None
    } else if (match field_of(entries[0], name_key()) {
        Some(n) => eq_ignore_ascii_case(n, ident),
        None => false,
    }) {
        Some(entries[0])
    } else {
        first_named(entries.drop_first(), ident)
    }
}

/// `true` when the `.`-separated piece of `id` before its last piece equals `ident`,
/// ignoring ASCII case: `org.gnome.Evince.desktop` matches `evince`.
pub open spec fn stem_matches(id: Seq<char>, ident: Seq<char>) -> bool {
    let c = split(id, '.');
    c.len() >= 2 && eq_ignore_ascii_case(c[c.len() - 2], ident)
}

/// The first entry whose id's stem matches `ident`.
pub open spec fn first_with_stem(entries: Seq<DesktopEntryView>, ident: Seq<char>) -> Option<DesktopEntryView>
    decreases entries.len(),
{
    if entries.len() == 0 {
        None
    } else if stem_matches(entries[0].id, ident) {
        Some(entries[0])
    } else {
        first_with_stem(entries.drop_first(), ident)
    }
}

/// What `lookup_desktop_entry` finds for `ident`.
pub open spec fn fuzzy_lookup(scopes: Seq<EntryScopeView>, ident: Seq<char>) -> Option<DesktopEntryView> {
    if ends_with(ident, desktop_suffix()) {
        scope_lookup(scopes, ident)
    } else if scope_lookup(scopes, ident + desktop_suffix()) is Some {
        scope_lookup(scopes, ident + desktop_suffix())
    } else if first_named(effective_entries(scopes), ident) is Some {
        first_named(effective_entries(scopes), ident)
    } else {
        first_with_stem(effective_entries(scopes), ident)
    }
}

pub open spec fn id_views(v: Seq<&DesktopEntryId>) -> Seq<Seq<char>> {
    texts(v)
}

/// `true` when the ids of `s` increase strictly: no id is there twice.
pub open spec fn ids_increasing(s: Seq<DesktopEntryView>) -> bool {
    forall|i: int, j: int| 0 <= i < j < s.len() ==> lex_compare(#[trigger] s[i].id, #[trigger] s[j].id) < 0
}

pub open spec fn ref_views(v: Seq<&DesktopEntry>) -> Seq<DesktopEntryView> {
    v.map_values(|r: &DesktopEntry| r@)
}

pub proof fn lemma_scope_lookup(scopes: Seq<EntryScopeView>, id: Seq<char>)
    ensures
        scope_lookup(scopes, id) is Some <==> installed(scopes, id),
    decreases scopes.len(),
{
    if scopes.len() > 0 {
        lemma_scope_lookup(scopes.drop_first(), id);
        if installed(scopes, id) && !scopes[0].entries.contains_key(id) {
            let s = choose|s: int| 0 <= s < scopes.len() && #[trigger] scopes[s].entries.contains_key(id);
            assert(scopes.drop_first()[s - 1] == scopes[s]);
        }
        if installed(scopes.drop_first(), id) {
            let s = choose|s: int| 0 <= s < scopes.drop_first().len() && #[trigger] scopes.drop_first()[s].entries.contains_key(id);
            assert(scopes[s + 1] == scopes.drop_first()[s]);
        }
    }
}

/// The installed desktop entries, over a chain of directory scopes in preferential order:
/// an entry of an earlier scope overrides one with the same id in a later scope.
pub struct DesktopEntryStore {
    scopes: Vec<DesktopEntryScope>,
}

pub open spec fn scope_views(v: Seq<DesktopEntryScope>) -> Seq<EntryScopeView> {
    v.map_values(|s: DesktopEntryScope| s@)
}

impl View for DesktopEntryStore {
    type V = Seq<EntryScopeView>;

    closed spec fn view(&self) -> Seq<EntryScopeView> {
        scope_views(self.scopes@)
    }
}

impl DesktopEntryStore {
    /// The store over `scopes`, in preferential order (earlier overrides later).
    pub fn load(scopes: Vec<DesktopEntryScope>) -> (r: DesktopEntryStore)
        ensures
            r@ == scope_views(scopes@),
    {
        DesktopEntryStore { scopes }
    }

    /// The directories of the scopes, in preferential order.
    pub fn sources(&self) -> (r: Vec<&str>)
        ensures
            r@.len() == self@.len(),
            forall|i: int| 0 <= i < r@.len() ==> #[trigger] r@[i]@ == self@[i].directory,
    {
        let mut r: Vec<&str> = Vec::new();
        let mut i: usize = 0;
        while i < self.scopes.len()
            invariant
                i <= self.scopes@.len(),
                r@.len() == i,
                forall|j: int| 0 <= j < i ==> #[trigger] r@[j]@ == scope_views(self.scopes@)[j].directory,
            decreases self.scopes@.len() - i,
        {
            r.push(self.scopes[i].directory());
            i = i + 1;
        }
        r
    }

    /// The entry with id `id` from the earliest scope that has one.
    pub fn get_desktop_entry(&self, id: &DesktopEntryId) -> (r: Option<&DesktopEntry>)
        ensures
            match r {
                Some(e) => scope_lookup(self@, id@) == Some(e@) && e@.id == id@,
                None => scope_lookup(self@, id@) is None,
            },
    {
        let mut i: usize = 0;
        assert(self@.skip(0) =~= self@);
        while i < self.scopes.len()
            invariant
                i <= self.scopes@.len(),
                scope_lookup(self@, id@) == scope_lookup(self@.skip(i as int), id@),
            decreases self.scopes@.len() - i,
        {
            assert(self@.skip(i as int)[0] == self.scopes@[i as int]@);
            if let Some(e) = self.scopes[i].application_entry(id) {
                return Some(e);
            }
            assert(self@.skip(i as int).drop_first() =~= self@.skip(i + 1));
            i = i + 1;
        }
        None
    }

    /// The ids of all installed entries, each once, in order.
    pub fn desktop_entry_ids(&self) -> (r: Vec<&DesktopEntryId>)
        ensures
            id_views(r@) == sorted_ids(self@),
            strictly_sorted(id_views(r@)),
            forall|v: Seq<char>| id_views(r@).contains(v) <==> installed(self@, v),
    {
        let mut ids: Vec<&DesktopEntryId> = Vec::new();
        let mut s: usize = 0;
        while s < self.scopes.len()
            invariant
                s <= self.scopes@.len(),
                strictly_sorted(id_views(ids@)),
                forall|v: Seq<char>| id_views(ids@).contains(v) <==> installed(self@.take(s as int), v),
            decreases self.scopes@.len() - s,
        {
            let entries = self.scopes[s].application_entries();
            let mut k: usize = 0;
            while k < entries.len()
                invariant
                    s < self.scopes@.len(),
                    k <= entries@.len(),
                    keys_unique(entry_pairs(entries@)),
                    to_map(entry_pairs(entries@)) == self@[s as int].entries,
                    strictly_sorted(id_views(ids@)),
                    forall|v: Seq<char>| id_views(ids@).contains(v) <==> (installed(self@.take(s as int), v) || exists|j: int| 0 <= j < k && #[trigger] entries@[j]@.id == v),
                decreases entries@.len() - k,
            {
                insert_sorted_unique(&mut ids, entries[k].id());
                k = k + 1;
            }
            proof {
                assert forall|v: Seq<char>| id_views(ids@).contains(v) <==> installed(self@.take(s + 1), v) by {
                    let t = self@.take(s + 1);
                    if installed(self@.take(s as int), v) {
                        let q = choose|q: int| 0 <= q < self@.take(s as int).len() && #[trigger] self@.take(s as int)[q].entries.contains_key(v);
                        assert(t[q] == self@.take(s as int)[q]);
                    }
                    if exists|j: int| 0 <= j < entries@.len() && #[trigger] entries@[j]@.id == v {
                        let j = choose|j: int| 0 <= j < entries@.len() && #[trigger] entries@[j]@.id == v;
                        lemma_key_index(entry_pairs(entries@), j);
                        assert(entry_pairs(entries@)[j].0 == v);
                        assert(t[s as int] == self@[s as int]);
                    }
                    if installed(t, v) {
                        let q = choose|q: int| 0 <= q < t.len() && #[trigger] t[q].entries.contains_key(v);
                        if q < s {
                            assert(self@.take(s as int)[q] == t[q]);
                        } else {
                            assert(t[q] == self@[s as int]);
                            assert(has_key(entry_pairs(entries@), v));
                            let j = choose|j: int| 0 <= j < entry_pairs(entries@).len() && #[trigger] entry_pairs(entries@)[j].0 == v;
                            assert(entries@[j]@.id == v);
                        }
                    }
                }
            }
            s = s + 1;
        }
        proof {
            assert(self@.take(self@.len() as int) =~= self@);
            let q = id_views(ids@);
            assert(strictly_sorted(q) && (forall|id: Seq<char>| q.contains(id) <==> installed(self@, id)));
            let c = sorted_ids(self@);
            lemma_sorted_unique(q, c);
        }
        ids
    }

    /// All entries in effect, one per id, in id order; an entry of an earlier scope
    /// overrides a later one with the same id.
    pub fn desktop_entries(&self) -> (r: Vec<&DesktopEntry>)
        ensures
            ref_views(r@) == effective_entries(self@),
            ids_increasing(ref_views(r@)),
    {
        let ids = self.desktop_entry_ids();
        let mut r: Vec<&DesktopEntry> = Vec::new();
        let mut i: usize = 0;
        while i < ids.len()
            invariant
                i <= ids@.len(),
                id_views(ids@) == sorted_ids(self@),
                strictly_sorted(id_views(ids@)),
                forall|v: Seq<char>| id_views(ids@).contains(v) <==> installed(self@, v),
                ref_views(r@) == effective_entries(self@).take(i as int),
                r@.len() == i,
                forall|k: int| 0 <= k < i ==> (#[trigger] r@[k])@.id == id_views(ids@)[k],
            decreases ids@.len() - i,
        {
            proof {
                let q = sorted_ids(self@);
                assert(q.contains(q[i as int]));
                lemma_scope_lookup(self@, q[i as int]);
            }
            let ghost before = ref_views(r@);
            match self.get_desktop_entry(ids[i]) {
                Some(e) => {
                    proof {
                        assert(id_views(ids@)[i as int] == ids@[i as int]@);
                        assert(effective_entries(self@)[i as int] == scope_lookup(self@, sorted_ids(self@)[i as int])->0);
                        assert(effective_entries(self@)[i as int] == e@);
                    }
                    r.push(e);
                    assert(ref_views(r@) =~= before.push(e@));
                },
                None => {
                    assert(id_views(ids@)[i as int] == ids@[i as int]@);
                    assert(false);
                },
            }
            assert(ref_views(r@) =~= effective_entries(self@).take(i + 1));
            i = i + 1;
        }
        assert(effective_entries(self@).take(i as int) =~= effective_entries(self@));
        assert forall|a: int, b: int| 0 <= a < b < ref_views(r@).len() implies lex_compare((#[trigger] ref_views(r@)[a]).id, (#[trigger] ref_views(r@)[b]).id) < 0 by {
            assert(r@[a]@.id == id_views(ids@)[a]);
            assert(r@[b]@.id == id_views(ids@)[b]);
        }
        r
    }

    /// The entries in effect that declare `mime_type`, in id order.
    pub fn get_desktop_entries_for_mimetype(&self, mime_type: &MimeType) -> (r: Vec<&DesktopEntry>)
        ensures
            ref_views(r@) == entries_supporting(effective_entries(self@), mime_type@),
            ids_increasing(ref_views(r@)),
    {
        let all = self.desktop_entries();
        let mut r: Vec<&DesktopEntry> = Vec::new();
        let mut i: usize = 0;
        assert(ref_views(all@).take(0) =~= Seq::<DesktopEntryView>::empty());
        while i < all.len()
            invariant
                i <= all@.len(),
                ref_views(r@) == entries_supporting(ref_views(all@).take(i as int), mime_type@),
                ids_increasing(ref_views(all@)),
                ids_increasing(ref_views(r@)),
                forall|k: int, j: int| 0 <= k < r@.len() && i <= j < all@.len() ==> lex_compare((#[trigger] r@[k])@.id, (#[trigger] all@[j])@.id) < 0,
            decreases all@.len() - i,
        {
            proof {
                assert(ref_views(all@).take(i + 1).drop_last() =~= ref_views(all@).take(i as int));
            }
            let ghost before = r@;
            if all[i].can_open_mime_type(mime_type) {
                r.push(all[i]);
                proof {
                    assert forall|a: int, b: int| 0 <= a < b < ref_views(r@).len() implies lex_compare((#[trigger] ref_views(r@)[a]).id, (#[trigger] ref_views(r@)[b]).id) < 0 by {
                        if b == before.len() {
                            assert(r@[a] == before[a]);
                            assert(lex_compare(before[a]@.id, all@[i as int]@.id) < 0);
                        } else {
                            assert(ref_views(r@)[a] == ref_views(before)[a]);
                            assert(ref_views(r@)[b] == ref_views(before)[b]);
                        }
                    }
                    assert forall|k: int, j: int| 0 <= k < r@.len() && i + 1 <= j < all@.len() implies lex_compare((#[trigger] r@[k])@.id, (#[trigger] all@[j])@.id) < 0 by {
                        if k == before.len() {
                            assert(ref_views(all@)[i as int] == all@[i as int]@);
                            assert(ref_views(all@)[j] == all@[j]@);
                        } else {
                            assert(r@[k] == before[k]);
                        }
                    }
                }
            }
            assert(ref_views(r@) =~= entries_supporting(ref_views(all@).take(i + 1), mime_type@));
            i = i + 1;
        }
        assert(ref_views(all@).take(i as int) =~= ref_views(all@));
        r
    }
}

pub open spec fn opt_entry_view(o: Option<&DesktopEntry>) -> Option<DesktopEntryView> {
    match o {
        Some(e) => Some(e@),
        None => None,
    }
}

/// Looks an entry up by id or, failing that, by name: first `identifier` as an id (exactly);
/// then `identifier` with `.desktop` appended (exactly); then the first entry in id order
/// whose name equals `identifier` ignoring ASCII case; then the first whose id's piece before
/// `.desktop` does, so that `evince` finds `org.gnome.Evince.desktop`.
pub fn lookup_desktop_entry<'a>(entries: &'a DesktopEntryStore, identifier: &str) -> (r: Option<&'a DesktopEntry>)
    ensures
        opt_entry_view(r) == fuzzy_lookup(entries@, identifier@),
{
    if let Ok(desktop_entry_id) = DesktopEntryId::parse(identifier) {
        return entries.get_desktop_entry(&desktop_entry_id);
    }
    let suffix = ".desktop";
    proof {
        reveal_strlit(".desktop");
        assert(suffix@ =~= desktop_suffix());
    }
    let with_suffix = concat_str(identifier, suffix);
    proof {
        let w = identifier@ + desktop_suffix();
        assert(w.skip(w.len() - desktop_suffix().len()) =~= desktop_suffix());
    }
    if let Ok(desktop_entry_id) = DesktopEntryId::parse(with_suffix.as_str()) {
        let found = entries.get_desktop_entry(&desktop_entry_id);
        if found.is_some() {
            return found;
        }
    }
    assert(!ends_with(identifier@, desktop_suffix()));
    assert(scope_lookup(entries@, identifier@ + desktop_suffix()) is None);
    let all = entries.desktop_entries();
    let ghost effs = effective_entries(entries@);
    let mut i: usize = 0;
    assert(effs.skip(0) =~= effs);
    while i < all.len()
        invariant
            ref_views(all@) == effs,
            effs == effective_entries(entries@),
            !ends_with(identifier@, desktop_suffix()),
            scope_lookup(entries@, identifier@ + desktop_suffix()) is None,
            i <= all@.len(),
            first_named(effs, identifier@) == first_named(effs.skip(i as int), identifier@),
        decreases all@.len() - i,
    {
        assert(effs.skip(i as int)[0] == all@[i as int]@);
        if let Some(entry_name) = all[i].name() {
            if str_eq_ignore_ascii_case(entry_name, identifier) {
                return Some(all[i]);
            }
        }
        assert(effs.skip(i as int).drop_first() =~= effs.skip(i + 1));
        i = i + 1;
    }
    let mut i: usize = 0;
    assert(effs.skip(0) =~= effs);
    while i < all.len()
        invariant
            ref_views(all@) == effs,
            effs == effective_entries(entries@),
            !ends_with(identifier@, desktop_suffix()),
            scope_lookup(entries@, identifier@ + desktop_suffix()) is None,
            i <= all@.len(),
            first_named(effs, identifier@) is None,
            first_with_stem(effs, identifier@) == first_with_stem(effs.skip(i as int), identifier@),
        decreases all@.len() - i,
    {
        assert(effs.skip(i as int)[0] == all@[i as int]@);
        let components = split_on(all[i].id().id(), '.');
        let count = components.len();
        if count >= 2 && str_eq_ignore_ascii_case(components[count - 2].as_str(), identifier) {
            assert(views(components@)[count - 2] == components@[count - 2]@);
            return Some(all[i]);
        }
        proof {
            if count >= 2 {
                assert(views(components@)[count - 2] == components@[count - 2]@);
            }
        }
        assert(effs.skip(i as int).drop_first() =~= effs.skip(i + 1));
        i = i + 1;
    }
    None
}

/// An identifier without `.desktop` that names an installed id once `.desktop` is appended
/// finds the entry in effect for that id, whatever names and id stems the store holds:
/// `org.gnome.Evince` finds `org.gnome.Evince.desktop`.
pub proof fn lemma_lookup_appends_desktop_suffix(store: DesktopEntryStore, ident: Seq<char>)
    requires
        !ends_with(ident, desktop_suffix()),
        installed(store@, ident + desktop_suffix()),
    ensures
        fuzzy_lookup(store@, ident) matches Some(e) && e.id == ident + desktop_suffix(),
        fuzzy_lookup(store@, ident) == scope_lookup(store@, ident + desktop_suffix()),
{
    lemma_scope_lookup(store@, ident + desktop_suffix());
    lemma_entries_keyed_by_id(store);
    lemma_scope_lookup_id(store@, ident + desktop_suffix());
}

/// `true` when each scope holds each entry under its own id.
pub open spec fn entries_keyed_by_id(scopes: Seq<EntryScopeView>) -> bool {
    forall|i: int, k: Seq<char>| 0 <= i < scopes.len() && #[trigger] scopes[i].entries.contains_key(k) ==> scopes[i].entries[k].id == k
}

/// The scopes of a store hold each entry under its own id.
pub proof fn lemma_entries_keyed_by_id(store: DesktopEntryStore)
    ensures
        entries_keyed_by_id(store@),
{
    assert forall|i: int, k: Seq<char>| 0 <= i < store@.len() && #[trigger] store@[i].entries.contains_key(k) implies store@[i].entries[k].id == k by {
        let pairs = entry_pairs(store.scopes@[i].application_entries@);
        assert(store@[i] == store.scopes@[i]@);
        let j = crate::assoc::key_index(pairs, k);
        assert(pairs[j].0 == pairs[j].1.id);
    }
}

/// A lookup in scopes that hold each entry under its id gives an entry with that id.
pub proof fn lemma_scope_lookup_id(scopes: Seq<EntryScopeView>, id: Seq<char>)
    requires
        entries_keyed_by_id(scopes),
    ensures
        scope_lookup(scopes, id) matches Some(e) ==> e.id == id,
    decreases scopes.len(),
{
    if scopes.len() > 0 {
        if !scopes[0].entries.contains_key(id) {
            assert forall|i: int, k: Seq<char>| 0 <= i < scopes.drop_first().len() && #[trigger] scopes.drop_first()[i].entries.contains_key(k) implies scopes.drop_first()[i].entries[k].id == k by {
                assert(scopes.drop_first()[i] == scopes[i + 1]);
            }
            lemma_scope_lookup_id(scopes.drop_first(), id);
        }
    }
}

} // verus!
