//! Two plain association chains: `MimeAssociations`, where an earlier scope overrides a later
//! one and an assignment always goes to the first scope the user may change, and
//! `MimeAssociationsCascade`, where a later scope overrides an earlier one.

use vstd::prelude::*;
use crate::association_store::{
    assoc_scope_views, dirty_user_indices, entry_check, error_is, first_default, first_user_index,
    lemma_first_default_split, lemma_first_user_index, opt_id_view, AssignError, ScopeFilter,
};
use crate::desktop_entry::{DesktopEntry, DesktopEntryId, DesktopEntryView};
use crate::error::MimeAssocError;
use crate::mime_type::MimeType;
use crate::mime_type_association_store::{
    id_seq_views, lemma_scope_maps_finite, lemma_sorted_keys, scope_text_lines, sorted_keys, string_views,
    AssocScopeView, MimeTypeAssociationScope,
};
use crate::text::{insert_sorted_unique, lemma_lex_compare_equal, strictly_sorted, texts, Textual};

verus! {

/// One mimeapps list file, as the plain chains hold it.
pub type MimeAssociationScope = MimeTypeAssociationScope;

/// `true` when some of `scopes` assigns `k` a default application.
pub open spec fn assigned_somewhere(scopes: Seq<AssocScopeView>, k: Seq<char>) -> bool {
    exists|j: int| 0 <= j < scopes.len() && (#[trigger] scopes[j]).defaults.contains_key(k)
}

/// The mime types with a default application, scope by scope from the first scope to the
/// last; within a scope each once, in order.
pub open spec fn defaults_first_to_last(scopes: Seq<AssocScopeView>) -> Seq<Seq<char>>
    decreases scopes.len(),
{
    if scopes.len() == 0 {
        Seq::empty()
    } else {
        defaults_first_to_last(scopes.drop_last()) + sorted_keys(scopes.last().defaults)
    }
}

/// The added associations of `m` in the first scope that has some.
pub open spec fn first_added(scopes: Seq<AssocScopeView>, m: Seq<char>) -> Option<Seq<Seq<char>>>
    decreases scopes.len(),
{
    if scopes.len() == 0 {
        None
    } else if scopes[0].added.contains_key(m) {
        Some(scopes[0].added[m])
    } else {
        first_added(scopes.drop_first(), m)
    }
}

/// The default application of `m` in the last scope that has one.
pub open spec fn last_default(scopes: Seq<AssocScopeView>, m: Seq<char>) -> Option<Seq<char>>
    decreases scopes.len(),
{
    if scopes.len() == 0 {
        None
    } else if scopes.last().defaults.contains_key(m) {
        Some(scopes.last().defaults[m])
    } else {
        last_default(scopes.drop_last(), m)
    }
}

/// The added associations of `m` in the last scope that has some.
pub open spec fn last_added(scopes: Seq<AssocScopeView>, m: Seq<char>) -> Option<Seq<Seq<char>>>
    decreases scopes.len(),
{
    if scopes.len() == 0 {
        None
    } else if scopes.last().added.contains_key(m) {
        Some(scopes.last().added[m])
    } else {
        last_added(scopes.drop_last(), m)
    }
}

/// The scopes after making `e` the default application of `m`, or why that is refused: `e`
/// must appear launchable and declare `m`; the first scope the user may change assigns it and
/// is dirty afterwards.
pub open spec fn chain_assign(scopes: Seq<AssocScopeView>, m: Seq<char>, e: DesktopEntryView) -> Result<Seq<AssocScopeView>, AssignError> {
    match entry_check(true, e, m) {
        Some(a) => Err(a),
        None => if first_user_index(scopes) >= scopes.len() {
            Err(AssignError::NoUserScope)
        } else {
            let i = first_user_index(scopes);
            Ok(scopes.update(i, AssocScopeView { defaults: scopes[i].defaults.insert(m, e.id), dirty: true, ..scopes[i] }))
        },
    }
}

/// Makes `e` the default application of each of `ms` in turn, stopping at the first refusal:
/// the scopes reached, and the refusal if there was one.
pub open spec fn chain_assign_all(scopes: Seq<AssocScopeView>, ms: Seq<Seq<char>>, e: DesktopEntryView) -> (Seq<AssocScopeView>, Option<AssignError>)
    decreases ms.len(),
{
    if ms.len() == 0 {
        (scopes, None)
    } else {
        match chain_assign(scopes, ms[0], e) {
            Ok(sc) => chain_assign_all(sc, ms.drop_first(), e),
            Err(a) => (scopes, Some(a)),
        }
    }
}

/// The mimeapps list scopes in preferential order: an assignment of an earlier scope overrides
/// one of a later scope.
pub struct MimeAssociations {
    scopes: Vec<MimeTypeAssociationScope>,
}

impl View for MimeAssociations {
    type V = Seq<AssocScopeView>;

    closed spec fn view(&self) -> Seq<AssocScopeView> {
        assoc_scope_views(self.scopes@)
    }
}

/// The paths of the scopes' files, in order.
fn scope_sources(scopes: &Vec<MimeTypeAssociationScope>) -> (r: Vec<&str>)
    ensures
        r@.len() == scopes@.len(),
        forall|i: int| 0 <= i < r@.len() ==> #[trigger] r@[i]@ == scopes@[i]@.file_path,
{
    let mut r: Vec<&str> = Vec::new();
    let mut i: usize = 0;
    while i < scopes.len()
        invariant
            i <= scopes@.len(),
            r@.len() == i,
            forall|j: int| 0 <= j < i ==> #[trigger] r@[j]@ == scopes@[j]@.file_path,
        decreases scopes@.len() - i,
    {
        r.push(scopes[i].file_path());
        i = i + 1;
    }
    r
}

impl MimeAssociations {
    /// The chain over `scopes`, in preferential order (earlier overrides later).
    pub fn load(scopes: Vec<MimeTypeAssociationScope>) -> (r: MimeAssociations)
        ensures
            r@ == assoc_scope_views(scopes@),
    {
        MimeAssociations { scopes }
    }

    /// All mime types that some scope assigns a default application, each once (in order).
    pub fn mime_types(&self) -> (r: Vec<&MimeType>)
        ensures
            texts(r@).no_duplicates(),
            strictly_sorted(texts(r@)),
            forall|k: Seq<char>| texts(r@).contains(k) <==> assigned_somewhere(self@, k),
    {
        let ghost sv = self@;
        let mut r: Vec<&MimeType> = Vec::new();
        let mut i: usize = 0;
        while i < self.scopes.len()
            invariant
                i <= self.scopes@.len(),
                sv == assoc_scope_views(self.scopes@),
                strictly_sorted(texts(r@)),
                forall|k: Seq<char>| texts(r@).contains(k) <==> assigned_somewhere(sv.take(i as int), k),
            decreases self.scopes@.len() - i,
        {
            let keys = self.scopes[i].default_mime_types();
            proof {
                lemma_scope_maps_finite(self.scopes@[i as int]);
                lemma_sorted_keys(sv[i as int].defaults);
            }
            let ghost before = texts(r@);
            let mut k: usize = 0;
            while k < keys.len()
                invariant
                    i < self.scopes@.len(),
                    k <= keys@.len(),
                    sv == assoc_scope_views(self.scopes@),
                    texts(keys@) == sorted_keys(sv[i as int].defaults),
                    strictly_sorted(texts(r@)),
                    forall|v: Seq<char>| texts(r@).contains(v) <==> (before.contains(v) || exists|q: int| 0 <= q < k && #[trigger] texts(keys@)[q] == v),
                decreases keys@.len() - k,
            {
                let ghost old_t = texts(r@);
                assert(forall|v: Seq<char>| old_t.contains(v) <==> (before.contains(v) || exists|q: int| 0 <= q < k && #[trigger] texts(keys@)[q] == v));
                insert_sorted_unique(&mut r, keys[k]);
                proof {
                    let x = keys@[k as int].text();
                    assert(texts(keys@)[k as int] == x);
                    assert forall|v: Seq<char>| texts(r@).contains(v) <==> (before.contains(v) || exists|q: int| 0 <= q < k + 1 && #[trigger] texts(keys@)[q] == v) by {
                        assert(texts(r@).contains(v) == (old_t.contains(v) || v == x));
                        assert(old_t.contains(v) == (before.contains(v) || exists|q: int| 0 <= q < k && #[trigger] texts(keys@)[q] == v));
                        if exists|q: int| 0 <= q < k + 1 && #[trigger] texts(keys@)[q] == v {
                            let q = choose|q: int| 0 <= q < k + 1 && #[trigger] texts(keys@)[q] == v;
                            if q < k {
                                assert(exists|q2: int| 0 <= q2 < k && #[trigger] texts(keys@)[q2] == v);
                            }
                        }
                        if exists|q: int| 0 <= q < k && #[trigger] texts(keys@)[q] == v {
                            let q = choose|q: int| 0 <= q < k && #[trigger] texts(keys@)[q] == v;
                            assert(exists|q2: int| 0 <= q2 < k + 1 && #[trigger] texts(keys@)[q2] == v);
                        }
                    }
                }
                k = k + 1;
            }
            proof {
                let ks = texts(keys@);
                assert forall|v: Seq<char>| texts(r@).contains(v) <==> assigned_somewhere(sv.take(i + 1), v) by {
                    let t0 = sv.take(i as int);
                    let t1 = sv.take(i + 1);
                    if exists|q: int| 0 <= q < keys@.len() && #[trigger] ks[q] == v {
                        let q = choose|q: int| 0 <= q < keys@.len() && #[trigger] ks[q] == v;
                        assert(ks.contains(v));
                        assert(t1[i as int] == sv[i as int]);
                    }
                    if before.contains(v) {
                        let j = choose|j: int| 0 <= j < t0.len() && (#[trigger] t0[j]).defaults.contains_key(v);
                        assert(t1[j] == t0[j]);
                    }
                    if assigned_somewhere(t1, v) {
                        let j = choose|j: int| 0 <= j < t1.len() && (#[trigger] t1[j]).defaults.contains_key(v);
                        if j < i {
                            assert(t0[j] == t1[j]);
                        } else {
                            assert(ks.contains(v));
                            let q = choose|q: int| 0 <= q < ks.len() && ks[q] == v;
                            assert(exists|q2: int| 0 <= q2 < keys@.len() && #[trigger] ks[q2] == v);
                        }
                    }
                }
            }
            i = i + 1;
        }
        assert(sv.take(i as int) =~= sv);
        proof {
            let t = texts(r@);
            assert forall|a: int, b: int| 0 <= a < t.len() && 0 <= b < t.len() && a != b implies t[a] != t[b] by {
                if a < b {
                    lemma_lex_compare_equal(t[a], t[b]);
                } else {
                    lemma_lex_compare_equal(t[b], t[a]);
                }
            }
        }
        r
    }

    /// The paths of the scopes' files, in preferential order.
    pub fn sources(&self) -> (r: Vec<&str>)
        ensures
            r@.len() == self@.len(),
            forall|i: int| 0 <= i < r@.len() ==> #[trigger] r@[i]@ == self@[i].file_path,
    {
        scope_sources(&self.scopes)
    }

    /// The default application of `mime_type` in the first scope that has one.
    pub fn default_application_for(&self, mime_type: &MimeType) -> (r: Option<&DesktopEntryId>)
        ensures
            opt_id_view(r) == first_default(self@, mime_type@, ScopeFilter::All),
    {
        let ghost sv = self@;
        let mut i: usize = 0;
        assert(sv.skip(0) =~= sv);
        while i < self.scopes.len()
            invariant
                i <= self.scopes@.len(),
                sv == assoc_scope_views(self.scopes@),
                first_default(sv, mime_type@, ScopeFilter::All) == first_default(sv.skip(i as int), mime_type@, ScopeFilter::All),
            decreases self.scopes@.len() - i,
        {
            assert(sv.skip(i as int)[0] == self.scopes@[i as int]@);
            assert(sv.skip(i as int).drop_first() =~= sv.skip(i + 1));
            if let Some(id) = self.scopes[i].default_application(mime_type) {
                return Some(id);
            }
            i = i + 1;
        }
        None
    }

    /// The added associations of `mime_type` in the first scope that has some.
    pub fn added_associations_for(&self, mime_type: &MimeType) -> (r: Option<&Vec<DesktopEntryId>>)
        ensures
            match r {
                Some(ids) => first_added(self@, mime_type@) == Some(id_seq_views(ids@)),
                None => first_added(self@, mime_type@) is None,
            },
    {
        let ghost sv = self@;
        let mut i: usize = 0;
        assert(sv.skip(0) =~= sv);
        while i < self.scopes.len()
            invariant
                i <= self.scopes@.len(),
                sv == assoc_scope_views(self.scopes@),
                first_added(sv, mime_type@) == first_added(sv.skip(i as int), mime_type@),
            decreases self.scopes@.len() - i,
        {
            assert(sv.skip(i as int)[0] == self.scopes@[i as int]@);
            assert(sv.skip(i as int).drop_first() =~= sv.skip(i + 1));
            if let Some(ids) = self.scopes[i].added_associations(mime_type) {
                return Some(ids);
            }
            i = i + 1;
        }
        None
    }

    /// Makes `desktop_entry` the default application of `mime_type` in the first scope the
    /// user may change, which is then dirty. Refused where the entry does not appear
    /// launchable, does not declare the mime type, or no scope may be changed by the user.
    pub fn set_default_handler_for_mime_type(&mut self, mime_type: &MimeType, desktop_entry: &DesktopEntry) -> (r: Result<(), MimeAssocError>)
        ensures
            match chain_assign(old(self)@, mime_type@, desktop_entry@) {
                Ok(sc) => r is Ok && final(self)@ == sc,
                Err(a) => r matches Err(e) && error_is(e, a) && final(self)@ == old(self)@,
            },
    {
        if !desktop_entry.appears_valid_application() {
            return Err(MimeAssocError::InvalidApplication(desktop_entry.id().to_string()));
        }
        if !desktop_entry.can_open_mime_type(mime_type) {
            return Err(MimeAssocError::UnsupportedMimeType(desktop_entry.id().to_string(), mime_type.to_string()));
        }
        let ghost sv = self@;
        assert(entry_check(true, desktop_entry@, mime_type@) is None);
        proof {
            lemma_first_user_index(sv);
        }
        let mut i: usize = 0;
        while i < self.scopes.len()
            invariant
                i <= self.scopes@.len(),
                sv == old(self)@,
                sv == assoc_scope_views(self.scopes@),
                entry_check(true, desktop_entry@, mime_type@) is None,
                i <= first_user_index(sv) <= sv.len(),
                first_user_index(sv) < sv.len() ==> sv[first_user_index(sv)].user,
                forall|j: int| 0 <= j < first_user_index(sv) ==> !(#[trigger] sv[j]).user,
            decreases self.scopes@.len() - i,
        {
            assert(sv[i as int] == self.scopes@[i as int]@);
            if self.scopes[i].is_user_customizable() {
                assert(i == first_user_index(sv));
                let ghost before = self.scopes@;
                let mut s = self.scopes.remove(i);
                s.set_default_application(mime_type.duplicate(), desktop_entry.id().duplicate());
                s.mark_dirty();
                assert(s@ == AssocScopeView { defaults: sv[i as int].defaults.insert(mime_type@, desktop_entry@.id), dirty: true, ..sv[i as int] });
                self.scopes.insert(i, s);
                assert(self.scopes@ =~= before.update(i as int, s));
                assert(assoc_scope_views(self.scopes@) =~= assoc_scope_views(before).update(i as int, s@));
                return Ok(());
            }
            i = i + 1;
        }
        Err(MimeAssocError::NoUserScope)
    }

    /// Makes `desktop_entry` the default application of each mime type it declares, in order;
    /// stops at the first refusal, keeping the assignments made before it.
    pub fn make_desktop_entry_default_handler_of_its_supported_mime_types(&mut self, desktop_entry: &DesktopEntry) -> (r: Result<(), MimeAssocError>)
        ensures
            ({
                let (sc, err) = chain_assign_all(old(self)@, desktop_entry@.mime_types, desktop_entry@);
                &&& final(self)@ == sc
                &&& match err {
                    None => r is Ok,
                    Some(a) => r matches Err(e) && error_is(e, a),
                }
            }),
    {
        let mime_types = desktop_entry.mime_types();
        let ghost ms = desktop_entry@.mime_types;
        let mut k: usize = 0;
        assert(ms.skip(0) =~= ms);
        while k < mime_types.len()
            invariant
                k <= mime_types@.len(),
                ms == crate::desktop_entry::mime_views(mime_types@),
                ms == desktop_entry@.mime_types,
                ms.len() == mime_types@.len(),
                chain_assign_all(old(self)@, ms, desktop_entry@) == chain_assign_all(self@, ms.skip(k as int), desktop_entry@),
            decreases mime_types@.len() - k,
        {
            assert(ms.skip(k as int)[0] == mime_types@[k as int]@);
            assert(ms.skip(k as int).drop_first() =~= ms.skip(k + 1));
            let ghost sv = self@;
            match self.set_default_handler_for_mime_type(&mime_types[k], desktop_entry) {
                Ok(()) => {},
                Err(e) => {
                    assert(chain_assign_all(sv, ms.skip(k as int), desktop_entry@) == (sv, Some(chain_assign(sv, ms.skip(k as int)[0], desktop_entry@)->Err_0)));
                    return Err(e);
                },
            }
            k = k + 1;
        }
        assert(ms.skip(k as int) =~= Seq::<Seq<char>>::empty());
        Ok(())
    }

    /// What saving writes: for each scope the user may change that has changes not yet saved,
    /// in order, its index, its file's path and the file's lines. Once a file is written,
    /// `mark_saved` records it.
    pub fn save(&self) -> (r: Vec<(usize, String, Vec<String>)>)
        ensures
            r@.len() == dirty_user_indices(self@, self@.len() as int).len(),
            forall|p: int| 0 <= p < r@.len() ==> {
                let i = dirty_user_indices(self@, self@.len() as int)[p];
                &&& (#[trigger] r@[p]).0 == i
                &&& r@[p].1@ == self@[i].file_path
                &&& string_views(r@[p].2@) == scope_text_lines(self@[i])
            },
    {
        let ghost sv = self@;
        let mut r: Vec<(usize, String, Vec<String>)> = Vec::new();
        let mut i: usize = 0;
        while i < self.scopes.len()
            invariant
                i <= self.scopes@.len(),
                sv == assoc_scope_views(self.scopes@),
                r@.len() == dirty_user_indices(sv, i as int).len(),
                forall|p: int| 0 <= p < r@.len() ==> {
                    let q = dirty_user_indices(sv, i as int)[p];
                    &&& (#[trigger] r@[p]).0 == q
                    &&& 0 <= q < sv.len()
                    &&& r@[p].1@ == sv[q].file_path
                    &&& string_views(r@[p].2@) == scope_text_lines(sv[q])
                },
            decreases self.scopes@.len() - i,
        {
            assert(sv[i as int] == self.scopes@[i as int]@);
            let ghost before = r@;
            if self.scopes[i].is_user_customizable() && self.scopes[i].is_dirty() {
                let lines = self.scopes[i].write();
                assert(string_views(lines@) == scope_text_lines(sv[i as int]));
                let path = self.scopes[i].file_path().to_owned();
                assert(path@ == sv[i as int].file_path);
                r.push((i, path, lines));
                assert(r@[before.len() as int] == (i, path, lines));
                assert(dirty_user_indices(sv, i + 1) =~= dirty_user_indices(sv, i as int).push(i as int));
                assert forall|p: int| 0 <= p < r@.len() implies {
                    let q = dirty_user_indices(sv, i + 1)[p];
                    &&& (#[trigger] r@[p]).0 == q
                    &&& 0 <= q < sv.len()
                    &&& r@[p].1@ == sv[q].file_path
                    &&& string_views(r@[p].2@) == scope_text_lines(sv[q])
                } by {
                    if p < before.len() {
                        assert(r@[p] == before[p]);
                    }
                }
            } else {
                assert(dirty_user_indices(sv, i + 1) =~= dirty_user_indices(sv, i as int));
            }
            i = i + 1;
        }
        r
    }

    /// Records that the scope at `index` was written to its file: it is clean. Nothing
    /// changes for an index past the last scope.
    pub fn mark_saved(&mut self, index: usize)
        ensures
            index < old(self)@.len() ==> final(self)@ == old(self)@.update(index as int, AssocScopeView { dirty: false, ..old(self)@[index as int] }),
            index >= old(self)@.len() ==> final(self)@ == old(self)@,
    {
        if index < self.scopes.len() {
            let ghost before = self.scopes@;
            let mut s = self.scopes.remove(index);
            s.mark_saved();
            self.scopes.insert(index, s);
            assert(self.scopes@ =~= before.update(index as int, s));
            assert(assoc_scope_views(self.scopes@) =~= assoc_scope_views(before).update(index as int, s@));
        }
    }
}

/// The mimeapps list scopes in cascade order: an assignment of a later scope overrides one of
/// an earlier scope.
pub struct MimeAssociationsCascade {
    scopes: Vec<MimeTypeAssociationScope>,
}

impl View for MimeAssociationsCascade {
    type V = Seq<AssocScopeView>;

    closed spec fn view(&self) -> Seq<AssocScopeView> {
        assoc_scope_views(self.scopes@)
    }
}

impl MimeAssociationsCascade {
    /// The cascade over `scopes`, in order (later overrides earlier).
    pub fn new(scopes: Vec<MimeTypeAssociationScope>) -> (r: MimeAssociationsCascade)
        ensures
            r@ == assoc_scope_views(scopes@),
    {
        MimeAssociationsCascade { scopes }
    }

    /// The mime types that have a default application, scope by scope from the first scope to
    /// the last: a mime type that several scopes assign is named once for each.
    pub fn mime_types(&self) -> (r: Vec<&MimeType>)
        ensures
            texts(r@) == defaults_first_to_last(self@),
    {
        let ghost sv = self@;
        let mut r: Vec<&MimeType> = Vec::new();
        let mut i: usize = 0;
        assert(sv.take(0) =~= Seq::<AssocScopeView>::empty());
        while i < self.scopes.len()
            invariant
                i <= self.scopes@.len(),
                sv == assoc_scope_views(self.scopes@),
                texts(r@) == defaults_first_to_last(sv.take(i as int)),
            decreases self.scopes@.len() - i,
        {
            let mut keys = self.scopes[i].default_mime_types();
            let ghost before = r@;
            let ghost added = keys@;
            r.append(&mut keys);
            assert(sv.take(i + 1).last() == self.scopes@[i as int]@);
            assert(sv.take(i + 1).drop_last() =~= sv.take(i as int));
            assert(texts(r@) =~= texts(before) + texts(added));
            i = i + 1;
        }
        assert(sv.take(i as int) =~= sv);
        r
    }

    /// The default application of `mime_type` in the last scope that has one.
    pub fn default_application_for(&self, mime_type: &MimeType) -> (r: Option<&DesktopEntryId>)
        ensures
            opt_id_view(r) == last_default(self@, mime_type@),
    {
        let ghost sv = self@;
        let mut i: usize = self.scopes.len();
        assert(sv.take(i as int) =~= sv);
        while i > 0
            invariant
                i <= self.scopes@.len(),
                sv == assoc_scope_views(self.scopes@),
                last_default(sv, mime_type@) == last_default(sv.take(i as int), mime_type@),
            decreases i,
        {
            assert(sv.take(i as int).last() == self.scopes@[i - 1]@);
            assert(sv.take(i as int).drop_last() =~= sv.take(i - 1));
            if let Some(id) = self.scopes[i - 1].default_application(mime_type) {
                return Some(id);
            }
            i = i - 1;
        }
        None
    }

    /// The added associations of `mime_type` in the last scope that has some.
    pub fn added_associations_for(&self, mime_type: &MimeType) -> (r: Option<&Vec<DesktopEntryId>>)
        ensures
            match r {
                Some(ids) => last_added(self@, mime_type@) == Some(id_seq_views(ids@)),
                None => last_added(self@, mime_type@) is None,
            },
    {
        let ghost sv = self@;
        let mut i: usize = self.scopes.len();
        assert(sv.take(i as int) =~= sv);
        while i > 0
            invariant
                i <= self.scopes@.len(),
                sv == assoc_scope_views(self.scopes@),
                last_added(sv, mime_type@) == last_added(sv.take(i as int), mime_type@),
            decreases i,
        {
            assert(sv.take(i as int).last() == self.scopes@[i - 1]@);
            assert(sv.take(i as int).drop_last() =~= sv.take(i - 1));
            if let Some(ids) = self.scopes[i - 1].added_associations(mime_type) {
                return Some(ids);
            }
            i = i - 1;
        }
        None
    }
}

/// After a successful assignment of `e` to `m`, `e` is the application in effect for `m`,
/// unless a scope before the first one the user may change assigns `m` another application.
pub proof fn lemma_chain_assigned_default_is_in_effect(scopes: Seq<AssocScopeView>, m: Seq<char>, e: DesktopEntryView)
    requires
        chain_assign(scopes, m, e) is Ok,
        first_default(scopes.take(first_user_index(scopes)), m, ScopeFilter::All) matches Some(v) ==> v == e.id,
    ensures
        first_default(chain_assign(scopes, m, e)->Ok_0, m, ScopeFilter::All) == Some(e.id),
{
    lemma_first_user_index(scopes);
    let i = first_user_index(scopes);
    let sc = chain_assign(scopes, m, e)->Ok_0;
    lemma_first_default_split(sc, i, m, ScopeFilter::All);
    assert(sc.take(i) =~= scopes.take(i));
    assert(sc.skip(i)[0] == sc[i]);
    assert(sc[i].defaults.contains_key(m));
}

/// A lookup from the last scope reads the scopes after the first `k`, then the first `k`.
proof fn lemma_last_default_split(scopes: Seq<AssocScopeView>, k: int, m: Seq<char>)
    requires
        0 <= k <= scopes.len(),
    ensures
        last_default(scopes, m) == (match last_default(scopes.skip(k), m) {
            Some(v) => Some(v),
            None => last_default(scopes.take(k), m),
        }),
    decreases scopes.len() - k,
{
    if k == scopes.len() {
        assert(scopes.take(k) =~= scopes);
        assert(scopes.skip(k) =~= Seq::<AssocScopeView>::empty());
    } else {
        lemma_last_default_split(scopes.drop_last(), k, m);
        assert(scopes.drop_last().take(k) =~= scopes.take(k));
        assert(scopes.skip(k).drop_last() =~= scopes.drop_last().skip(k));
        assert(scopes.skip(k).last() == scopes.last());
    }
}

/// In a cascade, the default application of a mime type that a scope assigns is in effect
/// unless a later scope assigns another one.
pub proof fn lemma_cascade_later_scope_wins(scopes: Seq<AssocScopeView>, i: int, m: Seq<char>)
    requires
        0 <= i < scopes.len(),
        scopes[i].defaults.contains_key(m),
        forall|j: int| i < j < scopes.len() ==> !(#[trigger] scopes[j]).defaults.contains_key(m),
    ensures
        last_default(scopes, m) == Some(scopes[i].defaults[m]),
{
    lemma_last_default_split(scopes, i + 1, m);
    let rest = scopes.skip(i + 1);
    assert(last_default(rest, m) is None) by {
        lemma_no_later_default(rest, m);
    }
    assert(scopes.take(i + 1).last() == scopes[i]);
}

proof fn lemma_no_later_default(scopes: Seq<AssocScopeView>, m: Seq<char>)
    requires
        forall|j: int| 0 <= j < scopes.len() ==> !(#[trigger] scopes[j]).defaults.contains_key(m),
    ensures
        last_default(scopes, m) is None,
    decreases scopes.len(),
{
    if scopes.len() > 0 {
        assert(!scopes[scopes.len() - 1].defaults.contains_key(m));
        lemma_no_later_default(scopes.drop_last(), m);
    }
}

} // verus!
