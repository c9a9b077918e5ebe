//! The chain of mimeapps list scopes, from the user's own down to the system's, and the
//! assignments it makes: which application opens which mime type.

use vstd::prelude::*;
use crate::desktop_entry::{entry_type_of, icon_key, name_key, supports_mime_type, type_key, valid_application, DesktopEntry, DesktopEntryId, DesktopEntryType, DesktopEntryView};
use crate::desktop_entry_store::{entry_views, scope_lookup, DesktopEntryStore, EntryScopeView};
use crate::error::MimeAssocError;
use crate::mime_type::{is_wildcard_text, MimeType};
use crate::mime_type_association_store::{
    added_after, has_matching, has_value_in, id_seq_views, is_default_value, is_orphan, removal_match,
    scan_list_lines, scope_text_lines, string_views, without_matching, without_values, AssocScopeView,
    ListError, ListScan, MimeTypeAssociationScope,
};
use crate::text::{insert_sorted_unique, strictly_sorted, texts, views, Textual};

verus! {

/// What a store holds: its scopes in preferential order, and whether assignments are checked
/// to name launchable applications.
pub ghost struct AssocStoreView {
    pub scopes: Seq<AssocScopeView>,
    pub verify_app_is_valid: bool,
}

pub open spec fn assoc_scope_views(v: Seq<MimeTypeAssociationScope>) -> Seq<AssocScopeView> {
    v.map_values(|s: MimeTypeAssociationScope| s@)
}

/// Which scopes a lookup reads.
#[derive(Debug, Clone, Copy, PartialEq, Eq, Structural)]
pub enum ScopeFilter {
    All,
    User,
    System,
}

pub open spec fn admits(f: ScopeFilter, s: AssocScopeView) -> bool {
    match f {
        ScopeFilter::All => true,
        ScopeFilter::User => s.user,
        ScopeFilter::System => !s.user,
    }
}

/// The default application of `m` in the first scope, among those `f` admits, that has one.
pub open spec fn first_default(scopes: Seq<AssocScopeView>, m: Seq<char>, f: ScopeFilter) -> Option<Seq<char>>
    decreases scopes.len(),
{
    if scopes.len() == 0 {
        None
    } else if admits(f, scopes[0]) && scopes[0].defaults.contains_key(m) {
        Some(scopes[0].defaults[m])
    } else {
        first_default(scopes.drop_first(), m, f)
    }
}

/// The index of the first scope the user may change; the number of scopes where there is none.
pub open spec fn first_user_index(scopes: Seq<AssocScopeView>) -> int
    decreases scopes.len(),
{
    if scopes.len() == 0 {
        0
    } else if scopes[0].user {
        0
    } else {
        1 + first_user_index(scopes.drop_first())
    }
}

pub proof fn lemma_first_user_index(scopes: Seq<AssocScopeView>)
    ensures
        0 <= first_user_index(scopes) <= scopes.len(),
        first_user_index(scopes) < scopes.len() ==> scopes[first_user_index(scopes)].user,
        forall|j: int| 0 <= j < first_user_index(scopes) ==> !(#[trigger] scopes[j]).user,
    decreases scopes.len(),
{
    if scopes.len() > 0 && !scopes[0].user {
        lemma_first_user_index(scopes.drop_first());
        assert forall|j: int| 0 <= j < first_user_index(scopes) implies !(#[trigger] scopes[j]).user by {
            if j > 0 {
                assert(scopes[j] == scopes.drop_first()[j - 1]);
            }
        }
    }
}

/// A scope after removing its default applications of the keys that `m` removes.
pub open spec fn removed_view(s: AssocScopeView, m: Seq<char>) -> AssocScopeView {
    AssocScopeView { defaults: without_matching(s.defaults, m), dirty: s.dirty || has_matching(s.defaults, m), ..s }
}

/// The scopes after removing, from those the user may change, the default applications of
/// the keys that `m` removes.
pub open spec fn removed_in_user_scopes(scopes: Seq<AssocScopeView>, m: Seq<char>) -> Seq<AssocScopeView> {
    scopes.map_values(|s: AssocScopeView| if s.user { removed_view(s, m) } else { s })
}

/// `true` when a scope the user may change has a default application that `m` removes.
pub open spec fn user_has_matching(scopes: Seq<AssocScopeView>, m: Seq<char>) -> bool {
    exists|i: int| 0 <= i < scopes.len() && (#[trigger] scopes[i]).user && has_matching(scopes[i].defaults, m)
}

/// A scope without default applications.
pub open spec fn cleared_view(s: AssocScopeView) -> AssocScopeView {
    AssocScopeView {
        defaults: Map::empty(),
        dirty: s.dirty || s.defaults != Map::<Seq<char>, Seq<char>>::empty(),
        ..s
    }
}

/// The scopes with the default applications of those the user may change removed.
pub open spec fn cleared_user_scopes(scopes: Seq<AssocScopeView>) -> Seq<AssocScopeView> {
    scopes.map_values(|s: AssocScopeView| if s.user { cleared_view(s) } else { s })
}

/// `true` when a scope the user may change has a default application.
pub open spec fn user_has_defaults(scopes: Seq<AssocScopeView>) -> bool {
    exists|i: int| 0 <= i < scopes.len() && (#[trigger] scopes[i]).user && scopes[i].defaults != Map::<Seq<char>, Seq<char>>::empty()
}

/// Why an assignment was refused.
pub ghost enum AssignError {
    /// The entry with this id does not appear to be a launchable application.
    InvalidApplication(Seq<char>),
    /// The entry with this id does not declare this mime type.
    UnsupportedMimeType(Seq<char>, Seq<char>),
    /// No scope may be changed by the user.
    NoUserScope,
}

/// `true` when `e` is the error that reports `a`.
pub open spec fn error_is(e: MimeAssocError, a: AssignError) -> bool {
    match a {
        AssignError::InvalidApplication(id) => e matches MimeAssocError::InvalidApplication(x) && x@ == id,
        AssignError::UnsupportedMimeType(id, m) => e matches MimeAssocError::UnsupportedMimeType(x, y) && x@ == id && y@ == m,
        AssignError::NoUserScope => e is NoUserScope,
    }
}

/// Why the entry `e` cannot be assigned to `m`, if it cannot.
pub open spec fn entry_check(verify: bool, e: DesktopEntryView, m: Seq<char>) -> Option<AssignError> {
    if verify && !valid_application(e) {
        Some(AssignError::InvalidApplication(e.id))
    } else if !supports_mime_type(e, m) {
        Some(AssignError::UnsupportedMimeType(e.id, m))
    } else {
        None
    }
}

/// The scopes after making `e` the default application of `m`, or why that is refused (no
/// scope the user may change is one reason): where `e` is what the system's scopes assign, the
/// user's assignments of `m` are removed; else the first scope the user may change assigns it
/// (dirty where that changes it).
pub open spec fn assign_default(sv: AssocStoreView, m: Seq<char>, e: DesktopEntryView) -> Result<Seq<AssocScopeView>, AssignError> {
    match entry_check(sv.verify_app_is_valid, e, m) {
        Some(a) => Err(a),
        None => if first_user_index(sv.scopes) >= sv.scopes.len() {
            Err(AssignError::NoUserScope)
        } else if first_default(sv.scopes, m, ScopeFilter::System) == Some(e.id) {
            Ok(removed_in_user_scopes(sv.scopes, m))
        } else {
            let i = first_user_index(sv.scopes);
            let s = sv.scopes[i];
            Ok(sv.scopes.update(i, AssocScopeView {
                defaults: s.defaults.insert(m, e.id),
                dirty: s.dirty || !(s.defaults.contains_key(m) && s.defaults[m] == e.id),
                ..s
            }))
        },
    }
}

/// Makes `e` the default application of each of `ms` in turn, stopping at the first refusal:
/// the scopes reached, and the refusal if there was one.
pub open spec fn assign_all(sv: AssocStoreView, ms: Seq<Seq<char>>, e: DesktopEntryView) -> (Seq<AssocScopeView>, Option<AssignError>)
    decreases ms.len(),
{
    if ms.len() == 0 {
        (sv.scopes, None)
    } else {
        match assign_default(sv, ms[0], e) {
            Ok(sc) => assign_all(AssocStoreView { scopes: sc, ..sv }, ms.drop_first(), e),
            Err(a) => (sv.scopes, Some(a)),
        }
    }
}

/// The first refusal among the entries `es` for mime type `m`.
pub open spec fn first_entry_error(verify: bool, es: Seq<DesktopEntryView>, m: Seq<char>) -> Option<AssignError>
    decreases es.len(),
{
    if es.len() == 0 {
        None
    } else {
        match entry_check(verify, es[0], m) {
            Some(a) => Some(a),
            None => first_entry_error(verify, es.drop_first(), m),
        }
    }
}

pub open spec fn entry_ids(es: Seq<DesktopEntryView>) -> Seq<Seq<char>> {
    es.map_values(|e: DesktopEntryView| e.id)
}

/// A scope after appending `ids` to the added associations of `m`.
pub open spec fn added_view(s: AssocScopeView, m: Seq<char>, ids: Seq<Seq<char>>) -> AssocScopeView {
    AssocScopeView {
        added: s.added.insert(m, added_after(s.added, m, ids)),
        dirty: s.dirty || !(s.added.contains_key(m) && s.added[m] == added_after(s.added, m, ids)),
        ..s
    }
}

/// The scopes after adding the entries `es` as added associations of `m` in the first scope
/// the user may change, or why that is refused.
pub open spec fn add_outcome(sv: AssocStoreView, m: Seq<char>, es: Seq<DesktopEntryView>) -> Result<Seq<AssocScopeView>, AssignError> {
    match first_entry_error(sv.verify_app_is_valid, es, m) {
        Some(a) => Err(a),
        None => if first_user_index(sv.scopes) >= sv.scopes.len() {
            Err(AssignError::NoUserScope)
        } else {
            let i = first_user_index(sv.scopes);
            Ok(sv.scopes.update(i, added_view(sv.scopes[i], m, entry_ids(es))))
        },
    }
}

/// The added associations of `m`, scope after scope.
pub open spec fn added_chain(scopes: Seq<AssocScopeView>, m: Seq<char>) -> Seq<Seq<char>>
    decreases scopes.len(),
{
    if scopes.len() == 0 {
        Seq::empty()
    } else {
        (if scopes[0].added.contains_key(m) { scopes[0].added[m] } else { Seq::empty() }) + added_chain(scopes.drop_first(), m)
    }
}

/// `true` when some scope names `k`, in either section.
pub open spec fn in_some_scope(scopes: Seq<AssocScopeView>, k: Seq<char>) -> bool {
    exists|i: int| 0 <= i < scopes.len() && ((#[trigger] scopes[i]).defaults.contains_key(k) || scopes[i].added.contains_key(k))
}

/// The scopes with the orphaned default applications (see `is_orphan`) removed from those the
/// user may change; a scope that loses one is dirty.
pub open spec fn pruned_user_scopes(scopes: Seq<AssocScopeView>, entries: Seq<EntryScopeView>) -> Seq<AssocScopeView> {
    scopes.map_values(|s: AssocScopeView| if s.user {
        AssocScopeView {
            defaults: without_values(s.defaults, |v: Seq<char>| is_orphan(entries, v)),
            dirty: s.dirty || has_value_in(s.defaults, |v: Seq<char>| is_orphan(entries, v)),
            ..s
        }
    } else {
        s
    })
}

/// `true` when `v` is an orphaned default application of a scope the user may change.
pub open spec fn user_orphan(scopes: Seq<AssocScopeView>, entries: Seq<EntryScopeView>, v: Seq<char>) -> bool {
    exists|i: int| 0 <= i < scopes.len() && (#[trigger] scopes[i]).user && is_default_value(scopes[i].defaults, v) && is_orphan(entries, v)
}

/// `true` when a scope the user may change has changes not yet saved.
pub open spec fn any_user_dirty(scopes: Seq<AssocScopeView>) -> bool {
    exists|i: int| 0 <= i < scopes.len() && (#[trigger] scopes[i]).user && scopes[i].dirty
}

/// The indices below `n` of the scopes the user may change that have changes not yet saved,
/// in order.
pub open spec fn dirty_user_indices(scopes: Seq<AssocScopeView>, n: int) -> Seq<int>
    decreases n,
{
    if n <= 0 {
        Seq::empty()
    } else {
        dirty_user_indices(scopes, n - 1) + (if scopes[n - 1].user && scopes[n - 1].dirty { seq![n - 1] } else { Seq::empty() })
    }
}

/// The scopes after reloading each from `fresh`, its contents as read again: each keeps its
/// path and is clean.
pub open spec fn reloaded(scopes: Seq<AssocScopeView>, fresh: Seq<AssocScopeView>) -> Seq<AssocScopeView> {
    Seq::new(scopes.len(), |i: int| AssocScopeView { file_path: scopes[i].file_path, dirty: false, ..fresh[i] })
}

/// `true` when `e` reports why a list's lines did not read (`le`), as
/// `MimeTypeAssociationScope::load` does.
pub open spec fn list_error_is(e: MimeAssocError, le: ListError) -> bool {
    match le {
        ListError::Malformed(t) => e matches MimeAssocError::MalformedAssociationLine(x) && x@ == t,
        ListError::EmptyDefault(t) => e matches MimeAssocError::EmptyDefaultApplicationLine(x) && x@ == t,
    }
}

/// What the lines of one list read as.
pub open spec fn list_scan(l: (String, bool, Vec<String>)) -> ListScan {
    scan_list_lines(views(l.2@))
}

/// The index of the first of `lists` whose lines do not read; their number where all do.
pub open spec fn first_unreadable(lists: Seq<(String, bool, Vec<String>)>) -> int
    decreases lists.len(),
{
    if lists.len() == 0 {
        0
    } else if list_scan(lists[0]).error is Some {
        0
    } else {
        1 + first_unreadable(lists.drop_first())
    }
}

/// The scope of a list that reads: its path, whether the user may change it, clean.
pub open spec fn loaded_view(l: (String, bool, Vec<String>)) -> AssocScopeView {
    AssocScopeView { file_path: l.0@, user: l.1, dirty: false, added: list_scan(l).added, defaults: list_scan(l).defaults }
}

impl View for MimeTypeAssociationStore {
    type V = AssocStoreView;

    closed spec fn view(&self) -> AssocStoreView {
        AssocStoreView { scopes: assoc_scope_views(self.scopes@), verify_app_is_valid: self.verify_app_is_valid }
    }
}

/// The mimeapps list scopes of the desktop, in preferential order: an assignment of an earlier
/// scope overrides one of a later scope.
pub struct MimeTypeAssociationStore {
    scopes: Vec<MimeTypeAssociationScope>,
    verify_app_is_valid: bool,
}

pub open spec fn opt_id_view(o: Option<&DesktopEntryId>) -> Option<Seq<char>> {
    match o {
        Some(id) => Some(id@),
        None => None,
    }
}

impl MimeTypeAssociationStore {
    /// The store over `scopes`, in preferential order (earlier overrides later); assignments
    /// are checked to name launchable applications.
    pub fn load(scopes: Vec<MimeTypeAssociationScope>) -> (r: MimeTypeAssociationStore)
        ensures
            r@ == (AssocStoreView { scopes: assoc_scope_views(scopes@), verify_app_is_valid: true }),
    {
        MimeTypeAssociationStore { scopes, verify_app_is_valid: true }
    }

    /// The store over the mimeapps lists `lists` (each its path, whether the user may change
    /// it, and its lines), in preferential order: an earlier list's assignment overrides a
    /// later one's. Fails with the error of the first list that does not read. The store is
    /// clean.
    pub fn load_lists(lists: &Vec<(String, bool, Vec<String>)>) -> (r: Result<MimeTypeAssociationStore, MimeAssocError>)
        ensures
            first_unreadable(lists@) < lists@.len() ==> (r matches Err(e) && list_error_is(e, list_scan(lists@[first_unreadable(lists@)]).error->0)),
            first_unreadable(lists@) >= lists@.len() ==> (r matches Ok(st) && st@ == (AssocStoreView {
                scopes: lists@.map_values(|l: (String, bool, Vec<String>)| loaded_view(l)),
                verify_app_is_valid: true,
            })),
            r matches Ok(st) ==> !any_user_dirty(st@.scopes),
    {
        let ghost ls = lists@;
        let mut scopes: Vec<MimeTypeAssociationScope> = Vec::new();
        let mut i: usize = 0;
        assert(ls.skip(0) =~= ls);
        while i < lists.len()
            invariant
                i <= ls.len(),
                ls == lists@,
                first_unreadable(ls) == i + first_unreadable(ls.skip(i as int)),
                assoc_scope_views(scopes@) == ls.take(i as int).map_values(|l: (String, bool, Vec<String>)| loaded_view(l)),
            decreases ls.len() - i,
        {
            assert(ls.skip(i as int)[0] == ls[i as int]);
            assert(ls.skip(i as int).drop_first() =~= ls.skip(i + 1));
            match MimeTypeAssociationScope::load(lists[i].0.as_str(), lists[i].1, &lists[i].2) {
                Ok(sc) => {
                    let ghost before = assoc_scope_views(scopes@);
                    scopes.push(sc);
                    assert(assoc_scope_views(scopes@) =~= before.push(sc@));
                    assert(ls.take(i + 1) =~= ls.take(i as int).push(ls[i as int]));
                    assert(assoc_scope_views(scopes@) =~= ls.take(i + 1).map_values(|l: (String, bool, Vec<String>)| loaded_view(l)));
                },
                Err(e) => {
                    return Err(e);
                },
            }
            i = i + 1;
        }
        assert(ls.take(i as int) =~= ls);
        let st = MimeTypeAssociationStore { scopes, verify_app_is_valid: true };
        assert(!any_user_dirty(st@.scopes)) by {
            if any_user_dirty(st@.scopes) {
                let j = choose|j: int| 0 <= j < st@.scopes.len() && (#[trigger] st@.scopes[j]).user && st@.scopes[j].dirty;
                assert(st@.scopes[j] == loaded_view(ls[j]));
            }
        }
        Ok(st)
    }

    /// The scopes, in preferential order.
    pub fn scopes(&self) -> (r: &Vec<MimeTypeAssociationScope>)
        ensures
            assoc_scope_views(r@) == self@.scopes,
    {
        &self.scopes
    }

    /// Whether assignments must name applications that appear launchable.
    pub fn set_verify_app_is_valid(&mut self, verify: bool)
        ensures
            final(self)@ == (AssocStoreView { verify_app_is_valid: verify, ..old(self)@ }),
    {
        self.verify_app_is_valid = verify;
    }

    /// The paths of the scopes' files, in preferential order.
    pub fn sources(&self) -> (r: Vec<&str>)
        ensures
            r@.len() == self@.scopes.len(),
            forall|i: int| 0 <= i < r@.len() ==> #[trigger] r@[i]@ == self@.scopes[i].file_path,
    {
        let mut r: Vec<&str> = Vec::new();
        let mut i: usize = 0;
        while i < self.scopes.len()
            invariant
                i <= self.scopes@.len(),
                r@.len() == i,
                forall|j: int| 0 <= j < i ==> #[trigger] r@[j]@ == assoc_scope_views(self.scopes@)[j].file_path,
            decreases self.scopes@.len() - i,
        {
            r.push(self.scopes[i].file_path());
            i = i + 1;
        }
        r
    }

    /// The default application of `mime_type` in the first scope, among those `filter`
    /// admits, that has one.
    pub fn first_default_application(&self, mime_type: &MimeType, filter: ScopeFilter) -> (r: Option<&DesktopEntryId>)
        ensures
            opt_id_view(r) == first_default(self@.scopes, mime_type@, filter),
    {
        let ghost sv = self@.scopes;
        let mut i: usize = 0;
        assert(sv.skip(0) =~= sv);
        while i < self.scopes.len()
            invariant
                i <= self.scopes@.len(),
                sv == assoc_scope_views(self.scopes@),
                first_default(sv, mime_type@, filter) == first_default(sv.skip(i as int), mime_type@, filter),
            decreases self.scopes@.len() - i,
        {
            assert(sv.skip(i as int)[0] == self.scopes@[i as int]@);
            assert(sv.skip(i as int).drop_first() =~= sv.skip(i + 1));
            let admitted = match filter {
                ScopeFilter::All => true,
                ScopeFilter::User => self.scopes[i].is_user_customizable(),
                ScopeFilter::System => !self.scopes[i].is_user_customizable(),
            };
            if admitted {
                if let Some(id) = self.scopes[i].default_application(mime_type) {
                    return Some(id);
                }
            }
            i = i + 1;
        }
        None
    }

    /// The application that opens `mime_type`: the default application of the first scope
    /// that assigns one.
    pub fn default_application_for(&self, mime_type: &MimeType) -> (r: Option<&DesktopEntryId>)
        ensures
            opt_id_view(r) == first_default(self@.scopes, mime_type@, ScopeFilter::All),
    {
        self.first_default_application(mime_type, ScopeFilter::All)
    }

    /// The default application of `mime_type` that the user's scopes assign, if any.
    pub fn user_default_application_for(&self, mime_type: &MimeType) -> (r: Option<&DesktopEntryId>)
        ensures
            opt_id_view(r) == first_default(self@.scopes, mime_type@, ScopeFilter::User),
    {
        self.first_default_application(mime_type, ScopeFilter::User)
    }

    /// The default application of `mime_type` that the system's scopes assign: what would
    /// open it were the user's assignments removed.
    pub fn system_default_application_for(&self, mime_type: &MimeType) -> (r: Option<&DesktopEntryId>)
        ensures
            opt_id_view(r) == first_default(self@.scopes, mime_type@, ScopeFilter::System),
    {
        self.first_default_application(mime_type, ScopeFilter::System)
    }

    /// Removes, from the scopes the user may change, the default applications of `mime_type`
    /// (of every mime type of its major type, where it is a wildcard such as `image/*`).
    /// Returns true where one was removed, which leaves its scope dirty.
    pub fn remove_assigned_applications_for(&mut self, mime_type: &MimeType) -> (r: bool)
        ensures
            r == user_has_matching(old(self)@.scopes, mime_type@),
            final(self)@ == (AssocStoreView { scopes: removed_in_user_scopes(old(self)@.scopes, mime_type@), ..old(self)@ }),
    {
        let ghost orig = self@.scopes;
        let ghost target = removed_in_user_scopes(orig, mime_type@);
        let mut dirtied = false;
        let mut i: usize = 0;
        while i < self.scopes.len()
            invariant
                i <= self.scopes@.len(),
                self.scopes@.len() == orig.len(),
                self.verify_app_is_valid == old(self).verify_app_is_valid,
                orig == old(self)@.scopes,
                target == removed_in_user_scopes(orig, mime_type@),
                forall|j: int| 0 <= j < i ==> #[trigger] assoc_scope_views(self.scopes@)[j] == target[j],
                forall|j: int| i <= j < orig.len() ==> #[trigger] assoc_scope_views(self.scopes@)[j] == orig[j],
                dirtied == exists|j: int| 0 <= j < i && (#[trigger] orig[j]).user && has_matching(orig[j].defaults, mime_type@),
            decreases self.scopes@.len() - i,
        {
            assert(assoc_scope_views(self.scopes@)[i as int] == orig[i as int]);
            let ghost views_before = assoc_scope_views(self.scopes@);
            if self.scopes[i].is_user_customizable() {
                let ghost before = self.scopes@;
                let mut s = self.scopes.remove(i);
                let changed = s.remove_defaults_matching(mime_type);
                self.scopes.insert(i, s);
                assert(self.scopes@ =~= before.update(i as int, s));
                assert(s@ == target[i as int]);
                if changed {
                    dirtied = true;
                }
            }
            assert(assoc_scope_views(self.scopes@) =~= views_before.update(i as int, target[i as int]));
            i = i + 1;
        }
        assert(assoc_scope_views(self.scopes@) =~= target);
        dirtied
    }

    /// Removes every default application of the scopes the user may change, resetting the
    /// user's assignments to the system's. Returns true where one was removed, which leaves
    /// its scope dirty.
    pub fn clear_assigned_applications(&mut self) -> (r: bool)
        ensures
            r == user_has_defaults(old(self)@.scopes),
            final(self)@ == (AssocStoreView { scopes: cleared_user_scopes(old(self)@.scopes), ..old(self)@ }),
    {
        let ghost orig = self@.scopes;
        let ghost target = cleared_user_scopes(orig);
        let mut dirtied = false;
        let mut i: usize = 0;
        while i < self.scopes.len()
            invariant
                i <= self.scopes@.len(),
                self.scopes@.len() == orig.len(),
                self.verify_app_is_valid == old(self).verify_app_is_valid,
                orig == old(self)@.scopes,
                target == cleared_user_scopes(orig),
                forall|j: int| 0 <= j < i ==> #[trigger] assoc_scope_views(self.scopes@)[j] == target[j],
                forall|j: int| i <= j < orig.len() ==> #[trigger] assoc_scope_views(self.scopes@)[j] == orig[j],
                dirtied == exists|j: int| 0 <= j < i && (#[trigger] orig[j]).user && orig[j].defaults != Map::<Seq<char>, Seq<char>>::empty(),
            decreases self.scopes@.len() - i,
        {
            assert(assoc_scope_views(self.scopes@)[i as int] == orig[i as int]);
            let ghost views_before = assoc_scope_views(self.scopes@);
            if self.scopes[i].is_user_customizable() {
                let ghost before = self.scopes@;
                let mut s = self.scopes.remove(i);
                let changed = s.clear_defaults();
                self.scopes.insert(i, s);
                assert(self.scopes@ =~= before.update(i as int, s));
                assert(s@ == target[i as int]);
                if changed {
                    dirtied = true;
                }
            }
            assert(assoc_scope_views(self.scopes@) =~= views_before.update(i as int, target[i as int]));
            i = i + 1;
        }
        assert(assoc_scope_views(self.scopes@) =~= target);
        dirtied
    }

    /// The index of the first scope the user may change.
    pub fn first_user_scope_index(&self) -> (r: Option<usize>)
        ensures
            match r {
                Some(i) => i == first_user_index(self@.scopes) && i < self@.scopes.len(),
                None => first_user_index(self@.scopes) == self@.scopes.len(),
            },
    {
        let ghost sv = self@.scopes;
        proof {
            lemma_first_user_index(sv);
        }
        let mut i: usize = 0;
        while i < self.scopes.len()
            invariant
                i <= self.scopes@.len(),
                sv == assoc_scope_views(self.scopes@),
                i <= first_user_index(sv) <= sv.len(),
                first_user_index(sv) < sv.len() ==> sv[first_user_index(sv)].user,
                forall|j: int| 0 <= j < first_user_index(sv) ==> !(#[trigger] sv[j]).user,
            decreases self.scopes@.len() - i,
        {
            assert(sv[i as int] == self.scopes@[i as int]@);
            if self.scopes[i].is_user_customizable() {
                return Some(i);
            }
            i = i + 1;
        }
        None
    }

    /// Makes `desktop_entry` the default application of `mime_type`. Refused where the entry
    /// does not appear launchable (when that is checked), does not declare the mime type, or
    /// no scope may be changed by the user. Where the entry is what the system's scopes assign,
    /// the user's assignments of the mime type are removed instead.
    pub fn set_default_handler_for_mime_type(&mut self, mime_type: &MimeType, desktop_entry: &DesktopEntry) -> (r: Result<(), MimeAssocError>)
        ensures
            match assign_default(old(self)@, mime_type@, desktop_entry@) {
                Ok(sc) => r is Ok && final(self)@ == (AssocStoreView { scopes: sc, ..old(self)@ }),
                Err(a) => r matches Err(e) && error_is(e, a) && final(self)@ == old(self)@,
            },
    {
        if self.verify_app_is_valid && !desktop_entry.appears_valid_application() {
            return Err(MimeAssocError::InvalidApplication(desktop_entry.id().to_string()));
        }
        if !desktop_entry.can_open_mime_type(mime_type) {
            return Err(MimeAssocError::UnsupportedMimeType(desktop_entry.id().to_string(), mime_type.to_string()));
        }
        match self.first_user_scope_index() {
            Some(i) => {
                let is_system_default = match self.system_default_application_for(mime_type) {
                    Some(id) => id.same_as(desktop_entry.id()),
                    None => false,
                };
                if is_system_default {
                    self.remove_assigned_applications_for(mime_type);
                    return Ok(());
                }
                let ghost before = self.scopes@;
                let mut s = self.scopes.remove(i);
                s.set_default_application(mime_type.duplicate(), desktop_entry.id().duplicate());
                self.scopes.insert(i, s);
                assert(self.scopes@ =~= before.update(i as int, s));
                assert(assoc_scope_views(self.scopes@) =~= assoc_scope_views(before).update(i as int, s@));
                Ok(())
            },
            None => Err(MimeAssocError::NoUserScope),
        }
    }

    /// Makes `desktop_entry` the default application of each mime type it declares, in order;
    /// stops at the first refusal, keeping the assignments made before it.
    pub fn make_desktop_entry_default_handler_of_its_supported_mime_types(&mut self, desktop_entry: &DesktopEntry) -> (r: Result<(), MimeAssocError>)
        ensures
            ({
                let (sc, err) = assign_all(old(self)@, desktop_entry@.mime_types, desktop_entry@);
                &&& final(self)@ == (AssocStoreView { scopes: sc, ..old(self)@ })
                &&& match err {
                    None => r is Ok,
                    Some(a) => r matches Err(e) && error_is(e, a),
                }
            }),
    {
        let mime_types = desktop_entry.mime_types();
        let ghost ms = desktop_entry@.mime_types;
        let mut k: usize = 0;
        assert(ms.skip(0) =~= ms);
        while k < mime_types.len()
            invariant
                k <= mime_types@.len(),
                ms == crate::desktop_entry::mime_views(mime_types@),
                ms == desktop_entry@.mime_types,
                ms.len() == mime_types@.len(),
                self.verify_app_is_valid == old(self).verify_app_is_valid,
                assign_all(old(self)@, ms, desktop_entry@) == assign_all(self@, ms.skip(k as int), desktop_entry@),
            decreases mime_types@.len() - k,
        {
            assert(ms.skip(k as int)[0] == mime_types@[k as int]@);
            assert(ms.skip(k as int).drop_first() =~= ms.skip(k + 1));
            let ghost sv = self@;
            match self.set_default_handler_for_mime_type(&mime_types[k], desktop_entry) {
                Ok(()) => {},
                Err(e) => {
                    assert(assign_all(sv, ms.skip(k as int), desktop_entry@) == (sv.scopes, Some(assign_default(sv, ms.skip(k as int)[0], desktop_entry@)->Err_0)));
                    return Err(e);
                },
            }
            assert(self@ == (AssocStoreView { scopes: self@.scopes, ..sv }));
            k = k + 1;
        }
        assert(ms.skip(k as int) =~= Seq::<Seq<char>>::empty());
        Ok(())
    }

    /// Adds the entries as added associations of `mime_type` in the first scope the user may
    /// change: appended to its list, each id once. Refused where an entry does not appear
    /// launchable (when that is checked) or does not declare the mime type, or no scope may be
    /// changed by the user.
    pub fn add_added_associations(&mut self, mime_type: &MimeType, desktop_entries: &[DesktopEntry]) -> (r: Result<(), MimeAssocError>)
        ensures
            match add_outcome(old(self)@, mime_type@, entry_views(desktop_entries@)) {
                Ok(sc) => r is Ok && final(self)@ == (AssocStoreView { scopes: sc, ..old(self)@ }),
                Err(a) => r matches Err(e) && error_is(e, a) && final(self)@ == old(self)@,
            },
    {
        let ghost es = entry_views(desktop_entries@);
        let mut k: usize = 0;
        assert(es.skip(0) =~= es);
        while k < desktop_entries.len()
            invariant
                k <= desktop_entries@.len(),
                es == entry_views(desktop_entries@),
                first_entry_error(self.verify_app_is_valid, es, mime_type@) == first_entry_error(self.verify_app_is_valid, es.skip(k as int), mime_type@),
            decreases desktop_entries@.len() - k,
        {
            let e = &desktop_entries[k];
            assert(es.skip(k as int)[0] == e@);
            assert(es.skip(k as int).drop_first() =~= es.skip(k + 1));
            if self.verify_app_is_valid && !e.appears_valid_application() {
                return Err(MimeAssocError::InvalidApplication(e.id().to_string()));
            }
            if !e.can_open_mime_type(mime_type) {
                return Err(MimeAssocError::UnsupportedMimeType(e.id().to_string(), mime_type.to_string()));
            }
            k = k + 1;
        }
        assert(es.skip(k as int) =~= Seq::<DesktopEntryView>::empty());
        match self.first_user_scope_index() {
            Some(i) => {
                let mut ids: Vec<DesktopEntryId> = Vec::new();
                let mut j: usize = 0;
                while j < desktop_entries.len()
                    invariant
                        j <= desktop_entries@.len(),
                        es == entry_views(desktop_entries@),
                        id_seq_views(ids@) == entry_ids(es).take(j as int),
                    decreases desktop_entries@.len() - j,
                {
                    let ghost before = id_seq_views(ids@);
                    ids.push(desktop_entries[j].id().duplicate());
                    assert(id_seq_views(ids@) =~= before.push(desktop_entries@[j as int]@.id));
                    assert(entry_ids(es).take(j + 1) =~= entry_ids(es).take(j as int).push(es[j as int].id));
                    j = j + 1;
                }
                assert(entry_ids(es).take(j as int) =~= entry_ids(es));
                let ghost before = self.scopes@;
                let mut s = self.scopes.remove(i);
                s.add_associations(mime_type, &ids);
                self.scopes.insert(i, s);
                assert(self.scopes@ =~= before.update(i as int, s));
                assert(assoc_scope_views(self.scopes@) =~= assoc_scope_views(before).update(i as int, s@));
                Ok(())
            },
            None => Err(MimeAssocError::NoUserScope),
        }
    }

    /// Removes from the scopes the user may change the default applications that
    /// `desktop_entry_store` lacks, or holds only as entries that do not appear launchable.
    /// Returns those ids, each once. A scope that loses one is dirty, so that `save` writes it.
    pub fn prune_orphaned_application_assignments(&mut self, desktop_entry_store: &DesktopEntryStore) -> (r: Vec<DesktopEntryId>)
        ensures
            id_seq_views(r@).no_duplicates(),
            forall|v: Seq<char>| #[trigger] id_seq_views(r@).contains(v) <==> user_orphan(old(self)@.scopes, desktop_entry_store@, v),
            final(self)@ == (AssocStoreView { scopes: pruned_user_scopes(old(self)@.scopes, desktop_entry_store@), ..old(self)@ }),
    {
        let ghost orig = self@.scopes;
        let ghost entries = desktop_entry_store@;
        let ghost target = pruned_user_scopes(orig, entries);
        let mut orphans: Vec<DesktopEntryId> = Vec::new();
        let mut i: usize = 0;
        while i < self.scopes.len()
            invariant
                i <= self.scopes@.len(),
                self.scopes@.len() == orig.len(),
                self.verify_app_is_valid == old(self).verify_app_is_valid,
                orig == old(self)@.scopes,
                entries == desktop_entry_store@,
                target == pruned_user_scopes(orig, entries),
                forall|j: int| 0 <= j < i ==> #[trigger] assoc_scope_views(self.scopes@)[j] == target[j],
                forall|j: int| i <= j < orig.len() ==> #[trigger] assoc_scope_views(self.scopes@)[j] == orig[j],
                id_seq_views(orphans@).no_duplicates(),
                forall|v: Seq<char>| #[trigger] id_seq_views(orphans@).contains(v) <==> (exists|j: int| 0 <= j < i && (#[trigger] orig[j]).user && is_default_value(orig[j].defaults, v) && is_orphan(entries, v)),
            decreases self.scopes@.len() - i,
        {
            assert(assoc_scope_views(self.scopes@)[i as int] == orig[i as int]);
            let ghost views_before = assoc_scope_views(self.scopes@);
            let ghost orphans_before = id_seq_views(orphans@);
            if self.scopes[i].is_user_customizable() {
                let ghost before = self.scopes@;
                let mut s = self.scopes.remove(i);
                s.collect_orphans(desktop_entry_store, &mut orphans);
                s.remove_defaults_with_ids(&orphans);
                self.scopes.insert(i, s);
                assert(self.scopes@ =~= before.update(i as int, s));
                proof {
                    let d = orig[i as int].defaults;
                    let g = id_seq_views(orphans@);
                    assert forall|k: Seq<char>| d.contains_key(k) implies (g.contains(#[trigger] d[k]) <==> is_orphan(entries, d[k])) by {
                        assert(is_default_value(d, d[k]));
                        if orphans_before.contains(d[k]) {
                            let j = choose|j: int| 0 <= j < i && (#[trigger] orig[j]).user && is_default_value(orig[j].defaults, d[k]) && is_orphan(entries, d[k]);
                        }
                    }
                    assert(without_values(d, |v: Seq<char>| g.contains(v)) =~= without_values(d, |v: Seq<char>| is_orphan(entries, v)));
                    if has_value_in(d, |v: Seq<char>| g.contains(v)) {
                        let k = choose|k: Seq<char>| d.contains_key(k) && g.contains(d[k]);
                        assert(is_orphan(entries, d[k]));
                    }
                    if has_value_in(d, |v: Seq<char>| is_orphan(entries, v)) {
                        let k = choose|k: Seq<char>| d.contains_key(k) && is_orphan(entries, d[k]);
                        assert(g.contains(d[k]));
                    }
                    assert(s@ == target[i as int]);
                    assert forall|v: Seq<char>| #[trigger] id_seq_views(orphans@).contains(v) <==> (exists|j: int| 0 <= j < i + 1 && (#[trigger] orig[j]).user && is_default_value(orig[j].defaults, v) && is_orphan(entries, v)) by {
                        if exists|j: int| 0 <= j < i + 1 && (#[trigger] orig[j]).user && is_default_value(orig[j].defaults, v) && is_orphan(entries, v) {
                            let j = choose|j: int| 0 <= j < i + 1 && (#[trigger] orig[j]).user && is_default_value(orig[j].defaults, v) && is_orphan(entries, v);
                            if j < i {
                                assert(orphans_before.contains(v));
                            }
                        }
                    }
                }
            } else {
                proof {
                    assert forall|v: Seq<char>| #[trigger] id_seq_views(orphans@).contains(v) <==> (exists|j: int| 0 <= j < i + 1 && (#[trigger] orig[j]).user && is_default_value(orig[j].defaults, v) && is_orphan(entries, v)) by {
                        if exists|j: int| 0 <= j < i + 1 && (#[trigger] orig[j]).user && is_default_value(orig[j].defaults, v) && is_orphan(entries, v) {
                            let j = choose|j: int| 0 <= j < i + 1 && (#[trigger] orig[j]).user && is_default_value(orig[j].defaults, v) && is_orphan(entries, v);
                            assert(j < i);
                        }
                    }
                }
            }
            assert(assoc_scope_views(self.scopes@) =~= views_before.update(i as int, target[i as int]));
            i = i + 1;
        }
        assert(assoc_scope_views(self.scopes@) =~= target);
        orphans
    }

    /// The added associations of `mime_type`, scope after scope in preferential order.
    pub fn added_associations_for(&self, mime_type: &MimeType) -> (r: Vec<DesktopEntryId>)
        ensures
            id_seq_views(r@) == added_chain(self@.scopes, mime_type@),
    {
        let ghost sv = self@.scopes;
        let mut r: Vec<DesktopEntryId> = Vec::new();
        let mut i: usize = 0;
        assert(sv.skip(0) =~= sv);
        assert(id_seq_views(r@) + added_chain(sv.skip(0), mime_type@) =~= added_chain(sv, mime_type@));
        while i < self.scopes.len()
            invariant
                i <= self.scopes@.len(),
                sv == assoc_scope_views(self.scopes@),
                id_seq_views(r@) + added_chain(sv.skip(i as int), mime_type@) == added_chain(sv, mime_type@),
            decreases self.scopes@.len() - i,
        {
            assert(sv.skip(i as int)[0] == self.scopes@[i as int]@);
            assert(sv.skip(i as int).drop_first() =~= sv.skip(i + 1));
            let ghost start = id_seq_views(r@);
            if let Some(ids) = self.scopes[i].added_associations(mime_type) {
                let mut j: usize = 0;
                while j < ids.len()
                    invariant
                        j <= ids@.len(),
                        id_seq_views(r@) == start + id_seq_views(ids@).take(j as int),
                    decreases ids@.len() - j,
                {
                    let ghost before = id_seq_views(r@);
                    r.push(ids[j].duplicate());
                    assert(id_seq_views(r@) =~= before.push(ids@[j as int]@));
                    assert(id_seq_views(ids@).take(j + 1) =~= id_seq_views(ids@).take(j as int).push(ids@[j as int]@));
                    j = j + 1;
                }
                assert(id_seq_views(ids@).take(j as int) =~= id_seq_views(ids@));
                assert(id_seq_views(r@) + added_chain(sv.skip(i + 1), mime_type@) =~= start + added_chain(sv.skip(i as int), mime_type@));
            } else {
                assert(id_seq_views(r@) + added_chain(sv.skip(i + 1), mime_type@) =~= start + added_chain(sv.skip(i as int), mime_type@));
            }
            i = i + 1;
        }
        assert(sv.skip(i as int) =~= Seq::<AssocScopeView>::empty());
        assert(id_seq_views(r@) =~= id_seq_views(r@) + added_chain(sv.skip(i as int), mime_type@));
        r
    }

    /// The mime types any scope names, in either section: each once, in order.
    pub fn mime_types(&self) -> (r: Vec<&MimeType>)
        ensures
            strictly_sorted(texts(r@)),
            forall|k: Seq<char>| #[trigger] texts(r@).contains(k) <==> in_some_scope(self@.scopes, k),
    {
        let ghost sv = self@.scopes;
        let mut r: Vec<&MimeType> = Vec::new();
        let mut i: usize = 0;
        while i < self.scopes.len()
            invariant
                i <= self.scopes@.len(),
                sv == assoc_scope_views(self.scopes@),
                strictly_sorted(texts(r@)),
                forall|k: Seq<char>| #[trigger] texts(r@).contains(k) <==> (exists|j: int| 0 <= j < i && ((#[trigger] sv[j]).defaults.contains_key(k) || sv[j].added.contains_key(k))),
            decreases self.scopes@.len() - i,
        {
            assert(sv[i as int] == self.scopes@[i as int]@);
            let refs = self.scopes[i].mime_type_refs();
            let ghost start = texts(r@);
            let mut j: usize = 0;
            while j < refs.len()
                invariant
                    j <= refs@.len(),
                    strictly_sorted(texts(r@)),
                    forall|k: Seq<char>| #[trigger] texts(r@).contains(k) <==> (start.contains(k) || exists|q: int| 0 <= q < j && #[trigger] texts(refs@)[q] == k),
                decreases refs@.len() - j,
            {
                insert_sorted_unique(&mut r, refs[j]);
                proof {
                    assert forall|k: Seq<char>| #[trigger] texts(r@).contains(k) <==> (start.contains(k) || exists|q: int| 0 <= q < j + 1 && #[trigger] texts(refs@)[q] == k) by {
                        if k == refs@[j as int].text() {
                            assert(texts(refs@)[j as int] == k);
                        }
                    }
                }
                j = j + 1;
            }
            proof {
                assert forall|k: Seq<char>| #[trigger] texts(r@).contains(k) <==> (exists|j: int| 0 <= j < i + 1 && ((#[trigger] sv[j]).defaults.contains_key(k) || sv[j].added.contains_key(k))) by {
                    if texts(refs@).contains(k) {
                        let q = choose|q: int| 0 <= q < texts(refs@).len() && texts(refs@)[q] == k;
                    }
                    if sv[i as int].defaults.contains_key(k) || sv[i as int].added.contains_key(k) {
                        assert(texts(refs@).contains(k));
                        let q = choose|q: int| 0 <= q < texts(refs@).len() && texts(refs@)[q] == k;
                    }
                }
            }
            i = i + 1;
        }
        r
    }

    /// The mime types of the store that `mime_type` matches: for a wildcard such as `image/*`
    /// all of its major type, else `mime_type` itself where some scope names it. Each once,
    /// in order.
    pub fn find_matching_mimetypes(&self, mime_type: &MimeType) -> (r: Vec<&MimeType>)
        ensures
            strictly_sorted(texts(r@)),
            forall|k: Seq<char>| #[trigger] texts(r@).contains(k) <==> (in_some_scope(self@.scopes, k) && removal_match(mime_type@, k)),
    {
        let all = self.mime_types();
        let wildcard = mime_type.is_minor_type_wildcard();
        let mut r: Vec<&MimeType> = Vec::new();
        let mut i: usize = 0;
        while i < all.len()
            invariant
                i <= all@.len(),
                wildcard == crate::mime_type::is_wildcard_text(mime_type@),
                strictly_sorted(texts(r@)),
                forall|k: Seq<char>| #[trigger] texts(r@).contains(k) <==> (exists|q: int| 0 <= q < i && #[trigger] texts(all@)[q] == k && removal_match(mime_type@, k)),
            decreases all@.len() - i,
        {
            let matched = if wildcard {
                mime_type.wildcard_match(all[i])
            } else {
                all[i].same_as(mime_type)
            };
            assert(texts(all@)[i as int] == all@[i as int]@);
            assert(matched == removal_match(mime_type@, all@[i as int]@));
            if matched {
                insert_sorted_unique(&mut r, all[i]);
            }
            proof {
                assert forall|k: Seq<char>| #[trigger] texts(r@).contains(k) <==> (exists|q: int| 0 <= q < i + 1 && #[trigger] texts(all@)[q] == k && removal_match(mime_type@, k)) by {
                    if exists|q: int| 0 <= q < i + 1 && #[trigger] texts(all@)[q] == k && removal_match(mime_type@, k) {
                        let q = choose|q: int| 0 <= q < i + 1 && #[trigger] texts(all@)[q] == k && removal_match(mime_type@, k);
                    }
                }
            }
            i = i + 1;
        }
        proof {
            assert forall|k: Seq<char>| #[trigger] texts(r@).contains(k) <==> (in_some_scope(self@.scopes, k) && removal_match(mime_type@, k)) by {
                if texts(all@).contains(k) {
                    let q = choose|q: int| 0 <= q < texts(all@).len() && texts(all@)[q] == k;
                }
                if exists|q: int| 0 <= q < all@.len() && #[trigger] texts(all@)[q] == k && removal_match(mime_type@, k) {
                    let q = choose|q: int| 0 <= q < all@.len() && #[trigger] texts(all@)[q] == k && removal_match(mime_type@, k);
                    assert(texts(all@).contains(k));
                }
            }
        }
        r
    }

    /// `true` when a scope the user may change has changes not yet saved.
    pub fn is_dirty(&self) -> (r: bool)
        ensures
            r == any_user_dirty(self@.scopes),
    {
        let ghost sv = self@.scopes;
        let mut i: usize = 0;
        while i < self.scopes.len()
            invariant
                i <= self.scopes@.len(),
                sv == assoc_scope_views(self.scopes@),
                forall|j: int| 0 <= j < i ==> !((#[trigger] sv[j]).user && sv[j].dirty),
            decreases self.scopes@.len() - i,
        {
            assert(sv[i as int] == self.scopes@[i as int]@);
            if self.scopes[i].is_user_customizable() && self.scopes[i].is_dirty() {
                return true;
            }
            i = i + 1;
        }
        false
    }

    /// What committing the changes writes: for each scope the user may change that has
    /// changes not yet saved, in order, its index, its file's path and the file's lines. Once
    /// a file is written, `mark_saved` records it.
    pub fn save(&self) -> (r: Vec<(usize, String, Vec<String>)>)
        ensures
            r@.len() == dirty_user_indices(self@.scopes, self@.scopes.len() as int).len(),
            forall|p: int| 0 <= p < r@.len() ==> {
                let i = dirty_user_indices(self@.scopes, self@.scopes.len() as int)[p];
                &&& (#[trigger] r@[p]).0 == i
                &&& r@[p].1@ == self@.scopes[i].file_path
                &&& string_views(r@[p].2@) == scope_text_lines(self@.scopes[i])
            },
    {
        let ghost sv = self@.scopes;
        let mut r: Vec<(usize, String, Vec<String>)> = Vec::new();
        let mut i: usize = 0;
        while i < self.scopes.len()
            invariant
                i <= self.scopes@.len(),
                sv == assoc_scope_views(self.scopes@),
                r@.len() == dirty_user_indices(sv, i as int).len(),
                forall|p: int| 0 <= p < r@.len() ==> {
                    let q = dirty_user_indices(sv, i as int)[p];
                    &&& (#[trigger] r@[p]).0 == q
                    &&& 0 <= q < sv.len()
                    &&& r@[p].1@ == sv[q].file_path
                    &&& string_views(r@[p].2@) == scope_text_lines(sv[q])
                },
            decreases self.scopes@.len() - i,
        {
            assert(sv[i as int] == self.scopes@[i as int]@);
            let ghost before = r@;
            if self.scopes[i].is_user_customizable() && self.scopes[i].is_dirty() {
                match self.scopes[i].save() {
                    Ok(lines) => {
                        assert(string_views(lines@) == scope_text_lines(sv[i as int]));
                        let path = self.scopes[i].file_path().to_owned();
                        assert(path@ == sv[i as int].file_path);
                        r.push((i, path, lines));
                        assert(dirty_user_indices(sv, i + 1) =~= dirty_user_indices(sv, i as int).push(i as int));
                        assert(r@[before.len() as int] == (i, path, lines));
                        assert forall|p: int| 0 <= p < r@.len() implies {
                            let q = dirty_user_indices(sv, i + 1)[p];
                            &&& (#[trigger] r@[p]).0 == q
                            &&& 0 <= q < sv.len()
                            &&& r@[p].1@ == sv[q].file_path
                            &&& string_views(r@[p].2@) == scope_text_lines(sv[q])
                        } by {
                            if p < before.len() {
                                assert(r@[p] == before[p]);
                                assert(dirty_user_indices(sv, i + 1)[p] == dirty_user_indices(sv, i as int)[p]);
                            }
                        }
                    },
                    Err(_) => {
                        assert(false);
                    },
                }
            } else {
                assert(dirty_user_indices(sv, i + 1) =~= dirty_user_indices(sv, i as int));
            }
            i = i + 1;
        }
        r
    }

    /// Records that the scope at `index` was written to its file: it is clean. Nothing
    /// changes for an index past the last scope.
    pub fn mark_saved(&mut self, index: usize)
        ensures
            index < old(self)@.scopes.len() ==> final(self)@ == (AssocStoreView {
                scopes: old(self)@.scopes.update(index as int, AssocScopeView { dirty: false, ..old(self)@.scopes[index as int] }),
                ..old(self)@
            }),
            index >= old(self)@.scopes.len() ==> final(self)@ == old(self)@,
    {
        if index < self.scopes.len() {
            let ghost before = self.scopes@;
            let mut s = self.scopes.remove(index);
            s.mark_saved();
            self.scopes.insert(index, s);
            assert(self.scopes@ =~= before.update(index as int, s));
            assert(assoc_scope_views(self.scopes@) =~= assoc_scope_views(before).update(index as int, s@));
        }
    }

    /// The first scope the user may change, if any.
    pub fn get_user_scope(&self) -> (r: Option<&MimeTypeAssociationScope>)
        ensures
            match r {
                Some(s) => first_user_index(self@.scopes) < self@.scopes.len() && s@ == self@.scopes[first_user_index(self@.scopes)],
                None => first_user_index(self@.scopes) == self@.scopes.len(),
            },
    {
        match self.first_user_scope_index() {
            Some(i) => Some(&self.scopes[i]),
            None => None,
        }
    }

    /// Replaces the first scope the user may change with `scope`; refused where there is
    /// none.
    pub fn overwrite_user_scope(&mut self, scope: MimeTypeAssociationScope) -> (r: Result<(), MimeAssocError>)
        ensures
            first_user_index(old(self)@.scopes) < old(self)@.scopes.len() ==> r is Ok && final(self)@ == (AssocStoreView {
                scopes: old(self)@.scopes.update(first_user_index(old(self)@.scopes), scope@),
                ..old(self)@
            }),
            first_user_index(old(self)@.scopes) >= old(self)@.scopes.len() ==> (r matches Err(e) && e is NoUserScope) && final(self)@ == old(self)@,
    {
        match self.first_user_scope_index() {
            Some(i) => {
                let ghost before = self.scopes@;
                let ghost sv = scope@;
                self.scopes.set(i, scope);
                assert(assoc_scope_views(self.scopes@) =~= assoc_scope_views(before).update(i as int, sv));
                Ok(())
            },
            None => Err(MimeAssocError::NoUserScope),
        }
    }

    /// Takes for each scope, in order, its contents as read again from its file (see
    /// `MimeTypeAssociationScope::reload`), discarding unsaved changes. Refused, with nothing
    /// changed, where `fresh` does not hold one scope per scope of the store.
    pub fn reload(&mut self, fresh: Vec<MimeTypeAssociationScope>) -> (r: Result<(), MimeAssocError>)
        ensures
            fresh@.len() == old(self)@.scopes.len() ==> r is Ok && final(self)@ == (AssocStoreView {
                scopes: reloaded(old(self)@.scopes, assoc_scope_views(fresh@)),
                ..old(self)@
            }),
            fresh@.len() != old(self)@.scopes.len() ==> (r matches Err(e) && e is ScopeCountMismatch) && final(self)@ == old(self)@,
    {
        if fresh.len() != self.scopes.len() {
            return Err(MimeAssocError::ScopeCountMismatch);
        }
        let ghost orig = self@.scopes;
        let ghost fv = assoc_scope_views(fresh@);
        let ghost target = reloaded(orig, fv);
        let mut rest = fresh;
        let mut i: usize = 0;
        while i < self.scopes.len()
            invariant
                i <= self.scopes@.len(),
                self.scopes@.len() == orig.len(),
                fv.len() == orig.len(),
                self.verify_app_is_valid == old(self).verify_app_is_valid,
                orig == old(self)@.scopes,
                target == reloaded(orig, fv),
                assoc_scope_views(rest@) == fv.skip(i as int),
                forall|j: int| 0 <= j < i ==> #[trigger] assoc_scope_views(self.scopes@)[j] == target[j],
                forall|j: int| i <= j < orig.len() ==> #[trigger] assoc_scope_views(self.scopes@)[j] == orig[j],
            decreases self.scopes@.len() - i,
        {
            assert(assoc_scope_views(self.scopes@)[i as int] == orig[i as int]);
            let ghost views_before = assoc_scope_views(self.scopes@);
            let ghost rest_before = rest@;
            assert(assoc_scope_views(rest@).len() == rest@.len());
            assert(assoc_scope_views(rest@)[0] == rest@[0]@);
            let f = rest.remove(0);
            assert(f@ == fv[i as int]);
            assert(rest@ =~= rest_before.drop_first());
            assert forall|q: int| 0 <= q < rest@.len() implies #[trigger] assoc_scope_views(rest@)[q] == fv.skip(i + 1)[q] by {
                assert(rest@[q] == rest_before[q + 1]);
                assert(assoc_scope_views(rest_before)[q + 1] == fv.skip(i as int)[q + 1]);
            }
            assert(assoc_scope_views(rest@) =~= fv.skip(i + 1));
            let ghost before = self.scopes@;
            let mut s = self.scopes.remove(i);
            s.reload(f);
            self.scopes.insert(i, s);
            assert(self.scopes@ =~= before.update(i as int, s));
            assert(s@ == target[i as int]);
            assert(assoc_scope_views(self.scopes@) =~= views_before.update(i as int, target[i as int]));
            i = i + 1;
        }
        assert(assoc_scope_views(self.scopes@) =~= target);
        Ok(())
    }
}

} // verus!

verus! {

/// A lookup over the scopes reads the first `k` of them, then the rest.
pub proof fn lemma_first_default_split(scopes: Seq<AssocScopeView>, k: int, m: Seq<char>, f: ScopeFilter)
    requires
        0 <= k <= scopes.len(),
    ensures
        first_default(scopes, m, f) == (match first_default(scopes.take(k), m, f) {
            Some(v) => Some(v),
            None => first_default(scopes.skip(k), m, f),
        }),
    decreases k,
{
    if k == 0 {
        assert(scopes.skip(0) =~= scopes);
    } else {
        lemma_first_default_split(scopes.drop_first(), k - 1, m, f);
        assert(scopes.take(k).drop_first() =~= scopes.drop_first().take(k - 1));
        assert(scopes.drop_first().skip(k - 1) =~= scopes.skip(k));
        assert(scopes.take(k)[0] == scopes[0]);
    }
}

/// Once the user's assignments of `m` are removed, the application in effect for `m` is the
/// one the system's scopes assign, and the user's scopes assign none.
pub proof fn lemma_removal_leaves_system_default(scopes: Seq<AssocScopeView>, m: Seq<char>)
    ensures
        first_default(removed_in_user_scopes(scopes, m), m, ScopeFilter::All) == first_default(scopes, m, ScopeFilter::System),
        first_default(removed_in_user_scopes(scopes, m), m, ScopeFilter::User) is None,
    decreases scopes.len(),
{
    if scopes.len() > 0 {
        lemma_removal_leaves_system_default(scopes.drop_first(), m);
        let r = removed_in_user_scopes(scopes, m);
        assert(r.drop_first() =~= removed_in_user_scopes(scopes.drop_first(), m));
        if scopes[0].user {
            assert(removal_match(m, m));
            assert(!r[0].defaults.contains_key(m));
        }
    }
}

/// Once the user's assignments are cleared, the application in effect for any mime type is
/// the one the system's scopes assign, and the user's scopes assign none.
pub proof fn lemma_clearing_leaves_system_defaults(scopes: Seq<AssocScopeView>, m: Seq<char>)
    ensures
        first_default(cleared_user_scopes(scopes), m, ScopeFilter::All) == first_default(scopes, m, ScopeFilter::System),
        first_default(cleared_user_scopes(scopes), m, ScopeFilter::User) is None,
    decreases scopes.len(),
{
    if scopes.len() > 0 {
        lemma_clearing_leaves_system_defaults(scopes.drop_first(), m);
        let r = cleared_user_scopes(scopes);
        assert(r.drop_first() =~= cleared_user_scopes(scopes.drop_first()));
    }
}

/// After a successful assignment of `e` to `m`, `e` is the application in effect for `m`,
/// unless a scope of the system's that comes before every scope of the user's assigns `m`
/// another application.
pub proof fn lemma_assigned_default_is_in_effect(sv: AssocStoreView, m: Seq<char>, e: DesktopEntryView)
    requires
        assign_default(sv, m, e) is Ok,
        first_default(sv.scopes.take(first_user_index(sv.scopes)), m, ScopeFilter::All) matches Some(v) ==> v == e.id,
    ensures
        first_default(assign_default(sv, m, e)->Ok_0, m, ScopeFilter::All) == Some(e.id),
{
    lemma_first_user_index(sv.scopes);
    if first_default(sv.scopes, m, ScopeFilter::System) == Some(e.id) {
        lemma_removal_leaves_system_default(sv.scopes, m);
    } else {
        let i = first_user_index(sv.scopes);
        let sc = assign_default(sv, m, e)->Ok_0;
        lemma_first_default_split(sc, i, m, ScopeFilter::All);
        assert(sc.take(i) =~= sv.scopes.take(i));
        assert(sc.skip(i)[0] == sc[i]);
        assert(sc[i].defaults.contains_key(m));
    }
}

/// Assigning an application a second time changes nothing more.
pub proof fn lemma_assignment_idempotent(sv: AssocStoreView, m: Seq<char>, e: DesktopEntryView)
    requires
        assign_default(sv, m, e) is Ok,
    ensures
        assign_default(AssocStoreView { scopes: assign_default(sv, m, e)->Ok_0, ..sv }, m, e)
            == assign_default(sv, m, e),
{
    let sc = assign_default(sv, m, e)->Ok_0;
    let sv2 = AssocStoreView { scopes: sc, ..sv };
    lemma_first_user_index(sv.scopes);
    lemma_system_lookup_ignores_user_scopes(sv.scopes, sc, m);
    if first_default(sv.scopes, m, ScopeFilter::System) == Some(e.id) {
        lemma_first_user_index_same(sv.scopes, sc);
        let twice = removed_in_user_scopes(sc, m);
        assert forall|j: int| 0 <= j < sc.len() implies #[trigger] twice[j] == sc[j] by {
            if sc[j].user {
                assert(!has_matching(sc[j].defaults, m));
                assert(sc[j].defaults =~= without_matching(sc[j].defaults, m));
            }
        }
        assert(twice =~= sc);
    } else {
        lemma_first_user_index_same(sv.scopes, sc);
        let i = first_user_index(sv.scopes);
        assert(sc[i].defaults.insert(m, e.id) =~= sc[i].defaults);
        assert(sc.update(i, AssocScopeView {
            defaults: sc[i].defaults.insert(m, e.id),
            dirty: sc[i].dirty || !(sc[i].defaults.contains_key(m) && sc[i].defaults[m] == e.id),
            ..sc[i]
        }) =~= sc);
    }
}

/// Scopes that agree on which the user may change, and on the scopes the user may not
/// change, give the same system lookup.
proof fn lemma_system_lookup_ignores_user_scopes(a: Seq<AssocScopeView>, b: Seq<AssocScopeView>, m: Seq<char>)
    requires
        a.len() == b.len(),
        forall|j: int| 0 <= j < a.len() ==> (#[trigger] a[j]).user == b[j].user,
        forall|j: int| 0 <= j < a.len() && !(#[trigger] a[j]).user ==> a[j] == b[j],
    ensures
        first_default(a, m, ScopeFilter::System) == first_default(b, m, ScopeFilter::System),
    decreases a.len(),
{
    if a.len() > 0 {
        assert(a[0].user == b[0].user);
        lemma_system_lookup_ignores_user_scopes(a.drop_first(), b.drop_first(), m);
    }
}

/// Scopes that agree on which the user may change have the same first user scope.
pub proof fn lemma_first_user_index_same(a: Seq<AssocScopeView>, b: Seq<AssocScopeView>)
    requires
        a.len() == b.len(),
        forall|j: int| 0 <= j < a.len() ==> (#[trigger] a[j]).user == b[j].user,
    ensures
        first_user_index(a) == first_user_index(b),
    decreases a.len(),
{
    if a.len() > 0 {
        assert(a[0].user == b[0].user);
        lemma_first_user_index_same(a.drop_first(), b.drop_first());
    }
}

/// An application the desktop entry store has, but whose entry does not appear launchable (no
/// `Name` or `Icon`, `Type` not `Application`, or its program not found), is an orphan, as a
/// missing one is (so `collect_orphans` gathers it), and is pruned: it is reported where a
/// scope of the user's assigns it, and afterwards no scope of the user's assigns it; the other
/// scopes keep their assignments.
pub proof fn lemma_pruning_drops_installed_invalid(scopes: Seq<AssocScopeView>, entries: Seq<EntryScopeView>, id: Seq<char>)
    requires
        scope_lookup(entries, id) matches Some(e) && {
            ||| !e.fields.contains_key(name_key())
            ||| !e.fields.contains_key(icon_key())
            ||| !e.fields.contains_key(type_key())
            ||| entry_type_of(e.fields[type_key()]) != DesktopEntryType::Application
            ||| !e.executable_resolves
        },
    ensures
        is_orphan(entries, id),
        user_orphan(scopes, entries, id) <==> (exists|i: int| 0 <= i < scopes.len() && (#[trigger] scopes[i]).user && is_default_value(scopes[i].defaults, id)),
        forall|i: int| 0 <= i < scopes.len() && (#[trigger] scopes[i]).user ==> !is_default_value(pruned_user_scopes(scopes, entries)[i].defaults, id),
        forall|i: int| 0 <= i < scopes.len() && !(#[trigger] scopes[i]).user ==> pruned_user_scopes(scopes, entries)[i] == scopes[i],
{
    assert(is_orphan(entries, id));
    assert forall|i: int| 0 <= i < scopes.len() && (#[trigger] scopes[i]).user implies !is_default_value(pruned_user_scopes(scopes, entries)[i].defaults, id) by {
        let d = pruned_user_scopes(scopes, entries)[i].defaults;
        if is_default_value(d, id) {
            let k = choose|k: Seq<char>| d.contains_key(k) && d[k] == id;
            assert(!is_orphan(entries, scopes[i].defaults[k]));
        }
    }
}

/// After pruning, no scope of the user's assigns an orphaned application.
pub proof fn lemma_pruned_user_defaults_are_installed(scopes: Seq<AssocScopeView>, entries: Seq<EntryScopeView>, m: Seq<char>)
    ensures
        first_default(pruned_user_scopes(scopes, entries), m, ScopeFilter::User) matches Some(v) ==> !is_orphan(entries, v),
    decreases scopes.len(),
{
    if scopes.len() > 0 {
        lemma_pruned_user_defaults_are_installed(scopes.drop_first(), entries, m);
        let p = pruned_user_scopes(scopes, entries);
        assert(p.drop_first() =~= pruned_user_scopes(scopes.drop_first(), entries));
    }
}

} // verus!

verus! {

/// `true` when both chains have the same scopes the user may not change, and agree on which
/// the user may change.
pub open spec fn same_system_scopes(a: Seq<AssocScopeView>, b: Seq<AssocScopeView>) -> bool {
    &&& a.len() == b.len()
    &&& forall|j: int| 0 <= j < a.len() ==> (#[trigger] a[j]).user == b[j].user
    &&& forall|j: int| 0 <= j < a.len() && !(#[trigger] a[j]).user ==> a[j] == b[j]
}

/// Removing the user's assignments leaves the system's scopes as they were.
pub proof fn lemma_removal_keeps_system(scopes: Seq<AssocScopeView>, m: Seq<char>)
    ensures
        same_system_scopes(scopes, removed_in_user_scopes(scopes, m)),
{
}

/// An assignment leaves the system's scopes as they were.
pub proof fn lemma_assignment_keeps_system(sv: AssocStoreView, m: Seq<char>, e: DesktopEntryView)
    requires
        assign_default(sv, m, e) is Ok,
    ensures
        same_system_scopes(sv.scopes, assign_default(sv, m, e)->Ok_0),
{
    lemma_first_user_index(sv.scopes);
}

/// Where no scope lookup finds an application, neither does one of the system's scopes.
proof fn lemma_no_default_no_system_default(scopes: Seq<AssocScopeView>, m: Seq<char>)
    requires
        first_default(scopes, m, ScopeFilter::All) is None,
    ensures
        first_default(scopes, m, ScopeFilter::System) is None,
    decreases scopes.len(),
{
    if scopes.len() > 0 {
        lemma_no_default_no_system_default(scopes.drop_first(), m);
    }
}

/// Over scopes none of which the user may change, the plain lookup is the system's.
proof fn lemma_lookup_of_system_only(scopes: Seq<AssocScopeView>, m: Seq<char>)
    requires
        forall|j: int| 0 <= j < scopes.len() ==> !(#[trigger] scopes[j]).user,
    ensures
        first_default(scopes, m, ScopeFilter::All) == first_default(scopes, m, ScopeFilter::System),
    decreases scopes.len(),
{
    if scopes.len() > 0 {
        assert(!scopes[0].user);
        assert forall|j: int| 0 <= j < scopes.drop_first().len() implies !(#[trigger] scopes.drop_first()[j]).user by {
            assert(scopes.drop_first()[j] == scopes[j + 1]);
        }
        lemma_lookup_of_system_only(scopes.drop_first(), m);
    }
}

/// Assigning again the application that was in effect for `m` in `sv`, in a chain with the
/// same system scopes, puts it back in effect.
pub proof fn lemma_reassignment_restores(sv: AssocStoreView, sv1: AssocStoreView, m: Seq<char>, e: DesktopEntryView)
    requires
        same_system_scopes(sv.scopes, sv1.scopes),
        first_default(sv.scopes, m, ScopeFilter::All) == Some(e.id),
        assign_default(sv1, m, e) is Ok,
    ensures
        first_default(assign_default(sv1, m, e)->Ok_0, m, ScopeFilter::All) == Some(e.id),
{
    lemma_system_lookup_ignores_user_scopes(sv.scopes, sv1.scopes, m);
    lemma_first_user_index_same(sv.scopes, sv1.scopes);
    lemma_first_user_index(sv.scopes);
    let i = first_user_index(sv.scopes);
    if first_default(sv1.scopes, m, ScopeFilter::System) != Some(e.id) {
        assert(sv1.scopes.take(i) =~= sv.scopes.take(i)) by {
            assert forall|j: int| 0 <= j < i implies sv1.scopes.take(i)[j] == sv.scopes.take(i)[j] by {
                assert(!sv.scopes[j].user);
            }
        }
        let pre = sv.scopes.take(i);
        assert forall|j: int| 0 <= j < pre.len() implies !(#[trigger] pre[j]).user by {
            assert(pre[j] == sv.scopes[j]);
        }
        lemma_lookup_of_system_only(pre, m);
        lemma_first_default_split(sv.scopes, i, m, ScopeFilter::All);
        lemma_first_default_split(sv.scopes, i, m, ScopeFilter::System);
        lemma_assigned_default_is_in_effect(sv1, m, e);
    } else {
        lemma_removal_leaves_system_default(sv1.scopes, m);
    }
}

/// Removing the user's assignments of `m` in a chain with the same system scopes as `sv`,
/// where no application was in effect for `m` in `sv`, leaves none in effect.
pub proof fn lemma_removal_restores_none(sv: Seq<AssocScopeView>, sv1: Seq<AssocScopeView>, m: Seq<char>)
    requires
        same_system_scopes(sv, sv1),
        first_default(sv, m, ScopeFilter::All) is None,
    ensures
        first_default(removed_in_user_scopes(sv1, m), m, ScopeFilter::All) is None,
{
    lemma_no_default_no_system_default(sv, m);
    lemma_system_lookup_ignores_user_scopes(sv, sv1, m);
    lemma_removal_leaves_system_default(sv1, m);
}

proof fn lemma_no_user_scope_no_user_default(scopes: Seq<AssocScopeView>, m: Seq<char>)
    requires
        forall|j: int| 0 <= j < scopes.len() ==> !(#[trigger] scopes[j]).user,
    ensures
        first_default(scopes, m, ScopeFilter::User) is None,
    decreases scopes.len(),
{
    if scopes.len() > 0 {
        assert(!scopes[0].user);
        lemma_no_user_scope_no_user_default(scopes.drop_first(), m);
    }
}

/// Where every scope the user may change comes before every other scope, the application the
/// user's scopes assign, if any, is the one in effect.
pub proof fn lemma_user_default_is_in_effect(scopes: Seq<AssocScopeView>, m: Seq<char>)
    requires
        forall|i: int, j: int| 0 <= i < j < scopes.len() && (#[trigger] scopes[j]).user ==> (#[trigger] scopes[i]).user,
    ensures
        first_default(scopes, m, ScopeFilter::User) is Some ==> first_default(scopes, m, ScopeFilter::User) == first_default(scopes, m, ScopeFilter::All),
    decreases scopes.len(),
{
    if scopes.len() > 0 {
        let rest = scopes.drop_first();
        if scopes[0].user {
            assert forall|i: int, j: int| 0 <= i < j < rest.len() && (#[trigger] rest[j]).user implies (#[trigger] rest[i]).user by {
                assert(rest[j] == scopes[j + 1] && rest[i] == scopes[i + 1]);
            }
            lemma_user_default_is_in_effect(rest, m);
        } else {
            assert forall|j: int| 0 <= j < rest.len() implies !(#[trigger] rest[j]).user by {
                assert(rest[j] == scopes[j + 1]);
                if scopes[j + 1].user {
                    assert(scopes[0].user);
                }
            }
            lemma_no_user_scope_no_user_default(rest, m);
        }
    }
}

/// Removing the user's assignments of `m` removes them for every mime type that `m` matches
/// (each of a major type for a wildcard `major/*`): there the system's application is in
/// effect. Other mime types, and every scope's added associations, are left as they were.
pub proof fn lemma_removal_clears_each_match(scopes: Seq<AssocScopeView>, m: Seq<char>, k: Seq<char>)
    ensures
        removal_match(m, k) ==> first_default(removed_in_user_scopes(scopes, m), k, ScopeFilter::User) is None,
        removal_match(m, k) ==> first_default(removed_in_user_scopes(scopes, m), k, ScopeFilter::All) == first_default(scopes, k, ScopeFilter::System),
        !removal_match(m, k) ==> first_default(removed_in_user_scopes(scopes, m), k, ScopeFilter::All) == first_default(scopes, k, ScopeFilter::All),
        !removal_match(m, k) ==> first_default(removed_in_user_scopes(scopes, m), k, ScopeFilter::User) == first_default(scopes, k, ScopeFilter::User),
        forall|i: int| 0 <= i < scopes.len() ==> (#[trigger] removed_in_user_scopes(scopes, m)[i]).added == scopes[i].added,
    decreases scopes.len(),
{
    if scopes.len() > 0 {
        lemma_removal_clears_each_match(scopes.drop_first(), m, k);
        let r = removed_in_user_scopes(scopes, m);
        assert(r.drop_first() =~= removed_in_user_scopes(scopes.drop_first(), m));
        if scopes[0].user && removal_match(m, k) {
            assert(!r[0].defaults.contains_key(k));
        }
    }
}

/// Clearing the user's assignments leaves the scopes of the system as they were, what they
/// assign for every mime type, and the added associations of every scope.
pub proof fn lemma_clearing_keeps_system_and_added(scopes: Seq<AssocScopeView>, m: Seq<char>)
    ensures
        same_system_scopes(scopes, cleared_user_scopes(scopes)),
        first_default(cleared_user_scopes(scopes), m, ScopeFilter::System) == first_default(scopes, m, ScopeFilter::System),
        forall|i: int| 0 <= i < scopes.len() ==> (#[trigger] cleared_user_scopes(scopes)[i]).added == scopes[i].added,
{
    lemma_clearing_leaves_system_defaults(scopes, m);
    lemma_clearing_system_lookup(scopes, m);
}

proof fn lemma_clearing_system_lookup(scopes: Seq<AssocScopeView>, m: Seq<char>)
    ensures
        first_default(cleared_user_scopes(scopes), m, ScopeFilter::System) == first_default(scopes, m, ScopeFilter::System),
    decreases scopes.len(),
{
    if scopes.len() > 0 {
        lemma_clearing_system_lookup(scopes.drop_first(), m);
        assert(cleared_user_scopes(scopes).drop_first() =~= cleared_user_scopes(scopes.drop_first()));
    }
}

/// `true` when `a` and `b` hold scopes of the same files, in the same order.
pub open spec fn same_paths(a: Seq<AssocScopeView>, b: Seq<AssocScopeView>) -> bool {
    a.len() == b.len() && forall|i: int| 0 <= i < a.len() ==> (#[trigger] a[i]).file_path == b[i].file_path
}

/// No change of the store changes which files its scopes come from, or their order: so
/// `sources` gives the same paths after any sequence of calls.
pub proof fn lemma_changes_keep_sources(sv: AssocStoreView, m: Seq<char>, e: DesktopEntryView, es: Seq<DesktopEntryView>, entries: Seq<EntryScopeView>, fresh: Seq<AssocScopeView>, index: int)
    ensures
        assign_default(sv, m, e) matches Ok(sc) ==> same_paths(sv.scopes, sc),
        add_outcome(sv, m, es) matches Ok(sc) ==> same_paths(sv.scopes, sc),
        same_paths(sv.scopes, removed_in_user_scopes(sv.scopes, m)),
        same_paths(sv.scopes, cleared_user_scopes(sv.scopes)),
        same_paths(sv.scopes, pruned_user_scopes(sv.scopes, entries)),
        fresh.len() == sv.scopes.len() ==> same_paths(sv.scopes, reloaded(sv.scopes, fresh)),
        0 <= index < sv.scopes.len() ==> same_paths(sv.scopes, sv.scopes.update(index, AssocScopeView { dirty: false, ..sv.scopes[index] })),
{
    lemma_first_user_index(sv.scopes);
    let i = first_user_index(sv.scopes);
    if assign_default(sv, m, e) is Ok && first_default(sv.scopes, m, ScopeFilter::System) != Some(e.id) {
        let sc = assign_default(sv, m, e)->Ok_0;
        assert forall|j: int| 0 <= j < sv.scopes.len() implies (#[trigger] sv.scopes[j]).file_path == sc[j].file_path by {
            if j == i {
                assert(sc[j].file_path == sv.scopes[i].file_path);
            }
        }
    }
    if add_outcome(sv, m, es) is Ok {
        let sc = add_outcome(sv, m, es)->Ok_0;
        assert forall|j: int| 0 <= j < sv.scopes.len() implies (#[trigger] sv.scopes[j]).file_path == sc[j].file_path by {
            if j == i {
                assert(sc[j].file_path == sv.scopes[i].file_path);
            }
        }
    }
}

/// Reloading, from files that did not change since they were loaded, scopes edited since
/// gives back the scopes as loaded: the assignments in effect before the edits, and clean.
pub proof fn lemma_reload_discards_edits(loaded: Seq<AssocScopeView>, edited: Seq<AssocScopeView>)
    requires
        forall|i: int| 0 <= i < loaded.len() ==> !(#[trigger] loaded[i]).dirty,
        same_paths(loaded, edited),
    ensures
        reloaded(edited, loaded) == loaded,
        !any_user_dirty(reloaded(edited, loaded)),
        forall|k: Seq<char>| #[trigger] first_default(reloaded(edited, loaded), k, ScopeFilter::All) == first_default(loaded, k, ScopeFilter::All),
{
    assert(reloaded(edited, loaded) =~= loaded);
}

/// The scopes once each the user may change is written: none of them is dirty.
pub open spec fn all_saved(scopes: Seq<AssocScopeView>) -> Seq<AssocScopeView> {
    scopes.map_values(|s: AssocScopeView| if s.user { AssocScopeView { dirty: false, ..s } } else { s })
}

proof fn lemma_dirty_user_indices(scopes: Seq<AssocScopeView>, n: int)
    requires
        0 <= n <= scopes.len(),
    ensures
        forall|p: int| 0 <= p < dirty_user_indices(scopes, n).len() ==> {
            let i = #[trigger] dirty_user_indices(scopes, n)[p];
            0 <= i < n && scopes[i].user && scopes[i].dirty
        },
        forall|i: int| 0 <= i < n && (#[trigger] scopes[i]).user && scopes[i].dirty ==> dirty_user_indices(scopes, n).contains(i),
    decreases n,
{
    if n > 0 {
        lemma_dirty_user_indices(scopes, n - 1);
        let prev = dirty_user_indices(scopes, n - 1);
        let cur = dirty_user_indices(scopes, n);
        assert forall|p: int| 0 <= p < cur.len() implies {
            let i = #[trigger] cur[p];
            0 <= i < n && scopes[i].user && scopes[i].dirty
        } by {
            if p < prev.len() {
                assert(cur[p] == prev[p]);
            }
        }
        assert forall|i: int| 0 <= i < n && (#[trigger] scopes[i]).user && scopes[i].dirty implies cur.contains(i) by {
            if i < n - 1 {
                assert(prev.contains(i));
                let q = choose|q: int| 0 <= q < prev.len() && prev[q] == i;
                assert(cur[q] == i);
            } else {
                assert(cur[prev.len() as int] == i);
            }
        }
    }
}

/// Saving writes exactly the scopes the user may change that have changes not yet saved,
/// each with the text that reads back as it (see `lemma_written_scope_reads_back`); once
/// each is marked saved, nothing is dirty.
pub proof fn lemma_save_writes_every_change(scopes: Seq<AssocScopeView>)
    ensures
        forall|i: int| 0 <= i < scopes.len() ==> (dirty_user_indices(scopes, scopes.len() as int).contains(i) <==> (#[trigger] scopes[i]).user && scopes[i].dirty),
        !any_user_dirty(all_saved(scopes)),
        forall|i: int| 0 <= i < scopes.len() && !dirty_user_indices(scopes, scopes.len() as int).contains(i) ==> (#[trigger] all_saved(scopes)[i]) == scopes[i],
{
    lemma_dirty_user_indices(scopes, scopes.len() as int);
    let d = dirty_user_indices(scopes, scopes.len() as int);
    assert forall|i: int| 0 <= i < scopes.len() implies (d.contains(i) <==> (#[trigger] scopes[i]).user && scopes[i].dirty) by {
        if d.contains(i) {
            let q = choose|q: int| 0 <= q < d.len() && d[q] == i;
            assert(scopes[d[q]].user && scopes[d[q]].dirty);
        }
    }
    assert forall|i: int| 0 <= i < scopes.len() && !d.contains(i) implies (#[trigger] all_saved(scopes)[i]) == scopes[i] by {
        if scopes[i].user {
            assert(!scopes[i].dirty);
            assert(all_saved(scopes)[i] =~~= scopes[i]);
        }
    }
}

/// After adding the entries `es` as added associations of `m`, the first scope the user may
/// change lists each of their ids; a list without repeats stays without repeats.
pub proof fn lemma_added_associations_list_each(sv: AssocStoreView, m: Seq<char>, es: Seq<DesktopEntryView>)
    requires
        add_outcome(sv, m, es) is Ok,
    ensures
        ({
            let i = first_user_index(sv.scopes);
            let l = (add_outcome(sv, m, es)->Ok_0)[i].added[m];
            &&& (add_outcome(sv, m, es)->Ok_0)[i].added.contains_key(m)
            &&& forall|j: int| 0 <= j < es.len() ==> l.contains(#[trigger] es[j].id)
            &&& (sv.scopes[i].added.contains_key(m) ==> sv.scopes[i].added[m].no_duplicates()) ==> l.no_duplicates()
        }),
{
    lemma_first_user_index(sv.scopes);
    let i = first_user_index(sv.scopes);
    let old_list = if sv.scopes[i].added.contains_key(m) { sv.scopes[i].added[m] } else { Seq::<Seq<char>>::empty() };
    crate::mime_type_association_store::lemma_append_new(old_list, entry_ids(es));
    assert forall|j: int| 0 <= j < es.len() implies (add_outcome(sv, m, es)->Ok_0)[i].added[m].contains(#[trigger] es[j].id) by {
        assert(entry_ids(es)[j] == es[j].id);
        assert(entry_ids(es).contains(es[j].id));
    }
}

/// `true` when no scope before the first the user may change assigns `m` an application
/// other than `id`.
pub open spec fn unopposed(scopes: Seq<AssocScopeView>, m: Seq<char>, id: Seq<char>) -> bool {
    first_default(scopes.take(first_user_index(scopes)), m, ScopeFilter::All) matches Some(v) ==> v == id
}

/// Setting a default application in one scope leaves the lookup of another key as it was.
proof fn lemma_lookup_other_key(scopes: Seq<AssocScopeView>, i: int, s: AssocScopeView, k: Seq<char>, f: ScopeFilter)
    requires
        0 <= i < scopes.len(),
        s.user == scopes[i].user,
        s.defaults.contains_key(k) == scopes[i].defaults.contains_key(k),
        s.defaults.contains_key(k) ==> s.defaults[k] == scopes[i].defaults[k],
    ensures
        first_default(scopes.update(i, s), k, f) == first_default(scopes, k, f),
    decreases scopes.len(),
{
    if i > 0 {
        lemma_lookup_other_key(scopes.drop_first(), i - 1, s, k, f);
        assert(scopes.update(i, s).drop_first() =~= scopes.drop_first().update(i - 1, s));
        assert(scopes.update(i, s)[0] == scopes[0]);
    } else {
        assert(scopes.update(0, s).drop_first() =~= scopes.drop_first());
        assert(scopes.update(0, s)[0] == s);
    }
}

/// An assignment of a mime type that is no wildcard keeps the scopes before the first the user
/// may change, and what is in effect for every other mime type.
proof fn lemma_assignment_frame(sv: AssocStoreView, m: Seq<char>, e: DesktopEntryView, k: Seq<char>)
    requires
        assign_default(sv, m, e) is Ok,
        !is_wildcard_text(m),
    ensures
        first_user_index(assign_default(sv, m, e)->Ok_0) == first_user_index(sv.scopes),
        (assign_default(sv, m, e)->Ok_0).take(first_user_index(sv.scopes)) == sv.scopes.take(first_user_index(sv.scopes)),
        k != m ==> first_default(assign_default(sv, m, e)->Ok_0, k, ScopeFilter::All) == first_default(sv.scopes, k, ScopeFilter::All),
{
    let sc = assign_default(sv, m, e)->Ok_0;
    let i = first_user_index(sv.scopes);
    lemma_first_user_index(sv.scopes);
    lemma_assignment_keeps_system(sv, m, e);
    lemma_first_user_index_same(sv.scopes, sc);
    assert forall|j: int| 0 <= j < i implies (#[trigger] sc.take(i)[j]) == sv.scopes.take(i)[j] by {
        assert(!sv.scopes[j].user);
    }
    assert(sc.take(i) =~= sv.scopes.take(i));
    if k != m {
        if first_default(sv.scopes, m, ScopeFilter::System) == Some(e.id) {
            lemma_removal_clears_each_match(sv.scopes, m, k);
        } else {
            let s = AssocScopeView {
                defaults: sv.scopes[i].defaults.insert(m, e.id),
                dirty: sv.scopes[i].dirty || !(sv.scopes[i].defaults.contains_key(m) && sv.scopes[i].defaults[m] == e.id),
                ..sv.scopes[i]
            };
            lemma_lookup_other_key(sv.scopes, i, s, k, ScopeFilter::All);
        }
    }
}

proof fn lemma_assign_all_keeps(sv: AssocStoreView, ms: Seq<Seq<char>>, e: DesktopEntryView, m0: Seq<char>)
    requires
        assign_all(sv, ms, e).1 is None,
        forall|j: int| 0 <= j < ms.len() ==> !is_wildcard_text(#[trigger] ms[j]),
        unopposed(sv.scopes, m0, e.id),
        first_default(sv.scopes, m0, ScopeFilter::All) == Some(e.id),
    ensures
        first_default(assign_all(sv, ms, e).0, m0, ScopeFilter::All) == Some(e.id),
    decreases ms.len(),
{
    if ms.len() > 0 {
        let sc = assign_default(sv, ms[0], e)->Ok_0;
        let sv1 = AssocStoreView { scopes: sc, ..sv };
        lemma_assignment_frame(sv, ms[0], e, m0);
        if ms[0] == m0 {
            lemma_assigned_default_is_in_effect(sv, m0, e);
        }
        assert forall|j: int| 0 <= j < ms.drop_first().len() implies !is_wildcard_text(#[trigger] ms.drop_first()[j]) by {
            assert(ms.drop_first()[j] == ms[j + 1]);
        }
        lemma_assign_all_keeps(sv1, ms.drop_first(), e, m0);
    }
}

/// After an entry is made the default application of each of `ms` (none a wildcard) without
/// refusal, it is in effect for each, where no scope before the first the user may change
/// assigns one of them another application.
pub proof fn lemma_assign_all_in_effect(sv: AssocStoreView, ms: Seq<Seq<char>>, e: DesktopEntryView)
    requires
        assign_all(sv, ms, e).1 is None,
        forall|j: int| 0 <= j < ms.len() ==> !is_wildcard_text(#[trigger] ms[j]),
        forall|j: int| 0 <= j < ms.len() ==> unopposed(sv.scopes, #[trigger] ms[j], e.id),
    ensures
        forall|j: int| 0 <= j < ms.len() ==> first_default(assign_all(sv, ms, e).0, #[trigger] ms[j], ScopeFilter::All) == Some(e.id),
    decreases ms.len(),
{
    if ms.len() > 0 {
        let sc = assign_default(sv, ms[0], e)->Ok_0;
        let sv1 = AssocStoreView { scopes: sc, ..sv };
        let rest = ms.drop_first();
        assert forall|j: int| 0 <= j < rest.len() implies !is_wildcard_text(#[trigger] rest[j]) && unopposed(sc, rest[j], e.id) by {
            assert(rest[j] == ms[j + 1]);
            lemma_assignment_frame(sv, ms[0], e, rest[j]);
        }
        lemma_assign_all_in_effect(sv1, rest, e);
        lemma_assigned_default_is_in_effect(sv, ms[0], e);
        lemma_assignment_frame(sv, ms[0], e, ms[0]);
        lemma_assign_all_keeps(sv1, rest, e, ms[0]);
        assert forall|j: int| 0 <= j < ms.len() implies first_default(assign_all(sv, ms, e).0, #[trigger] ms[j], ScopeFilter::All) == Some(e.id) by {
            if j > 0 {
                assert(ms[j] == rest[j - 1]);
            }
        }
    }
}

} // verus!
