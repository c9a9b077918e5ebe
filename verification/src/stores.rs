//! The stores an editor of the associations works on, with a history of the changes made,
//! each of which can be undone.

use vstd::prelude::*;
use crate::association_store::{
    assign_default, error_is, first_default, first_user_index, removed_in_user_scopes,
    cleared_user_scopes, pruned_user_scopes, user_orphan, any_user_dirty, AssignError,
    lemma_assignment_keeps_system, lemma_first_user_index, lemma_first_user_index_same, lemma_reassignment_restores,
    lemma_removal_keeps_system, lemma_removal_restores_none, same_system_scopes,
    AssocStoreView, MimeTypeAssociationStore, ScopeFilter,
};
use crate::desktop_entry::DesktopEntryId;
use crate::desktop_entry_store::{entries_keyed_by_id, lemma_scope_lookup_id, scope_lookup, DesktopEntryStore, EntryScopeView};
use crate::error::MimeAssocError;
use crate::mime_info::{MimeInfoStoreView, MimeTypeInfoStore};
use crate::mime_type::MimeType;
use crate::mime_type_association_store::{id_seq_views, AssocScopeView, MimeTypeAssociationScope};

verus! {

/// One change that can be undone, with what undoing it needs.
pub enum HistoryEntry {
    DesktopEntryAssignment {
        mime_type: MimeType,
        previous_desktop_entry_id: Option<DesktopEntryId>,
        new_desktop_entry_id: DesktopEntryId,
    },
    DesktopEntryUnassignment {
        mime_type: MimeType,
        previous_desktop_entry_id: Option<DesktopEntryId>,
    },
    DiscardUncommittedChanges {
        previous_user_scope: MimeTypeAssociationScope,
    },
    ResetUserDefaultApplicationAssignments {
        previous_user_scope: MimeTypeAssociationScope,
    },
    PruneOrphanedApplicationAssignments {
        previous_user_scope: MimeTypeAssociationScope,
    },
}

pub ghost enum HistoryView {
    Assignment { mime_type: Seq<char>, previous: Option<Seq<char>>, new_id: Seq<char> },
    Unassignment { mime_type: Seq<char>, previous: Option<Seq<char>> },
    Discard { previous_user_scope: AssocScopeView },
    Reset { previous_user_scope: AssocScopeView },
    Prune { previous_user_scope: AssocScopeView },
}

pub open spec fn opt_id(o: Option<DesktopEntryId>) -> Option<Seq<char>> {
    match o {
        Some(id) => Some(id@),
        None => None,
    }
}

impl View for HistoryEntry {
    type V = HistoryView;

    open spec fn view(&self) -> HistoryView {
        match self {
            HistoryEntry::DesktopEntryAssignment { mime_type, previous_desktop_entry_id, new_desktop_entry_id } =>
                HistoryView::Assignment { mime_type: mime_type@, previous: opt_id(*previous_desktop_entry_id), new_id: new_desktop_entry_id@ },
            HistoryEntry::DesktopEntryUnassignment { mime_type, previous_desktop_entry_id } =>
                HistoryView::Unassignment { mime_type: mime_type@, previous: opt_id(*previous_desktop_entry_id) },
            HistoryEntry::DiscardUncommittedChanges { previous_user_scope } =>
                HistoryView::Discard { previous_user_scope: previous_user_scope@ },
            HistoryEntry::ResetUserDefaultApplicationAssignments { previous_user_scope } =>
                HistoryView::Reset { previous_user_scope: previous_user_scope@ },
            HistoryEntry::PruneOrphanedApplicationAssignments { previous_user_scope } =>
                HistoryView::Prune { previous_user_scope: previous_user_scope@ },
        }
    }
}

pub open spec fn history_views(v: Seq<HistoryEntry>) -> Seq<HistoryView> {
    v.map_values(|h: HistoryEntry| h@)
}

/// What the stores hold: the associations, the desktop entries, the mime info and the
/// history, oldest change first.
pub ghost struct StoresView {
    pub assoc: AssocStoreView,
    pub entries: Seq<EntryScopeView>,
    pub info: MimeInfoStoreView,
    pub history: Seq<HistoryView>,
}

/// Why a change of the stores was refused.
pub ghost enum StoresError {
    /// The desktop entry store has no entry with this id.
    Unrecognized(Seq<char>),
    Refused(AssignError),
}

pub open spec fn stores_error_is(e: MimeAssocError, x: StoresError) -> bool {
    match x {
        StoresError::Unrecognized(id) => e matches MimeAssocError::UnrecognizedDesktopEntry(v) && v@ == id,
        StoresError::Refused(a) => error_is(e, a),
    }
}

pub open spec fn with_scopes(s: StoresView, sc: Seq<AssocScopeView>) -> StoresView {
    StoresView { assoc: AssocStoreView { scopes: sc, ..s.assoc }, ..s }
}

/// The scopes after making the installed entry with id `id` the default application of `m`,
/// or why that is refused.
pub open spec fn assign_by_id(s: StoresView, m: Seq<char>, id: Seq<char>) -> Result<Seq<AssocScopeView>, StoresError> {
    match scope_lookup(s.entries, id) {
        None => Err(StoresError::Unrecognized(id)),
        Some(e) => match assign_default(s.assoc, m, e) {
            Ok(sc) => Ok(sc),
            Err(a) => Err(StoresError::Refused(a)),
        },
    }
}

/// The stores after the assignment, recorded in the history with the application that was in
/// effect for `m` before it.
pub open spec fn assign_application(s: StoresView, m: Seq<char>, id: Seq<char>) -> Result<StoresView, StoresError> {
    match assign_by_id(s, m, id) {
        Err(x) => Err(x),
        Ok(sc) => Ok(StoresView {
            history: s.history.push(HistoryView::Assignment {
                mime_type: m,
                previous: first_default(s.assoc.scopes, m, ScopeFilter::All),
                new_id: id,
            }),
            ..with_scopes(s, sc)
        }),
    }
}

/// Puts back `previous` as the application in effect for `m`: assigns it again, or, where
/// there was none, removes the user's assignments of `m`.
pub open spec fn restore_assignment(s: StoresView, m: Seq<char>, previous: Option<Seq<char>>) -> (StoresView, Option<StoresError>) {
    match previous {
        Some(p) => match assign_by_id(s, m, p) {
            Ok(sc) => (with_scopes(s, sc), None),
            Err(x) => (s, Some(x)),
        },
        None => (with_scopes(s, removed_in_user_scopes(s.assoc.scopes, m)), None),
    }
}

/// Puts back a copy of the first scope the user may change.
pub open spec fn restore_user_scope(s: StoresView, scope: AssocScopeView) -> (StoresView, Option<StoresError>) {
    if first_user_index(s.assoc.scopes) < s.assoc.scopes.len() {
        (with_scopes(s, s.assoc.scopes.update(first_user_index(s.assoc.scopes), scope)), None)
    } else {
        (s, Some(StoresError::Refused(AssignError::NoUserScope)))
    }
}

/// Undoing the last change of the history: it leaves the history, and its reverse is
/// applied. The stores reached, and why the reverse was refused if it was.
pub open spec fn undo_outcome(s: StoresView) -> (StoresView, Option<StoresError>) {
    if s.history.len() == 0 {
        (s, None)
    } else {
        let popped = StoresView { history: s.history.drop_last(), ..s };
        match s.history.last() {
            HistoryView::Assignment { mime_type, previous, .. } => restore_assignment(popped, mime_type, previous),
            HistoryView::Unassignment { mime_type, previous } => restore_assignment(popped, mime_type, previous),
            HistoryView::Discard { previous_user_scope } => restore_user_scope(popped, previous_user_scope),
            HistoryView::Reset { previous_user_scope } => restore_user_scope(popped, previous_user_scope),
            HistoryView::Prune { previous_user_scope } => restore_user_scope(popped, previous_user_scope),
        }
    }
}

/// The history after recording a copy of the first scope the user may change with `entry`,
/// where there is one.
pub open spec fn record_user_scope(s: StoresView, entry: spec_fn(AssocScopeView) -> HistoryView) -> Seq<HistoryView> {
    if first_user_index(s.assoc.scopes) < s.assoc.scopes.len() {
        s.history.push(entry(s.assoc.scopes[first_user_index(s.assoc.scopes)]))
    } else {
        s.history
    }
}

/// The stores after removing the user's assignments of `m`, recorded in the history with the
/// application that was in effect for `m` before.
pub open spec fn remove_application(s: StoresView, m: Seq<char>) -> StoresView {
    StoresView {
        history: s.history.push(HistoryView::Unassignment {
            mime_type: m,
            previous: first_default(s.assoc.scopes, m, ScopeFilter::All),
        }),
        ..with_scopes(s, removed_in_user_scopes(s.assoc.scopes, m))
    }
}

/// The three stores, as loaded together.
pub struct MimeAssocStores {
    pub mime_associations_store: MimeTypeAssociationStore,
    pub desktop_entry_store: DesktopEntryStore,
    pub mime_info_store: MimeTypeInfoStore,
}

impl MimeAssocStores {
    pub fn new(mime_associations_store: MimeTypeAssociationStore, desktop_entry_store: DesktopEntryStore, mime_info_store: MimeTypeInfoStore) -> (r: MimeAssocStores)
        ensures
            r.mime_associations_store@ == mime_associations_store@,
            r.desktop_entry_store@ == desktop_entry_store@,
            r.mime_info_store@ == mime_info_store@,
    {
        MimeAssocStores { mime_associations_store, desktop_entry_store, mime_info_store }
    }
}

/// The associations and the installed applications, as loaded together.
pub struct Components {
    pub mime_db: MimeTypeAssociationStore,
    pub app_db: DesktopEntryStore,
}

impl Components {
    pub fn new(mime_db: MimeTypeAssociationStore, app_db: DesktopEntryStore) -> (r: Components)
        ensures
            r.mime_db@ == mime_db@,
            r.app_db@ == app_db@,
    {
        Components { mime_db, app_db }
    }
}

/// The stores of the editor, and the history of its changes.
pub struct Stores {
    mime_associations_store: MimeTypeAssociationStore,
    desktop_entry_store: DesktopEntryStore,
    mime_info_store: MimeTypeInfoStore,
    history: Vec<HistoryEntry>,
}

impl View for Stores {
    type V = StoresView;

    closed spec fn view(&self) -> StoresView {
        StoresView {
            assoc: self.mime_associations_store@,
            entries: self.desktop_entry_store@,
            info: self.mime_info_store@,
            history: history_views(self.history@),
        }
    }
}

impl Stores {
    /// The stores, with an empty history.
    pub fn new(mime_associations_store: MimeTypeAssociationStore, desktop_entry_store: DesktopEntryStore, mime_info_store: MimeTypeInfoStore) -> (r: Stores)
        ensures
            r@ == (StoresView {
                assoc: mime_associations_store@,
                entries: desktop_entry_store@,
                info: mime_info_store@,
                history: Seq::empty(),
            }),
    {
        let r = Stores { mime_associations_store, desktop_entry_store, mime_info_store, history: Vec::new() };
        assert(history_views(r.history@) =~= Seq::<HistoryView>::empty());
        r
    }

    pub fn mime_associations_store(&self) -> (r: &MimeTypeAssociationStore)
        ensures
            r@ == self@.assoc,
    {
        &self.mime_associations_store
    }

    pub fn desktop_entry_store(&self) -> (r: &DesktopEntryStore)
        ensures
            r@ == self@.entries,
    {
        &self.desktop_entry_store
    }

    pub fn mime_info_store(&self) -> (r: &MimeTypeInfoStore)
        ensures
            r@ == self@.info,
    {
        &self.mime_info_store
    }

    /// `true` when there is a change to undo.
    pub fn can_undo(&self) -> (r: bool)
        ensures
            r == (self@.history.len() > 0),
    {
        self.history.len() > 0
    }

    /// `true` when a scope the user may change has changes not yet saved.
    pub fn is_dirty(&self) -> (r: bool)
        ensures
            r == any_user_dirty(self@.assoc.scopes),
    {
        self.mime_associations_store.is_dirty()
    }

    /// Makes the installed entry with id `desktop_entry_id` the default application of
    /// `mime_type` (see `set_default_handler_for_mime_type`), without recording it.
    fn assign_application_to_mimetype_without_history(&mut self, mime_type: &MimeType, desktop_entry_id: &DesktopEntryId) -> (r: Result<(), MimeAssocError>)
        ensures
            match assign_by_id(old(self)@, mime_type@, desktop_entry_id@) {
                Ok(sc) => r is Ok && final(self)@ == with_scopes(old(self)@, sc),
                Err(x) => r matches Err(e) && stores_error_is(e, x) && final(self)@ == old(self)@,
            },
    {
        let entry = match self.desktop_entry_store.get_desktop_entry(desktop_entry_id) {
            Some(e) => e,
            None => {
                return Err(MimeAssocError::UnrecognizedDesktopEntry(desktop_entry_id.to_string()));
            },
        };
        self.mime_associations_store.set_default_handler_for_mime_type(mime_type, entry)
    }

    /// Makes the installed entry with id `desktop_entry_id` the default application of
    /// `mime_type`, recording the application in effect before so that `undo` can restore it.
    pub fn assign_application_to_mimetype(&mut self, mime_type: &MimeType, desktop_entry_id: &DesktopEntryId) -> (r: Result<(), MimeAssocError>)
        ensures
            match assign_application(old(self)@, mime_type@, desktop_entry_id@) {
                Ok(s) => r is Ok && final(self)@ == s,
                Err(x) => r matches Err(e) && stores_error_is(e, x) && final(self)@ == old(self)@,
            },
    {
        let previous = match self.mime_associations_store.default_application_for(mime_type) {
            Some(p) => Some(p.duplicate()),
            None => None,
        };
        match self.assign_application_to_mimetype_without_history(mime_type, desktop_entry_id) {
            Ok(()) => {},
            Err(e) => {
                return Err(e);
            },
        }
        let ghost before = history_views(self.history@);
        let entry = HistoryEntry::DesktopEntryAssignment {
            mime_type: mime_type.duplicate(),
            previous_desktop_entry_id: previous,
            new_desktop_entry_id: desktop_entry_id.duplicate(),
        };
        let ghost ev = entry@;
        self.history.push(entry);
        assert(history_views(self.history@) =~= before.push(ev));
        Ok(())
    }

    /// Removes the user's assignments of `mime_type` (see
    /// `remove_assigned_applications_for`), recording the application in effect before so
    /// that `undo` can restore it.
    pub fn remove_assigned_application_from_mimetype(&mut self, mime_type: &MimeType) -> (r: Result<(), MimeAssocError>)
        ensures
            r is Ok,
            final(self)@ == remove_application(old(self)@, mime_type@),
    {
        let previous = match self.mime_associations_store.default_application_for(mime_type) {
            Some(p) => Some(p.duplicate()),
            None => None,
        };
        self.mime_associations_store.remove_assigned_applications_for(mime_type);
        let ghost before = history_views(self.history@);
        let entry = HistoryEntry::DesktopEntryUnassignment { mime_type: mime_type.duplicate(), previous_desktop_entry_id: previous };
        let ghost ev = entry@;
        self.history.push(entry);
        assert(history_views(self.history@) =~= before.push(ev));
        Ok(())
    }

    /// Records a copy of the first scope the user may change, where there is one.
    fn record_user_scope(&mut self, kind: u8)
        requires
            kind < 3,
        ensures
            final(self)@ == (StoresView {
                history: record_user_scope(old(self)@, |sc: AssocScopeView| if kind == 0 {
                    HistoryView::Discard { previous_user_scope: sc }
                } else if kind == 1 {
                    HistoryView::Reset { previous_user_scope: sc }
                } else {
                    HistoryView::Prune { previous_user_scope: sc }
                }),
                ..old(self)@
            }),
    {
        if let Some(user_scope) = self.mime_associations_store.get_user_scope() {
            let copy = user_scope.duplicate();
            let ghost before = history_views(self.history@);
            let entry = if kind == 0 {
                HistoryEntry::DiscardUncommittedChanges { previous_user_scope: copy }
            } else if kind == 1 {
                HistoryEntry::ResetUserDefaultApplicationAssignments { previous_user_scope: copy }
            } else {
                HistoryEntry::PruneOrphanedApplicationAssignments { previous_user_scope: copy }
            };
            let ghost ev = entry@;
            self.history.push(entry);
            assert(history_views(self.history@) =~= before.push(ev));
        }
    }

    /// Puts back `previous` as the application in effect for `mime_type`.
    fn restore_assignment(&mut self, mime_type: &MimeType, previous: Option<DesktopEntryId>) -> (r: Result<(), MimeAssocError>)
        ensures
            ({
                let (s, err) = restore_assignment(old(self)@, mime_type@, opt_id(previous));
                &&& final(self)@ == s
                &&& match err {
                    None => r is Ok,
                    Some(x) => r matches Err(e) && stores_error_is(e, x),
                }
            }),
    {
        match previous {
            Some(p) => self.assign_application_to_mimetype_without_history(mime_type, &p),
            None => {
                self.mime_associations_store.remove_assigned_applications_for(mime_type);
                Ok(())
            },
        }
    }

    /// Undoes the last change: it leaves the history and its reverse is applied (the
    /// application in effect before an assignment or removal is assigned again, or the user's
    /// scope as it was is put back). Nothing changes where there is no change to undo.
    pub fn undo(&mut self) -> (r: Result<(), MimeAssocError>)
        ensures
            ({
                let (s, err) = undo_outcome(old(self)@);
                &&& final(self)@ == s
                &&& match err {
                    None => r is Ok,
                    Some(x) => r matches Err(e) && stores_error_is(e, x),
                }
            }),
    {
        let ghost hv = history_views(self.history@);
        match self.history.pop() {
            None => Ok(()),
            Some(entry) => {
                assert(history_views(self.history@) =~= hv.drop_last());
                assert(entry@ == hv.last());
                match entry {
                    HistoryEntry::DesktopEntryAssignment { mime_type, previous_desktop_entry_id, .. } => {
                        self.restore_assignment(&mime_type, previous_desktop_entry_id)
                    },
                    HistoryEntry::DesktopEntryUnassignment { mime_type, previous_desktop_entry_id } => {
                        self.restore_assignment(&mime_type, previous_desktop_entry_id)
                    },
                    HistoryEntry::DiscardUncommittedChanges { previous_user_scope } => {
                        self.mime_associations_store.overwrite_user_scope(previous_user_scope)
                    },
                    HistoryEntry::ResetUserDefaultApplicationAssignments { previous_user_scope } => {
                        self.mime_associations_store.overwrite_user_scope(previous_user_scope)
                    },
                    HistoryEntry::PruneOrphanedApplicationAssignments { previous_user_scope } => {
                        self.mime_associations_store.overwrite_user_scope(previous_user_scope)
                    },
                }
            },
        }
    }

    /// Discards the changes not yet saved, taking for each scope its contents as read again
    /// from its file (see `MimeTypeAssociationStore::reload`), after recording the user's scope
    /// so that `undo` can put it back. Where `fresh` is refused, the last change is undone.
    pub fn discard_uncommitted_changes(&mut self, fresh: Vec<MimeTypeAssociationScope>) -> (r: Result<(), MimeAssocError>)
        ensures
            ({
                let recorded = StoresView {
                    history: record_user_scope(old(self)@, |sc: AssocScopeView| HistoryView::Discard { previous_user_scope: sc }),
                    ..old(self)@
                };
                if fresh@.len() == old(self)@.assoc.scopes.len() {
                    &&& r is Ok
                    &&& final(self)@ == with_scopes(recorded, crate::association_store::reloaded(old(self)@.assoc.scopes, crate::association_store::assoc_scope_views(fresh@)))
                } else {
                    let (s, err) = undo_outcome(recorded);
                    &&& final(self)@ == s
                    &&& r is Err
                    &&& (err matches Some(x) ==> (r matches Err(e) && stores_error_is(e, x)))
                    &&& (err is None ==> (r matches Err(e) && e is ScopeCountMismatch))
                }
            }),
    {
        self.record_user_scope(0);
        proof {
            let a = |sc: AssocScopeView| if 0u8 == 0 { HistoryView::Discard { previous_user_scope: sc } } else if 0u8 == 1 { HistoryView::Reset { previous_user_scope: sc } } else { HistoryView::Prune { previous_user_scope: sc } };
            let b = |sc: AssocScopeView| HistoryView::Discard { previous_user_scope: sc };
            assert(a =~= b);
        }
        match self.mime_associations_store.reload(fresh) {
            Ok(()) => Ok(()),
            Err(e) => {
                match self.undo() {
                    Ok(()) => {},
                    Err(u) => {
                        return Err(u);
                    },
                }
                Err(e)
            },
        }
    }

    /// Removes the user's default applications (see `clear_assigned_applications`), after
    /// recording the user's scope so that `undo` can put it back.
    pub fn reset_user_default_application_assignments(&mut self) -> (r: Result<(), MimeAssocError>)
        ensures
            r is Ok,
            final(self)@ == with_scopes(
                StoresView {
                    history: record_user_scope(old(self)@, |sc: AssocScopeView| HistoryView::Reset { previous_user_scope: sc }),
                    ..old(self)@
                },
                cleared_user_scopes(old(self)@.assoc.scopes),
            ),
    {
        self.record_user_scope(1);
        proof {
            let a = |sc: AssocScopeView| if 1u8 == 0 { HistoryView::Discard { previous_user_scope: sc } } else if 1u8 == 1 { HistoryView::Reset { previous_user_scope: sc } } else { HistoryView::Prune { previous_user_scope: sc } };
            let b = |sc: AssocScopeView| HistoryView::Reset { previous_user_scope: sc };
            assert(a =~= b);
        }
        self.mime_associations_store.clear_assigned_applications();
        Ok(())
    }

    /// Removes the user's orphaned default applications (see
    /// `prune_orphaned_application_assignments`), after recording the user's scope so that
    /// `undo` can put it back. Returns the ids removed, each once.
    pub fn prune_orphaned_application_assignments(&mut self) -> (r: Result<Vec<DesktopEntryId>, MimeAssocError>)
        ensures
            r matches Ok(ids) && id_seq_views(ids@).no_duplicates()
                && (forall|v: Seq<char>| #[trigger] id_seq_views(ids@).contains(v) <==> user_orphan(old(self)@.assoc.scopes, old(self)@.entries, v)),
            final(self)@ == with_scopes(
                StoresView {
                    history: record_user_scope(old(self)@, |sc: AssocScopeView| HistoryView::Prune { previous_user_scope: sc }),
                    ..old(self)@
                },
                pruned_user_scopes(old(self)@.assoc.scopes, old(self)@.entries),
            ),
    {
        self.record_user_scope(2);
        proof {
            let a = |sc: AssocScopeView| if 2u8 == 0 { HistoryView::Discard { previous_user_scope: sc } } else if 2u8 == 1 { HistoryView::Reset { previous_user_scope: sc } } else { HistoryView::Prune { previous_user_scope: sc } };
            let b = |sc: AssocScopeView| HistoryView::Prune { previous_user_scope: sc };
            assert(a =~= b);
        }
        Ok(self.mime_associations_store.prune_orphaned_application_assignments(&self.desktop_entry_store))
    }

    /// What committing the changes writes (see `MimeTypeAssociationStore::save`).
    pub fn save(&self) -> (r: Vec<(usize, String, Vec<String>)>)
        ensures
            r@.len() == crate::association_store::dirty_user_indices(self@.assoc.scopes, self@.assoc.scopes.len() as int).len(),
            forall|p: int| 0 <= p < r@.len() ==> {
                let i = crate::association_store::dirty_user_indices(self@.assoc.scopes, self@.assoc.scopes.len() as int)[p];
                &&& (#[trigger] r@[p]).0 == i
                &&& r@[p].1@ == self@.assoc.scopes[i].file_path
                &&& crate::mime_type_association_store::string_views(r@[p].2@) == crate::mime_type_association_store::scope_text_lines(self@.assoc.scopes[i])
            },
    {
        self.mime_associations_store.save()
    }

    /// Records that the scope at `index` was written to its file.
    pub fn mark_saved(&mut self, index: usize)
        ensures
            index < old(self)@.assoc.scopes.len() ==> final(self)@ == with_scopes(old(self)@,
                old(self)@.assoc.scopes.update(index as int, AssocScopeView { dirty: false, ..old(self)@.assoc.scopes[index as int] })),
            index >= old(self)@.assoc.scopes.len() ==> final(self)@ == old(self)@,
    {
        self.mime_associations_store.mark_saved(index);
    }
}

} // verus!

verus! {

/// Putting back the application that was in effect, in a chain with the same system scopes,
/// makes it the one in effect again.
proof fn lemma_restore_assignment_restores(s: StoresView, popped: StoresView, m: Seq<char>)
    requires
        entries_keyed_by_id(popped.entries),
        same_system_scopes(s.assoc.scopes, popped.assoc.scopes),
        popped.assoc.verify_app_is_valid == s.assoc.verify_app_is_valid,
        restore_assignment(popped, m, first_default(s.assoc.scopes, m, ScopeFilter::All)).1 is None,
    ensures
        first_default(restore_assignment(popped, m, first_default(s.assoc.scopes, m, ScopeFilter::All)).0.assoc.scopes, m, ScopeFilter::All)
            == first_default(s.assoc.scopes, m, ScopeFilter::All),
        restore_assignment(popped, m, first_default(s.assoc.scopes, m, ScopeFilter::All)).0.history == popped.history,
{
    match first_default(s.assoc.scopes, m, ScopeFilter::All) {
        Some(p) => {
            lemma_scope_lookup_id(popped.entries, p);
            let pe = scope_lookup(popped.entries, p)->0;
            lemma_reassignment_restores(s.assoc, popped.assoc, m, pe);
        },
        None => {
            lemma_removal_restores_none(s.assoc.scopes, popped.assoc.scopes, m);
        },
    }
}

/// Undoing an assignment puts back the application that was in effect for its mime type, and
/// the history as it was.
pub proof fn lemma_undo_assignment_restores_default(s: StoresView, m: Seq<char>, id: Seq<char>)
    requires
        entries_keyed_by_id(s.entries),
        assign_application(s, m, id) is Ok,
        undo_outcome(assign_application(s, m, id)->Ok_0).1 is None,
    ensures
        first_default(undo_outcome(assign_application(s, m, id)->Ok_0).0.assoc.scopes, m, ScopeFilter::All)
            == first_default(s.assoc.scopes, m, ScopeFilter::All),
        undo_outcome(assign_application(s, m, id)->Ok_0).0.history == s.history,
{
    let s1 = assign_application(s, m, id)->Ok_0;
    let e = scope_lookup(s.entries, id)->0;
    lemma_assignment_keeps_system(s.assoc, m, e);
    assert(s1.history.drop_last() =~= s.history);
    let popped = StoresView { history: s1.history.drop_last(), ..s1 };
    lemma_restore_assignment_restores(s, popped, m);
}

/// Undoing a removal puts back the application that was in effect for its mime type, and the
/// history as it was.
pub proof fn lemma_undo_removal_restores_default(s: StoresView, m: Seq<char>)
    requires
        entries_keyed_by_id(s.entries),
        undo_outcome(remove_application(s, m)).1 is None,
    ensures
        first_default(undo_outcome(remove_application(s, m)).0.assoc.scopes, m, ScopeFilter::All)
            == first_default(s.assoc.scopes, m, ScopeFilter::All),
        undo_outcome(remove_application(s, m)).0.history == s.history,
{
    let s1 = remove_application(s, m);
    lemma_removal_keeps_system(s.assoc.scopes, m);
    assert(s1.history.drop_last() =~= s.history);
    let popped = StoresView { history: s1.history.drop_last(), ..s1 };
    lemma_restore_assignment_restores(s, popped, m);
}

/// Undoing a reset of the user's assignments, or a pruning of them, puts the stores back as
/// they were, where the user may change one scope only.
pub proof fn lemma_undo_reset_restores_stores(s: StoresView, kind: u8)
    requires
        kind == 1 || kind == 2,
        first_user_index(s.assoc.scopes) < s.assoc.scopes.len(),
        forall|j: int| 0 <= j < s.assoc.scopes.len() && (#[trigger] s.assoc.scopes[j]).user ==> j == first_user_index(s.assoc.scopes),
    ensures
        ({
            let recorded = StoresView {
                history: record_user_scope(s, |sc: AssocScopeView| if kind == 1 {
                    HistoryView::Reset { previous_user_scope: sc }
                } else {
                    HistoryView::Prune { previous_user_scope: sc }
                }),
                ..s
            };
            let changed = if kind == 1 {
                cleared_user_scopes(s.assoc.scopes)
            } else {
                pruned_user_scopes(s.assoc.scopes, s.entries)
            };
            undo_outcome(with_scopes(recorded, changed)) == (s, None::<StoresError>)
        }),
{
    let i = first_user_index(s.assoc.scopes);
    lemma_first_user_index(s.assoc.scopes);
    let changed = if kind == 1 {
        cleared_user_scopes(s.assoc.scopes)
    } else {
        pruned_user_scopes(s.assoc.scopes, s.entries)
    };
    assert(same_system_scopes(s.assoc.scopes, changed));
    lemma_first_user_index_same(s.assoc.scopes, changed);
    assert(changed.update(i, s.assoc.scopes[i]) =~= s.assoc.scopes);
    let recorded = StoresView {
        history: record_user_scope(s, |sc: AssocScopeView| if kind == 1 {
            HistoryView::Reset { previous_user_scope: sc }
        } else {
            HistoryView::Prune { previous_user_scope: sc }
        }),
        ..s
    };
    assert(recorded.history.drop_last() =~= s.history);
}

/// How many of `ms` have `id` as the application in effect in `scopes`.
pub open spec fn assigned_count(scopes: Seq<AssocScopeView>, ms: Seq<Seq<char>>, id: Seq<char>) -> nat
    decreases ms.len(),
{
    if ms.len() == 0 {
        0
    } else {
        assigned_count(scopes, ms.drop_last(), id) + (if first_default(scopes, ms.last(), ScopeFilter::All) == Some(id) { 1nat } else { 0nat })
    }
}

/// Whether "select all" and "select none" apply to the application `id` that declares
/// `mime_types`: with more than one mime type, all can be selected while one is not assigned to
/// it, and none while one is; with fewer, neither applies.
pub fn select_all_and_none_availability(store: &MimeTypeAssociationStore, mime_types: &Vec<MimeType>, id: &DesktopEntryId) -> (r: (bool, bool))
    ensures
        mime_types@.len() > 1 ==> r == (
            assigned_count(store@.scopes, crate::desktop_entry::mime_views(mime_types@), id@) < mime_types@.len(),
            assigned_count(store@.scopes, crate::desktop_entry::mime_views(mime_types@), id@) > 0,
        ),
        mime_types@.len() <= 1 ==> r == (false, false),
{
    let n = mime_types.len();
    if n <= 1 {
        return (false, false);
    }
    let ghost ms = crate::desktop_entry::mime_views(mime_types@);
    let mut assigned: usize = 0;
    let mut i: usize = 0;
    assert(ms.take(0) =~= Seq::<Seq<char>>::empty());
    while i < n
        invariant
            n == mime_types@.len(),
            i <= n,
            ms == crate::desktop_entry::mime_views(mime_types@),
            assigned == assigned_count(store@.scopes, ms.take(i as int), id@),
            assigned <= i,
        decreases n - i,
    {
        assert(ms.take(i + 1).drop_last() =~= ms.take(i as int));
        assert(ms.take(i + 1).last() == mime_types@[i as int]@);
        let is_assigned = match store.default_application_for(&mime_types[i]) {
            Some(d) => d.same_as(id),
            None => false,
        };
        if is_assigned {
            assigned = assigned + 1;
        }
        i = i + 1;
    }
    assert(ms.take(n as int) =~= ms);
    (assigned < n, assigned > 0)
}

} // verus!
