//! The commands of the command line tool: what each reports, and what it changes.

use vstd::prelude::*;
use crate::association_store::{assign_all, assign_default, error_is, first_default, in_some_scope, lemma_assign_all_in_effect, unopposed, AssocStoreView, MimeTypeAssociationStore, ScopeFilter, removed_in_user_scopes};
use crate::command_output::{mime_views_of, ApplicationCommandOutput, CommandOutput, ConfigurationCommandOutput, MimeInfo, MimeTypeCommandHandlerInfo, MimeTypeCommandOutput, MimeTypesCommandOutput, ResetDefaultHandlerCommandOutput, SetDefaultHandlerCommandOutput};
use crate::desktop_entry::{mime_views, supports_mime_type, DesktopEntry, DesktopEntryView};
use crate::desktop_entry_store::{effective_entries, entries_supporting, fuzzy_lookup, lookup_desktop_entry, opt_entry_view, ref_views, DesktopEntryStore, EntryScopeView};
use crate::error::MimeAssocError;
use crate::mime_info::{info_lookup, MimeInfoStoreView, MimeTypeInfo, MimeTypeInfoStore, MimeTypeInfoView};
use crate::mime_type::{is_mime_type_text, is_wildcard_text, MimeType};
use crate::mime_type_association_store::removal_match;
use crate::text::{insert_sorted_unique, lex_compare, lemma_lex_compare_antisym, lemma_lex_compare_trans, strictly_sorted, texts, views, Textual};

verus! {

/// `true` when `q` is in order, equal texts allowed.
pub open spec fn sorted_texts(q: Seq<Seq<char>>) -> bool {
    forall|i: int, j: int| 0 <= i < j < q.len() ==> lex_compare(#[trigger] q[i], #[trigger] q[j]) <= 0
}

/// The mime types of `v`, in order, each as often as in `v`.
fn sort_mime_types(v: &Vec<MimeType>) -> (r: Vec<&MimeType>)
    ensures
        sorted_texts(texts(r@)),
        texts(r@).to_multiset() == mime_views(v@).to_multiset(),
{
    broadcast use vstd::seq_lib::group_to_multiset_ensures;
    let mut r: Vec<&MimeType> = Vec::new();
    let mut i: usize = 0;
    assert(mime_views(v@).take(0) =~= Seq::<Seq<char>>::empty());
    while i < v.len()
        invariant
            i <= v@.len(),
            sorted_texts(texts(r@)),
            texts(r@).to_multiset() == mime_views(v@).take(i as int).to_multiset(),
        decreases v@.len() - i,
    {
        let x = &v[i];
        let ghost old_t = texts(r@);
        let mut p: usize = 0;
        while p < r.len() && crate::text::compare_str(r[p].id(), x.id()) <= 0
            invariant
                p <= r@.len(),
                texts(r@) == old_t,
                forall|q: int| 0 <= q < p ==> lex_compare(#[trigger] old_t[q], x@) <= 0,
            decreases r@.len() - p,
        {
            p = p + 1;
        }
        proof {
            if p < r@.len() {
                lemma_lex_compare_antisym(old_t[p as int], x@);
            }
        }
        r.insert(p, x);
        proof {
            let nt = texts(r@);
            assert(nt =~= old_t.insert(p as int, x@));
            assert forall|a: int, b: int| 0 <= a < b < nt.len() implies lex_compare(#[trigger] nt[a], #[trigger] nt[b]) <= 0 by {
                if b < p {
                    assert(nt[a] == old_t[a] && nt[b] == old_t[b]);
                } else if b == p {
                    assert(nt[a] == old_t[a]);
                } else if a < p {
                    assert(nt[a] == old_t[a] && nt[b] == old_t[b - 1]);
                    lemma_lex_compare_antisym(old_t[p as int], x@);
                    if b - 1 > p {
                        lemma_lex_compare_trans(x@, old_t[p as int], old_t[b - 1]);
                    }
                    lemma_lex_compare_trans(old_t[a], x@, old_t[b - 1]);
                } else if a == p {
                    assert(nt[b] == old_t[b - 1]);
                    lemma_lex_compare_antisym(old_t[p as int], x@);
                    if b - 1 > p {
                        lemma_lex_compare_trans(x@, old_t[p as int], old_t[b - 1]);
                    }
                } else {
                    assert(nt[a] == old_t[a - 1] && nt[b] == old_t[b - 1]);
                }
            }
            assert(nt.remove(p as int) =~= old_t);
            assert(nt[p as int] == x@);
            nt.to_multiset_ensures();
            assert(nt.remove(p as int).to_multiset() =~= nt.to_multiset().remove(nt[p as int]));
            assert(nt.to_multiset().remove(x@) =~= old_t.to_multiset());
            assert(nt.contains(x@));
            assert(nt.to_multiset().count(x@) > 0);
            assert(nt.to_multiset() =~= old_t.to_multiset().insert(x@));
            assert(mime_views(v@).take(i + 1) =~= mime_views(v@).take(i as int).push(x@));
            mime_views(v@).take(i as int).to_multiset_ensures();
            assert(mime_views(v@).take(i as int).push(x@).to_multiset() =~= mime_views(v@).take(i as int).to_multiset().insert(x@));
        }
        i = i + 1;
    }
    assert(mime_views(v@).take(i as int) =~= mime_views(v@));
    r
}

pub open spec fn opt_info_view(o: Option<MimeTypeInfo>) -> Option<MimeTypeInfoView> {
    match o {
        Some(i) => Some(i@),
        None => None,
    }
}

/// The information the database has on `m`, copied.
fn info_for(mime_info_store: &MimeTypeInfoStore, m: &MimeType) -> (r: Option<MimeTypeInfo>)
    ensures
        opt_info_view(r) == info_lookup(mime_info_store@, m@),
{
    match mime_info_store.get_info_for_mime_type(m) {
        Some(info) => Some(info.duplicate()),
        None => None,
    }
}

pub open spec fn output_mime_types(v: Seq<MimeTypesCommandOutput>) -> Seq<Seq<char>> {
    v.map_values(|o: MimeTypesCommandOutput| o.mime_type@)
}

/// Every mime type the associations name, each once and in order, with its information.
pub open spec fn mime_types_ok(v: Seq<MimeTypesCommandOutput>, sv: AssocStoreView, iv: MimeInfoStoreView) -> bool {
    &&& strictly_sorted(output_mime_types(v))
    &&& forall|k: Seq<char>| #[trigger] output_mime_types(v).contains(k) <==> in_some_scope(sv.scopes, k)
    &&& forall|i: int| 0 <= i < v.len() ==> opt_info_view((#[trigger] v[i]).mime_info) == info_lookup(iv, v[i].mime_type@)
}

/// Mime type `m`, its information, and the applications declaring it in id order, each
/// marked where it is the application in effect.
pub open spec fn single_mime_type_ok(o: MimeTypeCommandOutput, m: Seq<char>, sv: AssocStoreView, ev: Seq<EntryScopeView>, iv: MimeInfoStoreView) -> bool {
    let handlers = entries_supporting(effective_entries(ev), m);
    &&& o.mime_type@ == m
    &&& opt_info_view(o.mime_info) == info_lookup(iv, m)
    &&& o.handler_info@.len() == handlers.len()
    &&& forall|j: int| 0 <= j < handlers.len() ==> (#[trigger] o.handler_info@[j]).desktop_entry@ == handlers[j].id
        && o.handler_info@[j].is_default_handler == (first_default(sv.scopes, m, ScopeFilter::All) == Some(handlers[j].id))
}

pub open spec fn output_mime_type_list(v: Seq<MimeTypeCommandOutput>) -> Seq<Seq<char>> {
    v.map_values(|o: MimeTypeCommandOutput| o.mime_type@)
}

/// What the `mime-type` command reports for the identifier `id`: refused where none is given
/// or it is no mime type; else each mime type of the associations it matches (all of its
/// major type for a wildcard), in order.
pub open spec fn mime_type_result_ok(r: Result<CommandOutput, MimeAssocError>, id: Option<Seq<char>>, sv: AssocStoreView, ev: Seq<EntryScopeView>, iv: MimeInfoStoreView) -> bool {
    match id {
        None => r matches Err(e) && e is NoMimeTypeGiven,
        Some(t) => if !is_mime_type_text(t) {
            r matches Err(e) && (e matches MimeAssocError::InvalidMimeType(x) && x@ == t)
        } else {
            r matches Ok(out) && (out matches CommandOutput::MimeType(v) && {
                &&& strictly_sorted(output_mime_type_list(v@))
                &&& forall|k: Seq<char>| #[trigger] output_mime_type_list(v@).contains(k) <==> (in_some_scope(sv.scopes, k) && removal_match(t, k))
                &&& forall|i: int| 0 <= i < v@.len() ==> single_mime_type_ok(#[trigger] v@[i], v@[i].mime_type@, sv, ev, iv)
            })
        },
    }
}

pub open spec fn info_mime_types(v: Seq<MimeInfo>) -> Seq<Seq<char>> {
    v.map_values(|x: MimeInfo| x.mime_type@)
}

/// Entry `e` and its mime types in order (each as often as it declares it), each marked where
/// `e` is the application in effect for it.
pub open spec fn app_output_ok(o: ApplicationCommandOutput, e: DesktopEntryView, sv: AssocStoreView) -> bool {
    &&& o.desktop_entry@ == e.id
    &&& sorted_texts(info_mime_types(o.mime_info@))
    &&& info_mime_types(o.mime_info@).to_multiset() == e.mime_types.to_multiset()
    &&& forall|j: int| 0 <= j < o.mime_info@.len() ==> (#[trigger] o.mime_info@[j]).is_default_handler
        == (first_default(sv.scopes, o.mime_info@[j].mime_type@, ScopeFilter::All) == Some(e.id))
}

/// What the `application` command reports for the identifier `id`: refused where none is
/// given or no installed application answers to it (see `lookup_desktop_entry`).
pub open spec fn application_result_ok(r: Result<CommandOutput, MimeAssocError>, id: Option<Seq<char>>, sv: AssocStoreView, ev: Seq<EntryScopeView>) -> bool {
    match id {
        None => r matches Err(e) && e is NoDesktopEntryGiven,
        Some(t) => match fuzzy_lookup(ev, t) {
            None => r matches Err(e) && (e matches MimeAssocError::NotInstalled(x) && x@ == t),
            Some(entry) => r matches Ok(out) && (out matches CommandOutput::Application(o) && app_output_ok(o, entry, sv)),
        },
    }
}

/// Every installed application, in id order, as `app_output_ok` describes it.
pub open spec fn applications_ok(v: Seq<ApplicationCommandOutput>, sv: AssocStoreView, ev: Seq<EntryScopeView>) -> bool {
    &&& v.len() == effective_entries(ev).len()
    &&& forall|i: int| 0 <= i < v.len() ==> app_output_ok(#[trigger] v[i], effective_entries(ev)[i], sv)
}

/// The sources of both stores, in chain order.
pub open spec fn configuration_ok(o: ConfigurationCommandOutput, sv: AssocStoreView, ev: Seq<EntryScopeView>) -> bool {
    &&& views(o.mime_association_scope_paths@) == sv.scopes.map_values(|s: crate::mime_type_association_store::AssocScopeView| s.file_path)
    &&& views(o.desktop_entry_scope_paths@) == ev.map_values(|s: EntryScopeView| s.directory)
}

/// The mime types the associations name, each once and in order, with their information.
pub fn get_mime_types(mime_associations_store: &MimeTypeAssociationStore, mime_info_store: &MimeTypeInfoStore) -> (r: CommandOutput)
    ensures
        r matches CommandOutput::MimeTypes(v) && mime_types_ok(v@, mime_associations_store@, mime_info_store@),
{
    let mime_types = mime_associations_store.mime_types();
    let mut v: Vec<MimeTypesCommandOutput> = Vec::new();
    let mut i: usize = 0;
    while i < mime_types.len()
        invariant
            i <= mime_types@.len(),
            output_mime_types(v@) == texts(mime_types@).take(i as int),
            forall|q: int| 0 <= q < v@.len() ==> opt_info_view((#[trigger] v@[q]).mime_info) == info_lookup(mime_info_store@, v@[q].mime_type@),
        decreases mime_types@.len() - i,
    {
        let m = mime_types[i];
        let ghost before = v@;
        v.push(MimeTypesCommandOutput { mime_type: m.duplicate(), mime_info: info_for(mime_info_store, m) });
        assert(output_mime_types(v@) =~= output_mime_types(before).push(m@));
        assert(texts(mime_types@).take(i + 1) =~= texts(mime_types@).take(i as int).push(m@));
        assert forall|q: int| 0 <= q < v@.len() implies opt_info_view((#[trigger] v@[q]).mime_info) == info_lookup(mime_info_store@, v@[q].mime_type@) by {
            if q < before.len() {
                assert(v@[q] == before[q]);
            }
        }
        i = i + 1;
    }
    assert(texts(mime_types@).take(i as int) =~= texts(mime_types@));
    CommandOutput::MimeTypes(v)
}

/// `true` when both texts are the same.
fn same_text(a: &str, b: &str) -> (r: bool)
    ensures
        r == (a@ == b@),
{
    crate::text::str_equals(a, b)
}

/// Mime type `mime_type`, its information, and the applications declaring it.
pub fn get_single_mime_type(
    mime_associations_store: &MimeTypeAssociationStore,
    desktop_entry_store: &DesktopEntryStore,
    mime_info_store: &MimeTypeInfoStore,
    mime_type: &MimeType,
) -> (r: MimeTypeCommandOutput)
    ensures
        single_mime_type_ok(r, mime_type@, mime_associations_store@, desktop_entry_store@, mime_info_store@),
{
    let desktop_entries = desktop_entry_store.get_desktop_entries_for_mimetype(mime_type);
    let default_handler = mime_associations_store.default_application_for(mime_type);
    let ghost handlers = entries_supporting(effective_entries(desktop_entry_store@), mime_type@);
    let mut output = MimeTypeCommandOutput {
        mime_type: mime_type.duplicate(),
        mime_info: info_for(mime_info_store, mime_type),
        handler_info: Vec::new(),
    };
    let mut j: usize = 0;
    while j < desktop_entries.len()
        invariant
            j <= desktop_entries@.len(),
            ref_views(desktop_entries@) == handlers,
            output.mime_type@ == mime_type@,
            opt_info_view(output.mime_info) == info_lookup(mime_info_store@, mime_type@),
            crate::association_store::opt_id_view(default_handler) == first_default(mime_associations_store@.scopes, mime_type@, ScopeFilter::All),
            output.handler_info@.len() == j,
            forall|q: int| 0 <= q < j ==> (#[trigger] output.handler_info@[q]).desktop_entry@ == handlers[q].id
                && output.handler_info@[q].is_default_handler == (first_default(mime_associations_store@.scopes, mime_type@, ScopeFilter::All) == Some(handlers[q].id)),
        decreases desktop_entries@.len() - j,
    {
        let entry = desktop_entries[j];
        assert(handlers[j as int] == entry@);
        let is_default = match default_handler {
            Some(d) => d.same_as(entry.id()),
            None => false,
        };
        output.handler_info.push(MimeTypeCommandHandlerInfo { desktop_entry: entry.id().duplicate(), is_default_handler: is_default });
        j = j + 1;
    }
    output
}

/// What the `mime-type` command reports (see `mime_type_result_ok`).
pub fn get_mime_type(
    mime_associations_store: &MimeTypeAssociationStore,
    desktop_entry_store: &DesktopEntryStore,
    mime_info_store: &MimeTypeInfoStore,
    id: Option<&str>,
) -> (r: Result<CommandOutput, MimeAssocError>)
    ensures
        mime_type_result_ok(r, match id { Some(t) => Some(t@), None => None }, mime_associations_store@, desktop_entry_store@, mime_info_store@),
{
    let id = match id {
        Some(id) => id,
        None => {
            return Err(MimeAssocError::NoMimeTypeGiven);
        },
    };
    let mime_type = match MimeType::parse(id) {
        Ok(m) => m,
        Err(e) => {
            return Err(e);
        },
    };
    let matches = mime_associations_store.find_matching_mimetypes(&mime_type);
    let mut output: Vec<MimeTypeCommandOutput> = Vec::new();
    let mut i: usize = 0;
    while i < matches.len()
        invariant
            i <= matches@.len(),
            output_mime_type_list(output@) == texts(matches@).take(i as int),
            forall|q: int| 0 <= q < output@.len() ==> single_mime_type_ok(#[trigger] output@[q], output@[q].mime_type@, mime_associations_store@, desktop_entry_store@, mime_info_store@),
        decreases matches@.len() - i,
    {
        let ghost before = output@;
        let single = get_single_mime_type(mime_associations_store, desktop_entry_store, mime_info_store, matches[i]);
        output.push(single);
        assert(output_mime_type_list(output@) =~= output_mime_type_list(before).push(matches@[i as int]@));
        assert(texts(matches@).take(i + 1) =~= texts(matches@).take(i as int).push(matches@[i as int]@));
        assert forall|q: int| 0 <= q < output@.len() implies single_mime_type_ok(#[trigger] output@[q], output@[q].mime_type@, mime_associations_store@, desktop_entry_store@, mime_info_store@) by {
            if q < before.len() {
                assert(output@[q] == before[q]);
            }
        }
        i = i + 1;
    }
    assert(texts(matches@).take(i as int) =~= texts(matches@));
    Ok(CommandOutput::MimeType(output))
}

/// Entry `desktop_entry` and its mime types, in order, each marked where the entry is the
/// application in effect for it.
fn application_output(mime_associations_store: &MimeTypeAssociationStore, desktop_entry: &DesktopEntry) -> (r: ApplicationCommandOutput)
    ensures
        app_output_ok(r, desktop_entry@, mime_associations_store@),
{
    let mime_types = sort_mime_types(desktop_entry.mime_types());
    let mut mime_info: Vec<MimeInfo> = Vec::new();
    let mut j: usize = 0;
    while j < mime_types.len()
        invariant
            j <= mime_types@.len(),
            info_mime_types(mime_info@) == texts(mime_types@).take(j as int),
            forall|q: int| 0 <= q < mime_info@.len() ==> (#[trigger] mime_info@[q]).is_default_handler
                == (first_default(mime_associations_store@.scopes, mime_info@[q].mime_type@, ScopeFilter::All) == Some(desktop_entry@.id)),
        decreases mime_types@.len() - j,
    {
        let m = mime_types[j];
        let is_handler = match mime_associations_store.default_application_for(m) {
            Some(d) => d.same_as(desktop_entry.id()),
            None => false,
        };
        let ghost before = mime_info@;
        mime_info.push(MimeInfo { mime_type: m.duplicate(), is_default_handler: is_handler });
        assert(info_mime_types(mime_info@) =~= info_mime_types(before).push(m@));
        assert(texts(mime_types@).take(j + 1) =~= texts(mime_types@).take(j as int).push(m@));
        assert forall|q: int| 0 <= q < mime_info@.len() implies (#[trigger] mime_info@[q]).is_default_handler
            == (first_default(mime_associations_store@.scopes, mime_info@[q].mime_type@, ScopeFilter::All) == Some(desktop_entry@.id)) by {
            if q < before.len() {
                assert(mime_info@[q] == before[q]);
            }
        }
        j = j + 1;
    }
    assert(texts(mime_types@).take(j as int) =~= texts(mime_types@));
    ApplicationCommandOutput { desktop_entry: desktop_entry.id().duplicate(), mime_info }
}

/// Every installed application with its mime types (see `applications_ok`).
pub fn get_applications(mime_associations_store: &MimeTypeAssociationStore, desktop_entry_store: &DesktopEntryStore) -> (r: CommandOutput)
    ensures
        r matches CommandOutput::Applications(v) && applications_ok(v@, mime_associations_store@, desktop_entry_store@),
{
    let entries = desktop_entry_store.desktop_entries();
    let ghost effs = effective_entries(desktop_entry_store@);
    let mut v: Vec<ApplicationCommandOutput> = Vec::new();
    let mut i: usize = 0;
    while i < entries.len()
        invariant
            i <= entries@.len(),
            ref_views(entries@) == effs,
            effs == effective_entries(desktop_entry_store@),
            v@.len() == i,
            forall|q: int| 0 <= q < i ==> app_output_ok(#[trigger] v@[q], effs[q], mime_associations_store@),
        decreases entries@.len() - i,
    {
        assert(effs[i as int] == entries@[i as int]@);
        let ghost before = v@;
        v.push(application_output(mime_associations_store, entries[i]));
        assert forall|q: int| 0 <= q < i + 1 implies app_output_ok(#[trigger] v@[q], effs[q], mime_associations_store@) by {
            if q < i {
                assert(v@[q] == before[q]);
            }
        }
        i = i + 1;
    }
    CommandOutput::Applications(v)
}

/// What the `application` command reports (see `application_result_ok`).
pub fn get_application(mime_associations_store: &MimeTypeAssociationStore, desktop_entry_store: &DesktopEntryStore, id: Option<&str>) -> (r: Result<CommandOutput, MimeAssocError>)
    ensures
        application_result_ok(r, match id { Some(t) => Some(t@), None => None }, mime_associations_store@, desktop_entry_store@),
{
    let id = match id {
        Some(id) => id,
        None => {
            return Err(MimeAssocError::NoDesktopEntryGiven);
        },
    };
    match lookup_desktop_entry(desktop_entry_store, id) {
        Some(desktop_entry) => Ok(CommandOutput::Application(application_output(mime_associations_store, desktop_entry))),
        None => Err(MimeAssocError::NotInstalled(id.to_owned())),
    }
}

/// The sources of both stores, in chain order.
pub fn get_configuration(mime_associations_store: &MimeTypeAssociationStore, desktop_entry_store: &DesktopEntryStore) -> (r: CommandOutput)
    ensures
        r matches CommandOutput::Configuration(o) && configuration_ok(o, mime_associations_store@, desktop_entry_store@),
{
    let a = mime_associations_store.sources();
    let d = desktop_entry_store.sources();
    let mut ap: Vec<String> = Vec::new();
    let mut i: usize = 0;
    while i < a.len()
        invariant
            i <= a@.len(),
            a@.len() == mime_associations_store@.scopes.len(),
            forall|q: int| 0 <= q < a@.len() ==> #[trigger] a@[q]@ == mime_associations_store@.scopes[q].file_path,
            views(ap@) == mime_associations_store@.scopes.map_values(|s: crate::mime_type_association_store::AssocScopeView| s.file_path).take(i as int),
        decreases a@.len() - i,
    {
        let ghost before = views(ap@);
        ap.push(a[i].to_owned());
        assert(views(ap@) =~= before.push(a@[i as int]@));
        assert(mime_associations_store@.scopes.map_values(|s: crate::mime_type_association_store::AssocScopeView| s.file_path).take(i + 1)
            =~= mime_associations_store@.scopes.map_values(|s: crate::mime_type_association_store::AssocScopeView| s.file_path).take(i as int).push(a@[i as int]@));
        i = i + 1;
    }
    assert(mime_associations_store@.scopes.map_values(|s: crate::mime_type_association_store::AssocScopeView| s.file_path).take(i as int)
        =~= mime_associations_store@.scopes.map_values(|s: crate::mime_type_association_store::AssocScopeView| s.file_path));
    let mut dp: Vec<String> = Vec::new();
    let mut j: usize = 0;
    while j < d.len()
        invariant
            j <= d@.len(),
            d@.len() == desktop_entry_store@.len(),
            forall|q: int| 0 <= q < d@.len() ==> #[trigger] d@[q]@ == desktop_entry_store@[q].directory,
            views(dp@) == desktop_entry_store@.map_values(|s: EntryScopeView| s.directory).take(j as int),
        decreases d@.len() - j,
    {
        let ghost before = views(dp@);
        dp.push(d[j].to_owned());
        assert(views(dp@) =~= before.push(d@[j as int]@));
        assert(desktop_entry_store@.map_values(|s: EntryScopeView| s.directory).take(j + 1)
            =~= desktop_entry_store@.map_values(|s: EntryScopeView| s.directory).take(j as int).push(d@[j as int]@));
        j = j + 1;
    }
    assert(desktop_entry_store@.map_values(|s: EntryScopeView| s.directory).take(j as int)
        =~= desktop_entry_store@.map_values(|s: EntryScopeView| s.directory));
    CommandOutput::Configuration(ConfigurationCommandOutput { mime_association_scope_paths: ap, desktop_entry_scope_paths: dp })
}

/// The first of `ts` that is no mime type.
pub open spec fn first_bad_mime(ts: Seq<Seq<char>>) -> Option<Seq<char>>
    decreases ts.len(),
{
    if ts.len() == 0 {
        None
    } else if !is_mime_type_text(ts[0]) {
        Some(ts[0])
    } else {
        first_bad_mime(ts.drop_first())
    }
}

/// The first of `ms` that entry `e` does not declare.
pub open spec fn first_unsupported(e: DesktopEntryView, ms: Seq<Seq<char>>) -> Option<Seq<char>>
    decreases ms.len(),
{
    if ms.len() == 0 {
        None
    } else if !supports_mime_type(e, ms[0]) {
        Some(ms[0])
    } else {
        first_unsupported(e, ms.drop_first())
    }
}

/// What the `set` command does with application identifier `id` and mime types `ts`: refused,
/// with nothing changed, where one of `ts` is no mime type, no installed application answers
/// to `id`, or it does not declare one of them; else it is made the default application of
/// each of them in turn (of all it declares, where `ts` is empty), stopping at the first
/// refusal.
pub open spec fn set_result_ok(
    r: Result<CommandOutput, MimeAssocError>,
    old_sv: AssocStoreView,
    new_sv: AssocStoreView,
    ev: Seq<EntryScopeView>,
    id: Seq<char>,
    ts: Seq<Seq<char>>,
) -> bool {
    match first_bad_mime(ts) {
        Some(b) => new_sv == old_sv && (r matches Err(e) && (e matches MimeAssocError::InvalidMimeType(x) && x@ == b)),
        None => match fuzzy_lookup(ev, id) {
            None => new_sv == old_sv && (r matches Err(e) && (e matches MimeAssocError::NotInstalled(x) && x@ == id)),
            Some(entry) => {
                let ms = if ts.len() == 0 { entry.mime_types } else { ts };
                match first_unsupported(entry, ms) {
                    Some(m) => new_sv == old_sv && (r matches Err(e) && (e matches MimeAssocError::UnsupportedMimeType(x, y) && x@ == entry.id && y@ == m)),
                    None => {
                        let (sc, err) = assign_all(old_sv, ms, entry);
                        &&& new_sv == (AssocStoreView { scopes: sc, ..old_sv })
                        &&& match err {
                            None => r matches Ok(out) && (out matches CommandOutput::SetDefault(o) && o.desktop_entry@ == entry.id && mime_views_of(o.mime_types@) == ms),
                            Some(a) => r matches Err(e) && error_is(e, a),
                        }
                    },
                }
            },
        },
    }
}

/// `set` given no mime types makes the application the default of all the mime types it
/// declares: where no refusal is reported, the output names the application and exactly its
/// declared mime types, in order, and afterwards the application is in effect for each of them
/// (where none is a wildcard and no scope ahead of the user's assigns one another application).
pub proof fn lemma_set_without_types_assigns_declared(
    r: Result<CommandOutput, MimeAssocError>,
    old_sv: AssocStoreView,
    new_sv: AssocStoreView,
    ev: Seq<EntryScopeView>,
    id: Seq<char>,
)
    requires
        set_result_ok(r, old_sv, new_sv, ev, id, Seq::empty()),
        r is Ok,
    ensures
        fuzzy_lookup(ev, id) matches Some(e) && (r matches Ok(out) && (out matches CommandOutput::SetDefault(o)
            && o.desktop_entry@ == e.id && mime_views_of(o.mime_types@) == e.mime_types)),
        fuzzy_lookup(ev, id) matches Some(e) ==> ((forall|j: int| 0 <= j < e.mime_types.len()
            ==> !is_wildcard_text(#[trigger] e.mime_types[j]) && unopposed(old_sv.scopes, e.mime_types[j], e.id))
            ==> (forall|j: int| 0 <= j < e.mime_types.len()
                ==> first_default(new_sv.scopes, #[trigger] e.mime_types[j], ScopeFilter::All) == Some(e.id))),
{
    assert(first_bad_mime(Seq::<Seq<char>>::empty()) is None);
    let e = fuzzy_lookup(ev, id)->0;
    if forall|j: int| 0 <= j < e.mime_types.len() ==> !is_wildcard_text(#[trigger] e.mime_types[j]) && unopposed(old_sv.scopes, e.mime_types[j], e.id) {
        lemma_assign_all_in_effect(old_sv, e.mime_types, e);
    }
}

/// The scopes after removing the user's assignments of each of `ms` in turn.
pub open spec fn remove_all(scopes: Seq<crate::mime_type_association_store::AssocScopeView>, ms: Seq<Seq<char>>) -> Seq<crate::mime_type_association_store::AssocScopeView>
    decreases ms.len(),
{
    if ms.len() == 0 {
        scopes
    } else {
        remove_all(removed_in_user_scopes(scopes, ms[0]), ms.drop_first())
    }
}

/// What the `reset` command does with mime types `ts`: refused, with nothing changed, where
/// one is no mime type; else the user's assignments of each are removed.
pub open spec fn reset_result_ok(r: Result<CommandOutput, MimeAssocError>, old_sv: AssocStoreView, new_sv: AssocStoreView, ts: Seq<Seq<char>>) -> bool {
    match first_bad_mime(ts) {
        Some(b) => new_sv == old_sv && (r matches Err(e) && (e matches MimeAssocError::InvalidMimeType(x) && x@ == b)),
        None => {
            &&& new_sv == (AssocStoreView { scopes: remove_all(old_sv.scopes, ts), ..old_sv })
            &&& r matches Ok(out) && (out matches CommandOutput::Reset(o) && mime_views_of(o.reset_mime_types@) == ts)
        },
    }
}

/// The mime types named by `texts`; refused at the first that is none.
fn parse_mime_types(ts: &Vec<String>) -> (r: Result<Vec<MimeType>, MimeAssocError>)
    ensures
        match first_bad_mime(views(ts@)) {
            Some(b) => r matches Err(e) && (e matches MimeAssocError::InvalidMimeType(x) && x@ == b),
            None => r matches Ok(v) && mime_views_of(v@) == views(ts@),
        },
{
    let ghost tv = views(ts@);
    let mut v: Vec<MimeType> = Vec::new();
    let mut k: usize = 0;
    assert(tv.skip(0) =~= tv);
    while k < ts.len()
        invariant
            k <= ts@.len(),
            tv == views(ts@),
            mime_views_of(v@) == tv.take(k as int),
            first_bad_mime(tv) == first_bad_mime(tv.skip(k as int)),
        decreases ts@.len() - k,
    {
        assert(tv.skip(k as int)[0] == ts@[k as int]@);
        assert(tv.skip(k as int).drop_first() =~= tv.skip(k + 1));
        match MimeType::parse(ts[k].as_str()) {
            Ok(m) => {
                let ghost before = mime_views_of(v@);
                v.push(m);
                assert(mime_views_of(v@) =~= before.push(tv[k as int]));
                assert(tv.take(k + 1) =~= tv.take(k as int).push(tv[k as int]));
            },
            Err(e) => {
                return Err(e);
            },
        }
        k = k + 1;
    }
    assert(tv.take(k as int) =~= tv);
    assert(tv.skip(k as int) =~= Seq::<Seq<char>>::empty());
    Ok(v)
}

/// Makes the application answering to `desktop_entry_id` the default application of the mime
/// types `mime_types` (see `set_result_ok`).
pub fn set_default_handler(
    mime_associations_store: &mut MimeTypeAssociationStore,
    desktop_entry_store: &DesktopEntryStore,
    desktop_entry_id: &str,
    mime_types: &Vec<String>,
) -> (r: Result<CommandOutput, MimeAssocError>)
    ensures
        set_result_ok(r, old(mime_associations_store)@, final(mime_associations_store)@, desktop_entry_store@, desktop_entry_id@, views(mime_types@)),
{
    let mut resolved = match parse_mime_types(mime_types) {
        Ok(v) => v,
        Err(e) => {
            return Err(e);
        },
    };
    let desktop_entry = match lookup_desktop_entry(desktop_entry_store, desktop_entry_id) {
        Some(e) => e,
        None => {
            return Err(MimeAssocError::NotInstalled(desktop_entry_id.to_owned()));
        },
    };
    if resolved.len() == 0 {
        let own = desktop_entry.mime_types();
        let mut j: usize = 0;
        while j < own.len()
            invariant
                j <= own@.len(),
                mime_views_of(resolved@) == mime_views(own@).take(j as int),
            decreases own@.len() - j,
        {
            let ghost before = mime_views_of(resolved@);
            resolved.push(own[j].duplicate());
            assert(mime_views_of(resolved@) =~= before.push(own@[j as int]@));
            assert(mime_views(own@).take(j + 1) =~= mime_views(own@).take(j as int).push(own@[j as int]@));
            j = j + 1;
        }
        assert(mime_views(own@).take(j as int) =~= mime_views(own@));
    }
    let ghost ms = mime_views_of(resolved@);
    let ghost e = desktop_entry@;
    assert(ms == (if views(mime_types@).len() == 0 { e.mime_types } else { views(mime_types@) }));
    assert(fuzzy_lookup(desktop_entry_store@, desktop_entry_id@) == Some(e));
    assert(first_bad_mime(views(mime_types@)) is None);
    let mut k: usize = 0;
    assert(ms.skip(0) =~= ms);
    while k < resolved.len()
        invariant
            k <= resolved@.len(),
            ms == mime_views_of(resolved@),
            first_unsupported(e, ms) == first_unsupported(e, ms.skip(k as int)),
            e == desktop_entry@,
            ms == (if views(mime_types@).len() == 0 { e.mime_types } else { views(mime_types@) }),
            fuzzy_lookup(desktop_entry_store@, desktop_entry_id@) == Some(e),
            first_bad_mime(views(mime_types@)) is None,
            mime_associations_store@ == old(mime_associations_store)@,
        decreases resolved@.len() - k,
    {
        assert(ms.skip(k as int)[0] == resolved@[k as int]@);
        assert(ms.skip(k as int).drop_first() =~= ms.skip(k + 1));
        if !desktop_entry.can_open_mime_type(&resolved[k]) {
            return Err(MimeAssocError::UnsupportedMimeType(desktop_entry.id().to_string(), resolved[k].to_string()));
        }
        k = k + 1;
    }
    assert(ms.skip(k as int) =~= Seq::<Seq<char>>::empty());
    let mut output = SetDefaultHandlerCommandOutput { desktop_entry: desktop_entry.id().duplicate(), mime_types: Vec::new() };
    let mut j: usize = 0;
    assert(ms.skip(0) =~= ms);
    while j < resolved.len()
        invariant
            j <= resolved@.len(),
            ms == mime_views_of(resolved@),
            e == desktop_entry@,
            output.desktop_entry@ == e.id,
            mime_views_of(output.mime_types@) == ms.take(j as int),
            mime_associations_store@.verify_app_is_valid == old(mime_associations_store)@.verify_app_is_valid,
            assign_all(old(mime_associations_store)@, ms, e) == assign_all(mime_associations_store@, ms.skip(j as int), e),
            ms == (if views(mime_types@).len() == 0 { e.mime_types } else { views(mime_types@) }),
            fuzzy_lookup(desktop_entry_store@, desktop_entry_id@) == Some(e),
            first_bad_mime(views(mime_types@)) is None,
            first_unsupported(e, ms) is None,
        decreases resolved@.len() - j,
    {
        assert(ms.skip(j as int)[0] == resolved@[j as int]@);
        assert(ms.skip(j as int).drop_first() =~= ms.skip(j + 1));
        let ghost sv = mime_associations_store@;
        match mime_associations_store.set_default_handler_for_mime_type(&resolved[j], desktop_entry) {
            Ok(()) => {},
            Err(err) => {
                assert(ms.skip(j as int).len() > 0);
                assert(assign_default(sv, ms.skip(j as int)[0], e) is Err);
                assert(assign_all(sv, ms.skip(j as int), e) == (sv.scopes, Some(assign_default(sv, ms.skip(j as int)[0], e)->Err_0)));
                assert(mime_associations_store@ == sv);
                return Err(err);
            },
        }
        let ghost before = mime_views_of(output.mime_types@);
        output.mime_types.push(resolved[j].duplicate());
        assert(mime_views_of(output.mime_types@) =~= before.push(ms[j as int]));
        assert(ms.take(j + 1) =~= ms.take(j as int).push(ms[j as int]));
        assert(mime_associations_store@ == (AssocStoreView { scopes: mime_associations_store@.scopes, ..sv }));
        j = j + 1;
    }
    assert(ms.take(j as int) =~= ms);
    assert(ms.skip(j as int) =~= Seq::<Seq<char>>::empty());
    Ok(CommandOutput::SetDefault(output))
}

/// Removes the user's assignments of the mime types `mime_types` (see `reset_result_ok`).
pub fn reset_mime_types(mime_associations_store: &mut MimeTypeAssociationStore, mime_types: &Vec<String>) -> (r: Result<CommandOutput, MimeAssocError>)
    ensures
        reset_result_ok(r, old(mime_associations_store)@, final(mime_associations_store)@, views(mime_types@)),
{
    let resolved = match parse_mime_types(mime_types) {
        Ok(v) => v,
        Err(e) => {
            return Err(e);
        },
    };
    let ghost ms = mime_views_of(resolved@);
    let mut output = ResetDefaultHandlerCommandOutput { reset_mime_types: Vec::new() };
    let mut j: usize = 0;
    assert(ms.skip(0) =~= ms);
    while j < resolved.len()
        invariant
            j <= resolved@.len(),
            ms == mime_views_of(resolved@),
            mime_views_of(output.reset_mime_types@) == ms.take(j as int),
            mime_associations_store@.verify_app_is_valid == old(mime_associations_store)@.verify_app_is_valid,
            remove_all(old(mime_associations_store)@.scopes, ms) == remove_all(mime_associations_store@.scopes, ms.skip(j as int)),
        decreases resolved@.len() - j,
    {
        assert(ms.skip(j as int)[0] == resolved@[j as int]@);
        assert(ms.skip(j as int).drop_first() =~= ms.skip(j + 1));
        mime_associations_store.remove_assigned_applications_for(&resolved[j]);
        let ghost before = mime_views_of(output.reset_mime_types@);
        output.reset_mime_types.push(resolved[j].duplicate());
        assert(mime_views_of(output.reset_mime_types@) =~= before.push(ms[j as int]));
        assert(ms.take(j + 1) =~= ms.take(j as int).push(ms[j as int]));
        j = j + 1;
    }
    assert(ms.take(j as int) =~= ms);
    assert(ms.skip(j as int) =~= Seq::<Seq<char>>::empty());
    Ok(CommandOutput::Reset(output))
}

pub struct MimeTypeCommandArgs {
    pub id: Option<String>,
}

pub struct ApplicationCommandArgs {
    pub id: Option<String>,
}

pub struct SetCommandArgs {
    /// Make no changes on disk, only show what would be assigned.
    pub dry_run: bool,
    pub desktop_entry: String,
    pub mime_types: Vec<String>,
}

pub struct ResetCommandArgs {
    /// Make no changes on disk, only show what would be reset.
    pub dry_run: bool,
    pub mime_types: Vec<String>,
}

pub open spec fn opt_text(o: Option<String>) -> Option<Seq<char>> {
    match o {
        Some(s) => Some(s@),
        None => None,
    }
}

/// The commands of the tool.
pub enum Commands {
    /// All mime types the associations name.
    MimeTypes,
    /// The applications declaring a mime type (each of a wildcard's), and the one that opens it.
    MimeType(MimeTypeCommandArgs),
    /// All applications and the mime types they declare.
    Applications,
    /// One application and the mime types it declares.
    Application(ApplicationCommandArgs),
    /// Makes an application the default for mime types (all it declares, where none is given).
    SetDefault(SetCommandArgs),
    /// Resets mime types to the system's default applications.
    Reset(ResetCommandArgs),
    /// Where the associations and the desktop entries are read from.
    Configuration,
}

/// What running `c` on the stores gives: its result `r`, and the associations before and
/// after. Only `set` and `reset` change the associations.
pub open spec fn command_outcome(
    c: Commands,
    r: Result<CommandOutput, MimeAssocError>,
    before: AssocStoreView,
    after: AssocStoreView,
    entries: Seq<EntryScopeView>,
    infos: MimeInfoStoreView,
) -> bool {
    match c {
        Commands::MimeTypes => after == before
            && (r matches Ok(out) && (out matches CommandOutput::MimeTypes(v) && mime_types_ok(v@, before, infos))),
        Commands::MimeType(args) => after == before
            && mime_type_result_ok(r, opt_text(args.id), before, entries, infos),
        Commands::Applications => after == before
            && (r matches Ok(out) && (out matches CommandOutput::Applications(v) && applications_ok(v@, before, entries))),
        Commands::Application(args) => after == before
            && application_result_ok(r, opt_text(args.id), before, entries),
        Commands::SetDefault(args) => set_result_ok(r, before, after, entries, args.desktop_entry@, views(args.mime_types@)),
        Commands::Reset(args) => reset_result_ok(r, before, after, views(args.mime_types@)),
        Commands::Configuration => after == before
            && (r matches Ok(out) && (out matches CommandOutput::Configuration(o) && configuration_ok(o, before, entries))),
    }
}

impl Commands {
    /// Runs the command on the stores: what it reports, or why it was refused.
    pub fn process(
        &self,
        mime_associations_store: &mut MimeTypeAssociationStore,
        desktop_entry_store: &DesktopEntryStore,
        mime_info_store: &MimeTypeInfoStore,
    ) -> (r: Result<CommandOutput, MimeAssocError>)
        ensures
            command_outcome(*self, r, old(mime_associations_store)@, final(mime_associations_store)@, desktop_entry_store@, mime_info_store@),
    {
        match self {
            Commands::MimeTypes => Ok(get_mime_types(mime_associations_store, mime_info_store)),
            Commands::MimeType(args) => {
                let id = match &args.id {
                    Some(s) => Some(s.as_str()),
                    None => None,
                };
                get_mime_type(mime_associations_store, desktop_entry_store, mime_info_store, id)
            },
            Commands::Applications => Ok(get_applications(mime_associations_store, desktop_entry_store)),
            Commands::Application(args) => {
                let id = match &args.id {
                    Some(s) => Some(s.as_str()),
                    None => None,
                };
                get_application(mime_associations_store, desktop_entry_store, id)
            },
            Commands::SetDefault(args) => set_default_handler(mime_associations_store, desktop_entry_store, args.desktop_entry.as_str(), &args.mime_types),
            Commands::Reset(args) => reset_mime_types(mime_associations_store, &args.mime_types),
            Commands::Configuration => Ok(get_configuration(mime_associations_store, desktop_entry_store)),
        }
    }

    /// `true` when the command's changes are to be saved: a `set` or `reset` that is no dry run.
    pub fn persists_changes(&self) -> (r: bool)
        ensures
            r == match *self {
                Commands::SetDefault(args) => !args.dry_run,
                Commands::Reset(args) => !args.dry_run,
                _ => false,
            },
    {
        match self {
            Commands::SetDefault(args) => !args.dry_run,
            Commands::Reset(args) => !args.dry_run,
            _ => false,
        }
    }
}

/// The command line: whether output is shown as JSON, and the command to run, if any.
pub struct Cli {
    pub json: bool,
    pub command: Option<Commands>,
}

impl Cli {
    /// Runs the command, where one was given: what it reports, or why it was refused. Without
    /// a command nothing is run or changed.
    pub fn process(
        &self,
        mime_associations_store: &mut MimeTypeAssociationStore,
        desktop_entry_store: &DesktopEntryStore,
        mime_info_store: &MimeTypeInfoStore,
    ) -> (r: Result<Option<CommandOutput>, MimeAssocError>)
        ensures
            match self.command {
                None => r matches Ok(None) && final(mime_associations_store)@ == old(mime_associations_store)@,
                Some(c) => {
                    let before = old(mime_associations_store)@;
                    let after = final(mime_associations_store)@;
                    match r {
                        Ok(Some(out)) => command_outcome(c, Ok(out), before, after, desktop_entry_store@, mime_info_store@),
                        Ok(None) => false,
                        Err(e) => command_outcome(c, Err(e), before, after, desktop_entry_store@, mime_info_store@),
                    }
                },
            },
    {
        match &self.command {
            Some(command) => match command.process(mime_associations_store, desktop_entry_store, mime_info_store) {
                Ok(out) => Ok(Some(out)),
                Err(e) => Err(e),
            },
            None => Ok(None),
        }
    }
}

} // verus!
