//! What an editor of the associations shows for a mime type or an application: the rows of
//! its detail lists, and the choice of default handler, each a function of the stores.

use vstd::prelude::*;
use crate::association_store::{first_default, opt_id_view, MimeTypeAssociationStore, ScopeFilter};
use crate::desktop_entry::{spec_to_uppercase, to_uppercase, field_of, name_key, sort_name, valid_application, DesktopEntry, DesktopEntryId, DesktopEntryView};
use crate::desktop_entry_store::{effective_entries, entries_supporting, ref_views, scope_lookup, DesktopEntryStore, EntryScopeView};
use crate::listing::{applications_supporting_by_name, sorted_by_name};
use crate::mime_info::{extensions_of, info_lookup, opt_string_view, MimeTypeInfoStore, MimeTypeInfoView};
use crate::mime_type::MimeType;
use crate::strings::{assigned_by_system_text, only_handler_text, short_system_default_text, system_default_text, Strings};
use crate::text::{join, views};

verus! {

/// One row of a detail list: its title, the line beneath it, whether its check button is
/// active, and whether the user may change it.
pub struct DetailRow {
    pub title: String,
    pub subtitle: Option<String>,
    pub active: bool,
    pub sensitive: bool,
}

pub open spec fn unnamed_text() -> Seq<char> {
    seq!['<', 'U', 'n', 'n', 'a', 'm', 'e', 'd', ' ', 'A', 'p', 'p', 'l', 'i', 'c', 'a', 't', 'i', 'o', 'n', '>']
}

pub open spec fn none_text() -> Seq<char> {
    seq!['N', 'o', 'n', 'e']
}

/// The title of an application's row: its name, or `<Unnamed Application>`.
pub open spec fn entry_title(e: DesktopEntryView) -> Seq<char> {
    match field_of(e, name_key()) {
        Some(n) => n,
        None => unnamed_text(),
    }
}

/// `true` when `id` names an installed entry that appears a launchable application.
pub open spec fn installed_valid(entries: Seq<EntryScopeView>, id: Option<Seq<char>>) -> bool {
    match id {
        Some(i) => match scope_lookup(entries, i) {
            Some(x) => valid_application(x),
            None => false,
        },
        None => false,
    }
}

/// The application in effect for `m`.
pub open spec fn in_effect(assoc: crate::association_store::AssocStoreView, m: Seq<char>) -> Option<Seq<char>> {
    first_default(assoc.scopes, m, ScopeFilter::All)
}

/// The application the system's scopes assign to `m`.
pub open spec fn system_default(assoc: crate::association_store::AssocStoreView, m: Seq<char>) -> Option<Seq<char>> {
    first_default(assoc.scopes, m, ScopeFilter::System)
}

fn is_installed_valid(entries: &DesktopEntryStore, id: Option<&DesktopEntryId>) -> (r: bool)
    ensures
        r == installed_valid(entries@, opt_id_view(id)),
{
    match id {
        Some(i) => match entries.get_desktop_entry(i) {
            Some(e) => e.appears_valid_application(),
            None => false,
        },
        None => false,
    }
}

fn names_id(o: Option<&DesktopEntryId>, id: &DesktopEntryId) -> (r: bool)
    ensures
        r == (opt_id_view(o) == Some(id@)),
{
    match o {
        Some(d) => d.same_as(id),
        None => false,
    }
}

/// The title of an application's row.
fn title_of(e: &DesktopEntry) -> (r: String)
    ensures
        r@ == entry_title(e@),
{
    match e.name() {
        Some(n) => n.to_owned(),
        None => {
            let t = "<Unnamed Application>";
            proof {
                reveal_strlit("<Unnamed Application>");
                assert(t@ =~= unnamed_text());
            }
            t.to_owned()
        },
    }
}

/// A row of the applications that can open `mime_type`. For an application: active where it
/// is the application in effect, with a line beneath where the system assigns it. For the
/// "None" row (`entry` is `None`): active unless an installed, launchable application is in
/// effect, and open to change unless the system assigns such an application.
pub fn mime_type_detail_row(
    associations: &MimeTypeAssociationStore,
    entries: &DesktopEntryStore,
    mime_type: &MimeType,
    entry: Option<&DesktopEntry>,
) -> (r: DetailRow)
    ensures
        match entry {
            Some(e) => {
                &&& r.title@ == entry_title(e@)
                &&& opt_string_view(r.subtitle) == (if system_default(associations@, mime_type@) == Some(e@.id) {
                    Some(short_system_default_text() + mime_type@)
                } else {
                    None::<Seq<char>>
                })
                &&& r.active == (in_effect(associations@, mime_type@) == Some(e@.id))
                &&& r.sensitive
            },
            None => {
                &&& r.title@ == none_text()
                &&& r.subtitle is None
                &&& r.active == !installed_valid(entries@, in_effect(associations@, mime_type@))
                &&& r.sensitive == !installed_valid(entries@, system_default(associations@, mime_type@))
            },
        },
{
    match entry {
        Some(e) => {
            let is_system_default = names_id(associations.system_default_application_for(mime_type), e.id());
            let is_assigned = names_id(associations.default_application_for(mime_type), e.id());
            let subtitle = if is_system_default {
                Some(Strings::application_is_system_default_handler_for_mimetype_short(mime_type))
            } else {
                None
            };
            DetailRow { title: title_of(e), subtitle, active: is_assigned, sensitive: true }
        },
        None => {
            let assigned = is_installed_valid(entries, associations.default_application_for(mime_type));
            let can_assign_none = !is_installed_valid(entries, associations.system_default_application_for(mime_type));
            let title = Strings::assign_no_application_list_item().to_owned();
            DetailRow { title, subtitle: None, active: !assigned, sensitive: can_assign_none }
        },
    }
}

/// The note shown beneath the applications of `mime_type` when the only one of `supported`
/// is what the system assigns: it cannot be unassigned.
pub fn single_handler_info(associations: &MimeTypeAssociationStore, mime_type: &MimeType, supported: &Vec<&DesktopEntry>) -> (r: Option<String>)
    ensures
        r is Some <==> (supported@.len() == 1 && system_default(associations@, mime_type@) == Some(supported@[0]@.id)),
        r matches Some(t) ==> t@ == sort_name(supported@[0]@) + only_handler_text() + mime_type@ + assigned_by_system_text(),
{
    if supported.len() != 1 {
        return None;
    }
    if names_id(associations.system_default_application_for(mime_type), supported[0].id()) {
        Some(Strings::single_default_application_info_message(supported[0], mime_type))
    } else {
        None
    }
}

/// The choice of default handler for `mime_type`: the applications that declare it, ordered
/// by name, with the text each is shown by (its name, or its id); where the one in effect
/// stands among them; whether the choice is shown (some application declares the type) and
/// whether it may be changed (unless the only application is the one in effect).
pub struct HandlerChoices {
    pub ids: Vec<DesktopEntryId>,
    pub labels: Vec<String>,
    pub assigned: Option<usize>,
    pub visible: bool,
    pub sensitive: bool,
}

/// The entries in effect that declare `m`, ordered by name (see `sorted_by_name`; as there is
/// one such order, it is what `applications_supporting_by_name` gives).
pub open spec fn supporting_by_name(entries: Seq<EntryScopeView>, m: Seq<char>) -> Seq<DesktopEntryView> {
    choose|s: Seq<DesktopEntryView>| sorted_by_name(s)
        && forall|e: DesktopEntryView| s.contains(e) <==> entries_supporting(effective_entries(entries), m).contains(e)
}

pub open spec fn id_views_of(v: Seq<DesktopEntryId>) -> Seq<Seq<char>> {
    v.map_values(|d: DesktopEntryId| d@)
}

/// The choices of default handler for `mime_type`.
pub fn default_handler_choices(associations: &MimeTypeAssociationStore, entries: &DesktopEntryStore, mime_type: &MimeType) -> (r: HandlerChoices)
    ensures
        ({
            let apps = supporting_by_name(entries@, mime_type@);
            &&& id_views_of(r.ids@) == apps.map_values(|e: DesktopEntryView| e.id)
            &&& views(r.labels@) == apps.map_values(|e: DesktopEntryView| sort_name(e))
            &&& match r.assigned {
                Some(i) => i < apps.len() && in_effect(associations@, mime_type@) == Some(apps[i as int].id),
                None => forall|i: int| 0 <= i < apps.len() ==> in_effect(associations@, mime_type@) != Some(#[trigger] apps[i].id),
            }
            &&& r.visible == (apps.len() > 0)
            &&& r.sensitive == !(apps.len() == 1 && r.assigned is Some)
        }),
{
    let apps = applications_supporting_by_name(entries, mime_type);
    let ghost av = ref_views(apps@);
    proof {
        let c = supporting_by_name(entries@, mime_type@);
        crate::listing::lemma_sorted_by_name_unique(av, c);
    }
    let in_effect_id = associations.default_application_for(mime_type);
    let mut ids: Vec<DesktopEntryId> = Vec::new();
    let mut labels: Vec<String> = Vec::new();
    let mut assigned: Option<usize> = None;
    let mut i: usize = 0;
    while i < apps.len()
        invariant
            i <= apps@.len(),
            av == ref_views(apps@),
            opt_id_view(in_effect_id) == in_effect(associations@, mime_type@),
            id_views_of(ids@) == av.take(i as int).map_values(|e: DesktopEntryView| e.id),
            views(labels@) == av.take(i as int).map_values(|e: DesktopEntryView| sort_name(e)),
            match assigned {
                Some(k) => k < i && in_effect(associations@, mime_type@) == Some(av[k as int].id),
                None => forall|k: int| 0 <= k < i ==> in_effect(associations@, mime_type@) != Some(#[trigger] av[k].id),
            },
        decreases apps@.len() - i,
    {
        let e = apps[i];
        assert(av[i as int] == e@);
        if names_id(in_effect_id, e.id()) {
            assigned = Some(i);
        }
        let ghost old_ids = id_views_of(ids@);
        let ghost old_labels = views(labels@);
        let d = e.id().duplicate();
        let label = e.sort_name().to_owned();
        assert(d@ == e@.id);
        assert(label@ == sort_name(e@));
        ids.push(d);
        labels.push(label);
        assert(id_views_of(ids@) =~= old_ids.push(e@.id));
        assert(views(labels@) =~= old_labels.push(sort_name(e@)));
        assert(av.take(i + 1) =~= av.take(i as int).push(e@));
        assert(id_views_of(ids@) =~= av.take(i + 1).map_values(|e: DesktopEntryView| e.id));
        assert(views(labels@) =~= av.take(i + 1).map_values(|e: DesktopEntryView| sort_name(e)));
        i = i + 1;
    }
    assert(av.take(i as int) =~= av);
    let n = apps.len();
    let has_assigned = assigned.is_some();
    HandlerChoices { ids, labels, assigned, visible: n > 0, sensitive: !(n == 1 && has_assigned) }
}

/// A row of the mime types an application declares: titled by the mime type, active where the
/// application is in effect for it, with a line beneath where the system assigns it, and
/// closed to change where the system assigns it and it is in effect.
pub fn application_detail_row(associations: &MimeTypeAssociationStore, entry: &DesktopEntry, mime_type: &MimeType) -> (r: DetailRow)
    ensures
        r.title@ == mime_type@,
        r.active == (in_effect(associations@, mime_type@) == Some(entry@.id)),
        r.sensitive == !(system_default(associations@, mime_type@) == Some(entry@.id) && r.active),
        opt_string_view(r.subtitle) == (if system_default(associations@, mime_type@) == Some(entry@.id) {
            Some(sort_name(entry@) + system_default_text() + mime_type@)
        } else {
            None::<Seq<char>>
        }),
{
    let is_system_default = names_id(associations.system_default_application_for(mime_type), entry.id());
    let is_assigned = names_id(associations.default_application_for(mime_type), entry.id());
    let subtitle = if is_system_default {
        Some(Strings::application_is_system_default_handler_for_mimetype_long(entry, mime_type))
    } else {
        None
    };
    DetailRow {
        title: mime_type.id().to_owned(),
        subtitle,
        active: is_assigned,
        sensitive: !(is_system_default && is_assigned),
    }
}

/// The line shown beneath a mime type: its description (empty where it has none), then `: `
/// and its file name extensions joined with `, ` and upper cased, where it has any.
pub open spec fn info_label_text(info: MimeTypeInfoView) -> Seq<char> {
    let ext = spec_to_uppercase(join(extensions_of(info.glob_patterns), seq![',', ' ']));
    let comment = match info.comment {
        Some(c) => c,
        None => Seq::<char>::empty(),
    };
    if ext.len() == 0 {
        comment
    } else {
        comment + seq![':', ' '] + ext
    }
}

/// `v` joined with `, `.
fn join_with_commas(v: &Vec<String>) -> (r: String)
    ensures
        r@ == join(views(v@), seq![',', ' ']),
{
    let sep = ", ";
    proof {
        reveal_strlit(", ");
        assert(sep@ =~= seq![',', ' ']);
    }
    let ghost vs = views(v@);
    if v.len() == 0 {
        assert(vs =~= Seq::<Seq<char>>::empty());
        return String::new();
    }
    let mut joined = v[0].clone();
    let mut j: usize = 1;
    assert(vs.take(1) =~= seq![vs[0]]);
    while j < v.len()
        invariant
            1 <= j <= v@.len(),
            vs == views(v@),
            sep@ == seq![',', ' '],
            joined@ == join(vs.take(j as int), seq![',', ' ']),
        decreases v@.len() - j,
    {
        joined.append(sep);
        joined.append(v[j].as_str());
        assert(vs.take(j + 1).drop_last() =~= vs.take(j as int));
        assert(vs.take(j + 1).last() == vs[j as int]);
        j = j + 1;
    }
    assert(vs.take(j as int) =~= vs);
    joined
}

/// The line shown beneath `mime_type` in the list of mime types (see `info_label_text`);
/// `None`, and no line, where the database knows nothing of the type.
pub fn mime_type_info_label(mime_info_store: &MimeTypeInfoStore, mime_type: &MimeType) -> (r: Option<String>)
    ensures
        match info_lookup(mime_info_store@, mime_type@) {
            None => r is None,
            Some(info) => r matches Some(t) && t@ == info_label_text(info),
        },
{
    match mime_info_store.get_info_for_mime_type(mime_type) {
        None => None,
        Some(info) => {
            let joined = join_with_commas(&info.extensions());
            let ext = to_uppercase(joined.as_str());
            let comment = match info.comment() {
                Some(c) => c.to_owned(),
                None => String::new(),
            };
            if ext.unicode_len() == 0 {
                Some(comment)
            } else {
                let sep = ": ";
                proof {
                    reveal_strlit(": ");
                    assert(sep@ =~= seq![':', ' ']);
                }
                let mut t = comment;
                t.append(sep);
                t.append(ext.as_str());
                Some(t)
            }
        },
    }
}

} // verus!
