use mimeassoc::association_store::MimeTypeAssociationStore;
use mimeassoc::desktop_entry::{DesktopEntry, DesktopEntryId};
use mimeassoc::desktop_entry_store::{DesktopEntryScope, DesktopEntryStore};
use mimeassoc::mime_type_association_store::MimeTypeAssociationScope;
use mimeassoc::{MimeAssocError, MimeType};

fn lines(text: &str) -> Vec<String> {
    text.lines().map(String::from).collect()
}

fn entry(path: &str, text: &str) -> DesktopEntry {
    let mut e = DesktopEntry::load(path, &lines(text)).unwrap();
    e.set_executable_resolves(true);
    e
}

const USER_LIST: &str = "test-data/config/mimeapps.list";
const USER_DEFAULTS_LIST: &str = "test-data/config/defaults.list";
const GNOME_LIST: &str = "test-data/usr/share/applications/gnome-mimeapps.list";
const SYS_LIST: &str = "test-data/usr/share/applications/mimeapps.list";

const USER_LIST_TEXT: &str = "# the user's own assignments
[Added Associations]
image/png=org.gimp.GIMP.desktop;
text/html=org.mozilla.firefox.desktop;google-chrome.desktop;
x-scheme-handler/https=org.mozilla.firefox.desktop;google-chrome.desktop;

[Default Applications]
text/html=org.mozilla.firefox.desktop
image/bmp=photopea.desktop
image/png=org.gimp.GIMP.desktop
image/pdf=org.gnome.Evince.desktop
";

const USER_DEFAULTS_TEXT: &str = "[Default Applications]
x-scheme-handler/jetbrains=jetbrains-toolbox.desktop
x-scheme-handler/fleet=jetbrains-fleet.desktop
";

const GNOME_LIST_TEXT: &str = "[Default Applications]
text/plain=org.gnome.TextEditor.desktop
image/bmp=org.gnome.eog.desktop
";

const SYS_LIST_TEXT: &str = "[Default Applications]
audio/m4a=org.gnome.Totem.desktop
image/tiff=org.gnome.Evince.desktop
text/plain=org.gnome.gedit.desktop
";

fn scope(path: &str, user: bool, text: &str) -> MimeTypeAssociationScope {
    MimeTypeAssociationScope::load(path, user, &lines(text)).unwrap()
}

fn user_scope() -> MimeTypeAssociationScope {
    scope(USER_LIST, true, USER_LIST_TEXT)
}

/// The scopes with the first two user editable, the others not.
fn test_scopes() -> Vec<MimeTypeAssociationScope> {
    vec![
        user_scope(),
        scope(USER_DEFAULTS_LIST, true, USER_DEFAULTS_TEXT),
        scope(GNOME_LIST, false, GNOME_LIST_TEXT),
        scope(SYS_LIST, false, SYS_LIST_TEXT),
    ]
}

/// The store over `test_scopes`, not checking that assigned applications are launchable.
fn create_test_associations() -> MimeTypeAssociationStore {
    let mut associations = MimeTypeAssociationStore::load(test_scopes());
    associations.set_verify_app_is_valid(false);
    associations
}

fn user_applications() -> DesktopEntryScope {
    DesktopEntryScope::load(
        "test-data/local/share/applications",
        vec![entry(
            "test-data/local/share/applications/photopea.desktop",
            "[Desktop Entry]\nName=Photopea\nExec=photopea %U\nType=Application\nIcon=application-x-executable\nMimeType=image/bmp;image/jpeg;image/png;image/tiff;\n",
        )],
    )
}

fn sys_applications() -> DesktopEntryScope {
    DesktopEntryScope::load(
        "test-data/usr/share/applications",
        vec![
            entry(
                "test-data/usr/share/applications/org.gnome.Evince.desktop",
                "[Desktop Entry]\nName=Document Viewer\nExec=evince %U\nType=Application\nIcon=application-x-executable\nMimeType=application/pdf;image/tiff;image/pdf;\n",
            ),
            entry(
                "test-data/usr/share/applications/org.gnome.eog.desktop",
                "[Desktop Entry]\nName=Image Viewer\nExec=eog %U\nType=Application\nIcon=application-x-executable\nMimeType=image/bmp;image/png;image/jpeg;\n",
            ),
            entry(
                "test-data/usr/share/applications/org.gnome.TextEditor.desktop",
                "[Desktop Entry]\nName=Text Editor\nExec=gnome-text-editor %U\nType=Application\nIcon=application-x-executable\nMimeType=text/plain;\n",
            ),
            entry(
                "test-data/usr/share/applications/org.gnome.Totem.desktop",
                "[Desktop Entry]\nName=Videos\nExec=totem %U\nType=Application\nIcon=application-x-executable\nMimeType=audio/m4a;video/mp4;\n",
            ),
        ],
    )
}

fn create_test_entries_and_associations() -> (DesktopEntryStore, MimeTypeAssociationStore) {
    (DesktopEntryStore::load(vec![user_applications(), sys_applications()]), create_test_associations())
}

fn id(s: &str) -> DesktopEntryId {
    DesktopEntryId::parse(s).unwrap()
}

fn mime(s: &str) -> MimeType {
    MimeType::parse(s).unwrap()
}

fn loads_lists() {
    assert!(MimeTypeAssociationScope::load(SYS_LIST, false, &lines(SYS_LIST_TEXT)).is_ok());
    assert!(MimeTypeAssociationScope::load(GNOME_LIST, false, &lines(GNOME_LIST_TEXT)).is_ok());
    assert!(MimeTypeAssociationScope::load(USER_LIST, true, &lines(USER_LIST_TEXT)).is_ok());
}

#[test]
fn mime_type_association_store_mime_associations_load() {
    loads_lists();
}

fn loads_expected_data() -> Result<(), MimeAssocError> {
    let associations = user_scope();
    let png = MimeType::parse("image/png")?;
    let gimp = DesktopEntryId::parse("org.gimp.GIMP.desktop")?;
    assert_eq!(associations.added_associations(&png), Some(&vec![gimp]));
    Ok(())
}

#[test]
fn mime_type_association_store_mime_associations_load_expected_data() -> Result<(), MimeAssocError> {
    loads_expected_data()
}

fn line_parser() -> Result<(), MimeAssocError> {
    let baz_desktop = DesktopEntryId::parse("baz.desktop")?;
    let qux_desktop = DesktopEntryId::parse("qux.desktop")?;
    let zim_desktop = DesktopEntryId::parse("zim.desktop")?;

    // single value with trailing semicolon
    let result = MimeTypeAssociationScope::parse_line("foo/bar=baz.desktop;")?;
    assert_eq!(result.0, MimeType::parse("foo/bar")?);
    assert_eq!(result.1, vec![baz_desktop.clone()]);

    // whitespace
    let result = MimeTypeAssociationScope::parse_line("   foo/bar=baz.desktop\n  ")?;
    assert_eq!(result.0, MimeType::parse("foo/bar")?);
    assert_eq!(result.1, vec![baz_desktop.clone()]);

    // multiple values
    let result = MimeTypeAssociationScope::parse_line("foo/bar=baz.desktop;qux.desktop;zim.desktop;")?;
    assert_eq!(result.0, MimeType::parse("foo/bar")?);
    assert_eq!(result.1, vec![baz_desktop, qux_desktop, zim_desktop]);

    assert!(MimeTypeAssociationScope::parse_line("foo/bar=baz").is_err());
    assert!(MimeTypeAssociationScope::parse_line("foobar=baz.desktop;").is_err());
    Ok(())
}

#[test]
fn mime_type_association_store_mime_associations_line_parser() -> Result<(), MimeAssocError> {
    line_parser()
}

#[test]
fn association_line_errors_name_what_is_wrong() {
    assert!(matches!(
        MimeTypeAssociationScope::parse_line("foo/bar=baz"),
        Err(MimeAssocError::InvalidDesktopEntryId(t)) if t == "baz"
    ));
    assert!(matches!(
        MimeTypeAssociationScope::parse_line("foobar=baz.desktop;"),
        Err(MimeAssocError::InvalidMimeType(t)) if t == "foobar"
    ));
    assert!(matches!(
        MimeTypeAssociationScope::parse_line("a/b=c.desktop=d.desktop"),
        Err(MimeAssocError::MalformedAssociationLine(t)) if t == "a/b=c.desktop=d.desktop"
    ));
}

#[test]
fn scope_load_rejects_malformed_and_empty_lines() {
    let malformed = MimeTypeAssociationScope::load("x", true, &lines("[Default Applications]\nnot an association\n"));
    assert!(matches!(malformed, Err(MimeAssocError::MalformedAssociationLine(t)) if t == "not an association"));
    let empty = MimeTypeAssociationScope::load("x", true, &lines("[Default Applications]\na/b=;\n"));
    assert!(matches!(empty, Err(MimeAssocError::EmptyDefaultApplicationLine(t)) if t == "a/b=;"));
    // lines before any section are ignored, as are comments
    let lenient = MimeTypeAssociationScope::load("x", true, &lines("junk before\n[Default Applications]\n# comment\na/b=c.desktop\n"));
    assert!(lenient.is_ok());
}

#[test]
fn mime_type_association_store_mime_assocations_loads() {
    let _ = create_test_associations();
}

fn prefers_user_default(associations: &MimeTypeAssociationStore) -> Result<(), MimeAssocError> {
    let html = MimeType::parse("text/html")?;
    let firefox_id = DesktopEntryId::parse("org.mozilla.firefox.desktop")?;
    assert_eq!(associations.default_application_for(&html), Some(&firefox_id));
    Ok(())
}

#[test]
fn assigned_application_prefers_user_default_application_over_system_associations() -> Result<(), MimeAssocError> {
    prefers_user_default(&create_test_associations())
}

#[test]
fn default_application_skips_user_associations() -> Result<(), MimeAssocError> {
    let associations = create_test_associations();
    let image_bmp = MimeType::parse("image/bmp")?;
    let eog_id = DesktopEntryId::parse("org.gnome.eog.desktop")?;
    assert_eq!(associations.system_default_application_for(&image_bmp), Some(&eog_id));
    let photopea_id = DesktopEntryId::parse("photopea.desktop")?;
    assert_eq!(associations.user_default_application_for(&image_bmp), Some(&photopea_id));
    Ok(())
}

#[test]
fn reload_works() -> Result<(), MimeAssocError> {
    let (entries, mut associations) = create_test_entries_and_associations();

    let photopea_id = DesktopEntryId::parse("photopea.desktop")?;
    let photopea = entries.get_desktop_entry(&photopea_id).unwrap();
    let evince_id = DesktopEntryId::parse("org.gnome.Evince.desktop")?;
    let image_tiff = MimeType::parse("image/tiff")?;

    assert_eq!(associations.default_application_for(&image_tiff), Some(&evince_id));

    associations.set_default_handler_for_mime_type(&image_tiff, photopea)?;
    assert_eq!(associations.default_application_for(&image_tiff), Some(&photopea_id));

    // reload - after this, Evince should be the handler again
    associations.reload(test_scopes())?;
    assert_eq!(associations.default_application_for(&image_tiff), Some(&evince_id));
    assert!(!associations.is_dirty());

    assert_eq!(associations.reload(vec![user_scope()]), Err(MimeAssocError::ScopeCountMismatch));
    Ok(())
}

#[test]
fn remove_assigned_application_works() -> Result<(), MimeAssocError> {
    let mut associations = create_test_associations();
    let image_bmp = MimeType::parse("image/bmp")?;
    let eog_id = DesktopEntryId::parse("org.gnome.eog.desktop")?;
    let photopea_id = DesktopEntryId::parse("photopea.desktop")?;

    assert_eq!(associations.default_application_for(&image_bmp), Some(&photopea_id));
    associations.remove_assigned_applications_for(&image_bmp);
    assert_eq!(associations.default_application_for(&image_bmp), Some(&eog_id));
    Ok(())
}

#[test]
fn remove_all_assigned_applications_works() {
    let mut associations = create_test_associations();
    assert!(!associations.scopes()[0].has_no_default_applications());
    associations.clear_assigned_applications();
    assert!(associations.scopes()[0].has_no_default_applications());
    assert!(associations.scopes()[0].is_dirty());
}

#[test]
fn non_mutating_assignment_doesnt_dirty_store() -> Result<(), MimeAssocError> {
    let (desktop_entry_store, mut associations) = create_test_entries_and_associations();
    let image_bmp = MimeType::parse("image/bmp")?;
    let photopea_id = DesktopEntryId::parse("photopea.desktop")?;

    assert_eq!(associations.default_application_for(&image_bmp), Some(&photopea_id));

    let photopea = desktop_entry_store.get_desktop_entry(&photopea_id).unwrap();
    associations.set_default_handler_for_mime_type(&image_bmp, photopea)?;
    assert!(!associations.is_dirty());
    Ok(())
}

#[test]
fn removing_assignment_dirties_store() -> Result<(), MimeAssocError> {
    let (_desktop_entry_store, mut associations) = create_test_entries_and_associations();
    let image_bmp = MimeType::parse("image/bmp")?;
    assert!(associations.remove_assigned_applications_for(&image_bmp));
    assert!(associations.is_dirty());
    Ok(())
}

#[test]
fn mutating_assignment_dirties_store() -> Result<(), MimeAssocError> {
    let (desktop_entry_store, mut associations) = create_test_entries_and_associations();
    let image_bmp = MimeType::parse("image/bmp")?;
    let eog_id = DesktopEntryId::parse("org.gnome.eog.desktop")?;
    let eog = desktop_entry_store.get_desktop_entry(&eog_id).unwrap();
    associations.set_default_handler_for_mime_type(&image_bmp, eog)?;
    assert!(associations.is_dirty());
    Ok(())
}

#[test]
fn prune_orphaned_application_assignments_workd() {
    let mut scopes = test_scopes();
    let fake_pdf_assignment = (
        MimeType::parse("application/pdf").unwrap(),
        DesktopEntryId::parse("org.adobe.not-actually-acrobat.desktop").unwrap(),
    );
    let fake_psd_assignment = (
        MimeType::parse("application/psd").unwrap(),
        DesktopEntryId::parse("org.adobe.not-actually-photoshop.desktop").unwrap(),
    );
    scopes[0].set_default_application(fake_pdf_assignment.0.clone(), fake_pdf_assignment.1.clone());
    scopes[0].set_default_application(fake_psd_assignment.0.clone(), fake_psd_assignment.1.clone());
    let mut associations = MimeTypeAssociationStore::load(scopes);
    associations.set_verify_app_is_valid(false);

    let desktop_entry_store = DesktopEntryStore::load(vec![user_applications(), sys_applications()]);
    let result = associations.prune_orphaned_application_assignments(&desktop_entry_store);

    assert!(result.contains(&fake_pdf_assignment.1), "Expect result to contain our fake pdf app");
    assert!(result.contains(&fake_psd_assignment.1), "Expect result to contain our fake psd app");
    // installed applications stay assigned
    assert_eq!(associations.default_application_for(&mime("image/bmp")), Some(&id("photopea.desktop")));
    assert_eq!(associations.user_default_application_for(&fake_pdf_assignment.0), None);
}

#[test]
fn remove_assigned_application_works_with_wildcard_mimetypes() -> Result<(), MimeAssocError> {
    let mut associations = create_test_associations();
    let image_bmp = MimeType::parse("image/bmp")?;
    let image_png = MimeType::parse("image/png")?;
    let image_pdf = MimeType::parse("image/pdf")?;
    let image_star = MimeType::parse("image/*")?;

    assert_eq!(associations.default_application_for(&image_bmp).unwrap().id(), "photopea.desktop");
    assert_eq!(associations.default_application_for(&image_png).unwrap().id(), "org.gimp.GIMP.desktop");
    assert_eq!(associations.default_application_for(&image_pdf).unwrap().id(), "org.gnome.Evince.desktop");

    associations.remove_assigned_applications_for(&image_star);

    for user_scope in associations.scopes().iter().filter(|s| s.is_user_customizable()) {
        assert!(user_scope.default_application(&image_bmp).is_none());
        assert!(user_scope.default_application(&image_png).is_none());
        assert!(user_scope.default_application(&image_pdf).is_none());
    }
    Ok(())
}

#[test]
fn removing_assignment_from_higher_scopes_works() -> Result<(), MimeAssocError> {
    let mut associations = create_test_associations();

    let x_scheme_handler_jetbrains = MimeType::parse("x-scheme-handler/jetbrains")?;
    let x_scheme_handler_fleet = MimeType::parse("x-scheme-handler/fleet")?;
    assert_eq!(associations.default_application_for(&x_scheme_handler_jetbrains).unwrap().id(), "jetbrains-toolbox.desktop");
    assert_eq!(associations.default_application_for(&x_scheme_handler_fleet).unwrap().id(), "jetbrains-fleet.desktop");

    assert_eq!(associations.scopes()[1].default_application(&x_scheme_handler_jetbrains).unwrap().id(), "jetbrains-toolbox.desktop");
    assert_eq!(associations.scopes()[1].default_application(&x_scheme_handler_fleet).unwrap().id(), "jetbrains-fleet.desktop");

    assert!(associations.remove_assigned_applications_for(&x_scheme_handler_jetbrains));
    assert!(associations.remove_assigned_applications_for(&x_scheme_handler_fleet));

    assert!(associations.default_application_for(&x_scheme_handler_jetbrains).is_none());
    assert!(associations.default_application_for(&x_scheme_handler_fleet).is_none());

    assert!(associations.scopes()[1].default_application(&x_scheme_handler_jetbrains).is_none());
    assert!(associations.scopes()[1].default_application(&x_scheme_handler_fleet).is_none());
    Ok(())
}

#[test]
fn mimeassocations_wildcard_lookup_works() -> Result<(), MimeAssocError> {
    let associations = create_test_associations();
    let image_star = MimeType::parse("image/*")?;
    let image_bmp = MimeType::parse("image/bmp")?;
    let image_png = MimeType::parse("image/png")?;

    let results = associations.find_matching_mimetypes(&image_star);
    assert!(results.len() > 0);
    assert!(results.contains(&&image_bmp));
    assert!(results.contains(&&image_png));

    let non_wildcard_results = associations.find_matching_mimetypes(&image_bmp);
    assert!(non_wildcard_results.len() == 1);
    assert!(non_wildcard_results.contains(&&image_bmp));
    Ok(())
}

#[test]
fn mime_types_are_each_named_once_in_order() {
    let associations = create_test_associations();
    let all: Vec<&str> = associations.mime_types().iter().map(|m| m.id()).collect();
    assert_eq!(
        all,
        vec![
            "audio/m4a",
            "image/bmp",
            "image/pdf",
            "image/png",
            "image/tiff",
            "text/html",
            "text/plain",
            "x-scheme-handler/fleet",
            "x-scheme-handler/https",
            "x-scheme-handler/jetbrains",
        ]
    );
    let images: Vec<&str> = associations.find_matching_mimetypes(&mime("image/*")).iter().map(|m| m.id()).collect();
    assert_eq!(images, vec!["image/bmp", "image/pdf", "image/png", "image/tiff"]);
    assert!(associations.find_matching_mimetypes(&mime("video/mp4")).is_empty());
}

#[test]
fn assigning_system_default_application_for_mimetype_is_equivalent_to_deleting_from_user_scope() -> Result<(), MimeAssocError> {
    let (entries, mut associations) = create_test_entries_and_associations();

    let image_bmp = MimeType::parse("image/bmp")?;
    let eog_id = DesktopEntryId::parse("org.gnome.eog.desktop")?;
    let eog = entries.get_desktop_entry(&eog_id).unwrap();
    let photopea_id = DesktopEntryId::parse("photopea.desktop")?;

    assert_eq!(associations.default_application_for(&image_bmp), Some(&photopea_id));
    associations.set_default_handler_for_mime_type(&image_bmp, eog)?;
    assert_eq!(associations.default_application_for(&image_bmp), Some(&eog_id));

    for user_scope in associations.scopes().iter().filter(|s| s.is_user_customizable()) {
        assert!(user_scope.default_application(&image_bmp).is_none());
    }
    Ok(())
}

fn expected_added_associations(associations: &MimeTypeAssociationStore) -> Result<(), MimeAssocError> {
    let html = MimeType::parse("text/html")?;
    let firefox = DesktopEntryId::parse("org.mozilla.firefox.desktop")?;
    let chrome = DesktopEntryId::parse("google-chrome.desktop")?;
    let result = associations.added_associations_for(&html);
    assert_eq!(result, vec![firefox, chrome]);
    Ok(())
}

#[test]
fn mime_type_association_store_mime_assocations_loads_expected_added_associations() -> Result<(), MimeAssocError> {
    expected_added_associations(&create_test_associations())
}

#[test]
fn mime_type_association_store_added_associations_line_roundtrip_works() -> Result<(), MimeAssocError> {
    let input = "image/png=org.gimp.GIMP.desktop";
    let (mime_type, desktop_entries) = MimeTypeAssociationScope::parse_line(input)?;
    let output = MimeTypeAssociationScope::generate_added_associations_line(&mime_type, &desktop_entries);
    assert_eq!(input, &output);

    let input = "x-scheme-handler/https=org.mozilla.firefox.desktop;google-chrome.desktop";
    let (mime_type, desktop_entries) = MimeTypeAssociationScope::parse_line(input)?;
    let output = MimeTypeAssociationScope::generate_added_associations_line(&mime_type, &desktop_entries);
    assert_eq!(input, &output);
    Ok(())
}

fn default_line_roundtrip() -> Result<(), MimeAssocError> {
    let input = "text/html=org.mozilla.firefox.desktop";
    let (mime_type, desktop_entries) = MimeTypeAssociationScope::parse_line(input)?;
    let output = MimeTypeAssociationScope::generate_default_application_line(&mime_type, &desktop_entries[0]);
    assert_eq!(input, &output);
    Ok(())
}

#[test]
fn mime_type_association_store_default_applications_line_roundtrip_works() -> Result<(), MimeAssocError> {
    default_line_roundtrip()
}

#[test]
fn written_scope_reads_back() {
    let input = user_scope();
    let written = input.write();
    let copy = MimeTypeAssociationScope::load("copy", true, &written).unwrap();
    for m in ["image/png", "text/html", "x-scheme-handler/https", "image/bmp", "image/pdf", "image/tiff"] {
        let m = mime(m);
        assert_eq!(input.added_associations(&m), copy.added_associations(&m));
        assert_eq!(input.default_application(&m), copy.default_application(&m));
    }
    assert_eq!(copy.write(), written);
}

#[test]
fn written_scope_reads_back_without_empty_added_lists() {
    let text = "[Added Associations]\nimage/png= a.desktop ; b.desktop ;\ntext/plain=;\n\n[Default Applications]\n text/html = c.desktop\n";
    let input = scope("in", true, text);
    let written = input.write();
    assert_eq!(
        written,
        vec![
            "[Added Associations]",
            "image/png=a.desktop;b.desktop;",
            "",
            "[Default Applications]",
            "text/html=c.desktop",
        ]
    );
    let copy = MimeTypeAssociationScope::load("copy", true, &written).unwrap();
    assert_eq!(copy.added_associations(&mime("image/png")), input.added_associations(&mime("image/png")));
    assert_eq!(copy.added_associations(&mime("text/plain")), None);
    assert_eq!(input.added_associations(&mime("text/plain")), Some(&vec![]));
    assert_eq!(copy.default_application(&mime("text/html")), Some(&id("c.desktop")));
}

#[test]
fn written_scope_lines_are_sorted_sections() {
    let written = user_scope().write();
    assert_eq!(
        written,
        vec![
            "[Added Associations]",
            "image/png=org.gimp.GIMP.desktop;",
            "text/html=org.mozilla.firefox.desktop;google-chrome.desktop;",
            "x-scheme-handler/https=org.mozilla.firefox.desktop;google-chrome.desktop;",
            "",
            "[Default Applications]",
            "image/bmp=photopea.desktop",
            "image/pdf=org.gnome.Evince.desktop",
            "image/png=org.gimp.GIMP.desktop",
            "text/html=org.mozilla.firefox.desktop",
        ]
    );
}

#[test]
fn saving_needs_a_user_scope() {
    let system = scope(SYS_LIST, false, SYS_LIST_TEXT);
    assert_eq!(system.save(), Err(MimeAssocError::ScopeNotUserCustomizable(SYS_LIST.to_string())));
    let mut associations = create_test_associations();
    assert!(associations.save().is_empty());
    associations.remove_assigned_applications_for(&mime("image/bmp"));
    let writes = associations.save();
    assert_eq!(writes.len(), 1);
    assert_eq!(writes[0].0, 0);
    assert_eq!(writes[0].1, USER_LIST);
    assert!(!writes[0].2.contains(&"image/bmp=photopea.desktop".to_string()));
    associations.mark_saved(0);
    assert!(!associations.is_dirty());
}

fn make_default_handler_works() -> Result<(), MimeAssocError> {
    let (entries, mut associations) = create_test_entries_and_associations();

    let photopea_id = DesktopEntryId::parse("photopea.desktop")?;
    let photopea = entries.get_desktop_entry(&photopea_id).unwrap();
    let evince_id = DesktopEntryId::parse("org.gnome.Evince.desktop")?;
    let image_tiff = MimeType::parse("image/tiff")?;

    assert_eq!(associations.default_application_for(&image_tiff), Some(&evince_id));
    associations.set_default_handler_for_mime_type(&image_tiff, photopea)?;
    assert_eq!(associations.default_application_for(&image_tiff), Some(&photopea_id));
    Ok(())
}

#[test]
fn mime_type_association_store_make_default_handler_works_for_valid_usecases() -> Result<(), MimeAssocError> {
    make_default_handler_works()
}

fn make_default_handler_unsupported() -> Result<(), MimeAssocError> {
    let (entries, mut associations) = create_test_entries_and_associations();
    let photopea_id = DesktopEntryId::parse("photopea.desktop")?;
    let photopea = entries.get_desktop_entry(&photopea_id).unwrap();
    let inode_directory = MimeType::parse("inode/directory")?;
    assert!(associations.set_default_handler_for_mime_type(&inode_directory, photopea).is_err());
    assert_eq!(
        associations.set_default_handler_for_mime_type(&inode_directory, photopea),
        Err(MimeAssocError::UnsupportedMimeType("photopea.desktop".to_string(), "inode/directory".to_string()))
    );
    Ok(())
}

#[test]
fn mime_type_association_store_make_default_handler_errors_for_unsupported_mimetypes() -> Result<(), MimeAssocError> {
    make_default_handler_unsupported()
}

fn make_default_handler_without_user_scope() -> Result<(), MimeAssocError> {
    let entries = DesktopEntryStore::load(vec![user_applications(), sys_applications()]);
    let mut scopes = test_scopes();
    scopes[0].set_user_customizable(false);
    scopes[1].set_user_customizable(false);
    let mut associations = MimeTypeAssociationStore::load(scopes);
    associations.set_verify_app_is_valid(false);

    let photopea_id = DesktopEntryId::parse("photopea.desktop")?;
    let photopea = entries.get_desktop_entry(&photopea_id).unwrap();
    let image_tiff = MimeType::parse("image/tiff")?;
    assert!(associations.set_default_handler_for_mime_type(&image_tiff, photopea).is_err());
    assert_eq!(associations.set_default_handler_for_mime_type(&image_tiff, photopea), Err(MimeAssocError::NoUserScope));
    Ok(())
}

#[test]
fn mime_type_association_store_make_default_handler_errors_without_writeable_scope() -> Result<(), MimeAssocError> {
    make_default_handler_without_user_scope()
}

#[test]
fn assignment_checks_launchability_when_asked() {
    let mut photopea = DesktopEntry::load(
        "x/photopea.desktop",
        &lines("[Desktop Entry]\nName=Photopea\nExec=photopea %U\nType=Application\nIcon=application-x-executable\nMimeType=image/tiff;\n"),
    )
    .unwrap();
    let mut associations = MimeTypeAssociationStore::load(test_scopes());
    let image_tiff = mime("image/tiff");
    assert_eq!(
        associations.set_default_handler_for_mime_type(&image_tiff, &photopea),
        Err(MimeAssocError::InvalidApplication("photopea.desktop".to_string()))
    );
    photopea.set_executable_resolves(true);
    assert!(associations.set_default_handler_for_mime_type(&image_tiff, &photopea).is_ok());
}

#[test]
fn makes_entry_default_for_all_it_declares() {
    let (entries, mut associations) = create_test_entries_and_associations();
    let totem = entries.get_desktop_entry(&id("org.gnome.Totem.desktop")).unwrap();
    associations.make_desktop_entry_default_handler_of_its_supported_mime_types(totem).unwrap();
    assert_eq!(associations.default_application_for(&mime("audio/m4a")), Some(&id("org.gnome.Totem.desktop")));
    assert_eq!(associations.default_application_for(&mime("video/mp4")), Some(&id("org.gnome.Totem.desktop")));
    // audio/m4a was the system's assignment already: no user assignment is made for it
    assert_eq!(associations.user_default_application_for(&mime("audio/m4a")), None);
}

#[test]
fn adds_added_associations_to_the_user_scope() {
    let (entries, mut associations) = create_test_entries_and_associations();
    let eog = entries.get_desktop_entry(&id("org.gnome.eog.desktop")).unwrap();
    let photopea = entries.get_desktop_entry(&id("photopea.desktop")).unwrap();
    let copies = vec![
        DesktopEntry::load("x/org.gnome.eog.desktop", &lines("[Desktop Entry]\nName=Image Viewer\nExec=eog\nType=Application\nIcon=application-x-executable\nMimeType=image/png;\n")).unwrap(),
        DesktopEntry::load("x/photopea.desktop", &lines("[Desktop Entry]\nName=Photopea\nExec=photopea\nType=Application\nIcon=application-x-executable\nMimeType=image/png;\n")).unwrap(),
    ];
    assert!(eog.can_open_mime_type(&mime("image/png")) && photopea.can_open_mime_type(&mime("image/png")));
    associations.add_added_associations(&mime("image/png"), &copies).unwrap();
    assert_eq!(
        associations.added_associations_for(&mime("image/png")),
        vec![id("org.gimp.GIMP.desktop"), id("org.gnome.eog.desktop"), id("photopea.desktop")]
    );
    assert!(associations.is_dirty());
    assert_eq!(
        associations.add_added_associations(&mime("text/plain"), &copies),
        Err(MimeAssocError::UnsupportedMimeType("org.gnome.eog.desktop".to_string(), "text/plain".to_string()))
    );
}


#[test]
fn differs_from_file_representation_ignores_undone_changes() {
    let mut input = user_scope();
    let file = MimeTypeAssociationScope::load(USER_LIST, true, &lines(USER_LIST_TEXT));
    assert!(!input.differs_from_file_representation(&file));
    input.set_default_application(mime("image/bmp"), id("org.gnome.eog.desktop"));
    assert!(input.differs_from_file_representation(&file));
    input.set_default_application(mime("image/bmp"), id("photopea.desktop"));
    assert!(input.is_dirty());
    assert!(!input.differs_from_file_representation(&file));
    let mut ids = vec![id("org.gimp.GIMP.desktop")];
    ids.push(id("org.gnome.eog.desktop"));
    input.add_associations(&mime("image/png"), &ids);
    assert!(input.differs_from_file_representation(&file));
    let unreadable = MimeTypeAssociationScope::load(USER_LIST, true, &lines("[Default Applications]\njunk\n"));
    assert!(unreadable.is_err());
    assert!(user_scope().differs_from_file_representation(&unreadable));
}

#[test]
fn mime_type_association_store_mimeassociationscope_roundtrip_works() -> Result<(), MimeAssocError> {
    // written to lines in memory where a file would be written and read back
    let input = user_scope();
    let copy = MimeTypeAssociationScope::load("test-data/config/mimeapps.list.copy", true, &input.write());
    assert!(copy.is_ok());
    assert!(!input.differs_from_file_representation(&copy));
    Ok(())
}

#[test]
fn pruning_marks_the_changed_scope_for_saving() {
    let clean = MimeTypeAssociationScope::load(
        USER_LIST,
        true,
        &lines("[Default Applications]\napplication/pdf=org.adobe.not-actually-acrobat.desktop\nimage/bmp=photopea.desktop\n"),
    )
    .unwrap();
    let mut associations = MimeTypeAssociationStore::load(vec![clean, scope(SYS_LIST, false, SYS_LIST_TEXT)]);
    assert!(!associations.is_dirty());
    let desktop_entry_store = DesktopEntryStore::load(vec![user_applications(), sys_applications()]);
    let pruned = associations.prune_orphaned_application_assignments(&desktop_entry_store);
    assert_eq!(pruned, vec![id("org.adobe.not-actually-acrobat.desktop")]);
    assert!(associations.is_dirty());
    let writes = associations.save();
    assert_eq!(writes.len(), 1);
    assert_eq!(writes[0].2, vec!["[Default Applications]", "image/bmp=photopea.desktop"]);
    // nothing left to prune: nothing changes, nothing is dirtied
    associations.mark_saved(0);
    assert!(associations.prune_orphaned_application_assignments(&desktop_entry_store).is_empty());
    assert!(!associations.is_dirty());
}

#[test]
fn assigning_the_system_default_needs_a_user_scope() {
    let entries = DesktopEntryStore::load(vec![user_applications(), sys_applications()]);
    let mut associations = MimeTypeAssociationStore::load(vec![scope(GNOME_LIST, false, GNOME_LIST_TEXT), scope(SYS_LIST, false, SYS_LIST_TEXT)]);
    let evince = entries.get_desktop_entry(&id("org.gnome.Evince.desktop")).unwrap();
    assert_eq!(associations.system_default_application_for(&mime("image/tiff")), Some(&id("org.gnome.Evince.desktop")));
    assert_eq!(associations.set_default_handler_for_mime_type(&mime("image/tiff"), evince), Err(MimeAssocError::NoUserScope));
}

#[test]
fn clearing_keeps_system_defaults_and_added_associations() {
    let mut associations = create_test_associations();
    assert!(associations.clear_assigned_applications());
    assert_eq!(associations.default_application_for(&mime("image/bmp")), Some(&id("org.gnome.eog.desktop")));
    assert_eq!(associations.user_default_application_for(&mime("text/html")), None);
    assert_eq!(
        associations.added_associations_for(&mime("text/html")),
        vec![id("org.mozilla.firefox.desktop"), id("google-chrome.desktop")]
    );
    assert_eq!(associations.sources(), vec![USER_LIST, USER_DEFAULTS_LIST, GNOME_LIST, SYS_LIST]);
}
