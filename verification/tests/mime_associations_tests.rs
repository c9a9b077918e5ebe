use mimeassoc::desktop_entry::{DesktopEntry, DesktopEntryId};
use mimeassoc::desktop_entry_store::{DesktopEntryScope, DesktopEntryStore};
use mimeassoc::mime_associations::{MimeAssociationScope, MimeAssociations, MimeAssociationsCascade};
use mimeassoc::{MimeAssocError, MimeType};

fn lines(text: &str) -> Vec<String> {
    text.lines().map(String::from).collect()
}

fn entry(path: &str, text: &str) -> DesktopEntry {
    let mut e = DesktopEntry::load(path, &lines(text)).unwrap();
    e.set_executable_resolves(true);
    e
}

const USER_LIST: &str = "test-data/config/mimeapps.list";
const GNOME_LIST: &str = "test-data/usr/share/applications/gnome-mimeapps.list";
const SYS_LIST: &str = "test-data/usr/share/applications/mimeapps.list";

const USER_LIST_TEXT: &str = "# the user's own assignments
[Added Associations]
image/png=org.gimp.GIMP.desktop;
text/html=org.mozilla.firefox.desktop;google-chrome.desktop;
x-scheme-handler/https=org.mozilla.firefox.desktop;google-chrome.desktop;

[Default Applications]
text/html=org.mozilla.firefox.desktop
image/bmp=photopea.desktop
image/png=org.gimp.GIMP.desktop
image/pdf=org.gnome.Evince.desktop
";

const GNOME_LIST_TEXT: &str = "[Default Applications]
text/plain=org.gnome.TextEditor.desktop
image/bmp=org.gnome.eog.desktop
";

const SYS_LIST_TEXT: &str = "[Default Applications]
audio/m4a=org.gnome.Totem.desktop
image/tiff=org.gnome.Evince.desktop
text/plain=org.gnome.gedit.desktop
";

fn scope(path: &str, user: bool, text: &str) -> MimeAssociationScope {
    MimeAssociationScope::load(path, user, &lines(text)).unwrap()
}

fn user_applications() -> DesktopEntryScope {
    DesktopEntryScope::load(
        "test-data/local/share/applications",
        vec![entry(
            "test-data/local/share/applications/photopea.desktop",
            "[Desktop Entry]\nName=Photopea\nExec=photopea %U\nType=Application\nIcon=application-x-executable\nMimeType=image/bmp;image/jpeg;image/png;image/tiff;\n",
        )],
    )
}

fn sys_applications() -> DesktopEntryScope {
    DesktopEntryScope::load(
        "test-data/usr/share/applications",
        vec![
            entry(
                "test-data/usr/share/applications/org.gnome.Evince.desktop",
                "[Desktop Entry]\nName=Document Viewer\nExec=evince %U\nType=Application\nIcon=application-x-executable\nMimeType=application/pdf;image/tiff;image/pdf;\n",
            ),
            entry(
                "test-data/usr/share/applications/org.gnome.TextEditor.desktop",
                "[Desktop Entry]\nName=Text Editor\nExec=gnome-text-editor %U\nType=Application\nIcon=application-x-executable\nMimeType=text/plain;\n",
            ),
            entry(
                "test-data/usr/share/applications/org.gnome.Totem.desktop",
                "[Desktop Entry]\nName=Videos\nExec=totem %U\nType=Application\nIcon=application-x-executable\nMimeType=audio/m4a;video/mp4;\n",
            ),
        ],
    )
}

/// The user's, GNOME's and the system's lists in preferential order; `user_writable` makes
/// the user's list one the user may change.
fn create_test_entries_and_associations(user_writable: bool) -> (DesktopEntryStore, MimeAssociations) {
    let entries = DesktopEntryStore::load(vec![user_applications(), sys_applications()]);
    let associations = MimeAssociations::load(vec![
        scope(USER_LIST, user_writable, USER_LIST_TEXT),
        scope(GNOME_LIST, false, GNOME_LIST_TEXT),
        scope(SYS_LIST, false, SYS_LIST_TEXT),
    ]);
    (entries, associations)
}

/// The system's, GNOME's and the user's lists, the later overriding the earlier.
fn create_test_cascade() -> MimeAssociationsCascade {
    MimeAssociationsCascade::new(vec![
        scope(SYS_LIST, false, SYS_LIST_TEXT),
        scope(GNOME_LIST, false, GNOME_LIST_TEXT),
        scope(USER_LIST, false, USER_LIST_TEXT),
    ])
}

fn id(s: &str) -> DesktopEntryId {
    DesktopEntryId::parse(s).unwrap()
}

fn mime(s: &str) -> MimeType {
    MimeType::parse(s).unwrap()
}

#[test]
fn mime_type_mime_associations_load() {
    assert!(MimeAssociationScope::load(SYS_LIST, false, &lines(SYS_LIST_TEXT)).is_ok());
    assert!(MimeAssociationScope::load(GNOME_LIST, false, &lines(GNOME_LIST_TEXT)).is_ok());
    assert!(MimeAssociationScope::load(USER_LIST, false, &lines(USER_LIST_TEXT)).is_ok());
}

#[test]
fn mime_type_mime_associations_load_expected_data() -> Result<(), MimeAssocError> {
    let associations = scope(USER_LIST, false, USER_LIST_TEXT);
    let png = MimeType::parse("image/png")?;
    let gimp = DesktopEntryId::parse("org.gimp.GIMP.desktop")?;
    assert_eq!(associations.added_associations(&png), Some(&vec![gimp]));
    Ok(())
}

#[test]
fn mime_type_mime_associations_line_parser() -> Result<(), MimeAssocError> {
    let baz_desktop = DesktopEntryId::parse("baz.desktop")?;
    let qux_desktop = DesktopEntryId::parse("qux.desktop")?;
    let zim_desktop = DesktopEntryId::parse("zim.desktop")?;

    // single value with trailing semicolon
    let result = MimeAssociationScope::parse_line("foo/bar=baz.desktop;")?;
    assert_eq!(result.0, MimeType::parse("foo/bar")?);
    assert_eq!(result.1, vec![baz_desktop.clone()]);

    // whitespace
    let result = MimeAssociationScope::parse_line("   foo/bar=baz.desktop\n  ")?;
    assert_eq!(result.0, MimeType::parse("foo/bar")?);
    assert_eq!(result.1, vec![baz_desktop.clone()]);

    // multiple values
    let result = MimeAssociationScope::parse_line("foo/bar=baz.desktop;qux.desktop;zim.desktop;")?;
    assert_eq!(result.0, MimeType::parse("foo/bar")?);
    assert_eq!(result.1, vec![baz_desktop, qux_desktop, zim_desktop]);

    assert!(MimeAssociationScope::parse_line("foo/bar=baz").is_err());
    assert!(MimeAssociationScope::parse_line("foobar=baz.desktop;").is_err());
    Ok(())
}

#[test]
fn mime_type_mime_assocations_loads() {
    let _ = MimeAssociations::load(vec![
        scope(SYS_LIST, false, SYS_LIST_TEXT),
        scope(GNOME_LIST, false, GNOME_LIST_TEXT),
        scope(USER_LIST, false, USER_LIST_TEXT),
    ]);
}

#[test]
fn mime_assocations_cascade_loads() {
    let _ = create_test_cascade();
}

#[test]
fn mime_assocations_prefers_user_default_application_over_system_associations() -> Result<(), MimeAssocError> {
    let (_, associations) = create_test_entries_and_associations(false);
    let html = MimeType::parse("text/html")?;
    let firefox = DesktopEntryId::parse("org.mozilla.firefox.desktop")?;
    assert_eq!(associations.default_application_for(&html), Some(&firefox));
    Ok(())
}

#[test]
fn mime_assocations_cascade_prefers_user_default_application_over_system_associations() -> Result<(), MimeAssocError> {
    let cascade = create_test_cascade();
    let html = MimeType::parse("text/html")?;
    let firefox = DesktopEntryId::parse("org.mozilla.firefox.desktop")?;
    assert_eq!(cascade.default_application_for(&html), Some(&firefox));
    Ok(())
}

#[test]
fn mime_type_mime_assocations_loads_expected_added_associations() -> Result<(), MimeAssocError> {
    let (_, associations) = create_test_entries_and_associations(false);
    let html = MimeType::parse("text/html")?;
    let firefox = DesktopEntryId::parse("org.mozilla.firefox.desktop")?;
    let chrome = DesktopEntryId::parse("google-chrome.desktop")?;
    let result = associations.added_associations_for(&html);
    assert_eq!(result, Some(&vec![firefox, chrome]));
    Ok(())
}

#[test]
fn mime_assocations_cascade_loads_expected_added_associations() -> Result<(), MimeAssocError> {
    let cascade = create_test_cascade();
    let html = MimeType::parse("text/html")?;
    let firefox = DesktopEntryId::parse("org.mozilla.firefox.desktop")?;
    let chrome = DesktopEntryId::parse("google-chrome.desktop")?;
    let result = cascade.added_associations_for(&html);
    assert_eq!(result, Some(&vec![firefox, chrome]));
    Ok(())
}

#[test]
fn mime_type_added_associations_line_roundtrip_works() -> Result<(), MimeAssocError> {
    // in a file, a line of added associations ends with `;`
    let input = "image/png=org.gimp.GIMP.desktop;";
    let (mime_type, desktop_entries) = MimeAssociationScope::parse_line(input)?;
    let output = format!("{};", MimeAssociationScope::generate_added_associations_line(&mime_type, &desktop_entries));
    assert_eq!(input, &output);

    let input = "x-scheme-handler/https=org.mozilla.firefox.desktop;google-chrome.desktop;";
    let (mime_type, desktop_entries) = MimeAssociationScope::parse_line(input)?;
    let output = format!("{};", MimeAssociationScope::generate_added_associations_line(&mime_type, &desktop_entries));
    assert_eq!(input, &output);
    Ok(())
}

#[test]
fn mime_type_default_applications_line_roundtrip_works() -> Result<(), MimeAssocError> {
    let input = "text/html=org.mozilla.firefox.desktop";
    let (mime_type, desktop_entries) = MimeAssociationScope::parse_line(input)?;
    let output = MimeAssociationScope::generate_default_application_line(&mime_type, &desktop_entries[0]);
    assert_eq!(input, &output);
    Ok(())
}

#[test]
fn mime_type_make_default_handler_works_for_valid_usecases() -> Result<(), MimeAssocError> {
    let (entries, mut associations) = create_test_entries_and_associations(true);

    let photopea_id = DesktopEntryId::parse("photopea.desktop")?;
    let photopea = entries.get_desktop_entry(&photopea_id).unwrap();
    let evince_id = DesktopEntryId::parse("org.gnome.Evince.desktop")?;
    let image_tiff = MimeType::parse("image/tiff")?;

    assert_eq!(associations.default_application_for(&image_tiff), Some(&evince_id));
    associations.set_default_handler_for_mime_type(&image_tiff, photopea)?;
    assert_eq!(associations.default_application_for(&image_tiff), Some(&photopea_id));
    Ok(())
}

#[test]
fn mime_type_make_default_handler_errors_for_unsupported_mimetypes() -> Result<(), MimeAssocError> {
    let (entries, mut associations) = create_test_entries_and_associations(true);
    let photopea_id = DesktopEntryId::parse("photopea.desktop")?;
    let photopea = entries.get_desktop_entry(&photopea_id).unwrap();
    let inode_directory = MimeType::parse("inode/directory")?;
    assert!(associations.set_default_handler_for_mime_type(&inode_directory, photopea).is_err());
    Ok(())
}

#[test]
fn mime_type_make_default_handler_errors_without_writeable_scope() -> Result<(), MimeAssocError> {
    let (entries, mut associations) = create_test_entries_and_associations(false);
    let photopea_id = DesktopEntryId::parse("photopea.desktop")?;
    let photopea = entries.get_desktop_entry(&photopea_id).unwrap();
    let image_tiff = MimeType::parse("image/tiff")?;
    assert!(associations.set_default_handler_for_mime_type(&image_tiff, photopea).is_err());
    assert_eq!(associations.set_default_handler_for_mime_type(&image_tiff, photopea), Err(MimeAssocError::NoUserScope));
    Ok(())
}

#[test]
fn makes_correct_mime_to_desktop_associations() -> Result<(), MimeAssocError> {
    let (desktop_entries, mime_associations) = create_test_entries_and_associations(false);

    let text_plain = MimeType::parse("text/plain")?;
    let audio_m4a = MimeType::parse("audio/m4a")?;
    let image_bmp = MimeType::parse("image/bmp")?;
    let image_tiff = MimeType::parse("image/tiff")?;
    let image_pdf = MimeType::parse("image/pdf")?;

    // totem is assigned to audio/m4a by the system's list
    let totem_id = DesktopEntryId::parse("org.gnome.Totem.desktop")?;
    // the text editor is assigned to text/plain by GNOME's list, overriding the system's
    let text_editor = DesktopEntryId::parse("org.gnome.TextEditor.desktop")?;
    // photopea is assigned by the user's list, overriding GNOME's
    let photopea_id = DesktopEntryId::parse("photopea.desktop")?;
    // evince is assigned to image/tiff by the system's list, and to image/pdf by the user's
    let evince_id = DesktopEntryId::parse("org.gnome.Evince.desktop")?;

    assert_eq!(mime_associations.default_application_for(&text_plain), Some(&text_editor));
    assert_eq!(mime_associations.default_application_for(&image_bmp), Some(&photopea_id));
    assert_eq!(mime_associations.default_application_for(&audio_m4a), Some(&totem_id));
    assert_eq!(mime_associations.default_application_for(&image_tiff), Some(&evince_id));
    assert_eq!(mime_associations.default_application_for(&image_pdf), Some(&evince_id));

    let lookup = |m: &MimeType| -> Option<&DesktopEntry> {
        mime_associations.default_application_for(m).and_then(|id| desktop_entries.get_desktop_entry(id))
    };
    assert_eq!(lookup(&text_plain).unwrap().id(), &text_editor);
    assert_eq!(lookup(&image_bmp).unwrap().id(), &photopea_id);
    assert_eq!(lookup(&audio_m4a).unwrap().id(), &totem_id);
    assert_eq!(lookup(&image_tiff).unwrap().id(), &evince_id);
    assert_eq!(lookup(&image_pdf).unwrap().id(), &evince_id);
    Ok(())
}

#[test]
fn chain_mime_types_name_each_assigned_type_once() {
    let (_, associations) = create_test_entries_and_associations(false);
    let names: Vec<&str> = associations.mime_types().iter().map(|m| m.id()).collect();
    // image/bmp and text/plain are assigned by two scopes each, but named once
    assert_eq!(
        names,
        vec!["audio/m4a", "image/bmp", "image/pdf", "image/png", "image/tiff", "text/html", "text/plain"]
    );
}

#[test]
fn cascade_mime_types_run_from_the_first_scope_to_the_last() {
    let cascade = create_test_cascade();
    let cascade_names: Vec<&str> = cascade.mime_types().iter().map(|m| m.id()).collect();
    assert_eq!(
        cascade_names,
        vec![
            "audio/m4a", "image/tiff", "text/plain",
            "image/bmp", "text/plain",
            "image/bmp", "image/pdf", "image/png", "text/html",
        ]
    );
}

#[test]
fn cascade_prefers_later_scopes() {
    let cascade = create_test_cascade();
    assert_eq!(cascade.default_application_for(&mime("text/plain")), Some(&id("org.gnome.TextEditor.desktop")));
    assert_eq!(cascade.default_application_for(&mime("image/bmp")), Some(&id("photopea.desktop")));
    assert_eq!(cascade.default_application_for(&mime("video/mp4")), None);
    assert_eq!(cascade.added_associations_for(&mime("image/tiff")), None);
}

#[test]
fn chain_assignment_always_dirties_the_user_scope_and_saves_it() {
    let (entries, mut associations) = create_test_entries_and_associations(true);
    let evince = entries.get_desktop_entry(&id("org.gnome.Evince.desktop")).unwrap();
    // the user's list already assigns evince to image/pdf: the scope is still marked changed
    associations.set_default_handler_for_mime_type(&mime("image/pdf"), evince).unwrap();
    let writes = associations.save();
    assert_eq!(writes.len(), 1);
    assert_eq!(writes[0].0, 0);
    assert_eq!(writes[0].1, USER_LIST);
    assert!(writes[0].2.contains(&"image/pdf=org.gnome.Evince.desktop".to_string()));
    associations.mark_saved(0);
    assert!(associations.save().is_empty());
    assert_eq!(associations.sources(), vec![USER_LIST, GNOME_LIST, SYS_LIST]);
}

#[test]
fn chain_makes_entry_default_for_all_it_declares() {
    let (entries, mut associations) = create_test_entries_and_associations(true);
    let totem = entries.get_desktop_entry(&id("org.gnome.Totem.desktop")).unwrap();
    associations.make_desktop_entry_default_handler_of_its_supported_mime_types(totem).unwrap();
    assert_eq!(associations.default_application_for(&mime("audio/m4a")), Some(&id("org.gnome.Totem.desktop")));
    assert_eq!(associations.default_application_for(&mime("video/mp4")), Some(&id("org.gnome.Totem.desktop")));
    let (entries, mut read_only) = create_test_entries_and_associations(false);
    let totem = entries.get_desktop_entry(&id("org.gnome.Totem.desktop")).unwrap();
    assert_eq!(
        read_only.make_desktop_entry_default_handler_of_its_supported_mime_types(totem),
        Err(MimeAssocError::NoUserScope)
    );
}

#[test]
fn mime_type_mimeassociationscope_roundtrip_works() -> Result<(), MimeAssocError> {
    // written to lines in memory where a file would be written and read back
    let input = scope(USER_LIST, true, USER_LIST_TEXT);
    let copy = MimeAssociationScope::load("test-data/config/mimeapps.list.copy", true, &input.write());
    let copy_scope = copy.as_ref().unwrap();
    for m in ["image/png", "text/html", "x-scheme-handler/https", "image/bmp", "image/pdf"] {
        assert_eq!(input.added_associations(&mime(m)), copy_scope.added_associations(&mime(m)));
        assert_eq!(input.default_application(&mime(m)), copy_scope.default_application(&mime(m)));
    }
    assert!(!input.differs_from_file_representation(&copy));
    Ok(())
}
