use mimeassoc::app_id::AppId;
use mimeassoc::desktop_entry::{DesktopEntry, DesktopEntryId, DesktopEntryType};
use mimeassoc::desktop_entry_store::{lookup_desktop_entry, DesktopEntryScope, DesktopEntryStore};
use mimeassoc::{MimeAssocError, MimeType};

fn lines(text: &str) -> Vec<String> {
    text.lines().map(String::from).collect()
}

fn entry(path: &str, text: &str) -> DesktopEntry {
    let mut e = DesktopEntry::load(path, &lines(text)).unwrap();
    e.set_executable_resolves(true);
    e
}

const USER_DIR: &str = "test-data/local/share/applications";
const SYS_DIR: &str = "test-data/usr/share/applications";

const GEDIT: &str = "[Desktop Entry]\nName=gedit\nName[es]=gedit\nName[pa]=ਜੀ-ਸੰਪਾਦਕ\nComment=Edit text files\nExec=gedit %U\nIcon=org.gnome.gedit\nType=Application\nMimeType=text/plain;\n";
const WEATHER_SYS: &str = "[Desktop Entry]\nName=Weather\nExec=gnome-weather\nIcon=org.gnome.Weather\nType=Application\n";
const WEATHER_USER: &str = "[Desktop Entry]\nName=Weather\nExec=gnome-weather\nIcon=OverriddenWeatherIconId\nType=Application\n";
const PHOTOPEA: &str = "[Desktop Entry]\nName=Photopea\nExec=photopea %U\nType=Application\nMimeType=image/bmp;image/jpeg;image/png;image/tiff;\n";
const EVINCE: &str = "[Desktop Entry]\nName=Document Viewer\nExec=evince %U\nType=Application\nMimeType=application/pdf;image/tiff;image/pdf;\n";
const TEXT_EDITOR: &str = "[Desktop Entry]\nName=Text Editor\nExec=gnome-text-editor %U\nType=Application\nMimeType=text/plain;\n";
const INVALID: &str = "[Desktop Entry]\nThis line holds no field\n";

fn user_applications() -> DesktopEntryScope {
    DesktopEntryScope::load(
        USER_DIR,
        vec![
            entry("test-data/local/share/applications/photopea.desktop", PHOTOPEA),
            entry("test-data/local/share/applications/org.gnome.Weather.desktop", WEATHER_USER),
        ],
    )
}

fn sys_applications() -> DesktopEntryScope {
    DesktopEntryScope::load(
        SYS_DIR,
        vec![
            entry("test-data/usr/share/applications/org.gnome.gedit.desktop", GEDIT),
            entry("test-data/usr/share/applications/org.gnome.Weather.desktop", WEATHER_SYS),
            entry("test-data/usr/share/applications/org.gnome.Evince.desktop", EVINCE),
            entry("test-data/usr/share/applications/org.gnome.TextEditor.desktop", TEXT_EDITOR),
        ],
    )
}

#[test]
fn desktop_entry_parses_valid_desktop_entry_ids() {
    assert!(DesktopEntryId::parse("org.foo.Bar.desktop").is_ok());
    assert!(DesktopEntryId::parse("Baz.desktop").is_ok());
}

#[test]
fn desktop_entry_rejects_invalid_desktop_entry_ids() {
    assert!(DesktopEntryId::parse("org.foo.Bar").is_err());
    assert!(DesktopEntryId::parse("Baz").is_err());
}

#[test]
fn desktop_entry_parses_desktop_entry_id() -> Result<(), MimeAssocError> {
    assert_eq!(DesktopEntryId::parse("org.foo.Bar.desktop")?.id(), "org.foo.Bar.desktop");
    assert_eq!(DesktopEntryId::parse("Baz.desktop")?.id(), "Baz.desktop");
    Ok(())
}

#[test]
fn parses_valid_app_ids() {
    assert!(AppId::parse("org.foo.Bar.desktop").is_ok());
    assert!(AppId::parse("Baz.desktop").is_ok());
}

#[test]
fn rejects_invalid_app_ids() {
    assert!(AppId::parse("org.foo.Bar").is_err());
    assert!(AppId::parse("Baz").is_err());
}

#[test]
fn parses_app_id() -> Result<(), MimeAssocError> {
    assert_eq!(AppId::parse("org.foo.Bar.desktop")?.id(), "org.foo.Bar");
    assert_eq!(AppId::parse("Baz.desktop")?.id(), "Baz");
    Ok(())
}

#[test]
fn desktop_entry_parses_valid_files() -> Result<(), MimeAssocError> {
    DesktopEntry::load("test-data/usr/share/applications/org.gnome.gedit.desktop", &lines(GEDIT))?;
    DesktopEntry::load("test-data/usr/share/applications/org.gnome.Weather.desktop", &lines(WEATHER_SYS))?;
    DesktopEntry::load("test-data/local/share/applications/photopea.desktop", &lines(PHOTOPEA))?;
    Ok(())
}

#[test]
fn desktop_entry_rejects_malformed_and_empty_files() {
    let invalid = DesktopEntry::load("test-data/local/share/applications/invalid.desktop", &lines(INVALID));
    assert_eq!(invalid, Err(MimeAssocError::MalformedDesktopEntryLine("This line holds no field".to_string())));
    let empty = DesktopEntry::load("test-data/local/share/applications/empty.desktop", &lines("# nothing here\n"));
    assert_eq!(empty, Err(MimeAssocError::NoDesktopEntryFields));
    let not_an_id = DesktopEntry::load("test-data/local/share/applications/photopea.txt", &lines(PHOTOPEA));
    assert_eq!(not_an_id, Err(MimeAssocError::InvalidDesktopEntryId("photopea.txt".to_string())));
}

#[test]
fn desktop_entry_parses_correctly() -> Result<(), MimeAssocError> {
    let mut gedit = DesktopEntry::load("test-data/usr/share/applications/org.gnome.gedit.desktop", &lines(GEDIT))?;
    // the program `gedit` is found on PATH where the entry is installed
    gedit.set_executable_resolves(true);

    assert_eq!(gedit.name(), Some("gedit"));
    assert_eq!(gedit.localised_name("es"), Some("gedit"));
    assert_eq!(gedit.localised_name("pa"), Some("ਜੀ-ਸੰਪਾਦਕ"));
    assert_eq!(gedit.mime_types(), &vec![MimeType::parse("text/plain")?]);
    assert_eq!(gedit.executable_command(), Some("gedit %U"));
    assert_eq!(gedit.icon(), Some("org.gnome.gedit"));
    assert!(gedit.appears_valid_application());
    Ok(())
}

#[test]
fn desktop_entry_reports_type_program_and_validity() -> Result<(), MimeAssocError> {
    let gedit = DesktopEntry::load("test-data/usr/share/applications/org.gnome.gedit.desktop", &lines(GEDIT))?;
    assert_eq!(gedit.entry_type(), Some(DesktopEntryType::Application));
    assert_eq!(gedit.executable_program()?, "gedit");
    // not yet known to be launchable
    assert!(!gedit.appears_valid_application());
    let link = DesktopEntry::load("x/link.desktop", &lines("[Desktop Entry]\nName=Link\nType=Link\n"))?;
    assert_eq!(link.entry_type(), Some(DesktopEntryType::Other));
    assert_eq!(link.executable_program(), Err(MimeAssocError::NoExecutableCommand));
    Ok(())
}

#[test]
fn desktop_entry_store_desktop_entry_scope_loads_desktop_entries() {
    let sys_scope = sys_applications();
    assert!(!sys_scope.application_entries().is_empty());
    let user_scope = user_applications();
    assert!(!user_scope.application_entries().is_empty());
}

#[test]
fn desktop_entry_desktop_entry_scope_loads_desktop_entries() {
    let sys_scope = sys_applications();
    assert!(!sys_scope.application_entries().is_empty());
    let user_scope = user_applications();
    assert!(!user_scope.application_entries().is_empty());
}

#[test]
fn desktop_entry_scope_keeps_only_applications() {
    let link = DesktopEntry::load("x/link.desktop", &lines("[Desktop Entry]\nName=Link\nType=Link\n")).unwrap();
    let scope = DesktopEntryScope::load("x", vec![link]);
    assert!(scope.application_entries().is_empty());
}

#[test]
fn desktop_entries_loads_single_scopes() {
    assert!(!DesktopEntryStore::load(vec![sys_applications()]).desktop_entries().is_empty());
    assert!(!DesktopEntryStore::load(vec![user_applications()]).desktop_entries().is_empty());
}

#[test]
fn desktop_entries_loads_multiple_scopes() {
    assert!(!DesktopEntryStore::load(vec![user_applications(), sys_applications()]).desktop_entries().is_empty());
}

#[test]
fn desktop_entries_later_scopes_shadow_earlier() -> Result<(), MimeAssocError> {
    let entries = DesktopEntryStore::load(vec![user_applications(), sys_applications()]);
    let weather_id = DesktopEntryId::parse("org.gnome.Weather.desktop")?;
    let weather = entries.get_desktop_entry(&weather_id);
    assert!(weather.is_some());
    let weather = weather.unwrap();
    assert_eq!(weather.icon(), Some("OverriddenWeatherIconId"));
    Ok(())
}

#[test]
fn desktop_entries_looks_up_correct_openers_for_mime_type() -> Result<(), MimeAssocError> {
    let entries = DesktopEntryStore::load(vec![user_applications(), sys_applications()]);

    let photopea_id = DesktopEntryId::parse("photopea.desktop")?;
    let photopea = entries.get_desktop_entry(&photopea_id).unwrap();

    let image_bmp = MimeType::parse("image/bmp")?;
    let image_jpeg = MimeType::parse("image/jpeg")?;
    assert!(entries.get_desktop_entries_for_mimetype(&image_bmp).contains(&photopea));
    assert!(entries.get_desktop_entries_for_mimetype(&image_jpeg).contains(&photopea));

    let evince_id = DesktopEntryId::parse("org.gnome.Evince.desktop")?;
    let evince = entries.get_desktop_entry(&evince_id).unwrap();
    let image_tiff = MimeType::parse("image/tiff")?;
    assert!(entries.get_desktop_entries_for_mimetype(&image_tiff).contains(&photopea));
    assert!(entries.get_desktop_entries_for_mimetype(&image_tiff).contains(&evince));

    let gedit_id = DesktopEntryId::parse("org.gnome.gedit.desktop")?;
    let gedit = entries.get_desktop_entry(&gedit_id).unwrap();
    let texteditor_id = DesktopEntryId::parse("org.gnome.TextEditor.desktop")?;
    let texteditor = entries.get_desktop_entry(&texteditor_id).unwrap();
    let text_plain = MimeType::parse("text/plain")?;
    assert!(entries.get_desktop_entries_for_mimetype(&text_plain).contains(&gedit));
    assert!(entries.get_desktop_entries_for_mimetype(&text_plain).contains(&texteditor));
    Ok(())
}

#[test]
fn desktop_entries_come_in_id_order() {
    let entries = DesktopEntryStore::load(vec![user_applications(), sys_applications()]);
    let ids: Vec<&str> = entries.desktop_entry_ids().iter().map(|id| id.id()).collect();
    assert_eq!(
        ids,
        vec![
            "org.gnome.Evince.desktop",
            "org.gnome.TextEditor.desktop",
            "org.gnome.Weather.desktop",
            "org.gnome.gedit.desktop",
            "photopea.desktop",
        ]
    );
    assert_eq!(entries.sources(), vec![USER_DIR, SYS_DIR]);
}

#[test]
fn fuzzy_lookup_works() -> Result<(), MimeAssocError> {
    let entries = DesktopEntryStore::load(vec![user_applications(), sys_applications()]);

    let photopea_id = DesktopEntryId::parse("photopea.desktop")?;
    let photopea = entries.get_desktop_entry(&photopea_id).unwrap();
    let evince_id = DesktopEntryId::parse("org.gnome.Evince.desktop")?;
    let evince = entries.get_desktop_entry(&evince_id).unwrap();

    assert_eq!(lookup_desktop_entry(&entries, "photopea.desktop"), Some(photopea));
    assert_eq!(lookup_desktop_entry(&entries, "Photopea"), Some(photopea));
    assert_eq!(lookup_desktop_entry(&entries, "pHOToPea"), Some(photopea));

    assert_eq!(lookup_desktop_entry(&entries, "org.gnome.Evince.desktop"), Some(evince));
    assert_eq!(lookup_desktop_entry(&entries, "Evince"), Some(evince));
    assert_eq!(lookup_desktop_entry(&entries, "evince"), Some(evince));
    assert_eq!(lookup_desktop_entry(&entries, "Document Viewer"), Some(evince));
    assert_eq!(lookup_desktop_entry(&entries, "document VIEWER"), Some(evince));

    assert_eq!(lookup_desktop_entry(&entries, "photopea"), Some(photopea));
    assert_eq!(lookup_desktop_entry(&entries, "no such application"), None);
    Ok(())
}

#[test]
fn entries_order_by_name_ignoring_case() {
    let gedit = entry("x/org.gnome.gedit.desktop", GEDIT);
    let photopea = entry("x/photopea.desktop", PHOTOPEA);
    assert_eq!(gedit.cmp_by_name_alpha_inensitive(&photopea), std::cmp::Ordering::Less);
    assert_eq!(photopea.cmp_by_name_alpha_inensitive(&gedit), std::cmp::Ordering::Greater);
    assert_eq!(gedit.cmp_by_name_alpha_inensitive(&gedit), std::cmp::Ordering::Equal);
}

#[test]
fn a_valid_application_has_an_icon() -> Result<(), MimeAssocError> {
    let mut photopea = DesktopEntry::load("x/photopea.desktop", &lines(PHOTOPEA))?;
    photopea.set_executable_resolves(true);
    assert_eq!(photopea.icon(), None);
    assert!(!photopea.appears_valid_application());
    let with_icon = format!("{}Icon=photopea\n", PHOTOPEA);
    let mut photopea = DesktopEntry::load("x/photopea.desktop", &lines(&with_icon))?;
    photopea.set_executable_resolves(true);
    assert!(photopea.appears_valid_application());
    Ok(())
}
