use mimeassoc::association_store::MimeTypeAssociationStore;
use mimeassoc::desktop_entry::{program_lookup, DesktopEntry, DesktopEntryId};
use mimeassoc::desktop_entry_store::{DesktopEntryScope, DesktopEntryStore};
use mimeassoc::detail::{application_detail_row, default_handler_choices, mime_type_detail_row, single_handler_info};
use mimeassoc::mime_type_association_store::MimeTypeAssociationScope;
use mimeassoc::{MimeAssocError, MimeType};

fn lines(text: &str) -> Vec<String> {
    text.lines().map(String::from).collect()
}

fn entry(path: &str, text: &str) -> DesktopEntry {
    let mut e = DesktopEntry::load(path, &lines(text)).unwrap();
    e.set_executable_resolves(true);
    e
}

fn desktop_entries() -> DesktopEntryStore {
    DesktopEntryStore::load(vec![DesktopEntryScope::load(
        "apps",
        vec![
            entry("apps/photopea.desktop", "[Desktop Entry]\nName=Photopea\nExec=photopea\nType=Application\nIcon=photopea\nMimeType=image/tiff;image/bmp;\n"),
            entry("apps/org.gnome.Evince.desktop", "[Desktop Entry]\nName=Document Viewer\nExec=evince\nType=Application\nIcon=evince\nMimeType=image/tiff;application/pdf;\n"),
            entry("apps/org.gnome.eog.desktop", "[Desktop Entry]\nName=Image Viewer\nExec=eog\nType=Application\nIcon=eog\nMimeType=image/bmp;\n"),
        ],
    )])
}

fn associations(user_text: &str) -> MimeTypeAssociationStore {
    MimeTypeAssociationStore::load(vec![
        MimeTypeAssociationScope::load("user.list", true, &lines(user_text)).unwrap(),
        MimeTypeAssociationScope::load(
            "sys.list",
            false,
            &lines("[Default Applications]\nimage/bmp=org.gnome.eog.desktop\nimage/tiff=org.gnome.Evince.desktop\n"),
        )
        .unwrap(),
    ])
}

fn id(s: &str) -> DesktopEntryId {
    DesktopEntryId::parse(s).unwrap()
}

fn mime(s: &str) -> MimeType {
    MimeType::parse(s).unwrap()
}

const USER: &str = "[Default Applications]\nimage/bmp=photopea.desktop\n";

#[test]
fn mime_type_rows_mark_the_application_in_effect() {
    let entries = desktop_entries();
    let a = associations(USER);
    let eog = entries.get_desktop_entry(&id("org.gnome.eog.desktop")).unwrap();
    let photopea = entries.get_desktop_entry(&id("photopea.desktop")).unwrap();

    let row = mime_type_detail_row(&a, &entries, &mime("image/bmp"), Some(eog));
    assert_eq!(row.title, "Image Viewer");
    assert_eq!(row.subtitle, Some("System default handler for image/bmp".to_string()));
    assert!(!row.active && row.sensitive);

    let row = mime_type_detail_row(&a, &entries, &mime("image/bmp"), Some(photopea));
    assert_eq!(row.title, "Photopea");
    assert_eq!(row.subtitle, None);
    assert!(row.active && row.sensitive);

    // an application is assigned, and the system assigns one too: "None" can't be chosen
    let none = mime_type_detail_row(&a, &entries, &mime("image/bmp"), None);
    assert_eq!(none.title, "None");
    assert_eq!(none.subtitle, None);
    assert!(!none.active && !none.sensitive);

    let none = mime_type_detail_row(&a, &entries, &mime("application/pdf"), None);
    assert!(none.active && none.sensitive);

    let unnamed = entry("apps/x.desktop", "[Desktop Entry]\nExec=x\nType=Application\nMimeType=image/bmp;\n");
    assert_eq!(mime_type_detail_row(&a, &entries, &mime("image/bmp"), Some(&unnamed)).title, "<Unnamed Application>");
}

#[test]
fn single_handler_note_only_for_the_system_assignment() {
    let entries = desktop_entries();
    let a = associations(USER);
    let evince = entries.get_desktop_entry(&id("org.gnome.Evince.desktop")).unwrap();
    let photopea = entries.get_desktop_entry(&id("photopea.desktop")).unwrap();
    assert_eq!(
        single_handler_info(&a, &mime("image/tiff"), &vec![evince]),
        Some("Document Viewer is the only available handler for image/tiff. It is assigned by the system, and can't be unassigned.".to_string())
    );
    assert_eq!(single_handler_info(&a, &mime("image/tiff"), &vec![evince, photopea]), None);
    assert_eq!(single_handler_info(&a, &mime("image/tiff"), &vec![photopea]), None);
}

#[test]
fn default_handler_choices_follow_names_and_assignment() {
    let entries = desktop_entries();
    let a = associations(USER);
    let bmp = default_handler_choices(&a, &entries, &mime("image/bmp"));
    assert_eq!(bmp.ids, vec![id("org.gnome.eog.desktop"), id("photopea.desktop")]);
    assert_eq!(bmp.labels, vec!["Image Viewer", "Photopea"]);
    assert_eq!(bmp.assigned, Some(1));
    assert!(bmp.visible && bmp.sensitive);

    let pdf = default_handler_choices(&a, &entries, &mime("application/pdf"));
    assert_eq!(pdf.ids, vec![id("org.gnome.Evince.desktop")]);
    assert_eq!(pdf.assigned, None);
    assert!(pdf.visible && pdf.sensitive);

    let assigned = associations("[Default Applications]\napplication/pdf=org.gnome.Evince.desktop\n");
    let pdf = default_handler_choices(&assigned, &entries, &mime("application/pdf"));
    assert_eq!(pdf.assigned, Some(0));
    assert!(pdf.visible && !pdf.sensitive);

    let none = default_handler_choices(&a, &entries, &mime("audio/ogg"));
    assert!(none.ids.is_empty() && !none.visible);
}

#[test]
fn application_rows_mark_system_assignments() {
    let entries = desktop_entries();
    let a = associations(USER);
    let evince = entries.get_desktop_entry(&id("org.gnome.Evince.desktop")).unwrap();
    let eog = entries.get_desktop_entry(&id("org.gnome.eog.desktop")).unwrap();
    let photopea = entries.get_desktop_entry(&id("photopea.desktop")).unwrap();

    let row = application_detail_row(&a, evince, &mime("image/tiff"));
    assert_eq!(row.title, "image/tiff");
    assert_eq!(row.subtitle, Some("Document Viewer is the system default handler for image/tiff".to_string()));
    assert!(row.active && !row.sensitive);

    let row = application_detail_row(&a, photopea, &mime("image/bmp"));
    assert_eq!(row.subtitle, None);
    assert!(row.active && row.sensitive);

    let row = application_detail_row(&a, eog, &mime("image/bmp"));
    assert_eq!(row.subtitle, Some("Image Viewer is the system default handler for image/bmp".to_string()));
    assert!(!row.active && row.sensitive);
}

#[test]
fn programs_with_a_slash_are_paths() {
    assert_eq!(program_lookup("/usr/bin/gedit"), Some("/usr/bin/gedit".to_string()));
    assert_eq!(program_lookup("./run"), Some("./run".to_string()));
    assert_eq!(program_lookup("gedit"), None);
}

#[test]
fn store_loads_from_lists_or_names_the_first_bad_line() {
    let lists = vec![
        ("user.list".to_string(), true, lines("[Default Applications]\nimage/bmp=photopea.desktop\n")),
        ("sys.list".to_string(), false, lines("[Default Applications]\nimage/bmp=org.gnome.eog.desktop\naudio/ogg=totem.desktop\n")),
    ];
    let store = MimeTypeAssociationStore::load_lists(&lists).unwrap();
    assert!(!store.is_dirty());
    assert_eq!(store.sources(), vec!["user.list", "sys.list"]);
    assert_eq!(store.default_application_for(&mime("image/bmp")), Some(&id("photopea.desktop")));
    assert_eq!(store.default_application_for(&mime("audio/ogg")), Some(&id("totem.desktop")));

    let bad = vec![
        ("a.list".to_string(), true, lines("[Default Applications]\nimage/bmp=photopea.desktop\n")),
        ("b.list".to_string(), false, lines("[Default Applications]\nbroken\n")),
        ("c.list".to_string(), false, lines("[Default Applications]\na/b=;\n")),
    ];
    assert!(matches!(
        MimeTypeAssociationStore::load_lists(&bad),
        Err(MimeAssocError::MalformedAssociationLine(t)) if t == "broken"
    ));
}
