use mimeassoc::association_store::MimeTypeAssociationStore;
use mimeassoc::command_output::{CommandOutputConsumer, CommandOutput, DefaultCommandOutputConsumer};
use mimeassoc::commands::{ApplicationCommandArgs, Cli, Commands, MimeTypeCommandArgs, ResetCommandArgs, SetCommandArgs};
use mimeassoc::desktop_entry::{DesktopEntry, DesktopEntryId};
use mimeassoc::desktop_entry_store::{DesktopEntryScope, DesktopEntryStore};
use mimeassoc::filter::FilterPrecisionChange;
use mimeassoc::listing::{applications_supporting_by_name, applications_to_list, mime_types_to_list};
use mimeassoc::mime_info::MimeTypeInfoStore;
use mimeassoc::mime_type_association_store::MimeTypeAssociationScope;
use mimeassoc::stores::{select_all_and_none_availability, Stores};
use mimeassoc::strings::Strings;
use mimeassoc::{MimeAssocError, MimeType};

fn lines(text: &str) -> Vec<String> {
    text.lines().map(String::from).collect()
}

fn entry(path: &str, text: &str) -> DesktopEntry {
    let mut e = DesktopEntry::load(path, &lines(text)).unwrap();
    e.set_executable_resolves(true);
    e
}

fn desktop_entries() -> DesktopEntryStore {
    DesktopEntryStore::load(vec![DesktopEntryScope::load(
        "apps",
        vec![
            entry("apps/photopea.desktop", "[Desktop Entry]\nName=Photopea\nExec=photopea\nType=Application\nIcon=application-x-executable\nMimeType=image/tiff;image/bmp;image/bmp;\n"),
            entry("apps/org.gnome.Evince.desktop", "[Desktop Entry]\nName=Document Viewer\nExec=evince\nType=Application\nIcon=application-x-executable\nMimeType=image/tiff;application/pdf;\n"),
            entry("apps/org.gnome.eog.desktop", "[Desktop Entry]\nName=Image Viewer\nExec=eog\nType=Application\nIcon=application-x-executable\nMimeType=image/bmp;\n"),
        ],
    )])
}

fn associations() -> MimeTypeAssociationStore {
    MimeTypeAssociationStore::load(vec![
        MimeTypeAssociationScope::load("user.list", true, &lines("[Default Applications]\nimage/bmp=photopea.desktop\n")).unwrap(),
        MimeTypeAssociationScope::load(
            "sys.list",
            false,
            &lines("[Default Applications]\nimage/bmp=org.gnome.eog.desktop\nimage/tiff=org.gnome.Evince.desktop\n"),
        )
        .unwrap(),
    ])
}

fn info() -> MimeTypeInfoStore {
    MimeTypeInfoStore::new()
}

fn id(s: &str) -> DesktopEntryId {
    DesktopEntryId::parse(s).unwrap()
}

fn mime(s: &str) -> MimeType {
    MimeType::parse(s).unwrap()
}

fn show(output: &CommandOutput) -> Vec<String> {
    DefaultCommandOutputConsumer {}.process(output)
}

#[test]
fn mime_types_command_lists_each_once() {
    let mut a = associations();
    let out = Commands::MimeTypes.process(&mut a, &desktop_entries(), &info()).unwrap();
    assert_eq!(show(&out), vec!["image/bmp", "image/tiff"]);
}

#[test]
fn mime_type_command_marks_the_default_handler() {
    let mut a = associations();
    let args = MimeTypeCommandArgs { id: Some("image/*".to_string()) };
    let out = Commands::MimeType(args).process(&mut a, &desktop_entries(), &info()).unwrap();
    assert_eq!(
        show(&out),
        vec![
            "image/bmp:",
            "\t org.gnome.eog.desktop",
            "\t*photopea.desktop",
            "",
            "image/tiff:",
            "\t*org.gnome.Evince.desktop",
            "\t photopea.desktop",
            "",
        ]
    );
    let none = Commands::MimeType(MimeTypeCommandArgs { id: None }).process(&mut a, &desktop_entries(), &info());
    assert!(matches!(none, Err(MimeAssocError::NoMimeTypeGiven)));
    let bad = Commands::MimeType(MimeTypeCommandArgs { id: Some("image".to_string()) }).process(&mut a, &desktop_entries(), &info());
    assert!(matches!(bad, Err(MimeAssocError::InvalidMimeType(t)) if t == "image"));
}

#[test]
fn application_commands_sort_mime_types_keeping_repeats() {
    let mut a = associations();
    let args = ApplicationCommandArgs { id: Some("photopea".to_string()) };
    let out = Commands::Application(args).process(&mut a, &desktop_entries(), &info()).unwrap();
    assert_eq!(show(&out), vec!["photopea.desktop", "\t*image/bmp", "\t*image/bmp", "\t image/tiff"]);
    let missing = Commands::Application(ApplicationCommandArgs { id: Some("nothing".to_string()) }).process(&mut a, &desktop_entries(), &info());
    assert!(matches!(missing, Err(MimeAssocError::NotInstalled(t)) if t == "nothing"));
    let all = Commands::Applications.process(&mut a, &desktop_entries(), &info()).unwrap();
    let shown = show(&all);
    assert_eq!(shown[0], "org.gnome.Evince.desktop");
    assert_eq!(shown.iter().filter(|l| l.as_str() == "\n").count(), 3);
}

#[test]
fn set_command_assigns_and_reports() {
    let mut a = associations();
    let args = SetCommandArgs { dry_run: true, desktop_entry: "photopea.desktop".to_string(), mime_types: vec!["image/tiff".to_string()] };
    let cmd = Commands::SetDefault(args);
    assert!(!cmd.persists_changes());
    let out = cmd.process(&mut a, &desktop_entries(), &info()).unwrap();
    assert_eq!(show(&out), vec!["Assigned photopea.desktop to:", "\timage/tiff"]);
    assert_eq!(a.default_application_for(&mime("image/tiff")), Some(&id("photopea.desktop")));

    let unsupported = Commands::SetDefault(SetCommandArgs {
        dry_run: false,
        desktop_entry: "eog".to_string(),
        mime_types: vec!["image/tiff".to_string()],
    });
    assert!(unsupported.persists_changes());
    assert_eq!(
        unsupported.process(&mut a, &desktop_entries(), &info()).err(),
        Some(MimeAssocError::UnsupportedMimeType("org.gnome.eog.desktop".to_string(), "image/tiff".to_string()))
    );
}

#[test]
fn reset_command_restores_system_defaults() {
    let mut a = associations();
    let args = ResetCommandArgs { dry_run: false, mime_types: vec!["image/bmp".to_string(), "image/tiff".to_string()] };
    let out = Commands::Reset(args).process(&mut a, &desktop_entries(), &info()).unwrap();
    assert_eq!(show(&out), vec!["Reset image/bmp, image/tiff"]);
    assert_eq!(a.default_application_for(&mime("image/bmp")), Some(&id("org.gnome.eog.desktop")));
    let bad = Commands::Reset(ResetCommandArgs { dry_run: false, mime_types: vec!["nope".to_string()] }).process(&mut a, &desktop_entries(), &info());
    assert!(matches!(bad, Err(MimeAssocError::InvalidMimeType(t)) if t == "nope"));
}

#[test]
fn configuration_command_lists_sources() {
    let mut a = associations();
    let out = Commands::Configuration.process(&mut a, &desktop_entries(), &info()).unwrap();
    assert_eq!(show(&out), vec!["mimeapps.lists:", "\tuser.list", "\tsys.list", "\nDesktop entry dirs:", "\tapps"]);
}

#[test]
fn undo_restores_the_assignment_in_effect() {
    let mut stores = Stores::new(associations(), desktop_entries(), info());
    let bmp = mime("image/bmp");
    let tiff = mime("image/tiff");
    assert!(!stores.can_undo());

    stores.assign_application_to_mimetype(&tiff, &id("photopea.desktop")).unwrap();
    assert_eq!(stores.mime_associations_store().default_application_for(&tiff), Some(&id("photopea.desktop")));
    assert!(stores.is_dirty());
    stores.undo().unwrap();
    assert_eq!(stores.mime_associations_store().default_application_for(&tiff), Some(&id("org.gnome.Evince.desktop")));

    stores.remove_assigned_application_from_mimetype(&bmp).unwrap();
    assert_eq!(stores.mime_associations_store().default_application_for(&bmp), Some(&id("org.gnome.eog.desktop")));
    stores.undo().unwrap();
    assert_eq!(stores.mime_associations_store().default_application_for(&bmp), Some(&id("photopea.desktop")));
    assert!(!stores.can_undo());

    assert_eq!(
        stores.assign_application_to_mimetype(&tiff, &id("nothing.desktop")),
        Err(MimeAssocError::UnrecognizedDesktopEntry("nothing.desktop".to_string()))
    );
    assert!(!stores.can_undo());
}

#[test]
fn undo_puts_back_a_reset_user_scope() {
    let mut stores = Stores::new(associations(), desktop_entries(), info());
    let bmp = mime("image/bmp");
    stores.reset_user_default_application_assignments().unwrap();
    assert_eq!(stores.mime_associations_store().user_default_application_for(&bmp), None);
    stores.undo().unwrap();
    assert_eq!(stores.mime_associations_store().user_default_application_for(&bmp), Some(&id("photopea.desktop")));

    let pruned = stores.prune_orphaned_application_assignments().unwrap();
    assert!(pruned.is_empty());
    stores.undo().unwrap();
    assert!(!stores.can_undo());
}

#[test]
fn strings_name_the_application() {
    let entries = desktop_entries();
    let photopea = entries.get_desktop_entry(&id("photopea.desktop")).unwrap();
    let bmp = mime("image/bmp");
    assert_eq!(
        Strings::single_default_application_info_message(photopea, &bmp),
        "Photopea is the only available handler for image/bmp. It is assigned by the system, and can't be unassigned."
    );
    assert_eq!(Strings::application_is_system_default_handler_for_mimetype_long(photopea, &bmp), "Photopea is the system default handler for image/bmp");
    assert_eq!(Strings::application_is_system_default_handler_for_mimetype_short(&bmp), "System default handler for image/bmp");
    assert_eq!(Strings::error_dialog_body("Failed", "why"), "Failed\nwhy");
    assert_eq!(Strings::assign_no_application_list_item(), "None");
    assert_eq!(Strings::about_window_credits().len(), 6);
    assert_eq!(Strings::cancel(), "Cancel");
}

#[test]
fn filter_precision_follows_byte_length() {
    assert_eq!(FilterPrecisionChange::change_for(Some("ab"), Some("abc")), FilterPrecisionChange::MorePrecise);
    assert_eq!(FilterPrecisionChange::change_for(Some("abc"), Some("ab")), FilterPrecisionChange::LessPrecise);
    assert_eq!(FilterPrecisionChange::change_for(Some("ab"), Some("é")), FilterPrecisionChange::Unchanged);
    assert_eq!(FilterPrecisionChange::change_for(Some("a"), None), FilterPrecisionChange::LessPrecise);
    assert_eq!(FilterPrecisionChange::change_for(None, Some("a")), FilterPrecisionChange::MorePrecise);
    assert_eq!(FilterPrecisionChange::change_for(None, None), FilterPrecisionChange::Unchanged);
}

#[test]
fn cli_without_a_command_runs_nothing() {
    let mut a = associations();
    let cli = Cli { json: false, command: None };
    assert!(matches!(cli.process(&mut a, &desktop_entries(), &info()), Ok(None)));
    assert!(!a.is_dirty());
}

#[test]
fn cli_runs_its_command() {
    let mut a = associations();
    let cli = Cli { json: true, command: Some(Commands::MimeTypes) };
    let out = cli.process(&mut a, &desktop_entries(), &info()).unwrap().unwrap();
    assert_eq!(show(&out), vec!["image/bmp", "image/tiff"]);
    let refused = Cli { json: false, command: Some(Commands::MimeType(MimeTypeCommandArgs { id: None })) };
    assert_eq!(refused.process(&mut a, &desktop_entries(), &info()).err(), Some(MimeAssocError::NoMimeTypeGiven));
}

#[test]
fn select_all_and_none_follow_the_assignments() {
    let a = associations();
    let photopea = id("photopea.desktop");
    assert_eq!(select_all_and_none_availability(&a, &vec![mime("image/tiff"), mime("image/bmp")], &photopea), (true, true));
    assert_eq!(select_all_and_none_availability(&a, &vec![mime("image/bmp"), mime("image/png")], &id("org.gnome.eog.desktop")), (true, false));
    assert_eq!(select_all_and_none_availability(&a, &vec![mime("image/bmp")], &photopea), (false, false));
    let evince = id("org.gnome.Evince.desktop");
    assert_eq!(select_all_and_none_availability(&a, &vec![mime("image/tiff"), mime("image/tiff")], &evince), (false, true));
}

#[test]
fn applications_are_listed_by_name_ignoring_case() {
    let store = DesktopEntryStore::load(vec![DesktopEntryScope::load(
        "apps",
        vec![
            entry("apps/b.desktop", "[Desktop Entry]\nName=beta\nExec=b\nType=Application\nIcon=application-x-executable\nMimeType=image/png;\n"),
            entry("apps/a.desktop", "[Desktop Entry]\nName=Gamma\nExec=a\nType=Application\nIcon=application-x-executable\nMimeType=image/png;\n"),
            entry("apps/c.desktop", "[Desktop Entry]\nName=Alpha\nExec=c\nType=Application\nIcon=application-x-executable\n"),
            entry("apps/d.desktop", "[Desktop Entry]\nName=BETA\nExec=d\nType=Application\nIcon=application-x-executable\nMimeType=text/plain;\n"),
        ],
    )]);
    let ids = |v: Vec<&DesktopEntry>| v.iter().map(|e| e.id().id().to_string()).collect::<Vec<_>>();
    // c.desktop declares no mime type; b and d share a name and go by id
    assert_eq!(ids(applications_to_list(&store)), vec!["b.desktop", "d.desktop", "a.desktop"]);
    assert_eq!(ids(applications_supporting_by_name(&store, &mime("image/png"))), vec!["b.desktop", "a.desktop"]);
    assert!(applications_supporting_by_name(&store, &mime("audio/ogg")).is_empty());
}

#[test]
fn listed_mime_types_are_those_some_application_declares() {
    let mut scopes = vec![MimeTypeAssociationScope::load("extra.list", false, &lines("[Default Applications]\ntext/plain=gedit.desktop\n")).unwrap()];
    scopes.extend(vec![
        MimeTypeAssociationScope::load("user.list", true, &lines("[Default Applications]\nimage/bmp=photopea.desktop\n")).unwrap(),
        MimeTypeAssociationScope::load("sys.list", false, &lines("[Default Applications]\nimage/tiff=org.gnome.Evince.desktop\n")).unwrap(),
    ]);
    let a = MimeTypeAssociationStore::load(scopes);
    let names: Vec<&str> = mime_types_to_list(&a, &desktop_entries()).iter().map(|m| m.id()).collect();
    assert_eq!(names, vec!["image/bmp", "image/tiff"]);
}
