//! The texts the editor shows.

use vstd::prelude::*;
use crate::desktop_entry::{sort_name, DesktopEntry};
use crate::mime_type::MimeType;
use crate::text::concat_str;

verus! {

pub open spec fn only_handler_text() -> Seq<char> {
    seq![' ', 'i', 's', ' ', 't', 'h', 'e', ' ', 'o', 'n', 'l', 'y', ' ', 'a', 'v', 'a', 'i', 'l', 'a', 'b', 'l', 'e', ' ',
        'h', 'a', 'n', 'd', 'l', 'e', 'r', ' ', 'f', 'o', 'r', ' ']
}

pub open spec fn assigned_by_system_text() -> Seq<char> {
    seq!['.', ' ', 'I', 't', ' ', 'i', 's', ' ', 'a', 's', 's', 'i', 'g', 'n', 'e', 'd', ' ', 'b', 'y', ' ', 't', 'h', 'e', ' ',
        's', 'y', 's', 't', 'e', 'm', ',', ' ', 'a', 'n', 'd', ' ', 'c', 'a', 'n', '\'', 't', ' ', 'b', 'e', ' ',
        'u', 'n', 'a', 's', 's', 'i', 'g', 'n', 'e', 'd', '.']
}

pub open spec fn system_default_text() -> Seq<char> {
    seq![' ', 'i', 's', ' ', 't', 'h', 'e', ' ', 's', 'y', 's', 't', 'e', 'm', ' ', 'd', 'e', 'f', 'a', 'u', 'l', 't', ' ',
        'h', 'a', 'n', 'd', 'l', 'e', 'r', ' ', 'f', 'o', 'r', ' ']
}

pub open spec fn short_system_default_text() -> Seq<char> {
    seq!['S', 'y', 's', 't', 'e', 'm', ' ', 'd', 'e', 'f', 'a', 'u', 'l', 't', ' ', 'h', 'a', 'n', 'd', 'l', 'e', 'r', ' ', 'f', 'o', 'r', ' ']
}

/// The texts of the editor.
pub struct Strings;

impl Strings {
    /// Shown beneath the applications of a mime type when only one installed application
    /// handles it, and the system assigns it.
    pub fn single_default_application_info_message(desktop_entry: &DesktopEntry, mime_type: &MimeType) -> (r: String)
        ensures
            r@ == sort_name(desktop_entry@) + only_handler_text() + mime_type@ + assigned_by_system_text(),
    {
        let middle = " is the only available handler for ";
        let end = ". It is assigned by the system, and can't be unassigned.";
        proof {
            reveal_strlit(" is the only available handler for ");
            reveal_strlit(". It is assigned by the system, and can't be unassigned.");
            assert(middle@ =~= only_handler_text());
            assert(end@ =~= assigned_by_system_text());
        }
        let a = concat_str(desktop_entry.sort_name(), middle);
        let b = concat_str(a.as_str(), mime_type.id());
        concat_str(b.as_str(), end)
    }

    /// Shown beside a mime type of an application when the system binds the mime type to it,
    /// so that the user cannot unassign it.
    pub fn application_is_system_default_handler_for_mimetype_long(desktop_entry: &DesktopEntry, mime_type: &MimeType) -> (r: String)
        ensures
            r@ == sort_name(desktop_entry@) + system_default_text() + mime_type@,
    {
        Self::application_is_system_default_handler_for_mimetype(desktop_entry, mime_type)
    }

    /// Shown beside a mime type of an application when the system binds the mime type to it.
    pub fn application_is_system_default_handler_for_mimetype(desktop_entry: &DesktopEntry, mime_type: &MimeType) -> (r: String)
        ensures
            r@ == sort_name(desktop_entry@) + system_default_text() + mime_type@,
    {
        let middle = " is the system default handler for ";
        proof {
            reveal_strlit(" is the system default handler for ");
            assert(middle@ =~= system_default_text());
        }
        let a = concat_str(desktop_entry.sort_name(), middle);
        concat_str(a.as_str(), mime_type.id())
    }

    /// The subtitle of an application that is the system default for the shown mime type.
    pub fn application_is_system_default_handler_for_mimetype_short(mime_type: &MimeType) -> (r: String)
        ensures
            r@ == short_system_default_text() + mime_type@,
    {
        let head = "System default handler for ";
        proof {
            reveal_strlit("System default handler for ");
            assert(head@ =~= short_system_default_text());
        }
        concat_str(head, mime_type.id())
    }

    /// The error dialog's body: the message, and the error on the next line.
    pub fn error_dialog_body(message: &str, error: &str) -> (r: String)
        ensures
            r@ == message@ + seq!['\n'] + error@,
    {
        let nl = "\n";
        proof {
            reveal_strlit("\n");
            assert(nl@ =~= seq!['\n']);
        }
        let a = concat_str(message, nl);
        concat_str(a.as_str(), error)
    }

    pub fn assign_no_application_list_item() -> (r: &'static str)
        ensures
            r@ == seq!['N', 'o', 'n', 'e'],
    {
        let r = "None";
        proof {
            reveal_strlit("None");
        }
        r
    }

    pub fn reset_user_default_application_assignments_dialog_title() -> (r: &'static str)
        ensures
            r@ == "Reset your application handler assignments?"@,
    {
        "Reset your application handler assignments?"
    }

    pub fn reset_user_default_application_assignments_dialog_body() -> (r: &'static str)
        ensures
            r@ == "This will clear any application assignments you have made and reset to system defaults."@,
    {
        "This will clear any application assignments you have made and reset to system defaults."
    }

    pub fn reset_user_default_application_assignments_dialog_action_proceed() -> (r: &'static str)
        ensures
            r@ == "Reset to System Defaults"@,
    {
        "Reset to System Defaults"
    }

    pub fn prune_orphaned_application_assignments_dialog_title() -> (r: &'static str)
        ensures
            r@ == "Clear orphaned application assignments?"@,
    {
        "Clear orphaned application assignments?"
    }

    pub fn prune_orphaned_application_assignments_dialog_body() -> (r: &'static str)
        ensures
            r@ == "This will remove any left-over application assignments from uninstalled applications."@,
    {
        "This will remove any left-over application assignments from uninstalled applications."
    }

    pub fn prune_orphaned_application_assignments_dialog_action_proceed() -> (r: &'static str)
        ensures
            r@ == "Clear"@,
    {
        "Clear"
    }

    pub fn error_dialog_title() -> (r: &'static str)
        ensures
            r@ == "Error"@,
    {
        "Error"
    }

    pub fn error_dialog_copy_to_clipboard() -> (r: &'static str)
        ensures
            r@ == "Copy to Clipboard"@,
    {
        "Copy to Clipboard"
    }

    pub fn about_window_release_notes() -> (r: &'static str)
        ensures
            r@ == "<ul>\n    <li>Nothing to see here folks, please disperse.</li>\n</ul>"@,
    {
        "<ul>\n    <li>Nothing to see here folks, please disperse.</li>\n</ul>"
    }

    pub fn about_window_credits_title() -> (r: &'static str)
        ensures
            r@ == "Standing on the shoulders of giants"@,
    {
        "Standing on the shoulders of giants"
    }

    /// The credits of the about window, one per line.
    pub fn about_window_credits() -> (r: Vec<&'static str>)
        ensures
            r@.len() == 6,
            r@[0]@ == "GTK https://www.gtk.org/"@,
            r@[1]@ == "GNOME https://www.gnome.org/"@,
            r@[2]@ == "Libadwaita https://gitlab.gnome.org/GNOME/libadwaita"@,
            r@[3]@ == "Workbench https://github.com/sonnyp/Workbench"@,
            r@[4]@ == "gtk-rs https://gtk-rs.org/"@,
            r@[5]@ == "And many more..."@,
    {
        let mut v: Vec<&'static str> = Vec::new();
        v.push("GTK https://www.gtk.org/");
        v.push("GNOME https://www.gnome.org/");
        v.push("Libadwaita https://gitlab.gnome.org/GNOME/libadwaita");
        v.push("Workbench https://github.com/sonnyp/Workbench");
        v.push("gtk-rs https://gtk-rs.org/");
        v.push("And many more...");
        v
    }

    pub fn cancel() -> (r: &'static str)
        ensures
            r@ == "Cancel"@,
    {
        "Cancel"
    }
}

} // verus!
