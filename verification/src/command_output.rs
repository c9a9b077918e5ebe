//! What the command line tool reports for each command, and how it is shown as text.

use vstd::prelude::*;
use crate::desktop_entry::DesktopEntryId;
use crate::mime_info::MimeTypeInfo;
use crate::mime_type::MimeType;
use crate::text::{concat_str, join};

verus! {

/// A mime type, with what the shared mime info database says of it.
pub struct MimeTypesCommandOutput {
    pub mime_type: MimeType,
    pub mime_info: Option<MimeTypeInfo>,
}

/// An application that declares a mime type, and whether it opens it.
pub struct MimeTypeCommandHandlerInfo {
    pub desktop_entry: DesktopEntryId,
    pub is_default_handler: bool,
}

/// A mime type, what the database says of it, and the applications that declare it.
pub struct MimeTypeCommandOutput {
    pub mime_type: MimeType,
    pub mime_info: Option<MimeTypeInfo>,
    pub handler_info: Vec<MimeTypeCommandHandlerInfo>,
}

/// A mime type an application declares, and whether the application opens it.
pub struct MimeInfo {
    pub mime_type: MimeType,
    pub is_default_handler: bool,
}

/// An application and the mime types it declares.
pub struct ApplicationCommandOutput {
    pub desktop_entry: DesktopEntryId,
    pub mime_info: Vec<MimeInfo>,
}

/// The mime types an application was made to open.
pub struct SetDefaultHandlerCommandOutput {
    pub desktop_entry: DesktopEntryId,
    pub mime_types: Vec<MimeType>,
}

/// The mime types whose user assignments were removed.
pub struct ResetDefaultHandlerCommandOutput {
    pub reset_mime_types: Vec<MimeType>,
}

/// Where the associations and the desktop entries were read from, in chain order.
pub struct ConfigurationCommandOutput {
    pub mime_association_scope_paths: Vec<String>,
    pub desktop_entry_scope_paths: Vec<String>,
}

/// What a command reports.
pub enum CommandOutput {
    MimeTypes(Vec<MimeTypesCommandOutput>),
    MimeType(Vec<MimeTypeCommandOutput>),
    Applications(Vec<ApplicationCommandOutput>),
    Application(ApplicationCommandOutput),
    SetDefault(SetDefaultHandlerCommandOutput),
    Reset(ResetDefaultHandlerCommandOutput),
    Configuration(ConfigurationCommandOutput),
}

pub open spec fn tab_star() -> Seq<char> {
    seq!['\t', '*']
}

pub open spec fn tab_space() -> Seq<char> {
    seq!['\t', ' ']
}

/// `\t*` before what is the default, `\t ` before what is not.
pub open spec fn marked(is_default: bool, text: Seq<char>) -> Seq<char> {
    (if is_default { tab_star() } else { tab_space() }) + text
}

pub open spec fn mime_types_lines(output: Seq<MimeTypesCommandOutput>) -> Seq<Seq<char>> {
    output.map_values(|o: MimeTypesCommandOutput| o.mime_type@)
}

pub open spec fn handler_lines(handlers: Seq<MimeTypeCommandHandlerInfo>) -> Seq<Seq<char>> {
    handlers.map_values(|h: MimeTypeCommandHandlerInfo| marked(h.is_default_handler, h.desktop_entry@))
}

/// Each mime type followed by `:`, its applications, marked, and a blank line.
pub open spec fn mime_type_lines(output: Seq<MimeTypeCommandOutput>) -> Seq<Seq<char>>
    decreases output.len(),
{
    if output.len() == 0 {
        Seq::empty()
    } else {
        let o = output.last();
        mime_type_lines(output.drop_last()) + seq![o.mime_type@ + seq![':']] + handler_lines(o.handler_info@) + seq![Seq::<char>::empty()]
    }
}

/// The application's id, then its mime types, marked.
pub open spec fn application_lines(output: ApplicationCommandOutput) -> Seq<Seq<char>> {
    seq![output.desktop_entry@] + output.mime_info@.map_values(|m: MimeInfo| marked(m.is_default_handler, m.mime_type@))
}

/// Each application as `application_lines` shows it, followed by two blank lines.
pub open spec fn applications_lines(output: Seq<ApplicationCommandOutput>) -> Seq<Seq<char>>
    decreases output.len(),
{
    if output.len() == 0 {
        Seq::empty()
    } else {
        applications_lines(output.drop_last()) + application_lines(output.last()) + seq![seq!['\n']]
    }
}

pub open spec fn no_assignment_text() -> Seq<char> {
    seq!['N', 'o', ' ', 'm', 'i', 'm', 'e', ' ', 't', 'y', 'p', 'e', 's', ' ', 'w', 'e', 'r', 'e', ' ', 'a', 's', 's', 'i', 'g', 'n', 'e', 'd', ' ', 't', 'o', ' ']
}

pub open spec fn assigned_text() -> Seq<char> {
    seq!['A', 's', 's', 'i', 'g', 'n', 'e', 'd', ' ']
}

pub open spec fn to_text() -> Seq<char> {
    seq![' ', 't', 'o', ':']
}

pub open spec fn mime_views_of(v: Seq<MimeType>) -> Seq<Seq<char>> {
    v.map_values(|m: MimeType| m@)
}

pub open spec fn set_lines(output: SetDefaultHandlerCommandOutput) -> Seq<Seq<char>> {
    if output.mime_types@.len() == 0 {
        seq![no_assignment_text() + output.desktop_entry@]
    } else {
        seq![assigned_text() + output.desktop_entry@ + to_text()] + output.mime_types@.map_values(|m: MimeType| seq!['\t'] + m@)
    }
}

pub open spec fn no_reset_text() -> Seq<char> {
    seq!['N', 'o', ' ', 'm', 'i', 'm', 'e', 't', 'y', 'p', 'e', 's', ' ', 'w', 'e', 'r', 'e', ' ', 'r', 'e', 's', 'e', 't', '.']
}

pub open spec fn reset_text() -> Seq<char> {
    seq!['R', 'e', 's', 'e', 't', ' ']
}

pub open spec fn reset_lines(output: ResetDefaultHandlerCommandOutput) -> Seq<Seq<char>> {
    if output.reset_mime_types@.len() == 0 {
        seq![no_reset_text()]
    } else {
        seq![reset_text() + join(mime_views_of(output.reset_mime_types@), seq![',', ' '])]
    }
}

pub open spec fn mimeapps_lists_text() -> Seq<char> {
    seq!['m', 'i', 'm', 'e', 'a', 'p', 'p', 's', '.', 'l', 'i', 's', 't', 's', ':']
}

pub open spec fn desktop_entry_dirs_text() -> Seq<char> {
    seq!['\n', 'D', 'e', 's', 'k', 't', 'o', 'p', ' ', 'e', 'n', 't', 'r', 'y', ' ', 'd', 'i', 'r', 's', ':']
}

pub open spec fn tabbed(v: Seq<String>) -> Seq<Seq<char>> {
    v.map_values(|p: String| seq!['\t'] + p@)
}

pub open spec fn configuration_lines(output: ConfigurationCommandOutput) -> Seq<Seq<char>> {
    seq![mimeapps_lists_text()] + tabbed(output.mime_association_scope_paths@)
        + seq![desktop_entry_dirs_text()] + tabbed(output.desktop_entry_scope_paths@)
}

/// The lines that show `output`.
pub open spec fn output_lines(output: CommandOutput) -> Seq<Seq<char>> {
    match output {
        CommandOutput::MimeTypes(o) => mime_types_lines(o@),
        CommandOutput::MimeType(o) => mime_type_lines(o@),
        CommandOutput::Applications(o) => applications_lines(o@),
        CommandOutput::Application(o) => application_lines(o),
        CommandOutput::SetDefault(o) => set_lines(o),
        CommandOutput::Reset(o) => reset_lines(o),
        CommandOutput::Configuration(o) => configuration_lines(o),
    }
}

pub open spec fn string_seq_views(v: Seq<String>) -> Seq<Seq<char>> {
    v.map_values(|s: String| s@)
}

fn marked_line(is_default: bool, text: &str) -> (r: String)
    ensures
        r@ == marked(is_default, text@),
{
    let star = "\t*";
    let space = "\t ";
    proof {
        reveal_strlit("\t*");
        reveal_strlit("\t ");
        assert(star@ =~= tab_star());
        assert(space@ =~= tab_space());
    }
    if is_default {
        concat_str(star, text)
    } else {
        concat_str(space, text)
    }
}

fn tabbed_line(text: &str) -> (r: String)
    ensures
        r@ == seq!['\t'] + text@,
{
    let tab = "\t";
    proof {
        reveal_strlit("\t");
        assert(tab@ =~= seq!['\t']);
    }
    concat_str(tab, text)
}

/// What shows a command's output: the lines to print for it.
pub trait CommandOutputConsumer {
    fn process(&self, command_output: &CommandOutput) -> Vec<String>;
}

/// Shows command output as lines of text, each printed on its own.
pub struct DefaultCommandOutputConsumer {}

impl CommandOutputConsumer for DefaultCommandOutputConsumer {
    /// The lines that show `command_output`.
    fn process(&self, command_output: &CommandOutput) -> (r: Vec<String>)
        ensures
            string_seq_views(r@) == output_lines(*command_output),
    {
        match command_output {
            CommandOutput::MimeTypes(output) => Self::display_mime_types(output),
            CommandOutput::MimeType(output) => Self::display_mime_type(output),
            CommandOutput::Applications(output) => Self::display_applications(output),
            CommandOutput::Application(output) => Self::display_application(output),
            CommandOutput::SetDefault(output) => Self::display_set(output),
            CommandOutput::Reset(output) => Self::display_reset(output),
            CommandOutput::Configuration(output) => Self::display_configuration(output),
        }
    }
}

impl DefaultCommandOutputConsumer {
    /// Each mime type on a line.
    pub fn display_mime_types(output: &Vec<MimeTypesCommandOutput>) -> (r: Vec<String>)
        ensures
            string_seq_views(r@) == mime_types_lines(output@),
    {
        let mut r: Vec<String> = Vec::new();
        let mut i: usize = 0;
        while i < output.len()
            invariant
                i <= output@.len(),
                string_seq_views(r@) == mime_types_lines(output@).take(i as int),
            decreases output@.len() - i,
        {
            let ghost before = string_seq_views(r@);
            r.push(output[i].mime_type.to_string());
            assert(string_seq_views(r@) =~= before.push(output@[i as int].mime_type@));
            assert(mime_types_lines(output@).take(i + 1) =~= mime_types_lines(output@).take(i as int).push(output@[i as int].mime_type@));
            i = i + 1;
        }
        assert(mime_types_lines(output@).take(i as int) =~= mime_types_lines(output@));
        r
    }

    /// Each mime type followed by `:`, its applications (`*` marking the one that opens it),
    /// and a blank line.
    pub fn display_mime_type(output: &Vec<MimeTypeCommandOutput>) -> (r: Vec<String>)
        ensures
            string_seq_views(r@) == mime_type_lines(output@),
    {
        let mut r: Vec<String> = Vec::new();
        let mut i: usize = 0;
        let colon = ":";
        proof {
            reveal_strlit(":");
            assert(colon@ =~= seq![':']);
        }
        assert(output@.take(0) =~= Seq::<MimeTypeCommandOutput>::empty());
        while i < output.len()
            invariant
                i <= output@.len(),
                colon@ == seq![':'],
                string_seq_views(r@) == mime_type_lines(output@.take(i as int)),
            decreases output@.len() - i,
        {
            let entry = &output[i];
            let ghost start = string_seq_views(r@);
            r.push(concat_str(entry.mime_type.id(), colon));
            let mut j: usize = 0;
            while j < entry.handler_info.len()
                invariant
                    j <= entry.handler_info@.len(),
                    string_seq_views(r@) == start + seq![entry.mime_type@ + seq![':']] + handler_lines(entry.handler_info@).take(j as int),
                decreases entry.handler_info@.len() - j,
            {
                let h = &entry.handler_info[j];
                let ghost before = string_seq_views(r@);
                let line = marked_line(h.is_default_handler, h.desktop_entry.id());
                r.push(line);
                assert(string_seq_views(r@) =~= before.push(line@));
                assert(handler_lines(entry.handler_info@).take(j + 1) =~= handler_lines(entry.handler_info@).take(j as int).push(line@));
                j = j + 1;
            }
            assert(handler_lines(entry.handler_info@).take(j as int) =~= handler_lines(entry.handler_info@));
            let ghost before = string_seq_views(r@);
            r.push(String::new());
            assert(string_seq_views(r@) =~= before.push(Seq::<char>::empty()));
            assert(output@.take(i + 1).drop_last() =~= output@.take(i as int));
            assert(output@.take(i + 1).last() == output@[i as int]);
            i = i + 1;
        }
        assert(output@.take(i as int) =~= output@);
        r
    }

    /// Each application as `display_application` shows it, followed by two blank lines.
    pub fn display_applications(output: &Vec<ApplicationCommandOutput>) -> (r: Vec<String>)
        ensures
            string_seq_views(r@) == applications_lines(output@),
    {
        let mut r: Vec<String> = Vec::new();
        let mut i: usize = 0;
        let newline = "\n";
        proof {
            reveal_strlit("\n");
            assert(newline@ =~= seq!['\n']);
        }
        assert(output@.take(0) =~= Seq::<ApplicationCommandOutput>::empty());
        while i < output.len()
            invariant
                i <= output@.len(),
                newline@ == seq!['\n'],
                string_seq_views(r@) == applications_lines(output@.take(i as int)),
            decreases output@.len() - i,
        {
            let ghost start = string_seq_views(r@);
            let lines = Self::display_application(&output[i]);
            let mut j: usize = 0;
            while j < lines.len()
                invariant
                    j <= lines@.len(),
                    string_seq_views(r@) == start + string_seq_views(lines@).take(j as int),
                decreases lines@.len() - j,
            {
                let ghost before = string_seq_views(r@);
                r.push(lines[j].clone());
                assert(string_seq_views(r@) =~= before.push(lines@[j as int]@));
                assert(string_seq_views(lines@).take(j + 1) =~= string_seq_views(lines@).take(j as int).push(lines@[j as int]@));
                j = j + 1;
            }
            assert(string_seq_views(lines@).take(j as int) =~= string_seq_views(lines@));
            let ghost before = string_seq_views(r@);
            r.push(newline.to_owned());
            assert(string_seq_views(r@) =~= before.push(seq!['\n']));
            assert(output@.take(i + 1).drop_last() =~= output@.take(i as int));
            assert(output@.take(i + 1).last() == output@[i as int]);
            i = i + 1;
        }
        assert(output@.take(i as int) =~= output@);
        r
    }

    /// The application's id, then each of its mime types (`*` marking those it opens).
    pub fn display_application(output: &ApplicationCommandOutput) -> (r: Vec<String>)
        ensures
            string_seq_views(r@) == application_lines(*output),
    {
        let mut r: Vec<String> = Vec::new();
        r.push(output.desktop_entry.to_string());
        let ghost head = string_seq_views(r@);
        let ghost tail = output.mime_info@.map_values(|m: MimeInfo| marked(m.is_default_handler, m.mime_type@));
        let mut j: usize = 0;
        while j < output.mime_info.len()
            invariant
                j <= output.mime_info@.len(),
                head == seq![output.desktop_entry@],
                tail == output.mime_info@.map_values(|m: MimeInfo| marked(m.is_default_handler, m.mime_type@)),
                string_seq_views(r@) == head + tail.take(j as int),
            decreases output.mime_info@.len() - j,
        {
            let m = &output.mime_info[j];
            let ghost before = string_seq_views(r@);
            let line = marked_line(m.is_default_handler, m.mime_type.id());
            r.push(line);
            assert(string_seq_views(r@) =~= before.push(line@));
            assert(tail.take(j + 1) =~= tail.take(j as int).push(line@));
            j = j + 1;
        }
        assert(tail.take(j as int) =~= tail);
        r
    }

    /// Which mime types the application was made to open.
    pub fn display_set(output: &SetDefaultHandlerCommandOutput) -> (r: Vec<String>)
        ensures
            string_seq_views(r@) == set_lines(*output),
    {
        let mut r: Vec<String> = Vec::new();
        if output.mime_types.len() == 0 {
            let none = "No mime types were assigned to ";
            proof {
                reveal_strlit("No mime types were assigned to ");
                assert(none@ =~= no_assignment_text());
            }
            r.push(concat_str(none, output.desktop_entry.id()));
            assert(string_seq_views(r@) =~= set_lines(*output));
            return r;
        }
        let assigned = "Assigned ";
        let to = " to:";
        proof {
            reveal_strlit("Assigned ");
            reveal_strlit(" to:");
            assert(assigned@ =~= assigned_text());
            assert(to@ =~= to_text());
        }
        let head = concat_str(assigned, output.desktop_entry.id());
        r.push(concat_str(head.as_str(), to));
        let ghost first = string_seq_views(r@);
        let ghost tail = output.mime_types@.map_values(|m: MimeType| seq!['\t'] + m@);
        let mut j: usize = 0;
        while j < output.mime_types.len()
            invariant
                j <= output.mime_types@.len(),
                tail == output.mime_types@.map_values(|m: MimeType| seq!['\t'] + m@),
                string_seq_views(r@) == first + tail.take(j as int),
            decreases output.mime_types@.len() - j,
        {
            let ghost before = string_seq_views(r@);
            let line = tabbed_line(output.mime_types[j].id());
            r.push(line);
            assert(string_seq_views(r@) =~= before.push(line@));
            assert(tail.take(j + 1) =~= tail.take(j as int).push(line@));
            j = j + 1;
        }
        assert(tail.take(j as int) =~= tail);
        r
    }

    /// Which mime types were reset, separated by `, `.
    pub fn display_reset(output: &ResetDefaultHandlerCommandOutput) -> (r: Vec<String>)
        ensures
            string_seq_views(r@) == reset_lines(*output),
    {
        let mut r: Vec<String> = Vec::new();
        if output.reset_mime_types.len() == 0 {
            let none = "No mimetypes were reset.";
            proof {
                reveal_strlit("No mimetypes were reset.");
                assert(none@ =~= no_reset_text());
            }
            r.push(none.to_owned());
            assert(string_seq_views(r@) =~= reset_lines(*output));
            return r;
        }
        let reset = "Reset ";
        let sep = ", ";
        proof {
            reveal_strlit("Reset ");
            reveal_strlit(", ");
            assert(reset@ =~= reset_text());
            assert(sep@ =~= seq![',', ' ']);
        }
        let ghost ms = mime_views_of(output.reset_mime_types@);
        let mut joined = output.reset_mime_types[0].to_string();
        let mut j: usize = 1;
        assert(ms.take(1) =~= seq![ms[0]]);
        while j < output.reset_mime_types.len()
            invariant
                1 <= j <= output.reset_mime_types@.len(),
                ms == mime_views_of(output.reset_mime_types@),
                sep@ == seq![',', ' '],
                joined@ == join(ms.take(j as int), seq![',', ' ']),
            decreases output.reset_mime_types@.len() - j,
        {
            joined.append(sep);
            joined.append(output.reset_mime_types[j].id());
            assert(ms.take(j + 1).drop_last() =~= ms.take(j as int));
            assert(ms.take(j + 1).last() == ms[j as int]);
            j = j + 1;
        }
        assert(ms.take(j as int) =~= ms);
        r.push(concat_str(reset, joined.as_str()));
        assert(string_seq_views(r@) =~= reset_lines(*output));
        r
    }

    /// The files of the associations, then the directories of the desktop entries.
    pub fn display_configuration(output: &ConfigurationCommandOutput) -> (r: Vec<String>)
        ensures
            string_seq_views(r@) == configuration_lines(*output),
    {
        let lists = "mimeapps.lists:";
        let dirs = "\nDesktop entry dirs:";
        proof {
            reveal_strlit("mimeapps.lists:");
            reveal_strlit("\nDesktop entry dirs:");
            assert(lists@ =~= mimeapps_lists_text());
            assert(dirs@ =~= desktop_entry_dirs_text());
        }
        let mut r: Vec<String> = Vec::new();
        r.push(lists.to_owned());
        append_tabbed(&mut r, &output.mime_association_scope_paths);
        let ghost before = string_seq_views(r@);
        r.push(dirs.to_owned());
        assert(string_seq_views(r@) =~= before.push(desktop_entry_dirs_text()));
        append_tabbed(&mut r, &output.desktop_entry_scope_paths);
        assert(string_seq_views(r@) =~= configuration_lines(*output));
        r
    }
}

/// Appends each path, after a tab.
fn append_tabbed(r: &mut Vec<String>, paths: &Vec<String>)
    ensures
        string_seq_views(final(r)@) == string_seq_views(old(r)@) + tabbed(paths@),
{
    let ghost start = string_seq_views(r@);
    let mut j: usize = 0;
    while j < paths.len()
        invariant
            j <= paths@.len(),
            string_seq_views(r@) == start + tabbed(paths@).take(j as int),
        decreases paths@.len() - j,
    {
        let ghost before = string_seq_views(r@);
        let line = tabbed_line(paths[j].as_str());
        r.push(line);
        assert(string_seq_views(r@) =~= before.push(line@));
        assert(tabbed(paths@).take(j + 1) =~= tabbed(paths@).take(j as int).push(line@));
        j = j + 1;
    }
    assert(tabbed(paths@).take(j as int) =~= tabbed(paths@));
}

} // verus!
