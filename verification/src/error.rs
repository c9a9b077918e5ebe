//! The errors of the library.

use vstd::prelude::*;

verus! {

/// Why an operation of the library refused its input.
#[derive(Debug, Clone, PartialEq, Eq)]
pub enum MimeAssocError {
    /// The text holds no `/`, or more than one: it is no mime type.
    InvalidMimeType(String),
    /// The text does not end with `.desktop`: it is no desktop entry id.
    InvalidDesktopEntryId(String),
    /// A line of a `[Desktop Entry]` section is not in the form `Name=value`.
    MalformedDesktopEntryLine(String),
    /// No file name can be taken from this path.
    NoFileName(String),
    /// A desktop entry file held no field in its `[Desktop Entry]` section.
    NoDesktopEntryFields,
    /// A desktop entry gives no `Exec` field.
    NoExecutableCommand,
    /// A line of a mimeapps list is neither a section, an association, a comment nor blank.
    MalformedAssociationLine(String),
    /// A `[Default Applications]` line names no desktop entry.
    EmptyDefaultApplicationLine(String),
    /// The desktop entry does not appear to be a launchable application.
    InvalidApplication(String),
    /// The desktop entry (first) does not declare the mime type (second).
    UnsupportedMimeType(String, String),
    /// No scope of the store may be changed by the user.
    NoUserScope,
    /// The scope loaded from this path may not be changed by the user.
    ScopeNotUserCustomizable(String),
    /// The desktop entry store holds no entry with this id.
    UnrecognizedDesktopEntry(String),
    /// The shared mime info XML could not be read; the reader's message.
    XmlRead(String),
    /// A reload handed a number of scopes other than the store holds.
    ScopeCountMismatch,
    /// A command that needs a mime type was given none.
    NoMimeTypeGiven,
    /// A command that needs a desktop entry was given none.
    NoDesktopEntryGiven,
    /// No installed application answers to this identifier.
    NotInstalled(String),
}

} // verus!
