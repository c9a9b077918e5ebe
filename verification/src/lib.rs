//! Inspect and edit the desktop's mime type to application associations:
//! `.desktop` entries, `mimeapps.list` association scopes and the
//! freedesktop.org shared mime info database.

pub mod app_id;
pub mod association_store;
pub mod assoc;
pub mod command_output;
pub mod commands;
pub mod desktop_entry;
pub mod detail;
pub mod desktop_entry_store;
pub mod error;
pub mod filter;
pub mod listing;
pub mod mime_associations;
pub mod mime_info;
pub mod mime_type;
pub mod mime_type_association_store;
pub mod stores;
pub mod strings;
pub mod text;

pub use error::MimeAssocError;
pub use mime_type::MimeType;
