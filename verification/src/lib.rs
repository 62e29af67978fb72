//! The note-keeping core of Lock Jaw: text rules, vault bookkeeping, WebDAV
//! naming and parsing, plugin bookkeeping and the view decisions of the UI.
pub mod text;
pub mod markdown;
pub mod path;
pub mod vault;
pub mod webdav;
pub mod plugin;
pub mod note;
pub mod labels;
pub mod sidebar;
pub mod theme;
pub mod config;
pub mod addons;
pub mod editor;
