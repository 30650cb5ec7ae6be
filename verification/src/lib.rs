//! Verified core of the Glyphwire Markdown editor.

pub mod browser;
pub mod cli;
pub mod find;
pub mod logo;
pub mod path;
pub mod save;
pub mod text;
pub mod workspace;
