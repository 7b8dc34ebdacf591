//! Named file selections ("parts") kept in a TOML document: locating and
//! decoding the document, compiling the rules that select and reject paths
//! into pattern sets, and deciding which visited entries a part selects.
//!
//! Reading files, walking directories and writing to the terminal are left
//! to the caller: the functions here take what was read or visited as plain
//! values and return what is to be written.

pub mod text;
pub mod error;
pub mod source;
pub mod toml_tree;
pub mod config;
pub mod document;
pub mod resolve;
pub mod pattern;
pub mod walk;
pub mod listing;
pub mod status;
