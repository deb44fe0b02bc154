//! Reading and editing OpenSSH client configuration files.
//!
//! The library parses the `Host` blocks of an ssh_config text into host
//! entries, renders entries as new blocks, and rewrites or removes a single
//! block while leaving every other line of the file as it was.

pub mod text;
pub mod number;
pub mod host;
pub mod parse;
pub mod render;
pub mod error;
pub mod edit;
pub mod entry;
pub mod laws;
pub mod laws_edit;
pub mod laws_values;
pub mod laws_parse;
