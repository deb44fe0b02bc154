//! Errors of the library.

use vstd::prelude::*;

verus! {

/// Why an edit or a new entry was refused.
#[derive(Debug)]
pub enum ConfigError {
    /// No block whose `Host` line names exactly this alias and nothing else.
    NoStandaloneBlock(String),
    /// Another entry already has this alias.
    AlreadyExists(String),
    /// The alias is empty after trimming.
    AliasRequired,
    /// The alias holds whitespace.
    AliasHasWhitespace,
    /// The port is not a decimal number that fits in 16 bits.
    InvalidPort(String),
}

} // verus!
