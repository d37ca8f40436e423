//! Errors of the database readers.

use vstd::prelude::*;

verus! {

/// Why a database could not be opened or read.
#[derive(Debug, Clone, Copy, PartialEq, Eq, Structural)]
pub enum DbError {
    /// The buffer ends before the header does.
    UnexpectedEof,
    /// The buffer does not start with the expected signature.
    BadMagic,
    /// A lookup reached a position or a value that the format does not allow:
    /// an offset past the end of the buffer, an arithmetic overflow, a string
    /// without terminator or a cycle of redirections.
    Corrupt,
}

} // verus!
