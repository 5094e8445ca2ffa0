//! Error values shared by every fallible operation of the library.

use vstd::prelude::*;

verus! {

/// Kernel-wide error codes.
///
/// `InvArg` reports a malformed argument (a misaligned address, a bad range),
/// `NoMem` an exhausted heap, and `OutOfBounds` an index past a table's end,
/// which callers treat as a logic error rather than a recoverable condition.
/// The remaining variants belong to the surrounding kernel's device and
/// filesystem layers and are carried here so that every component shares one
/// error type.
#[derive(Clone, Copy, Debug, PartialEq, Eq, Structural)]
pub enum ErrorCode {
    InvArg,
    NoMem,
    OutOfBounds,
    Io,
    BadPath,
    DiskNotUs,
    FsNotUs,
    RdOnly,
    NoFdAvailable,
    NotFound,
    NoFs,
}

} // verus!
