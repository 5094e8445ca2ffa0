//! File-access modes shared by the filesystem layer.

use vstd::prelude::*;

verus! {

/// How a file is opened.
#[derive(Clone, Copy, Debug, PartialEq, Eq, Structural)]
pub enum FileMode {
    Read,
    Write,
    Append,
    Invalid,
}

/// Where a seek offset is measured from: the file's start, the current
/// position, or the end.
#[derive(Clone, Copy, Debug, PartialEq, Eq, Structural)]
pub enum FileSeekMode {
    SeekSet,
    Cur,
    End,
}

/// The mode a mode string denotes: decided by its first character —
/// `r` reads, `w` writes, `a` appends, anything else is invalid.
pub open spec fn mode_of(s: Seq<char>) -> FileMode {
    if s.len() == 0 {
        FileMode::Invalid
    } else if s[0] == 'r' {
        FileMode::Read
    } else if s[0] == 'w' {
        FileMode::Write
    } else if s[0] == 'a' {
        FileMode::Append
    } else {
        FileMode::Invalid
    }
}

/// Decodes a mode string as `mode_of` describes.
pub fn file_get_mode_by_string(mode_str: &str) -> (m: FileMode)
    ensures
        m == mode_of(mode_str@),
{
    if mode_str.is_empty() {
        return FileMode::Invalid;
    }
    let c = mode_str.get_char(0);
    if c == 'r' {
        FileMode::Read
    } else if c == 'w' {
        FileMode::Write
    } else if c == 'a' {
        FileMode::Append
    } else {
        FileMode::Invalid
    }
}

} // verus!
