//! File modes as they are stored in tree entries.

use vstd::prelude::*;

verus! {

/// The kind of object that a tree entry names, with the bit pattern that the
/// tree encoding uses for it.
#[derive(Clone, Copy, Debug, PartialEq, Eq, Structural, PartialOrd, Ord, Hash)]
pub enum FileMode {
    /// No entry (`000000`).
    Unreadable,
    /// A directory (`040000`).
    Tree,
    /// A regular file (`100644`).
    Blob,
    /// An executable file (`100755`).
    BlobExecutable,
    /// A symbolic link (`120000`).
    Link,
    /// A link to a commit of another repository (`160000`).
    Commit,
}

/// The bit pattern of each mode.
pub open spec fn mode_bits(mode: FileMode) -> int {
    match mode {
        FileMode::Unreadable => 0,
        FileMode::Tree => 0o040000,
        FileMode::Blob => 0o100644,
        FileMode::BlobExecutable => 0o100755,
        FileMode::Link => 0o120000,
        FileMode::Commit => 0o160000,
    }
}

/// The mode that a bit pattern stands for; a pattern that is none of the six
/// known ones is read as `Unreadable`.
pub open spec fn mode_of_bits(bits: int) -> FileMode {
    if bits == 0o040000 {
        FileMode::Tree
    } else if bits == 0o100644 {
        FileMode::Blob
    } else if bits == 0o100755 {
        FileMode::BlobExecutable
    } else if bits == 0o120000 {
        FileMode::Link
    } else if bits == 0o160000 {
        FileMode::Commit
    } else {
        FileMode::Unreadable
    }
}

/// Reading back the bit pattern of a mode gives the mode.
pub proof fn lemma_mode_bits_round_trip(mode: FileMode)
    ensures
        mode_of_bits(mode_bits(mode)) == mode,
{
}

impl FileMode {
    /// The bit pattern of the mode.
    pub fn to_bits(self) -> (bits: i32)
        ensures
            bits == mode_bits(self),
    {
        match self {
            FileMode::Unreadable => 0,
            FileMode::Tree => 0o040000,
            FileMode::Blob => 0o100644,
            FileMode::BlobExecutable => 0o100755,
            FileMode::Link => 0o120000,
            FileMode::Commit => 0o160000,
        }
    }

    /// The mode with the given bit pattern.
    pub fn from_bits(bits: i32) -> (mode: FileMode)
        ensures
            mode == mode_of_bits(bits as int),
    {
        if bits == 0o040000 {
            FileMode::Tree
        } else if bits == 0o100644 {
            FileMode::Blob
        } else if bits == 0o100755 {
            FileMode::BlobExecutable
        } else if bits == 0o120000 {
            FileMode::Link
        } else if bits == 0o160000 {
            FileMode::Commit
        } else {
            FileMode::Unreadable
        }
    }

    /// Whether the mode is that of a directory.
    pub fn is_tree(self) -> (r: bool)
        ensures
            r == (self == FileMode::Tree),
    {
        match self {
            FileMode::Tree => true,
            _ => false,
        }
    }
}

} // verus!
