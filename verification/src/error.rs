//! The errors that the operations on repository data report.

use vstd::prelude::*;
use crate::oid::NonZeroOid;

verus! {

/// What could not be decoded as UTF-8.
#[derive(Clone, Copy, Debug, PartialEq, Eq, Structural, Hash)]
pub enum Utf8Item {
    /// The name of a signature.
    SignatureName,
    /// The e-mail address of a signature.
    SignatureEmail,
    /// The raw message of a commit.
    RawMessage,
    /// The target of a symbolic reference.
    Reference,
}

/// An error of an operation on repository data.
#[derive(Debug)]
pub enum RepoError {
    /// The commit has more than one parent, so it has no patch.
    GetPatch {
        /// The commit.
        commit: NonZeroOid,
    },
    /// The revision ends in `@` after other text, which is not supported.
    UnsupportedRevParseSpec(String),
    /// The output of the version command has fewer than three words.
    ParseGitVersionOutput(String),
    /// The version does not start with two numbers and a third component.
    ParseGitVersionSpecifier(String),
    /// The comment character does not fit in a byte.
    CommentCharNotAscii {
        /// The code of the character.
        char: u32,
    },
    /// A line of the status output starts with an unknown byte.
    UnknownStatusLinePrefix {
        /// The byte.
        prefix: u8,
    },
    /// A value is not valid UTF-8.
    DecodeUtf8 {
        /// What was to be decoded.
        item: Utf8Item,
    },
    /// A number does not fit the range that is needed.
    IntegerConvert,
    /// A reference is neither direct nor symbolic.
    UnknownReferenceType,
    /// A time is too far from the epoch to be written as a date.
    TimeOutOfRange,
    /// The store's library reported an error.
    Git(git2::Error),
}

} // verus!
