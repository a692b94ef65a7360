//! The version of the version-control program.

use vstd::prelude::*;
use crate::error::RepoError;
use crate::strings::{
    parse_isize, parsed_isize, pieces_view, split_chars, split_on, string_of, to_chars, trim_range,
    trimmed,
};

verus! {

/// The parsed version of Git.
#[derive(Debug, PartialEq, PartialOrd, Eq)]
pub struct GitVersion(pub isize, pub isize, pub isize);

/// What the output of the version command says.
pub enum ParsedVersion {
    /// The version: major, minor and patch number.
    Version(int, int, int),
    /// The output has fewer than three words.
    BadOutput,
    /// The third word does not start with two numbers and a third
    /// component; it is given here.
    BadSpecifier(Seq<char>),
}

/// Reads the output of the version command.
///
/// The output, without the white space around it, is cut into words at
/// spaces and hyphens; the third word is the version. The version is cut
/// into components at full stops, of which it must have three: the first
/// two must be numbers, and the third counts as zero unless it is one.
pub open spec fn parse_version(output: Seq<char>) -> ParsedVersion {
    let words = split_on(trimmed(output), ' ', '-');
    if words.len() < 3 {
        ParsedVersion::BadOutput
    } else {
        let version = words[2];
        let components = split_on(version, '.', '.');
        if components.len() < 3 {
            ParsedVersion::BadSpecifier(version)
        } else {
            match (parsed_isize(components[0]), parsed_isize(components[1])) {
                (Some(major), Some(minor)) => ParsedVersion::Version(
                    major,
                    minor,
                    match parsed_isize(components[2]) {
                        Some(patch) => patch,
                        None => 0,
                    },
                ),
                _ => ParsedVersion::BadSpecifier(version),
            }
        }
    }
}

impl GitVersion {
    /// Reads the output of the version command, such as
    /// `git version 2.33.0`.
    pub fn parse(output: &str) -> (r: Result<GitVersion, RepoError>)
        ensures
            match r {
                Ok(GitVersion(major, minor, patch)) => parse_version(output@)
                    == ParsedVersion::Version(major as int, minor as int, patch as int),
                Err(RepoError::ParseGitVersionOutput(text)) => parse_version(output@)
                    == ParsedVersion::BadOutput && text@ == trimmed(output@),
                Err(RepoError::ParseGitVersionSpecifier(text)) => parse_version(output@)
                    == ParsedVersion::BadSpecifier(text@),
                Err(_) => false,
            },
    {
        let chars = to_chars(output);
        let (start, end) = trim_range(&chars);
        let words = split_chars(&chars, start, end, ' ', '-');
        if words.len() < 3 {
            return Err(RepoError::ParseGitVersionOutput(string_of(&chars, start, end)));
        }
        let version = &words[2];
        assert(pieces_view(words@)[2] == version@);
        assert(version@.subrange(0, version@.len() as int) =~= version@);
        let components = split_chars(version, 0, version.len(), '.', '.');
        if components.len() < 3 {
            return Err(RepoError::ParseGitVersionSpecifier(string_of(version, 0, version.len())));
        }
        assert(pieces_view(components@)[0] == components@[0]@);
        assert(pieces_view(components@)[1] == components@[1]@);
        assert(pieces_view(components@)[2] == components@[2]@);
        let major = match parse_isize(&components[0]) {
            Some(major) => major,
            None => {
                return Err(RepoError::ParseGitVersionSpecifier(string_of(version, 0, version.len())));
            },
        };
        let minor = match parse_isize(&components[1]) {
            Some(minor) => minor,
            None => {
                return Err(RepoError::ParseGitVersionSpecifier(string_of(version, 0, version.len())));
            },
        };
        // Example version without a real patch number: `2.33.GIT`.
        let patch: isize = match parse_isize(&components[2]) {
            Some(patch) => patch,
            None => 0,
        };
        Ok(GitVersion(major, minor, patch))
    }
}

impl std::str::FromStr for GitVersion {
    type Err = RepoError;

    /// Reads the output of the version command, as [`GitVersion::parse`]
    /// does.
    fn from_str(output: &str) -> (r: Result<GitVersion, RepoError>)
        ensures
            match r {
                Ok(GitVersion(major, minor, patch)) => parse_version(output@)
                    == ParsedVersion::Version(major as int, minor as int, patch as int),
                Err(RepoError::ParseGitVersionOutput(text)) => parse_version(output@)
                    == ParsedVersion::BadOutput && text@ == trimmed(output@),
                Err(RepoError::ParseGitVersionSpecifier(text)) => parse_version(output@)
                    == ParsedVersion::BadSpecifier(text@),
                Err(_) => false,
            },
    {
        GitVersion::parse(output)
    }
}

} // verus!
