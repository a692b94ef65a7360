//! Reference names and what they refer to.

use vstd::prelude::*;
use vstd::utf8::{decode_utf8, valid_utf8};
use crate::error::{RepoError, Utf8Item};
use crate::oid::{hex_of, MaybeZeroOid, NonZeroOid};
use crate::strings::{starts_with, strip_prefix, without_prefix};

verus! {

/// Why a reference name could not be made.
#[derive(Debug)]
pub enum ReferenceNameError {
    /// The name was not valid UTF-8.
    InvalidUtf8(std::string::FromUtf8Error),
}

/// The name of a reference, like `refs/heads/master`.
#[derive(Debug, PartialOrd, Ord, PartialEq, Eq, Hash)]
pub struct ReferenceName(pub String);

impl View for ReferenceName {
    type V = Seq<char>;

    open spec fn view(&self) -> Seq<char> {
        self.0@
    }
}

impl Clone for ReferenceName {
    fn clone(&self) -> (r: ReferenceName)
        ensures
            r@ == self@,
    {
        ReferenceName(self.0.clone())
    }
}

impl ReferenceName {
    /// Create a reference name from the provided bytestring. Names that are
    /// not valid UTF-8 are refused.
    pub fn from_bytes(bytes: Vec<u8>) -> (r: Result<ReferenceName, ReferenceNameError>)
        ensures
            r is Ok <==> valid_utf8(bytes@),
            r matches Ok(name) ==> name@ == decode_utf8(bytes@),
    {
        match String::from_utf8(bytes) {
            Ok(reference_name) => Ok(ReferenceName(reference_name)),
            Err(err) => Err(ReferenceNameError::InvalidUtf8(err)),
        }
    }

    /// View this reference name as a string.
    pub fn as_str(&self) -> (r: &str)
        ensures
            r@ == self@,
    {
        self.0.as_str()
    }

    /// The reference name with the given text.
    pub fn from_string(name: String) -> (r: ReferenceName)
        ensures
            r@ == name@,
    {
        ReferenceName(name)
    }

    /// The reference name with the given text.
    pub fn from_str(name: &str) -> (r: ReferenceName)
        ensures
            r@ == name@,
    {
        ReferenceName(String::from_str(name))
    }

    /// The reference name that is the identifier written in hexadecimal.
    pub fn from_oid(oid: NonZeroOid) -> (r: ReferenceName)
        ensures
            r@ == hex_of(oid@),
    {
        ReferenceName(oid.to_hex())
    }

    /// The reference name that is the identifier written in hexadecimal.
    pub fn from_maybe_zero_oid(oid: MaybeZeroOid) -> (r: ReferenceName)
        ensures
            r@ == hex_of(oid@),
    {
        ReferenceName(oid.to_hex())
    }
}

/// The target of a reference.
#[derive(Debug, PartialEq, Eq)]
pub enum ReferenceTarget {
    /// The reference points directly to an object. This is the case for
    /// most references, such as branches.
    Direct {
        /// The identifier of the object that is pointed to.
        oid: MaybeZeroOid,
    },
    /// The reference points to another reference with the given name.
    Symbolic {
        /// The name of the reference that is pointed to, as bytes.
        reference_name: Vec<u8>,
    },
}

/// A snapshot of information about a certain reference. Updates to the
/// reference after this value is obtained are not reflected.
#[derive(Debug)]
pub struct ResolvedReferenceInfo {
    /// The commit that the reference points to; none if the reference is
    /// unborn.
    pub oid: Option<NonZeroOid>,
    /// The name of the reference that the reference points to
    /// symbolically; none if it is detached.
    pub reference_name: Option<ReferenceName>,
}

impl ResolvedReferenceInfo {
    /// Get the name of the branch, if any. Returns `None` if the reference
    /// is detached. The `refs/heads/` prefix, if any, is stripped.
    pub fn get_branch_name(&self) -> (r: Result<Option<&str>, RepoError>)
        ensures
            r matches Ok(name) && match name {
                Some(s) => self.reference_name matches Some(n) && s@ == strip_prefix(
                    n@,
                    "refs/heads/"@,
                ),
                None => self.reference_name is None,
            },
    {
        let reference_name = match &self.reference_name {
            Some(reference_name) => reference_name.as_str(),
            None => {
                return Ok(None);
            },
        };
        Ok(Some(without_prefix(reference_name, "refs/heads/")))
    }
}

/// What kind of reference a name stands for, and what it stands for.
#[derive(Clone, Copy, Debug, PartialEq, Eq, Structural, Hash)]
pub enum ReferenceKind {
    /// The reference points directly to an object.
    Direct,
    /// The reference points to another reference.
    Symbolic,
}

/// The name that a reference stands for symbolically: none for a direct
/// reference; the target, as a name, for a symbolic one.
pub open spec fn symbolic_name(kind: Option<ReferenceKind>, target: Option<Seq<u8>>) -> Result<
    Option<Seq<char>>,
    (),
> {
    match kind {
        Some(ReferenceKind::Direct) => Ok(None),
        Some(ReferenceKind::Symbolic) => match target {
            Some(bytes) => if valid_utf8(bytes) {
                Ok(Some(decode_utf8(bytes)))
            } else {
                Err(())
            },
            None => Err(()),
        },
        None => Err(()),
    }
}

/// The snapshot of a reference of the given kind that peels to the commit
/// `oid`, with the given target if it is symbolic.
///
/// A direct reference has no name to point to. A symbolic one points to
/// its target, which must be there and be valid UTF-8. A reference of
/// unknown kind is refused.
pub fn resolve_reference(
    oid: Option<NonZeroOid>,
    kind: Option<ReferenceKind>,
    symbolic_target: Option<Vec<u8>>,
) -> (r: Result<ResolvedReferenceInfo, RepoError>)
    ensures
        match r {
            Ok(info) => info.oid == oid && symbolic_name(
                kind,
                match symbolic_target {
                    Some(b) => Some(b@),
                    None => None,
                },
            ) == Ok::<Option<Seq<char>>, ()>(
                match info.reference_name {
                    Some(n) => Some(n@),
                    None => None,
                },
            ),
            Err(err) => symbolic_name(
                kind,
                match symbolic_target {
                    Some(b) => Some(b@),
                    None => None,
                },
            ) is Err && match err {
                RepoError::UnknownReferenceType => kind is None,
                RepoError::DecodeUtf8 { item } => kind is Some && item == Utf8Item::Reference,
                _ => false,
            },
        },
{
    let reference_name: Option<ReferenceName> = match kind {
        Some(ReferenceKind::Direct) => None,
        Some(ReferenceKind::Symbolic) => match symbolic_target {
            Some(name) => match ReferenceName::from_bytes(name) {
                Ok(name) => Some(name),
                Err(_) => {
                    return Err(RepoError::DecodeUtf8 { item: Utf8Item::Reference });
                },
            },
            None => {
                return Err(RepoError::DecodeUtf8 { item: Utf8Item::Reference });
            },
        },
        None => {
            return Err(RepoError::UnknownReferenceType);
        },
    };
    Ok(ResolvedReferenceInfo { oid, reference_name })
}

/// Determine what kind of branch a reference is, given its name.
#[derive(Debug)]
pub enum CategorizedReferenceName<'a> {
    /// The reference represents a local branch.
    LocalBranch {
        /// The full name of the reference.
        name: &'a str,
        /// The string `refs/heads/`.
        prefix: &'static str,
    },
    /// The reference represents a remote branch.
    RemoteBranch {
        /// The full name of the reference.
        name: &'a str,
        /// The string `refs/remotes/`.
        prefix: &'static str,
    },
    /// Some other kind of reference which isn't a branch at all.
    OtherRef {
        /// The full name of the reference.
        name: &'a str,
    },
}

impl<'a> CategorizedReferenceName<'a> {
    /// The full name of the reference.
    pub open spec fn name(self) -> Seq<char> {
        match self {
            CategorizedReferenceName::LocalBranch { name, .. } => name@,
            CategorizedReferenceName::RemoteBranch { name, .. } => name@,
            CategorizedReferenceName::OtherRef { name } => name@,
        }
    }

    /// The prefix that marks the kind of the reference; empty for a
    /// reference that is no branch.
    pub open spec fn prefix(self) -> Seq<char> {
        match self {
            CategorizedReferenceName::LocalBranch { prefix, .. } => prefix@,
            CategorizedReferenceName::RemoteBranch { prefix, .. } => prefix@,
            CategorizedReferenceName::OtherRef { .. } => Seq::empty(),
        }
    }

    /// The name without the prefix.
    pub open spec fn suffix(self) -> Seq<char> {
        strip_prefix(self.name(), self.prefix())
    }

    /// The word that says what kind of reference this is.
    pub open spec fn kind_word(self) -> Seq<char> {
        match self {
            CategorizedReferenceName::LocalBranch { .. } => "branch "@,
            CategorizedReferenceName::RemoteBranch { .. } => "remote branch "@,
            CategorizedReferenceName::OtherRef { .. } => "ref "@,
        }
    }

    /// Categorize the provided reference name: a name that begins with
    /// `refs/heads/` is a local branch, one that begins with
    /// `refs/remotes/` a remote branch, any other some other reference.
    pub fn new(name: &'a ReferenceName) -> (r: Self)
        ensures
            r.name() == name@,
            "refs/heads/"@.is_prefix_of(name@) ==> r is LocalBranch && r.prefix() == "refs/heads/"@,
            !"refs/heads/"@.is_prefix_of(name@) && "refs/remotes/"@.is_prefix_of(name@) ==> r
                is RemoteBranch && r.prefix() == "refs/remotes/"@,
            !"refs/heads/"@.is_prefix_of(name@) && !"refs/remotes/"@.is_prefix_of(name@) ==> r
                is OtherRef,
    {
        let name = name.as_str();
        if starts_with(name, "refs/heads/") {
            Self::LocalBranch { name, prefix: "refs/heads/" }
        } else if starts_with(name, "refs/remotes/") {
            Self::RemoteBranch { name, prefix: "refs/remotes/" }
        } else {
            Self::OtherRef { name }
        }
    }

    /// Remove the prefix from the reference name.
    pub fn remove_prefix(&self) -> (r: Result<String, RepoError>)
        ensures
            r matches Ok(s) && s@ == self.suffix(),
    {
        Ok(self.render_suffix())
    }

    /// Render the full name of the reference, including its prefix.
    pub fn render_full(&self) -> (r: String)
        ensures
            r@ == self.name(),
    {
        let name: &str = match self {
            Self::LocalBranch { name, prefix: _ } => name,
            Self::RemoteBranch { name, prefix: _ } => name,
            Self::OtherRef { name } => name,
        };
        String::from_str(name)
    }

    /// Render only the suffix of the reference name: the name without the
    /// prefix of its kind.
    pub fn render_suffix(&self) -> (r: String)
        ensures
            r@ == self.suffix(),
    {
        match self {
            Self::LocalBranch { name, prefix } => String::from_str(without_prefix(name, prefix)),
            Self::RemoteBranch { name, prefix } => String::from_str(without_prefix(name, prefix)),
            Self::OtherRef { name } => {
                assert(name@.skip(0) =~= name@);
                assert(Seq::<char>::empty().is_prefix_of(name@)) by {
                    assert(Seq::<char>::empty() =~= name@.subrange(0, 0));
                }
                String::from_str(name)
            },
        }
    }

    /// Render the reference name with a word in front that says what kind
    /// of reference it is, like `branch`.
    pub fn friendly_describe(&self) -> (r: String)
        ensures
            r@ == self.kind_word() + self.suffix(),
    {
        let name = self.render_suffix();
        let mut out = match self {
            CategorizedReferenceName::LocalBranch { .. } => String::from_str("branch "),
            CategorizedReferenceName::RemoteBranch { .. } => String::from_str("remote branch "),
            CategorizedReferenceName::OtherRef { .. } => String::from_str("ref "),
        };
        out.append(name.as_str());
        out
    }
}


/// Whether `git2::Reference::is_valid_name` takes the text for a
/// well-formed reference name.
pub uninterp spec fn valid_reference_name(name: Seq<char>) -> bool;

/// Determine if the given name is a valid name for a reference. This calls
/// `git2::Reference::is_valid_name`; the contract gives the answer a name
/// and claims nothing else of it.
#[verifier::external_body]
pub fn is_valid_name(name: &str) -> (r: bool)
    ensures
        r == valid_reference_name(name@),
{
    git2::Reference::is_valid_name(name)
}

} // verus!
