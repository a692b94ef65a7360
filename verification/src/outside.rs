//! Types of other crates that values of this crate carry along.

use vstd::prelude::*;

verus! {

/// The error type of the `git2` crate.
#[verifier::external_type_specification]
#[verifier::external_body]
pub struct ExGitError(git2::Error);

} // verus!
