//! Tools for the commits that are being worked on: fast rewriting of trees
//! in memory, and the smartlog, a graph of those commits.
//!
//! The library works on plain values. Trees, commits and indexes are read
//! from the store by the caller and handed in; what the library makes of
//! them is handed back to be written.
//!
//! - [`oid`], [`file_mode`], [`path`]: identifiers, modes and paths.
//! - [`tree`]: trees as values; putting values in (hydration), cutting a
//!   tree down to some paths (dehydration), and the paths at which two
//!   trees differ.
//! - [`commit`], [`index`], [`status`]: what a rewrite reads.
//! - [`rewrite`]: cherry-pick and amend; [`rewrite_laws`]: what holds of
//!   them.
//! - [`smartlog`]: the graph, the order of its roots, and its rendering.
//! - [`reference`], [`version`], [`message`], [`describe`], [`repo`]:
//!   smaller decisions about references, versions, messages and the state
//!   of a repository.

pub mod commit;
pub mod describe;
pub mod error;
pub mod file_mode;
pub mod index;
pub mod message;
pub mod oid;
pub mod outside;
pub mod path;
pub mod reference;
pub mod repo;
pub mod rewrite;
pub mod rewrite_laws;
pub mod smartlog;
pub mod status;
pub mod strings;
pub mod tree;
pub mod version;
