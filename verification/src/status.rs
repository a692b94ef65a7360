//! The status of the working copy: which files differ, and how.

use vstd::prelude::*;
use crate::file_mode::FileMode;
use crate::path::TreePath;

verus! {

/// How a file differs, on one side of a status entry.
#[derive(Clone, Copy, Debug, PartialEq, Eq, Structural, Hash)]
pub enum FileStatus {
    /// No change.
    Unmodified,
    /// The content changed.
    Modified,
    /// The file is new.
    Added,
    /// The file is gone.
    Deleted,
    /// The file was moved.
    Renamed,
    /// The file was copied.
    Copied,
    /// The file is in conflict.
    Unmerged,
    /// The file is not tracked.
    Untracked,
    /// The file is ignored.
    Ignored,
}

/// The status of one file.
#[derive(Clone, Debug, PartialEq, Eq, Hash)]
pub struct StatusEntry {
    /// How the staging area differs from the last commit.
    pub index_status: FileStatus,
    /// How the working copy differs from the staging area.
    pub working_copy_status: FileStatus,
    /// The mode of the file in the working copy.
    pub working_copy_file_mode: FileMode,
    /// Where the file is now.
    pub path: TreePath,
    /// Where the file was, if it was moved or copied.
    pub orig_path: Option<TreePath>,
}

/// The paths that a status entry names: where the file is, then where it
/// was.
pub open spec fn entry_paths(entry: StatusEntry) -> Seq<Seq<Seq<u8>>> {
    match entry.orig_path {
        Some(orig) => seq![entry.path@, orig@],
        None => seq![entry.path@],
    }
}


impl StatusEntry {
    /// The paths that the entry names: where the file is, then where it
    /// was.
    pub fn paths(&self) -> (r: Vec<TreePath>)
        ensures
            crate::tree::paths_view(r@) == entry_paths(*self),
    {
        let mut result: Vec<TreePath> = Vec::new();
        result.push(self.path.clone());
        match &self.orig_path {
            Some(orig_path) => {
                result.push(orig_path.clone());
            },
            None => {},
        }
        assert(crate::tree::paths_view(result@) =~= entry_paths(*self));
        result
    }
}

} // verus!
