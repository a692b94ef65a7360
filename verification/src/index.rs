//! An index as plain values: what a three-way merge, or the staging area,
//! holds for each path, and the conflicts that a merge left.

use vstd::prelude::*;
use crate::file_mode::FileMode;
use crate::oid::MaybeZeroOid;
use crate::path::TreePath;

verus! {

/// What an index holds for a path. The zero identifier stands for a path
/// that was removed.
#[derive(Clone, Copy, Debug, PartialEq, Eq, Hash)]
pub struct IndexEntry {
    /// The identifier of the content.
    pub oid: MaybeZeroOid,
    /// The mode of the file.
    pub file_mode: FileMode,
}

/// A path of an index together with what the index holds for it.
#[derive(Debug, PartialEq, Eq, Hash)]
pub struct IndexRecord {
    /// The path.
    pub path: TreePath,
    /// What the index holds for it.
    pub entry: IndexEntry,
}

/// The path of one side of a conflict, as the store reported it.
#[derive(Debug, PartialEq, Eq, Hash)]
pub enum ConflictPath {
    /// The path, as bytes.
    Decoded {
        /// The bytes of the path.
        path: Vec<u8>,
    },
    /// The store's path could not be turned into a path of the host.
    Undecodable,
}

/// A conflict that a merge left: the entry of the common ancestor, ours and
/// theirs, as far as each exists.
#[derive(Debug, PartialEq, Eq, Hash)]
pub struct IndexConflict {
    /// The path on the side of the common ancestor.
    pub ancestor: Option<ConflictPath>,
    /// The path on our side.
    pub our: Option<ConflictPath>,
    /// The path on their side.
    pub their: Option<ConflictPath>,
}

/// An index: entries by path, whether the store reports conflicts, and the
/// conflicts that it lists.
#[derive(Debug, PartialEq, Eq, Hash)]
pub struct Index {
    /// The entries. Where a path occurs more than once, the first
    /// occurrence counts.
    pub entries: Vec<IndexRecord>,
    /// Whether the store reports that the index has conflicts. This is the
    /// store's own answer: it counts also where the list of conflicts is
    /// empty.
    pub conflicted: bool,
    /// The conflicts that the store lists.
    pub conflicts: Vec<IndexConflict>,
}

/// The mathematical value of the entries of an index.
pub open spec fn records_view(entries: Seq<IndexRecord>) -> Seq<(Seq<Seq<u8>>, IndexEntry)> {
    Seq::new(entries.len(), |i: int| (entries[i].path@, entries[i].entry))
}

/// What the entries hold for `path`: the entry of the first record with
/// that path.
pub open spec fn index_entry_at(
    records: Seq<(Seq<Seq<u8>>, IndexEntry)>,
    path: Seq<Seq<u8>>,
) -> Option<IndexEntry>
    decreases records.len(),
{
    if records.len() == 0 {
        None
    } else if records[0].0 == path {
        Some(records[0].1)
    } else {
        index_entry_at(records.drop_first(), path)
    }
}

/// The entry of the first record with the path is what the entries hold.
pub proof fn lemma_index_entry_first(
    records: Seq<(Seq<Seq<u8>>, IndexEntry)>,
    path: Seq<Seq<u8>>,
    i: int,
)
    requires
        0 <= i <= records.len(),
        forall|j: int| 0 <= j < i ==> records[j].0 != path,
        i < records.len() ==> records[i].0 == path,
    ensures
        index_entry_at(records, path) == if i < records.len() {
            Some(records[i].1)
        } else {
            None
        },
    decreases records.len(),
{
    if records.len() > 0 && i > 0 {
        let rest = records.drop_first();
        assert forall|j: int| 0 <= j < i - 1 implies rest[j].0 != path by {
            assert(rest[j] == records[j + 1]);
        }
        lemma_index_entry_first(rest, path, i - 1);
    }
}

impl Index {
    /// Whether the store reports conflicts.
    pub fn has_conflicts(&self) -> (r: bool)
        ensures
            r == self.conflicted,
    {
        self.conflicted
    }

    /// What the index holds for `path`.
    pub fn get_entry(&self, path: &TreePath) -> (r: Option<IndexEntry>)
        ensures
            r == index_entry_at(records_view(self.entries@), path@),
    {
        let ghost records = records_view(self.entries@);
        let mut i: usize = 0;
        while i < self.entries.len()
            invariant
                i <= self.entries@.len(),
                records == records_view(self.entries@),
                forall|j: int| 0 <= j < i ==> records[j].0 != path@,
            decreases self.entries@.len() - i,
        {
            if self.entries[i].path.same_as(path) {
                proof {
                    lemma_index_entry_first(records, path@, i as int);
                }
                return Some(self.entries[i].entry);
            }
            i += 1;
        }
        proof {
            lemma_index_entry_first(records, path@, i as int);
        }
        None
    }
}

} // verus!
