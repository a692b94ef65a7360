//! What holds of every cherry-pick and every amend.

use vstd::prelude::*;
use crate::commit::Commit;
use crate::error::RepoError;
use crate::index::{records_view, Index};
use crate::oid::NonZeroOid;
use crate::rewrite::{
    amend_map, amended, blob_at, blobs_view, byte_strings_view, cherry_pick_finished,
    cherry_pick_started, last_entry_at, merged_map, new_entries, staged_file, touches,
    working_copy_entries, AmendFastOptions, CherryPickFastError, CherryPickFastOptions,
    CherryPickFastStep, WorkingCopyBlob,
};
use crate::status::{entry_paths, StatusEntry};
use crate::tree::{
    comparable, deepest_key, file_at, lemma_deepest_key,
    lemma_hydrate_keeps_other_paths, lemma_hydrate_sets_path, lemma_keeping_map, set_below, sets,
    EntryView, FileEntry, Tree,
};

verus! {

/// A commit with exactly one parent, picked onto a commit with that parent's
/// tree while reuse is asked for, gives the commit's own tree.
pub proof fn lemma_reword_short_circuit(
    patch: Commit,
    target: Commit,
    options: CherryPickFastOptions,
    r: Result<CherryPickFastStep, CherryPickFastError>,
)
    requires
        patch.parents@.len() == 1,
        target.tree_oid == patch.parents@[0].tree_oid,
        options.reuse_parent_tree_if_possible,
        cherry_pick_started(patch, target, options, r),
    ensures
        r matches Ok(CherryPickFastStep::Finished { tree }) && tree@ == patch.tree@,
{
}

/// A commit that has the tree of its only parent changes nothing: picked
/// onto any commit, with any options, it gives a tree that goes by the
/// identifier of that commit's tree. This is that commit's own tree, or,
/// where the patch was made on that very tree and is taken over as it is,
/// the patch's tree, which has the same identifier.
pub proof fn lemma_unchanged_tree_gives_target(
    patch: Commit,
    target: Commit,
    options: CherryPickFastOptions,
    r: Result<CherryPickFastStep, CherryPickFastError>,
)
    requires
        patch.parents@.len() == 1,
        patch.parents@[0].tree_oid == patch.tree_oid,
        cherry_pick_started(patch, target, options, r),
    ensures
        r matches Ok(CherryPickFastStep::Finished { tree }) && (tree@ == target.tree@ || (tree@
            == patch.tree@ && patch.tree_oid == target.tree_oid)),
{
}

/// Where identifiers are the names of contents, such a commit gives a tree
/// with the files of the target's tree: the parent's tree holds what the
/// commit's tree holds, and so does the target's tree if it has the same
/// identifier.
pub proof fn lemma_unchanged_tree_gives_target_files(
    patch: Commit,
    target: Commit,
    options: CherryPickFastOptions,
    r: Result<CherryPickFastStep, CherryPickFastError>,
)
    requires
        patch.parents@.len() == 1,
        patch.parents@[0].tree_oid == patch.tree_oid,
        target.tree_oid == patch.tree_oid ==> crate::tree::files(target.tree@) == crate::tree::files(
            patch.tree@,
        ),
        cherry_pick_started(patch, target, options, r),
    ensures
        r matches Ok(CherryPickFastStep::Finished { tree }) && crate::tree::files(tree@)
            == crate::tree::files(target.tree@),
{
}

/// Where a cherry-pick ends at its first step, its tree differs from the
/// target's only at paths that the patch touches; in the case of reuse this
/// rests on the target's tree holding what the parent's tree holds, as two
/// trees with one identifier do.
pub proof fn lemma_started_path_restriction(
    patch: Commit,
    target: Commit,
    options: CherryPickFastOptions,
    r: Result<CherryPickFastStep, CherryPickFastError>,
    q: Seq<Seq<u8>>,
)
    requires
        cherry_pick_started(patch, target, options, r),
        r matches Ok(CherryPickFastStep::Finished { .. }),
        patch.parents@.len() == 1 ==> (patch.parents@[0].tree_oid == target.tree_oid ==> forall|
            p: Seq<Seq<u8>>,
        |
            file_at(patch.parents@[0].tree@, p) == file_at(target.tree@, p)),
    ensures
        r matches Ok(CherryPickFastStep::Finished { tree }) && (file_at(tree@, q) != file_at(
            target.tree@,
            q,
        ) ==> touches(patch, q)),
{
}

/// A cherry-pick that went through the merge leaves alone every path that
/// lies on one line with none of the touched paths.
pub proof fn lemma_merged_keeps_other_paths(
    target_tree: Seq<EntryView>,
    paths: Seq<Seq<Seq<u8>>>,
    index: Index,
    r: Result<Tree, CherryPickFastError>,
    q: Seq<Seq<u8>>,
)
    requires
        cherry_pick_finished(target_tree, paths, index, r),
        r is Ok,
        forall|i: int| 0 <= i < paths.len() ==> !comparable(#[trigger] paths[i], q),
    ensures
        file_at(r->Ok_0@, q) == file_at(target_tree, q),
{
    let m = merged_map(paths, records_view(index.entries@));
    assert forall|p: Seq<Seq<u8>>| #[trigger] m.contains_key(p) implies !comparable(p, q) by {
        let i = choose|i: int| 0 <= i < paths.len() && paths[i] == p;
        assert(!comparable(paths[i], q));
    }
    lemma_hydrate_keeps_other_paths(target_tree, m, q);
}

/// A cherry-pick that went through the merge changes the target's tree only
/// at touched paths, where the target's tree holds no file above or below a
/// touched path (a merge of such a target leaves a conflict instead).
pub proof fn lemma_merged_path_restriction(
    target_tree: Seq<EntryView>,
    paths: Seq<Seq<Seq<u8>>>,
    index: Index,
    r: Result<Tree, CherryPickFastError>,
    q: Seq<Seq<u8>>,
)
    requires
        cherry_pick_finished(target_tree, paths, index, r),
        r is Ok,
        forall|i: int, p: Seq<Seq<u8>>|
            0 <= i < paths.len() && comparable(#[trigger] paths[i], p) && paths[i] != p ==> (
            #[trigger] file_at(target_tree, p)) is None,
        file_at(r->Ok_0@, q) != file_at(target_tree, q),
    ensures
        paths.contains(q),
{
    let m = merged_map(paths, records_view(index.entries@));
    if !paths.contains(q) {
        if set_below(m, q) {
            let p = choose|p: Seq<Seq<u8>>| #[trigger] sets(m, p) && q.is_prefix_of(p) && p != q;
            let i = choose|i: int| 0 <= i < paths.len() && paths[i] == p;
            assert(comparable(paths[i], q));
            assert(file_at(target_tree, q) is None);
        } else {
            lemma_deepest_key(m, q, q.len());
            let k = deepest_key(m, q, q.len());
            if k > 0 {
                let p = q.take(k as int);
                assert(m.contains_key(p));
                let i = choose|i: int| 0 <= i < paths.len() && paths[i] == p;
                assert(p.is_prefix_of(q)) by {
                    assert(p =~= q.subrange(0, k as int));
                }
                assert(comparable(paths[i], q));
                assert(file_at(target_tree, q) is None);
                let rel = q.skip(k as int);
                assert(rel.len() > 0) by {
                    if rel.len() == 0 {
                        assert(p =~= q);
                    }
                }
            }
        }
    }
}

/// A cherry-pick that went through the merge gives each touched path what
/// the merged index holds for it: no file where the index holds none, and
/// the index's file where it holds one, unless the index holds a file at a
/// touched path below, which makes the path a directory.
pub proof fn lemma_merged_sets_touched_path(
    target_tree: Seq<EntryView>,
    paths: Seq<Seq<Seq<u8>>>,
    index: Index,
    r: Result<Tree, CherryPickFastError>,
    p: Seq<Seq<u8>>,
)
    requires
        cherry_pick_finished(target_tree, paths, index, r),
        r is Ok,
        paths.contains(p),
        p.len() > 0,
    ensures
        staged_file(records_view(index.entries@), p) is None ==> file_at(r->Ok_0@, p) is None,
        (forall|below: Seq<Seq<u8>>|
            paths.contains(below) && p.is_prefix_of(below) && below != p ==> staged_file(
                records_view(index.entries@),
                below,
            ) is None) ==> file_at(r->Ok_0@, p) == staged_file(records_view(index.entries@), p),
{
    let records = records_view(index.entries@);
    let m = merged_map(paths, records);
    assert(m.contains_key(p));
    lemma_hydrate_sets_path(target_tree, m, p);
    if set_below(m, p) {
        let below = choose|below: Seq<Seq<u8>>| #[trigger]
            sets(m, below) && p.is_prefix_of(below) && below != p;
        assert(staged_file(records, below) is Some);
    }
}

/// The same index gives the same failure: two outcomes of a cherry-pick on
/// one target, one set of paths and one index that reports conflicts name the same
/// conflicting paths, or the same undecodable side.
pub proof fn lemma_conflicts_deterministic(
    target_tree: Seq<EntryView>,
    paths: Seq<Seq<Seq<u8>>>,
    index: Index,
    first: Result<Tree, CherryPickFastError>,
    second: Result<Tree, CherryPickFastError>,
)
    requires
        cherry_pick_finished(target_tree, paths, index, first),
        cherry_pick_finished(target_tree, paths, index, second),
        index.conflicted,
    ensures
        match (first, second) {
            (
                Err(CherryPickFastError::MergeConflict { conflicting_paths: a }),
                Err(CherryPickFastError::MergeConflict { conflicting_paths: b }),
            ) => byte_strings_view(a@) == byte_strings_view(b@),
            (
                Err(CherryPickFastError::DecodePath { item: a }),
                Err(CherryPickFastError::DecodePath { item: b }),
            ) => a == b,
            _ => false,
        },
{
}

/// An amend from the staging area that names no path gives a tree with the
/// files of the commit's own tree.
pub proof fn lemma_amend_nothing(
    parent_commit: Commit,
    paths: Vec<crate::path::TreePath>,
    index: Index,
    blobs: Seq<WorkingCopyBlob>,
    r: Result<Tree, RepoError>,
    q: Seq<Seq<u8>>,
)
    requires
        parent_commit.parents@.len() <= 1,
        paths@.len() == 0,
        amended(parent_commit, AmendFastOptions::FromIndex { paths }, index, blobs, r),
    ensures
        r matches Ok(tree) && file_at(tree@, q) == file_at(parent_commit.tree@, q),
{
    let opts = AmendFastOptions::FromIndex { paths };
    let new = new_entries(opts, records_view(index.entries@), blobs_view(blobs));
    assert(new.len() == 0);
    lemma_keeping_map(parent_commit.tree@, amend_map(parent_commit, new), q);
}

/// An amend leaves alone every path that lies on one line with none of the
/// paths that are named.
pub proof fn lemma_amend_keeps_other_paths(
    parent_commit: Commit,
    opts: AmendFastOptions,
    index: Index,
    blobs: Seq<WorkingCopyBlob>,
    r: Result<Tree, RepoError>,
    q: Seq<Seq<u8>>,
)
    requires
        parent_commit.parents@.len() <= 1,
        amended(parent_commit, opts, index, blobs, r),
        forall|p: Seq<Seq<u8>>|
            (#[trigger] last_entry_at(
                new_entries(opts, records_view(index.entries@), blobs_view(blobs)),
                p,
            )) is Some ==> !comparable(p, q),
    ensures
        r matches Ok(tree) && file_at(tree@, q) == file_at(parent_commit.tree@, q),
{
    let new = new_entries(opts, records_view(index.entries@), blobs_view(blobs));
    let m = amend_map(parent_commit, new);
    assert forall|p: Seq<Seq<u8>>| #[trigger] m.contains_key(p) && comparable(p, q) implies m[p]
        == crate::tree::entry_at(parent_commit.tree@, p) by {
        assert(!(last_entry_at(new, p) is Some));
    }
    lemma_keeping_map(parent_commit.tree@, m, q);
}

/// In an amend from the staging area the order in which the paths are named
/// plays no part: a path is given what the staging area holds for it
/// exactly if it is named.
pub proof fn lemma_amend_from_index_by_path(
    paths: Vec<crate::path::TreePath>,
    index: Index,
    blobs: Seq<WorkingCopyBlob>,
    p: Seq<Seq<u8>>,
)
    ensures
        last_entry_at(
            new_entries(
                AmendFastOptions::FromIndex { paths },
                records_view(index.entries@),
                blobs_view(blobs),
            ),
            p,
        ) == if crate::tree::paths_view(paths@).contains(p) {
            Some(staged_file(records_view(index.entries@), p))
        } else {
            None
        },
{
    let records = records_view(index.entries@);
    let new = new_entries(AmendFastOptions::FromIndex { paths }, records, blobs_view(blobs));
    let named = crate::tree::paths_view(paths@);
    if last_entry_at(new, p) is Some {
        let m = lemma_last_entry_is_entry(new, p);
        assert(named[m] == p);
    }
    if named.contains(p) {
        let j = choose|j: int| 0 <= j < named.len() && named[j] == p;
        assert(new[j].0 == p);
        crate::rewrite::lemma_entry_named(new, j);
        let m = lemma_last_entry_is_entry(new, p);
    }
}

/// What the status entries give for a path is a file exactly if a blob was
/// made of the file at that path.
proof fn lemma_working_copy_value(
    entries: Seq<StatusEntry>,
    blobs: Seq<(Seq<Seq<u8>>, Option<NonZeroOid>)>,
    j: int,
)
    requires
        0 <= j < working_copy_entries(entries, blobs).len(),
    ensures
        working_copy_entries(entries, blobs)[j].1 is Some <==> blob_at(
            blobs,
            working_copy_entries(entries, blobs)[j].0,
        ) is Some,
    decreases entries.len(),
{
    if entries.len() > 0 {
        let before = working_copy_entries(entries.drop_last(), blobs);
        if j < before.len() {
            lemma_working_copy_value(entries.drop_last(), blobs, j);
        }
    }
}

/// Each path of each status entry is the path of one of the entries that
/// the status entries give.
proof fn lemma_working_copy_named(
    entries: Seq<StatusEntry>,
    blobs: Seq<(Seq<Seq<u8>>, Option<NonZeroOid>)>,
    i: int,
    k: int,
) -> (j: int)
    requires
        0 <= i < entries.len(),
        0 <= k < entry_paths(entries[i]).len(),
    ensures
        0 <= j < working_copy_entries(entries, blobs).len(),
        working_copy_entries(entries, blobs)[j].0 == entry_paths(entries[i])[k],
    decreases entries.len(),
{
    let init = entries.drop_last();
    let before = working_copy_entries(init, blobs);
    if i < init.len() {
        assert(init[i] == entries[i]);
        lemma_working_copy_named(init, blobs, i, k)
    } else {
        before.len() + k
    }
}

/// What the last entry with a path gives is what one of the entries gives.
proof fn lemma_last_entry_is_entry(
    entries: Seq<(Seq<Seq<u8>>, Option<FileEntry>)>,
    path: Seq<Seq<u8>>,
) -> (m: int)
    requires
        last_entry_at(entries, path) is Some,
    ensures
        0 <= m < entries.len(),
        entries[m] == (path, last_entry_at(entries, path)->0),
    decreases entries.len(),
{
    if entries.last().0 == path {
        entries.len() - 1
    } else {
        let m = lemma_last_entry_is_entry(entries.drop_last(), path);
        assert(entries.drop_last()[m] == entries[m]);
        m
    }
}

/// An amend from the working copy leaves no file at a path that a status
/// entry names and that has no file in the working copy.
pub proof fn lemma_amend_deletes_missing_file(
    parent_commit: Commit,
    status_entries: Vec<StatusEntry>,
    index: Index,
    blobs: Seq<WorkingCopyBlob>,
    r: Result<Tree, RepoError>,
    i: int,
    k: int,
)
    requires
        parent_commit.parents@.len() <= 1,
        amended(parent_commit, AmendFastOptions::FromWorkingCopy { status_entries }, index, blobs, r),
        0 <= i < status_entries@.len(),
        0 <= k < entry_paths(status_entries@[i]).len(),
        blob_at(blobs_view(blobs), entry_paths(status_entries@[i])[k]) is None,
    ensures
        r matches Ok(tree) && file_at(tree@, entry_paths(status_entries@[i])[k]) is None,
{
    let p = entry_paths(status_entries@[i])[k];
    let bv = blobs_view(blobs);
    let new = working_copy_entries(status_entries@, bv);
    let m = amend_map(parent_commit, new);
    let j = lemma_working_copy_named(status_entries@, bv, i, k);
    crate::rewrite::lemma_entry_named(new, j);
    let w = lemma_last_entry_is_entry(new, p);
    lemma_working_copy_value(status_entries@, bv, w);
    if p.len() > 0 {
        assert(m.contains_key(p));
        lemma_hydrate_sets_path(parent_commit.tree@, m, p);
    } else {
        assert(!set_below(m, p) ==> deepest_key(m, p, p.len()) == 0);
    }
}

} // verus!
