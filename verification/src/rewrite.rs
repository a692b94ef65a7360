//! Fast rewriting: cherry-pick and amend on trees of a few paths.
//!
//! A cherry-pick cuts the trees down to the paths that the patch touches
//! (dehydration), has them merged, and puts the outcome back into the full
//! tree (hydration). The three-way merge is the store's work: the first
//! step hands out the two cut-down commits to merge, the second takes the
//! merged index. An amend puts the new entries of the named paths into the
//! commit's tree; the paths that the commit itself touched go along with
//! what the commit's tree holds there, which is what a cut-down copy of it
//! would hold.
//!
//! The updates of either operation are a map from paths to values: the
//! order in which paths are named plays no part in the result.

use vstd::prelude::*;
use crate::commit::{automated_signature, Commit, Signature};
use crate::error::RepoError;
use crate::index::{index_entry_at, records_view, ConflictPath, Index, IndexConflict, IndexEntry};
use crate::oid::{bytes_eq, hex_of, MaybeZeroOid, NonZeroOid};
use crate::path::TreePath;
use crate::status::{entry_paths, StatusEntry};
use crate::tree::{
    copy_bytes, dehydrate_tree, empty_tree, entry_at, file_after_map, file_at, file_if_covered,
    get_changed_paths_between_trees, hydrate_tree, lemma_leaf_pruned, lemma_map_by_path,
    lemma_pruned_entry, names_no_directory, node_below, node_opt_view, node_pruned, paths_view,
    pruned, updates_view, EntryView, FileEntry, NodeView, Tree, TreeNode, TreeUpdate,
};

verus! {

/// Options for [`cherry_pick_fast`].
#[derive(Clone, Debug)]
pub struct CherryPickFastOptions {
    /// Detect if a commit is being applied onto a parent with the same tree,
    /// and skip applying the patch in that case.
    pub reuse_parent_tree_if_possible: bool,
}

/// The side of a conflict.
#[derive(Clone, Copy, Debug, PartialEq, Eq, Structural, Hash)]
pub enum ConflictSide {
    /// The common ancestor.
    Ancestor,
    /// The commit that the patch is applied onto.
    Our,
    /// The commit that is applied.
    Their,
}

/// An error raised when attempting a fast cherry-pick.
#[derive(Debug)]
pub enum CherryPickFastError {
    /// A merge conflict occurred, so the cherry-pick could not continue.
    MergeConflict {
        /// The paths that were in conflict: a set, kept as a list in which
        /// no path stands twice.
        conflicting_paths: Vec<Vec<u8>>,
    },
    /// The commit does not have exactly one parent, so it has no patch.
    GetPatch {
        /// The commit.
        commit: NonZeroOid,
    },
    /// A path of a conflict could not be decoded.
    DecodePath {
        /// The side of the conflict that the path belongs to.
        item: ConflictSide,
    },
}

/// A commit cut down to a few paths, to be handed to the store: the tree,
/// who is to sign it, the message, and the parents (none or one).
#[derive(Debug)]
pub struct DehydratedCommit {
    /// The cut-down tree.
    pub tree: Tree,
    /// The author to record.
    pub author: Signature,
    /// The committer to record.
    pub committer: Signature,
    /// The message.
    pub message: String,
    /// The parents, cut down likewise.
    pub parents: Vec<DehydratedCommit>,
}

/// What a fast cherry-pick needs next.
#[derive(Debug)]
pub enum CherryPickFastStep {
    /// Nothing: this is the resulting tree.
    Finished {
        /// The resulting tree.
        tree: Tree,
    },
    /// The merge of `patch` onto `target`; its index goes to
    /// [`cherry_pick_fast_merged`] together with `changed_paths`.
    Merge {
        /// The paths that the patch touches.
        changed_paths: Vec<TreePath>,
        /// The commit to apply, cut down, with its parent.
        patch: DehydratedCommit,
        /// The commit to apply it onto, cut down, without parents.
        target: DehydratedCommit,
    },
}

/// The message of the cut-down copy of the commit `oid`.
pub open spec fn dehydrated_message(oid: Seq<u8>) -> Seq<char> {
    "generated by git-branchless: temporary dehydrated commit This commit was originally: NonZeroOid("@
        + hex_of(oid) + ")"@
}

/// Whether `d` is the commit `oid` with tree `tree`, cut down to `paths`:
/// its tree holds the files of `tree` that the paths select, it is signed by
/// the automation signature, and its message names `oid`.
pub open spec fn dehydrated_as(
    d: DehydratedCommit,
    oid: NonZeroOid,
    tree: Seq<EntryView>,
    paths: Seq<Seq<Seq<u8>>>,
) -> bool {
    &&& forall|q: Seq<Seq<u8>>| file_at(d.tree@, q) == file_if_covered(tree, paths, q)
    &&& pruned(tree) || names_no_directory(tree, paths) ==> pruned(d.tree@)
    &&& forall|at: Seq<Seq<u8>>|
        node_below(NodeView::Dir { entries: d.tree@ }, at) is Some ==> node_below(
            NodeView::Dir { entries: tree },
            at,
        ) is Some
    &&& d.author@ == automated_signature()
    &&& d.committer@ == automated_signature()
    &&& d.message@ == dehydrated_message(oid@)
}

/// The commit with the given identifier and tree, cut down, without parents.
fn dehydrate_one(oid: NonZeroOid, tree: &Tree, changed_paths: &Vec<TreePath>) -> (r:
    DehydratedCommit)
    ensures
        dehydrated_as(r, oid, tree@, paths_view(changed_paths@)),
        r.parents@.len() == 0,
{
    let dehydrated_tree = dehydrate_tree(tree, changed_paths);
    let mut message = String::from_str(
        "generated by git-branchless: temporary dehydrated commit This commit was originally: NonZeroOid(",
    );
    let hex = oid.to_hex();
    message.append(hex.as_str());
    message.append(")");
    DehydratedCommit {
        tree: dehydrated_tree,
        author: Signature::automated(),
        committer: Signature::automated(),
        message,
        parents: Vec::new(),
    }
}

/// The commit cut down to `changed_paths`. With `base_on_parent`, a commit
/// with exactly one parent gets that parent, cut down likewise and without
/// parents of its own; every other commit gets no parent.
pub fn dehydrate_commit(commit: &Commit, changed_paths: &Vec<TreePath>, base_on_parent: bool) -> (r:
    DehydratedCommit)
    ensures
        dehydrated_as(r, commit.oid, commit.tree@, paths_view(changed_paths@)),
        base_on_parent && commit.parents@.len() == 1 ==> r.parents@.len() == 1 && dehydrated_as(
            r.parents@[0],
            commit.parents@[0].oid,
            commit.parents@[0].tree@,
            paths_view(changed_paths@),
        ) && r.parents@[0].parents@.len() == 0,
        !(base_on_parent && commit.parents@.len() == 1) ==> r.parents@.len() == 0,
{
    let mut dehydrated = dehydrate_one(commit.oid, &commit.tree, changed_paths);
    if base_on_parent {
        match commit.get_only_parent() {
            Some(parent) => {
                let dehydrated_parent = dehydrate_one(parent.oid, &parent.tree, changed_paths);
                let mut parents: Vec<DehydratedCommit> = Vec::new();
                parents.push(dehydrated_parent);
                dehydrated.parents = parents;
            },
            None => {},
        }
    }
    dehydrated
}

/// Whether the commit changed what stands at `q`: its tree and the tree of
/// its only parent (the empty tree, if it has no parent) hold different
/// files there, or only one of them holds a file.
pub open spec fn touches(commit: Commit, q: Seq<Seq<u8>>) -> bool {
    file_at(
        if commit.parents@.len() == 1 {
            commit.parents@[0].tree@
        } else {
            empty_tree()
        },
        q,
    ) != file_at(commit.tree@, q)
}

/// The paths that the commit added, removed or changed; all paths of its
/// tree if it has no parent; `None` if it has more than one parent.
pub fn get_paths_touched_by_commit(commit: &Commit) -> (r: Option<Vec<TreePath>>)
    ensures
        r is None <==> commit.parents@.len() > 1,
        r matches Some(paths) ==> paths_view(paths@).no_duplicates() && forall|q: Seq<Seq<u8>>|
            paths_view(paths@).contains(q) <==> touches(*commit, q),
{
    if commit.parents.len() > 1 {
        return None;
    }
    let parent_tree: Option<&Tree> = match commit.get_only_parent() {
        Some(parent) => Some(&parent.tree),
        None => None,
    };
    Some(get_changed_paths_between_trees(parent_tree, Some(&commit.tree)))
}

/// Whether the patch can be taken over as it is: this is asked for, and the
/// patch was made on the very tree that it is applied onto.
pub open spec fn reuse_applies(patch: Commit, target: Commit, options: CherryPickFastOptions) -> bool {
    options.reuse_parent_tree_if_possible && patch.parents@.len() == 1 && patch.parents@[0].tree_oid
        == target.tree_oid
}

/// Whether the patch changes nothing: it has the tree of its parent, by
/// identifier or by what the trees hold.
pub open spec fn changes_nothing(patch: Commit) -> bool {
    patch.parents@.len() == 1 && (patch.parents@[0].tree_oid == patch.tree_oid || forall|
        q: Seq<Seq<u8>>,
    |
        !touches(patch, q))
}

/// What the first step of a cherry-pick of `patch` onto `target` gives.
pub open spec fn cherry_pick_started(
    patch: Commit,
    target: Commit,
    options: CherryPickFastOptions,
    r: Result<CherryPickFastStep, CherryPickFastError>,
) -> bool {
    if patch.parents@.len() != 1 {
        r matches Err(CherryPickFastError::GetPatch { commit }) && commit == patch.oid
    } else if reuse_applies(patch, target, options) {
        r matches Ok(CherryPickFastStep::Finished { tree }) && tree@ == patch.tree@
    } else if changes_nothing(patch) {
        r matches Ok(CherryPickFastStep::Finished { tree }) && tree@ == target.tree@
    } else {
        r matches Ok(CherryPickFastStep::Merge { changed_paths, patch: d_patch, target: d_target })
            && {
            let paths = paths_view(changed_paths@);
            &&& paths.no_duplicates()
            &&& forall|q: Seq<Seq<u8>>| paths.contains(q) <==> touches(patch, q)
            &&& dehydrated_as(d_patch, patch.oid, patch.tree@, paths)
            &&& d_patch.parents@.len() == 1
            &&& dehydrated_as(
                d_patch.parents@[0],
                patch.parents@[0].oid,
                patch.parents@[0].tree@,
                paths,
            )
            &&& d_patch.parents@[0].parents@.len() == 0
            &&& dehydrated_as(d_target, target.oid, target.tree@, paths)
            &&& d_target.parents@.len() == 0
        }
    }
}

/// Starts the cherry-pick of `patch_commit` onto `target_commit`.
///
/// A commit without exactly one parent has no patch and is refused. Where
/// the patch was made on the target's own tree and reuse is asked for, the
/// result is the patch's tree. A patch that has the tree of its parent, or
/// touches no path, leaves the target's tree. Otherwise the two commits, cut
/// down to the touched paths, are handed out to be merged.
pub fn cherry_pick_fast(
    patch_commit: &Commit,
    target_commit: &Commit,
    options: &CherryPickFastOptions,
) -> (r: Result<CherryPickFastStep, CherryPickFastError>)
    ensures
        cherry_pick_started(*patch_commit, *target_commit, *options, r),
{
    broadcast use NonZeroOid::lemma_view;

    let only_parent = match patch_commit.get_only_parent() {
        Some(parent) => parent,
        None => {
            return Err(CherryPickFastError::GetPatch { commit: patch_commit.oid });
        },
    };
    if options.reuse_parent_tree_if_possible {
        if only_parent.tree_oid == target_commit.tree_oid {
            return Ok(CherryPickFastStep::Finished { tree: patch_commit.tree.clone() });
        }
    }
    if only_parent.tree_oid == patch_commit.tree_oid {
        return Ok(CherryPickFastStep::Finished { tree: target_commit.tree.clone() });
    }
    let changed_paths = get_changed_paths_between_trees(
        Some(&only_parent.tree),
        Some(&patch_commit.tree),
    );
    if changed_paths.len() == 0 {
        proof {
            assert forall|q: Seq<Seq<u8>>| !touches(*patch_commit, q) by {
                if paths_view(changed_paths@).contains(q) {
                    let i = choose|i: int|
                        0 <= i < paths_view(changed_paths@).len() && paths_view(changed_paths@)[i]
                            == q;
                }
            }
        }
        return Ok(CherryPickFastStep::Finished { tree: target_commit.tree.clone() });
    }
    proof {
        let q = paths_view(changed_paths@)[0];
        assert(paths_view(changed_paths@).contains(q));
        assert(touches(*patch_commit, q));
    }
    let patch = dehydrate_commit(patch_commit, &changed_paths, true);
    let target = dehydrate_commit(target_commit, &changed_paths, false);
    Ok(CherryPickFastStep::Merge { changed_paths, patch, target })
}


/// The mathematical value of one side of a conflict.
pub enum SideView {
    /// The side has no entry.
    Absent,
    /// The side has an entry whose path could not be decoded.
    Undecodable,
    /// The side has an entry at this path.
    Path(Seq<u8>),
}

/// The value of one side of a conflict.
pub open spec fn side_view(side: Option<ConflictPath>) -> SideView {
    match side {
        None => SideView::Absent,
        Some(ConflictPath::Undecodable) => SideView::Undecodable,
        Some(ConflictPath::Decoded { path }) => SideView::Path(path@),
    }
}

/// The sides of the conflicts in the order in which they are read: conflict
/// by conflict, and of each the ancestor's side, ours, theirs.
pub open spec fn conflict_sides(conflicts: Seq<IndexConflict>) -> Seq<(ConflictSide, SideView)>
    decreases conflicts.len(),
{
    if conflicts.len() == 0 {
        seq![]
    } else {
        let last = conflicts.last();
        conflict_sides(conflicts.drop_last()) + seq![
            (ConflictSide::Ancestor, side_view(last.ancestor)),
            (ConflictSide::Our, side_view(last.our)),
            (ConflictSide::Their, side_view(last.their)),
        ]
    }
}

/// The side of the first path that could not be decoded.
pub open spec fn first_undecodable(sides: Seq<(ConflictSide, SideView)>) -> Option<ConflictSide>
    decreases sides.len(),
{
    if sides.len() == 0 {
        None
    } else {
        match first_undecodable(sides.drop_last()) {
            Some(side) => Some(side),
            None => if sides.last().1 is Undecodable {
                Some(sides.last().0)
            } else {
                None
            },
        }
    }
}

/// The paths of the sides, each once, in the order of their first occurrence.
pub open spec fn distinct_paths(sides: Seq<(ConflictSide, SideView)>) -> Seq<Seq<u8>>
    decreases sides.len(),
{
    if sides.len() == 0 {
        seq![]
    } else {
        let before = distinct_paths(sides.drop_last());
        match sides.last().1 {
            SideView::Path(path) => if before.contains(path) {
                before
            } else {
                before.push(path)
            },
            _ => before,
        }
    }
}

/// The values of a run of byte strings.
pub open spec fn byte_strings_view(v: Seq<Vec<u8>>) -> Seq<Seq<u8>> {
    Seq::new(v.len(), |i: int| v[i]@)
}

/// No path occurs twice among the distinct paths, and a path is among them
/// exactly if a side has it.
pub proof fn lemma_distinct_paths(sides: Seq<(ConflictSide, SideView)>, path: Seq<u8>)
    ensures
        distinct_paths(sides).no_duplicates(),
        distinct_paths(sides).contains(path) <==> exists|i: int|
            0 <= i < sides.len() && (#[trigger] sides[i]).1 == SideView::Path(path),
    decreases sides.len(),
{
    if sides.len() > 0 {
        let init = sides.drop_last();
        let before = distinct_paths(init);
        lemma_distinct_paths(init, path);
        let all = distinct_paths(sides);
        if before.contains(path) {
            let i = choose|i: int| 0 <= i < init.len() && (#[trigger] init[i]).1 == SideView::Path(path);
            assert(sides[i] == init[i]);
            let k = choose|k: int| 0 <= k < before.len() && before[k] == path;
            assert(all[k] == path);
        }
        if all.contains(path) && !before.contains(path) {
            assert(sides[sides.len() - 1].1 == SideView::Path(path)) by {
                let k = choose|k: int| 0 <= k < all.len() && all[k] == path;
                if k < before.len() {
                    assert(before[k] == path);
                }
            }
        }
        if exists|i: int| 0 <= i < sides.len() && (#[trigger] sides[i]).1 == SideView::Path(path) {
            let i = choose|i: int| 0 <= i < sides.len() && (#[trigger] sides[i]).1 == SideView::Path(path);
            if i < init.len() {
                assert(init[i] == sides[i]);
            } else {
                if !before.contains(path) {
                    assert(all[all.len() - 1] == path);
                }
            }
        }
        match sides.last().1 {
            SideView::Path(last) => {
                lemma_distinct_paths(init, last);
            },
            _ => {},
        }
    }
}

/// What the merged index gives for a path that the patch touches: the file
/// that it holds there, or nothing if it holds no entry or a removed one.
pub open spec fn merged_value(
    records: Seq<(Seq<Seq<u8>>, IndexEntry)>,
    path: Seq<Seq<u8>>,
) -> Option<NodeView> {
    match index_entry_at(records, path) {
        Some(IndexEntry { oid: MaybeZeroOid::NonZero(oid), file_mode }) => Some(
            NodeView::File { entry: FileEntry { oid, mode: file_mode } },
        ),
        _ => None,
    }
}

/// The updates that bring the merged index into the target's tree: each
/// touched path, with what the index gives for it. The order in which the
/// paths are named plays no part.
pub open spec fn merged_map(
    paths: Seq<Seq<Seq<u8>>>,
    records: Seq<(Seq<Seq<u8>>, IndexEntry)>,
) -> Map<Seq<Seq<u8>>, Option<NodeView>> {
    Map::new(
        |p: Seq<Seq<u8>>| p.len() > 0 && paths.contains(p),
        |p: Seq<Seq<u8>>| merged_value(records, p),
    )
}

/// The touched paths in the order in which they are read, each with what
/// the index gives for it.
spec fn merged_updates(
    paths: Seq<Seq<Seq<u8>>>,
    records: Seq<(Seq<Seq<u8>>, IndexEntry)>,
) -> Seq<(Seq<Seq<u8>>, Option<NodeView>)> {
    Seq::new(paths.len(), |i: int| (paths[i], merged_value(records, paths[i])))
}

/// What the second step of a cherry-pick gives.
pub open spec fn cherry_pick_finished(
    target_tree: Seq<EntryView>,
    paths: Seq<Seq<Seq<u8>>>,
    index: Index,
    r: Result<Tree, CherryPickFastError>,
) -> bool {
    let sides = conflict_sides(index.conflicts@);
    if index.conflicted {
        match first_undecodable(sides) {
            Some(side) => r matches Err(CherryPickFastError::DecodePath { item }) && item == side,
            None => r matches Err(CherryPickFastError::MergeConflict { conflicting_paths })
                && byte_strings_view(conflicting_paths@) == distinct_paths(sides)
                && byte_strings_view(conflicting_paths@).no_duplicates(),
        }
    } else {
        r matches Ok(tree) && (forall|q: Seq<Seq<u8>>|
            file_at(tree@, q) == file_after_map(
                target_tree,
                merged_map(paths, records_view(index.entries@)),
                q,
            )) && (pruned(target_tree) ==> pruned(tree@))
    }
}

/// Whether the byte strings hold `x`.
fn holds_bytes(v: &Vec<Vec<u8>>, x: &[u8]) -> (r: bool)
    ensures
        r == byte_strings_view(v@).contains(x@),
{
    let mut i: usize = 0;
    while i < v.len()
        invariant
            i <= v@.len(),
            forall|j: int| 0 <= j < i ==> byte_strings_view(v@)[j] != x@,
        decreases v@.len() - i,
    {
        if bytes_eq(v[i].as_slice(), x) {
            assert(byte_strings_view(v@)[i as int] == x@);
            return true;
        }
        i += 1;
    }
    false
}

/// Reads one side of a conflict: adds its path to `found` unless it is
/// there already. Fails if the path could not be decoded.
fn take_side(
    found: &mut Vec<Vec<u8>>,
    side: &Option<ConflictPath>,
    which: ConflictSide,
    Ghost(before): Ghost<Seq<(ConflictSide, SideView)>>,
) -> (ok: bool)
    requires
        byte_strings_view(old(found)@) == distinct_paths(before),
        first_undecodable(before) is None,
    ensures
        ok ==> byte_strings_view(final(found)@) == distinct_paths(
            before.push((which, side_view(*side))),
        ) && first_undecodable(before.push((which, side_view(*side)))) is None,
        !ok ==> first_undecodable(before.push((which, side_view(*side)))) == Some(which),
{
    let ghost after = before.push((which, side_view(*side)));
    assert(after.drop_last() =~= before);
    match side {
        None => true,
        Some(ConflictPath::Undecodable) => false,
        Some(ConflictPath::Decoded { path }) => {
            if !holds_bytes(found, path.as_slice()) {
                let ghost old_found = byte_strings_view(found@);
                found.push(copy_bytes(path.as_slice()));
                assert(byte_strings_view(found@) =~= old_found.push(path@));
            }
            true
        },
    }
}

/// Finishes a cherry-pick with the index that the merge of the two
/// cut-down commits gave.
///
/// If the store reports conflicts, the cherry-pick fails with the paths of
/// the sides of the listed conflicts, each once (or with the side whose
/// path could not be decoded, if there is one); it fails so also where no
/// conflict is listed. Otherwise each touched path is set in the
/// target's tree to what the index holds for it, or taken away if the index
/// holds no entry for it or a removed one; all other paths stay. Where one
/// touched path lies below another, the lower one decides what stands
/// there, in whatever order the paths are named.
pub fn cherry_pick_fast_merged(
    target_commit: &Commit,
    changed_paths: &Vec<TreePath>,
    rebased_index: &Index,
) -> (r: Result<Tree, CherryPickFastError>)
    ensures
        cherry_pick_finished(target_commit.tree@, paths_view(changed_paths@), *rebased_index, r),
{
    if rebased_index.has_conflicts() {
        let mut conflicting_paths: Vec<Vec<u8>> = Vec::new();
        let ghost mut sides: Seq<(ConflictSide, SideView)> = seq![];
        let mut i: usize = 0;
        assert(rebased_index.conflicts@.take(0) =~= Seq::<IndexConflict>::empty());
        assert(byte_strings_view(conflicting_paths@) =~= distinct_paths(sides));
        while i < rebased_index.conflicts.len()
            invariant
                i <= rebased_index.conflicts@.len(),
                sides == conflict_sides(rebased_index.conflicts@.take(i as int)),
                rebased_index.conflicted,
                byte_strings_view(conflicting_paths@) == distinct_paths(sides),
                first_undecodable(sides) is None,
            decreases rebased_index.conflicts@.len() - i,
        {
            let conflict = &rebased_index.conflicts[i];
            let ghost s0 = sides;
            let ghost s1 = s0.push((ConflictSide::Ancestor, side_view(conflict.ancestor)));
            let ghost s2 = s1.push((ConflictSide::Our, side_view(conflict.our)));
            let ghost s3 = s2.push((ConflictSide::Their, side_view(conflict.their)));
            proof {
                let next = rebased_index.conflicts@.take(i + 1);
                assert(next.drop_last() =~= rebased_index.conflicts@.take(i as int));
                assert(next.last() == *conflict);
                assert(conflict_sides(next) =~= s3);
                lemma_undecodable_stays(
                    s3,
                    rebased_index.conflicts@,
                    i + 1,
                );
                lemma_undecodable_extends(s1, (ConflictSide::Our, side_view(conflict.our)));
                lemma_undecodable_extends(s2, (ConflictSide::Their, side_view(conflict.their)));
            }
            if !take_side(&mut conflicting_paths, &conflict.ancestor, ConflictSide::Ancestor, Ghost(s0)) {
                return Err(CherryPickFastError::DecodePath { item: ConflictSide::Ancestor });
            }
            if !take_side(&mut conflicting_paths, &conflict.our, ConflictSide::Our, Ghost(s1)) {
                return Err(CherryPickFastError::DecodePath { item: ConflictSide::Our });
            }
            if !take_side(&mut conflicting_paths, &conflict.their, ConflictSide::Their, Ghost(s2)) {
                return Err(CherryPickFastError::DecodePath { item: ConflictSide::Their });
            }
            proof {
                sides = s3;
            }
            i += 1;
        }
        assert(rebased_index.conflicts@.take(i as int) =~= rebased_index.conflicts@);
        proof {
            lemma_distinct_paths(sides, Seq::empty());
        }
        return Err(CherryPickFastError::MergeConflict { conflicting_paths });
    }
    let ghost paths = paths_view(changed_paths@);
    let ghost records = records_view(rebased_index.entries@);
    let mut updates: Vec<TreeUpdate> = Vec::new();
    let mut k: usize = 0;
    while k < changed_paths.len()
        invariant
            k <= changed_paths@.len(),
            paths == paths_view(changed_paths@),
            records == records_view(rebased_index.entries@),
            updates_view(updates@) == merged_updates(paths, records).take(k as int),
            forall|j: int| 0 <= j < updates@.len() ==> node_pruned(#[trigger] updates_view(updates@)[j].1),
        decreases changed_paths@.len() - k,
    {
        let path = &changed_paths[k];
        let value: Option<TreeNode> = match rebased_index.get_entry(path) {
            Some(IndexEntry { oid: MaybeZeroOid::NonZero(oid), file_mode }) => Some(
                TreeNode::File { entry: FileEntry { oid, mode: file_mode } },
            ),
            _ => None,
        };
        proof {
            lemma_leaf_pruned(node_opt_view(value));
        }
        let ghost old_updates = updates_view(updates@);
        updates.push(TreeUpdate { path: path.clone(), value });
        assert(updates_view(updates@) =~= old_updates.push((path@, node_opt_view(value))));
        assert(updates_view(updates@) =~= merged_updates(paths, records).take(k + 1));
        k += 1;
    }
    assert(merged_updates(paths, records).take(k as int) =~= merged_updates(paths, records));
    proof {
        let all = merged_updates(paths, records);
        let m = merged_map(paths, records);
        assert forall|p: Seq<Seq<u8>>| #[trigger]
            m.contains_key(p) <==> p.len() > 0 && exists|i: int|
                0 <= i < all.len() && (#[trigger] all[i]).0 == p by {
            if m.contains_key(p) {
                let i = choose|i: int| 0 <= i < paths.len() && paths[i] == p;
                assert(all[i].0 == p);
            }
            if p.len() > 0 && exists|i: int| 0 <= i < all.len() && (#[trigger] all[i]).0 == p {
                let i = choose|i: int| 0 <= i < all.len() && (#[trigger] all[i]).0 == p;
                assert(paths[i] == p);
            }
        }
        lemma_map_by_path(all, m);
    }
    Ok(hydrate_tree(Some(&target_commit.tree), &updates))
}

/// One side more leaves the first undecodable side where it was.
proof fn lemma_undecodable_extends(
    sides: Seq<(ConflictSide, SideView)>,
    next: (ConflictSide, SideView),
)
    ensures
        first_undecodable(sides) is Some ==> first_undecodable(sides.push(next))
            == first_undecodable(sides),
{
    assert(sides.push(next).drop_last() =~= sides);
}

/// The first undecodable side among the first conflicts is the first
/// undecodable side among all.
proof fn lemma_undecodable_stays(
    sides: Seq<(ConflictSide, SideView)>,
    conflicts: Seq<IndexConflict>,
    i: int,
)
    requires
        0 <= i <= conflicts.len(),
        sides == conflict_sides(conflicts.take(i)),
    ensures
        forall|s: Seq<(ConflictSide, SideView)>|
            #![trigger first_undecodable(s)]
            s.is_prefix_of(sides) && first_undecodable(s) is Some ==> first_undecodable(
                conflict_sides(conflicts),
            ) == first_undecodable(s),
{
    assert forall|s: Seq<(ConflictSide, SideView)>|
        #![trigger first_undecodable(s)]
        s.is_prefix_of(sides) && first_undecodable(s) is Some implies first_undecodable(
        conflict_sides(conflicts),
    ) == first_undecodable(s) by {
        lemma_sides_prefix(conflicts, i);
        lemma_undecodable_prefix(s, sides);
        lemma_undecodable_prefix(sides, conflict_sides(conflicts));
    }
}

/// The sides of the first conflicts are the first sides of all conflicts.
proof fn lemma_sides_prefix(conflicts: Seq<IndexConflict>, i: int)
    requires
        0 <= i <= conflicts.len(),
    ensures
        conflict_sides(conflicts.take(i)).is_prefix_of(conflict_sides(conflicts)),
    decreases conflicts.len() - i,
{
    let all = conflict_sides(conflicts);
    if i == conflicts.len() {
        assert(conflicts.take(i) =~= conflicts);
        assert(all =~= all.subrange(0, all.len() as int));
    } else {
        lemma_sides_prefix(conflicts, i + 1);
        let next = conflicts.take(i + 1);
        assert(next.drop_last() =~= conflicts.take(i));
        let a = conflict_sides(conflicts.take(i));
        let b = conflict_sides(next);
        assert(a =~= b.subrange(0, a.len() as int));
        assert(a =~= all.subrange(0, a.len() as int)) by {
            assert(b =~= all.subrange(0, b.len() as int));
        }
    }
}

/// The first undecodable side of a prefix is that of the whole.
proof fn lemma_undecodable_prefix(
    s: Seq<(ConflictSide, SideView)>,
    t: Seq<(ConflictSide, SideView)>,
)
    requires
        s.is_prefix_of(t),
    ensures
        first_undecodable(s) is Some ==> first_undecodable(t) == first_undecodable(s),
    decreases t.len(),
{
    if s.len() < t.len() {
        assert(s.is_prefix_of(t.drop_last())) by {
            assert(s =~= t.drop_last().subrange(0, s.len() as int));
        }
        lemma_undecodable_prefix(s, t.drop_last());
    } else {
        assert(s =~= t);
    }
}


/// Options for [`amend_fast`].
#[derive(Debug)]
pub enum AmendFastOptions {
    /// Amend a set of paths from the current state of the working copy.
    FromWorkingCopy {
        /// The status entries for the files to amend.
        status_entries: Vec<StatusEntry>,
    },
    /// Amend a set of paths from the current state of the index.
    FromIndex {
        /// The paths to amend.
        paths: Vec<TreePath>,
    },
}

impl AmendFastOptions {
    /// Returns whether there are any paths to be amended.
    pub fn is_empty(&self) -> (r: bool)
        ensures
            r == match *self {
                AmendFastOptions::FromIndex { paths } => paths@.len() == 0,
                AmendFastOptions::FromWorkingCopy { status_entries } => status_entries@.len() == 0,
            },
    {
        match &self {
            AmendFastOptions::FromIndex { paths } => paths.len() == 0,
            AmendFastOptions::FromWorkingCopy { status_entries } => status_entries.len() == 0,
        }
    }
}

/// What the store made of a file of the working copy: the identifier of the
/// blob with its content, or nothing if there is no such file.
#[derive(Debug)]
pub struct WorkingCopyBlob {
    /// The path of the file, from the root of the working copy.
    pub path: TreePath,
    /// The blob, if the file exists.
    pub oid: Option<NonZeroOid>,
}

/// The mathematical value of what was read from the working copy.
pub open spec fn blobs_view(blobs: Seq<WorkingCopyBlob>) -> Seq<(Seq<Seq<u8>>, Option<NonZeroOid>)> {
    Seq::new(blobs.len(), |i: int| (blobs[i].path@, blobs[i].oid))
}

/// The blob that was made of the file at `path`: that of the first record
/// with this path; nothing if there is no record or no file.
pub open spec fn blob_at(
    blobs: Seq<(Seq<Seq<u8>>, Option<NonZeroOid>)>,
    path: Seq<Seq<u8>>,
) -> Option<NonZeroOid>
    decreases blobs.len(),
{
    if blobs.len() == 0 {
        None
    } else if blobs[0].0 == path {
        blobs[0].1
    } else {
        blob_at(blobs.drop_first(), path)
    }
}

/// The file that the staging area holds at `path`; nothing if it holds no
/// entry there or a removed one.
pub open spec fn staged_file(
    records: Seq<(Seq<Seq<u8>>, IndexEntry)>,
    path: Seq<Seq<u8>>,
) -> Option<FileEntry> {
    match index_entry_at(records, path) {
        Some(IndexEntry { oid: MaybeZeroOid::NonZero(oid), file_mode }) => Some(
            FileEntry { oid, mode: file_mode },
        ),
        _ => None,
    }
}

/// The new entries that the status entries give: for each path of each
/// entry, the blob of the working copy with the entry's mode.
pub open spec fn working_copy_entries(
    entries: Seq<StatusEntry>,
    blobs: Seq<(Seq<Seq<u8>>, Option<NonZeroOid>)>,
) -> Seq<(Seq<Seq<u8>>, Option<FileEntry>)>
    decreases entries.len(),
{
    if entries.len() == 0 {
        seq![]
    } else {
        let last = entries.last();
        let paths = entry_paths(last);
        working_copy_entries(entries.drop_last(), blobs) + Seq::new(
            paths.len(),
            |i: int|
                (
                    paths[i],
                    match blob_at(blobs, paths[i]) {
                        Some(oid) => Some(FileEntry { oid, mode: last.working_copy_file_mode }),
                        None => None,
                    },
                ),
        )
    }
}

/// The new entries that the options give: what is to stand at each of
/// their paths.
pub open spec fn new_entries(
    opts: AmendFastOptions,
    records: Seq<(Seq<Seq<u8>>, IndexEntry)>,
    blobs: Seq<(Seq<Seq<u8>>, Option<NonZeroOid>)>,
) -> Seq<(Seq<Seq<u8>>, Option<FileEntry>)> {
    match opts {
        AmendFastOptions::FromWorkingCopy { status_entries } => working_copy_entries(
            status_entries@,
            blobs,
        ),
        AmendFastOptions::FromIndex { paths } => Seq::new(
            paths@.len(),
            |i: int| (paths@[i]@, staged_file(records, paths@[i]@)),
        ),
    }
}

/// What the new entries give for `path`: the last of them with this path
/// decides.
pub open spec fn last_entry_at(
    entries: Seq<(Seq<Seq<u8>>, Option<FileEntry>)>,
    path: Seq<Seq<u8>>,
) -> Option<Option<FileEntry>>
    decreases entries.len(),
{
    if entries.len() == 0 {
        None
    } else if entries.last().0 == path {
        Some(entries.last().1)
    } else {
        last_entry_at(entries.drop_last(), path)
    }
}

/// A file as a node.
pub open spec fn file_node(entry: Option<FileEntry>) -> Option<NodeView> {
    match entry {
        Some(entry) => Some(NodeView::File { entry }),
        None => None,
    }
}

/// The updates of an amend: each path that the new entries name gets what
/// they give for it, and each other path that the commit itself touched
/// keeps what the commit's tree holds there.
pub open spec fn amend_map(
    parent_commit: Commit,
    entries: Seq<(Seq<Seq<u8>>, Option<FileEntry>)>,
) -> Map<Seq<Seq<u8>>, Option<NodeView>> {
    Map::new(
        |p: Seq<Seq<u8>>|
            p.len() > 0 && (touches(parent_commit, p) || last_entry_at(entries, p) is Some),
        |p: Seq<Seq<u8>>|
            match last_entry_at(entries, p) {
                Some(entry) => file_node(entry),
                None => entry_at(parent_commit.tree@, p),
            },
    )
}

/// An exec record of a new entry.
struct NewEntry {
    path: TreePath,
    entry: Option<FileEntry>,
}

spec fn new_entries_view(entries: Seq<NewEntry>) -> Seq<(Seq<Seq<u8>>, Option<FileEntry>)> {
    Seq::new(entries.len(), |i: int| (entries[i].path@, entries[i].entry))
}

/// The blob that was made of the file at `path`.
fn find_blob(blobs: &Vec<WorkingCopyBlob>, path: &TreePath) -> (r: Option<NonZeroOid>)
    ensures
        r == blob_at(blobs_view(blobs@), path@),
{
    let ghost all = blobs_view(blobs@);
    let mut i: usize = 0;
    assert(all.skip(0) =~= all);
    while i < blobs.len()
        invariant
            i <= blobs@.len(),
            all == blobs_view(blobs@),
            blob_at(all, path@) == blob_at(all.skip(i as int), path@),
        decreases blobs@.len() - i,
    {
        assert(all.skip(i as int)[0] == all[i as int]);
        assert(all.skip(i as int).drop_first() =~= all.skip(i + 1));
        if blobs[i].path.same_as(path) {
            return blobs[i].oid;
        }
        i += 1;
    }
    None
}

/// What the new entries give for `path`.
fn find_last_entry(entries: &Vec<NewEntry>, path: &TreePath) -> (r: Option<Option<FileEntry>>)
    ensures
        r == last_entry_at(new_entries_view(entries@), path@),
{
    let ghost all = new_entries_view(entries@);
    let mut i: usize = entries.len();
    assert(all.take(i as int) =~= all);
    while i > 0
        invariant
            i <= entries@.len(),
            all == new_entries_view(entries@),
            last_entry_at(all, path@) == last_entry_at(all.take(i as int), path@),
        decreases i,
    {
        assert(all.take(i as int).last() == all[i - 1]);
        assert(all.take(i as int).drop_last() =~= all.take(i - 1));
        if entries[i - 1].path.same_as(path) {
            return Some(entries[i - 1].entry);
        }
        i -= 1;
    }
    None
}

/// The new entries that the options give.
fn collect_new_entries(opts: &AmendFastOptions, index: &Index, blobs: &Vec<WorkingCopyBlob>) -> (r:
    Vec<NewEntry>)
    ensures
        new_entries_view(r@) == new_entries(*opts, records_view(index.entries@), blobs_view(blobs@)),
{
    let mut out: Vec<NewEntry> = Vec::new();
    match opts {
        AmendFastOptions::FromWorkingCopy { status_entries } => {
            let ghost bv = blobs_view(blobs@);
            let mut i: usize = 0;
            assert(status_entries@.take(0) =~= Seq::<StatusEntry>::empty());
            assert(new_entries_view(out@) =~= working_copy_entries(status_entries@.take(0), bv));
            while i < status_entries.len()
                invariant
                    i <= status_entries@.len(),
                    bv == blobs_view(blobs@),
                    new_entries_view(out@) == working_copy_entries(status_entries@.take(i as int), bv),
                decreases status_entries@.len() - i,
            {
                let entry = &status_entries[i];
                let ghost before = new_entries_view(out@);
                let ghost next = status_entries@.take(i + 1);
                assert(next.last() == *entry);
                assert(next.drop_last() =~= status_entries@.take(i as int));
                let mode = entry.working_copy_file_mode;
                let value = match find_blob(blobs, &entry.path) {
                    Some(oid) => Some(FileEntry { oid, mode }),
                    None => None,
                };
                out.push(NewEntry { path: entry.path.clone(), entry: value });
                match &entry.orig_path {
                    Some(orig) => {
                        let value = match find_blob(blobs, orig) {
                            Some(oid) => Some(FileEntry { oid, mode }),
                            None => None,
                        };
                        out.push(NewEntry { path: orig.clone(), entry: value });
                    },
                    None => {},
                }
                assert(new_entries_view(out@) =~= working_copy_entries(next, bv));
                i += 1;
            }
            assert(status_entries@.take(i as int) =~= status_entries@);
        },
        AmendFastOptions::FromIndex { paths } => {
            let ghost records = records_view(index.entries@);
            let ghost target = Seq::new(
                paths@.len(),
                |i: int| (paths@[i]@, staged_file(records, paths@[i]@)),
            );
            assert(new_entries(*opts, records, blobs_view(blobs@)) == target);
            let mut i: usize = 0;
            assert(new_entries_view(out@) =~= target.take(0));
            while i < paths.len()
                invariant
                    i <= paths@.len(),
                    records == records_view(index.entries@),
                    target == Seq::new(
                        paths@.len(),
                        |i: int| (paths@[i]@, staged_file(records, paths@[i]@)),
                    ),
                    new_entries_view(out@) == target.take(i as int),
                decreases paths@.len() - i,
            {
                let path = &paths[i];
                let value = match index.get_entry(path) {
                    Some(IndexEntry { oid: MaybeZeroOid::NonZero(oid), file_mode }) => Some(
                        FileEntry { oid, mode: file_mode },
                    ),
                    _ => None,
                };
                let ghost before = new_entries_view(out@);
                out.push(NewEntry { path: path.clone(), entry: value });
                assert(new_entries_view(out@) =~= before.push((path@, value)));
                assert(new_entries_view(out@) =~= target.take(i + 1));
                i += 1;
            }
            assert(target.take(i as int) =~= target);
        },
    }
    out
}

/// What an amend of `parent_commit` gives.
pub open spec fn amended(
    parent_commit: Commit,
    opts: AmendFastOptions,
    index: Index,
    blobs: Seq<WorkingCopyBlob>,
    r: Result<Tree, RepoError>,
) -> bool {
    if parent_commit.parents@.len() > 1 {
        r matches Err(RepoError::GetPatch { commit }) && commit == parent_commit.oid
    } else {
        r matches Ok(tree) && (pruned(parent_commit.tree@) ==> pruned(tree@)) && forall|
            q: Seq<Seq<u8>>,
        |
            file_at(tree@, q) == file_after_map(
                parent_commit.tree@,
                amend_map(
                    parent_commit,
                    new_entries(opts, records_view(index.entries@), blobs_view(blobs)),
                ),
                q,
            )
    }
}

/// Amends `parent_commit` and gives the resulting tree.
///
/// From the working copy, each path of each status entry is set to the blob
/// that `blobs` records for it, with the entry's mode, or taken away if
/// there is no such file. From the staging area `index`, each path is set
/// to what the staging area holds for it, or taken away if it holds no
/// entry there or a removed one. Where a path is named more than once, the
/// last naming decides. The paths that the commit itself touched, and that
/// are not named, keep what the commit's tree holds. Where one of all these
/// paths lies below another, the lower one decides what stands there, in
/// whatever order the paths are named. A commit with more than one parent
/// is refused.
pub fn amend_fast(
    parent_commit: &Commit,
    opts: &AmendFastOptions,
    index: &Index,
    blobs: &Vec<WorkingCopyBlob>,
) -> (r: Result<Tree, RepoError>)
    ensures
        amended(*parent_commit, *opts, *index, blobs@, r),
{
    let parent_commit_paths = match get_paths_touched_by_commit(parent_commit) {
        Some(paths) => paths,
        None => {
            return Err(RepoError::GetPatch { commit: parent_commit.oid });
        },
    };
    let new_tree_entries = collect_new_entries(opts, index, blobs);
    let ghost new = new_entries_view(new_tree_entries@);
    let ghost touched = paths_view(parent_commit_paths@);
    let ghost n_parent = parent_commit_paths@.len();

    let mut changed_paths: Vec<TreePath> = parent_commit_paths;
    let mut i: usize = 0;
    while i < new_tree_entries.len()
        invariant
            i <= new_tree_entries@.len(),
            new == new_entries_view(new_tree_entries@),
            changed_paths@.len() == n_parent + i,
            touched.len() == n_parent,
            forall|j: int| 0 <= j < n_parent ==> changed_paths@[j]@ == touched[j],
            forall|j: int| 0 <= j < i ==> changed_paths@[n_parent + j]@ == new[j].0,
        decreases new_tree_entries@.len() - i,
    {
        changed_paths.push(new_tree_entries[i].path.clone());
        i += 1;
    }

    let ghost tree = parent_commit.tree@;
    let ghost paths = paths_view(changed_paths@);

    let mut updates: Vec<TreeUpdate> = Vec::new();
    let mut k: usize = 0;
    while k < changed_paths.len()
        invariant
            k <= changed_paths@.len(),
            paths == paths_view(changed_paths@),
            new == new_entries_view(new_tree_entries@),
            tree == parent_commit.tree@,
            updates@.len() == k,
            forall|j: int|
                0 <= j < k ==> (#[trigger] updates_view(updates@)[j]) == (
                    paths[j],
                    match last_entry_at(new, paths[j]) {
                        Some(entry) => file_node(entry),
                        None => entry_at(tree, paths[j]),
                    },
                ),
        decreases changed_paths@.len() - k,
    {
        let changed_path = &changed_paths[k];
        let value: Option<TreeNode> = match find_last_entry(&new_tree_entries, changed_path) {
            Some(Some(entry)) => Some(TreeNode::File { entry }),
            Some(None) => None,
            None => match parent_commit.tree.get_path(changed_path) {
                Some(node) => Some(node.clone()),
                None => None,
            },
        };
        let ghost old_updates = updates_view(updates@);
        updates.push(TreeUpdate { path: changed_path.clone(), value });
        assert(updates_view(updates@) =~= old_updates.push((changed_path@, node_opt_view(value))));
        k += 1;
    }
    let amended_tree = hydrate_tree(Some(&parent_commit.tree), &updates);
    proof {
        let all = updates_view(updates@);
        let m = amend_map(*parent_commit, new);
        assert forall|p: Seq<Seq<u8>>| #[trigger]
            m.contains_key(p) <==> p.len() > 0 && exists|i: int|
                0 <= i < all.len() && (#[trigger] all[i]).0 == p by {
            if m.contains_key(p) {
                if last_entry_at(new, p) is Some {
                    let j = lemma_last_entry_index(new, p);
                    assert(all[n_parent + j].0 == paths[n_parent + j]);
                } else {
                    assert(touched.contains(p));
                    let j = choose|j: int| 0 <= j < touched.len() && touched[j] == p;
                    assert(all[j].0 == paths[j]);
                }
            }
            if p.len() > 0 && exists|i: int| 0 <= i < all.len() && (#[trigger] all[i]).0 == p {
                let j = choose|j: int| 0 <= j < all.len() && (#[trigger] all[j]).0 == p;
                assert(paths[j] == p);
                if j < n_parent {
                    assert(touched[j] == p);
                    assert(touched.contains(p));
                } else {
                    assert(new[j - n_parent].0 == p);
                    lemma_last_entry_found(new, j - n_parent);
                }
            }
        }
        assert forall|i: int| 0 <= i < all.len() && (#[trigger] all[i]).0.len() > 0 implies m[all[i].0]
            == all[i].1 by {
            assert(all[i].0 == paths[i]);
            if last_entry_at(new, paths[i]) is None {
                if i < n_parent {
                    assert(touched[i] == paths[i]);
                    assert(touched.contains(paths[i]));
                } else {
                    assert(new[i - n_parent].0 == paths[i]);
                    lemma_last_entry_found(new, i - n_parent);
                }
            }
        }
        lemma_map_by_path(all, m);
        if pruned(tree) {
            assert forall|j: int| 0 <= j < all.len() implies node_pruned(#[trigger] all[j].1) by {
                match last_entry_at(new, paths[j]) {
                    Some(entry) => {
                        lemma_leaf_pruned(file_node(entry));
                    },
                    None => {
                        lemma_pruned_entry(tree, paths[j]);
                    },
                }
            }
        }
    }
    Ok(amended_tree)
}

/// The path of a new entry is given something by the new entries.
pub proof fn lemma_entry_named(entries: Seq<(Seq<Seq<u8>>, Option<FileEntry>)>, j: int)
    requires
        0 <= j < entries.len(),
    ensures
        last_entry_at(entries, entries[j].0) is Some,
{
    lemma_last_entry_found(entries, j);
}

/// The path of a new entry is given something by the new entries.
proof fn lemma_last_entry_found(entries: Seq<(Seq<Seq<u8>>, Option<FileEntry>)>, j: int)
    requires
        0 <= j < entries.len(),
    ensures
        last_entry_at(entries, entries[j].0) is Some,
    decreases entries.len(),
{
    if entries.last().0 != entries[j].0 {
        assert(entries.drop_last()[j] == entries[j]);
        lemma_last_entry_found(entries.drop_last(), j);
    }
}

/// Where the new entries give something for a path, one of them has it.
proof fn lemma_last_entry_index(entries: Seq<(Seq<Seq<u8>>, Option<FileEntry>)>, path: Seq<Seq<u8>>)
    -> (m: int)
    requires
        last_entry_at(entries, path) is Some,
    ensures
        0 <= m < entries.len(),
        entries[m].0 == path,
    decreases entries.len(),
{
    if entries.last().0 == path {
        entries.len() - 1
    } else {
        let m = lemma_last_entry_index(entries.drop_last(), path);
        assert(entries.drop_last()[m] == entries[m]);
        m
    }
}

} // verus!
