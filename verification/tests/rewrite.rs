use git_branchless::commit::{Commit, ParentCommit, Signature, Time};
use git_branchless::error::RepoError;
use git_branchless::file_mode::FileMode;
use git_branchless::index::{ConflictPath, Index, IndexConflict, IndexEntry, IndexRecord};
use git_branchless::oid::{MaybeZeroOid, NonZeroOid};
use git_branchless::path::TreePath;
use git_branchless::rewrite::{
    amend_fast, cherry_pick_fast, cherry_pick_fast_merged, dehydrate_commit,
    get_paths_touched_by_commit, AmendFastOptions, CherryPickFastError, CherryPickFastOptions,
    CherryPickFastStep, ConflictSide, WorkingCopyBlob,
};
use git_branchless::status::{FileStatus, StatusEntry};
use git_branchless::tree::{hydrate_tree, FileEntry, Tree, TreeNode, TreeUpdate};

fn path(text: &str) -> TreePath {
    TreePath::from_bytes(text.as_bytes())
}

fn to_oid(id: git2::Oid) -> NonZeroOid {
    let mut bytes = [0u8; 20];
    bytes.copy_from_slice(id.as_bytes());
    NonZeroOid::from_bytes(bytes).unwrap()
}

fn from_oid(oid: NonZeroOid) -> git2::Oid {
    git2::Oid::from_bytes(&oid.as_bytes()).unwrap()
}

fn memory_repo() -> git2::Repository {
    let odb = git2::Odb::new().unwrap();
    odb.add_new_mempack_backend(1000).unwrap();
    git2::Repository::from_odb(odb).unwrap()
}

fn blob(repo: &git2::Repository, contents: &str) -> NonZeroOid {
    to_oid(repo.blob(contents.as_bytes()).unwrap())
}

fn tree_of(files: &[(&str, NonZeroOid)]) -> Tree {
    let updates: Vec<TreeUpdate> = files
        .iter()
        .map(|(p, oid)| TreeUpdate {
            path: path(p),
            value: Some(TreeNode::File {
                entry: FileEntry { oid: *oid, mode: FileMode::Blob },
            }),
        })
        .collect();
    hydrate_tree(None, &updates)
}

fn write_tree(repo: &git2::Repository, tree: &Tree) -> git2::Oid {
    let mut builder = repo.treebuilder(None).unwrap();
    for entry in &tree.entries {
        match &entry.node {
            TreeNode::File { entry: file } => {
                builder
                    .insert(&entry.name, from_oid(file.oid), file.mode.to_bits())
                    .unwrap();
            }
            TreeNode::Dir { tree: sub } => {
                let id = write_tree(repo, sub);
                builder.insert(&entry.name, id, 0o040000).unwrap();
            }
        }
    }
    builder.write().unwrap()
}

fn entries(repo: &git2::Repository, tree: &Tree) -> Vec<(String, String)> {
    let id = write_tree(repo, tree);
    let written = repo.find_tree(id).unwrap();
    written
        .iter()
        .map(|entry| (entry.name().unwrap().to_string(), entry.id().to_string()))
        .collect()
}

fn signature() -> Signature {
    Signature {
        name: Some("Testy McTestface".to_string()),
        email: Some("test@example.com".to_string()),
        time: Time { seconds: 0, offset_minutes: 0 },
    }
}

fn commit(repo: &git2::Repository, n: u8, tree: Tree, parents: Vec<&Commit>) -> Commit {
    Commit {
        oid: NonZeroOid::from_bytes([n; 20]).unwrap(),
        tree_oid: to_oid(write_tree(repo, &tree)),
        tree,
        parents: parents
            .iter()
            .map(|p| ParentCommit { oid: p.oid, tree_oid: p.tree_oid, tree: p.tree.clone() })
            .collect(),
        author: signature(),
        committer: signature(),
        message: b"message".to_vec(),
    }
}

fn to_index(index: &git2::Index) -> Index {
    let mut records = Vec::new();
    for entry in index.iter() {
        if (entry.flags >> 12) & 3 != 0 {
            continue;
        }
        let mut bytes = [0u8; 20];
        bytes.copy_from_slice(entry.id.as_bytes());
        records.push(IndexRecord {
            path: TreePath::from_bytes(&entry.path),
            entry: IndexEntry {
                oid: MaybeZeroOid::from_bytes(bytes),
                file_mode: FileMode::from_bits(entry.mode as i32),
            },
        });
    }
    let side = |entry: Option<git2::IndexEntry>| {
        entry.map(|entry| ConflictPath::Decoded { path: entry.path })
    };
    let mut conflicts = Vec::new();
    if index.has_conflicts() {
        for conflict in index.conflicts().unwrap() {
            let conflict = conflict.unwrap();
            conflicts.push(IndexConflict {
                ancestor: side(conflict.ancestor),
                our: side(conflict.our),
                their: side(conflict.their),
            });
        }
    }
    Index { entries: records, conflicted: index.has_conflicts(), conflicts }
}

fn merge(repo: &git2::Repository, step: &CherryPickFastStep) -> (Vec<TreePath>, Index) {
    match step {
        CherryPickFastStep::Merge { changed_paths, patch, target } => {
            assert_eq!(patch.parents.len(), 1);
            assert_eq!(target.parents.len(), 0);
            let ancestor = repo.find_tree(write_tree(repo, &patch.parents[0].tree)).unwrap();
            let ours = repo.find_tree(write_tree(repo, &target.tree)).unwrap();
            let theirs = repo.find_tree(write_tree(repo, &patch.tree)).unwrap();
            let merged = repo.merge_trees(&ancestor, &ours, &theirs, None).unwrap();
            (changed_paths.clone(), to_index(&merged))
        }
        other => panic!("no merge asked for: {:?}", other),
    }
}

#[test]
fn test_cherry_pick_fast() {
    let repo = memory_repo();
    let initial = blob(&repo, "initial contents\n");
    let test1 = blob(&repo, "test1 contents");
    let initial2 = blob(&repo, "updated initial contents");

    let base_commit = commit(&repo, 1, tree_of(&[("initial.txt", initial)]), vec![]);
    let test1_commit = commit(
        &repo,
        2,
        tree_of(&[("initial.txt", initial), ("test1.txt", test1)]),
        vec![&base_commit],
    );
    let initial2_commit = commit(&repo, 3, tree_of(&[("initial.txt", initial2)]), vec![&base_commit]);

    let step = cherry_pick_fast(
        &test1_commit,
        &initial2_commit,
        &CherryPickFastOptions { reuse_parent_tree_if_possible: false },
    )
    .unwrap();
    let (changed_paths, rebased_index) = merge(&repo, &step);
    let tree = cherry_pick_fast_merged(&initial2_commit, &changed_paths, &rebased_index).unwrap();

    assert_eq!(
        write_tree(&repo, &tree).to_string(),
        "367f91ddd5df2d1c18742ce3f09b4944944cac3a"
    );
    assert_eq!(
        entries(&repo, &tree).into_iter().map(|(name, _)| name).collect::<Vec<_>>(),
        vec!["initial.txt".to_string(), "test1.txt".to_string()]
    );
    assert_eq!(
        entries(&repo, &tree),
        vec![
            ("initial.txt".to_string(), from_oid(initial2).to_string()),
            ("test1.txt".to_string(), from_oid(test1).to_string()),
        ]
    );
}

#[test]
fn test_amend_fast_from_index() {
    let repo = memory_repo();
    let first = blob(&repo, "initial contents\n");
    let initial = blob(&repo, "initial contents");
    let updated = blob(&repo, "updated contents");

    let base_commit = commit(&repo, 1, tree_of(&[("initial.txt", first)]), vec![]);
    let initial_commit = commit(&repo, 2, tree_of(&[("initial.txt", initial)]), vec![&base_commit]);

    let tree = &initial_commit.tree;
    assert_eq!(
        write_tree(&repo, tree).to_string(),
        "01deb7745d411223bbf6b9cb1abaeed451bb25a0"
    );
    assert_eq!(
        entries(&repo, tree),
        vec![(
            "initial.txt".to_string(),
            "5c41c3d7e736911dbbd53d62c10292b9bc78f838".to_string()
        )]
    );

    // The file was changed in the working copy, but not staged.
    let staging = Index {
        entries: vec![IndexRecord {
            path: path("initial.txt"),
            entry: IndexEntry { oid: MaybeZeroOid::NonZero(initial), file_mode: FileMode::Blob },
        }],
        conflicted: false,
        conflicts: vec![],
    };
    let tree = amend_fast(
        &initial_commit,
        &AmendFastOptions::FromIndex { paths: vec![path("initial.txt")] },
        &staging,
        &vec![],
    )
    .unwrap();
    assert_eq!(
        write_tree(&repo, &tree).to_string(),
        "01deb7745d411223bbf6b9cb1abaeed451bb25a0"
    );
    assert_eq!(
        entries(&repo, &tree),
        vec![(
            "initial.txt".to_string(),
            "5c41c3d7e736911dbbd53d62c10292b9bc78f838".to_string()
        )]
    );

    // Now the change is staged.
    let staging = Index {
        entries: vec![IndexRecord {
            path: path("initial.txt"),
            entry: IndexEntry { oid: MaybeZeroOid::NonZero(updated), file_mode: FileMode::Blob },
        }],
        conflicted: false,
        conflicts: vec![],
    };
    let tree = amend_fast(
        &initial_commit,
        &AmendFastOptions::FromIndex { paths: vec![path("initial.txt")] },
        &staging,
        &vec![],
    )
    .unwrap();
    assert_eq!(
        write_tree(&repo, &tree).to_string(),
        "1c15b79a72c3285df172fcfdaceedb7259283eb5"
    );
    assert_eq!(
        entries(&repo, &tree),
        vec![(
            "initial.txt".to_string(),
            "53cd9398c8a2d92f18d279c6cad3f5dde67235e7".to_string()
        )]
    );
}

fn status_entry(
    index_status: FileStatus,
    working_copy_status: FileStatus,
    file: &str,
) -> StatusEntry {
    StatusEntry {
        index_status,
        working_copy_status,
        working_copy_file_mode: FileMode::Blob,
        path: path(file),
        orig_path: None,
    }
}

fn read_working_copy(
    repo: &git2::Repository,
    files: &[(&str, &str)],
    entries: &[StatusEntry],
) -> Vec<WorkingCopyBlob> {
    let mut blobs = Vec::new();
    for entry in entries {
        let name = String::from_utf8(entry.path.to_bytes()).unwrap();
        let oid = files
            .iter()
            .find(|(file, _)| *file == name)
            .map(|(_, contents)| blob(repo, contents));
        blobs.push(WorkingCopyBlob { path: entry.path.clone(), oid });
    }
    blobs
}

#[test]
fn test_amend_fast_from_working_tree() {
    let repo = memory_repo();
    let first = blob(&repo, "initial contents\n");
    let initial = blob(&repo, "initial contents");
    let base_commit = commit(&repo, 1, tree_of(&[("initial.txt", first)]), vec![]);
    let initial_commit = commit(&repo, 2, tree_of(&[("initial.txt", initial)]), vec![&base_commit]);
    let no_index = Index { entries: vec![], conflicted: false, conflicts: vec![] };

    let status_entries =
        vec![status_entry(FileStatus::Renamed, FileStatus::Unmodified, "initial.txt")];
    let blobs = read_working_copy(&repo, &[("initial.txt", "updated contents")], &status_entries);
    let tree = amend_fast(
        &initial_commit,
        &AmendFastOptions::FromWorkingCopy { status_entries },
        &no_index,
        &blobs,
    )
    .unwrap();
    assert_eq!(
        write_tree(&repo, &tree).to_string(),
        "1c15b79a72c3285df172fcfdaceedb7259283eb5"
    );
    assert_eq!(
        entries(&repo, &tree),
        vec![(
            "initial.txt".to_string(),
            "53cd9398c8a2d92f18d279c6cad3f5dde67235e7".to_string()
        )]
    );

    let status_entries = vec![status_entry(FileStatus::Unmodified, FileStatus::Added, "file2.txt")];
    let blobs = read_working_copy(
        &repo,
        &[("file2.txt", "another file"), ("initial.txt", "updated contents again")],
        &status_entries,
    );
    let tree = amend_fast(
        &initial_commit,
        &AmendFastOptions::FromWorkingCopy { status_entries },
        &no_index,
        &blobs,
    )
    .unwrap();
    assert_eq!(
        write_tree(&repo, &tree).to_string(),
        "1a9fbbecd825881c3e79f0fb194a1c1e1104fe0f"
    );
    assert_eq!(
        entries(&repo, &tree),
        vec![
            (
                "file2.txt".to_string(),
                "cdcb28483da7783a8b505a074c50632a5481a69b".to_string()
            ),
            (
                "initial.txt".to_string(),
                "5c41c3d7e736911dbbd53d62c10292b9bc78f838".to_string()
            ),
        ]
    );

    let status_entries =
        vec![status_entry(FileStatus::Unmodified, FileStatus::Deleted, "initial.txt")];
    let blobs = read_working_copy(&repo, &[("file2.txt", "another file")], &status_entries);
    let tree = amend_fast(
        &initial_commit,
        &AmendFastOptions::FromWorkingCopy { status_entries },
        &no_index,
        &blobs,
    )
    .unwrap();
    assert_eq!(
        write_tree(&repo, &tree).to_string(),
        "4b825dc642cb6eb9a060e54bf8d69288fbee4904"
    );
    assert_eq!(entries(&repo, &tree), vec![]);
}

#[test]
fn cherry_pick_reuses_the_tree_of_a_reworded_commit() {
    let repo = memory_repo();
    let a = blob(&repo, "a");
    let b = blob(&repo, "b");
    let parent = commit(&repo, 1, tree_of(&[("a.txt", a)]), vec![]);
    let patch = commit(&repo, 2, tree_of(&[("a.txt", a), ("b.txt", b)]), vec![&parent]);
    let step = cherry_pick_fast(
        &patch,
        &parent,
        &CherryPickFastOptions { reuse_parent_tree_if_possible: true },
    )
    .unwrap();
    match step {
        CherryPickFastStep::Finished { tree } => assert_eq!(tree, patch.tree),
        other => panic!("unexpected: {:?}", other),
    }
    // Without the option the merge is asked for.
    let step = cherry_pick_fast(
        &patch,
        &parent,
        &CherryPickFastOptions { reuse_parent_tree_if_possible: false },
    )
    .unwrap();
    let (changed_paths, index) = merge(&repo, &step);
    assert_eq!(changed_paths, vec![path("b.txt")]);
    let tree = cherry_pick_fast_merged(&parent, &changed_paths, &index).unwrap();
    assert_eq!(write_tree(&repo, &tree), write_tree(&repo, &patch.tree));
}

#[test]
fn cherry_pick_of_an_empty_patch_is_the_target_tree() {
    let repo = memory_repo();
    let a = blob(&repo, "a");
    let c = blob(&repo, "c");
    let parent = commit(&repo, 1, tree_of(&[("a.txt", a)]), vec![]);
    let patch = commit(&repo, 2, tree_of(&[("a.txt", a)]), vec![&parent]);
    let target = commit(&repo, 3, tree_of(&[("c.txt", c)]), vec![]);
    match cherry_pick_fast(
        &patch,
        &target,
        &CherryPickFastOptions { reuse_parent_tree_if_possible: false },
    )
    .unwrap()
    {
        CherryPickFastStep::Finished { tree } => assert_eq!(tree, target.tree),
        other => panic!("unexpected: {:?}", other),
    }
}

#[test]
fn cherry_pick_refuses_a_commit_without_exactly_one_parent() {
    let repo = memory_repo();
    let a = blob(&repo, "a");
    let root = commit(&repo, 1, tree_of(&[("a.txt", a)]), vec![]);
    let other = commit(&repo, 2, tree_of(&[("a.txt", a)]), vec![]);
    let merge_commit = commit(&repo, 3, tree_of(&[("a.txt", a)]), vec![&root, &other]);
    for patch in [&root, &merge_commit] {
        for reuse in [false, true] {
            match cherry_pick_fast(
                patch,
                &other,
                &CherryPickFastOptions { reuse_parent_tree_if_possible: reuse },
            ) {
                Err(CherryPickFastError::GetPatch { commit }) => assert_eq!(commit, patch.oid),
                other => panic!("unexpected: {:?}", other),
            }
        }
    }
}

#[test]
fn cherry_pick_removes_a_file_that_the_patch_removed() {
    let repo = memory_repo();
    let a = blob(&repo, "a");
    let b = blob(&repo, "b");
    let c = blob(&repo, "c");
    let parent = commit(&repo, 1, tree_of(&[("a.txt", a), ("dir/b.txt", b)]), vec![]);
    let patch = commit(&repo, 2, tree_of(&[("a.txt", a)]), vec![&parent]);
    let target = commit(
        &repo,
        3,
        tree_of(&[("a.txt", a), ("dir/b.txt", b), ("c.txt", c)]),
        vec![&parent],
    );
    let step = cherry_pick_fast(
        &patch,
        &target,
        &CherryPickFastOptions { reuse_parent_tree_if_possible: true },
    )
    .unwrap();
    let (changed_paths, index) = merge(&repo, &step);
    let tree = cherry_pick_fast_merged(&target, &changed_paths, &index).unwrap();
    assert_eq!(
        entries(&repo, &tree).into_iter().map(|(name, _)| name).collect::<Vec<_>>(),
        vec!["a.txt".to_string(), "c.txt".to_string()]
    );
}

#[test]
fn cherry_pick_reports_the_conflicting_paths() {
    let repo = memory_repo();
    let base = blob(&repo, "base\n");
    let ours = blob(&repo, "ours\n");
    let theirs = blob(&repo, "theirs\n");
    let untouched = blob(&repo, "untouched\n");
    let parent = commit(&repo, 1, tree_of(&[("f.txt", base), ("g.txt", untouched)]), vec![]);
    let patch = commit(&repo, 2, tree_of(&[("f.txt", theirs), ("g.txt", untouched)]), vec![&parent]);
    let target = commit(&repo, 3, tree_of(&[("f.txt", ours), ("g.txt", untouched)]), vec![&parent]);
    let options = CherryPickFastOptions { reuse_parent_tree_if_possible: false };
    let step = cherry_pick_fast(&patch, &target, &options).unwrap();
    let (changed_paths, index) = merge(&repo, &step);
    assert!(index.has_conflicts());
    let first = cherry_pick_fast_merged(&target, &changed_paths, &index);
    let second = cherry_pick_fast_merged(&target, &changed_paths, &index);
    match (first, second) {
        (
            Err(CherryPickFastError::MergeConflict { conflicting_paths: a }),
            Err(CherryPickFastError::MergeConflict { conflicting_paths: b }),
        ) => {
            assert_eq!(a, vec![b"f.txt".to_vec()]);
            assert_eq!(a, b);
        }
        other => panic!("unexpected: {:?}", other),
    }
}

#[test]
fn conflicting_paths_are_named_once_each() {
    let target = Commit {
        oid: NonZeroOid::from_bytes([1; 20]).unwrap(),
        tree_oid: NonZeroOid::from_bytes([2; 20]).unwrap(),
        tree: Tree::new(),
        parents: vec![],
        author: signature(),
        committer: signature(),
        message: vec![],
    };
    let decoded = |text: &str| Some(ConflictPath::Decoded { path: text.as_bytes().to_vec() });
    let index = Index {
        entries: vec![],
        conflicted: true,
        conflicts: vec![
            IndexConflict { ancestor: decoded("b"), our: decoded("a"), their: decoded("b") },
            IndexConflict { ancestor: None, our: decoded("c"), their: decoded("a") },
        ],
    };
    match cherry_pick_fast_merged(&target, &vec![], &index) {
        Err(CherryPickFastError::MergeConflict { conflicting_paths }) => {
            assert_eq!(conflicting_paths, vec![b"b".to_vec(), b"a".to_vec(), b"c".to_vec()]);
        }
        other => panic!("unexpected: {:?}", other),
    }
    // A conflict without any path is a conflict still.
    let index = Index {
        entries: vec![],
        conflicted: true,
        conflicts: vec![IndexConflict { ancestor: None, our: None, their: None }],
    };
    match cherry_pick_fast_merged(&target, &vec![], &index) {
        Err(CherryPickFastError::MergeConflict { conflicting_paths }) => {
            assert!(conflicting_paths.is_empty());
        }
        other => panic!("unexpected: {:?}", other),
    }
    // The first path that could not be decoded decides.
    let index = Index {
        entries: vec![],
        conflicted: true,
        conflicts: vec![
            IndexConflict { ancestor: decoded("a"), our: None, their: Some(ConflictPath::Undecodable) },
            IndexConflict { ancestor: Some(ConflictPath::Undecodable), our: None, their: None },
        ],
    };
    match cherry_pick_fast_merged(&target, &vec![], &index) {
        Err(CherryPickFastError::DecodePath { item }) => assert_eq!(item, ConflictSide::Their),
        other => panic!("unexpected: {:?}", other),
    }
}

#[test]
fn merged_entry_with_zero_oid_removes_the_path() {
    let repo = memory_repo();
    let a = blob(&repo, "a");
    let b = blob(&repo, "b");
    let target = commit(&repo, 1, tree_of(&[("a.txt", a), ("b.txt", b), ("c.txt", a)]), vec![]);
    let index = Index {
        entries: vec![
            IndexRecord {
                path: path("a.txt"),
                entry: IndexEntry { oid: MaybeZeroOid::Zero, file_mode: FileMode::Blob },
            },
            IndexRecord {
                path: path("c.txt"),
                entry: IndexEntry {
                    oid: MaybeZeroOid::NonZero(b),
                    file_mode: FileMode::BlobExecutable,
                },
            },
        ],
        conflicted: false,
        conflicts: vec![],
    };
    let changed = vec![path("a.txt"), path("b.txt"), path("c.txt")];
    let tree = cherry_pick_fast_merged(&target, &changed, &index).unwrap();
    assert_eq!(tree.get_path(&path("a.txt")), None);
    assert_eq!(tree.get_path(&path("b.txt")), None);
    assert_eq!(
        tree.get_path(&path("c.txt")),
        Some(&TreeNode::File { entry: FileEntry { oid: b, mode: FileMode::BlobExecutable } })
    );
}

#[test]
fn dehydrated_commit_is_cut_down_and_signed_by_the_automation() {
    let repo = memory_repo();
    let a = blob(&repo, "a");
    let b = blob(&repo, "b");
    let parent = commit(&repo, 1, tree_of(&[("a.txt", a), ("keep/x", a)]), vec![]);
    let child = commit(&repo, 0xab, tree_of(&[("a.txt", b), ("keep/x", a), ("n/y", b)]), vec![&parent]);
    let paths = vec![path("a.txt"), path("n/y")];
    let dehydrated = dehydrate_commit(&child, &paths, true);
    assert_eq!(dehydrated.tree, tree_of(&[("a.txt", b), ("n/y", b)]));
    assert_eq!(dehydrated.author, Signature::automated());
    assert_eq!(dehydrated.committer.name.as_deref(), Some("git-branchless"));
    assert_eq!(dehydrated.committer.email.as_deref(), Some("git-branchless@example.com"));
    assert_eq!(dehydrated.committer.time, Time { seconds: 0, offset_minutes: 0 });
    assert_eq!(
        dehydrated.message,
        format!(
            "generated by git-branchless: temporary dehydrated commit This commit was originally: NonZeroOid({})",
            "ab".repeat(20)
        )
    );
    assert_eq!(dehydrated.parents.len(), 1);
    assert_eq!(dehydrated.parents[0].tree, tree_of(&[("a.txt", a)]));
    assert!(dehydrated.parents[0].parents.is_empty());
    assert!(dehydrate_commit(&child, &paths, false).parents.is_empty());
    assert!(dehydrate_commit(&parent, &paths, true).parents.is_empty());
}

#[test]
fn touched_paths_of_a_commit() {
    let repo = memory_repo();
    let a = blob(&repo, "a");
    let b = blob(&repo, "b");
    let root = commit(&repo, 1, tree_of(&[("a.txt", a), ("d/b.txt", b)]), vec![]);
    let child = commit(&repo, 2, tree_of(&[("a.txt", b), ("d/b.txt", b)]), vec![&root]);
    let merge_commit = commit(&repo, 3, tree_of(&[("a.txt", a)]), vec![&root, &child]);
    let mut all: Vec<Vec<u8>> = get_paths_touched_by_commit(&root)
        .unwrap()
        .iter()
        .map(|p| p.to_bytes())
        .collect();
    all.sort();
    assert_eq!(all, vec![b"a.txt".to_vec(), b"d/b.txt".to_vec()]);
    assert_eq!(get_paths_touched_by_commit(&child).unwrap(), vec![path("a.txt")]);
    assert!(get_paths_touched_by_commit(&merge_commit).is_none());
    assert_eq!(child.contains_touched_path(&path("a.txt")), Some(true));
    assert_eq!(child.contains_touched_path(&path("d/b.txt")), Some(false));
    assert_eq!(child.contains_touched_path(&path("zz")), Some(false));
    assert_eq!(root.contains_touched_path(&path("a.txt")), None);
    assert!(!child.is_empty());
    assert!(commit(&repo, 4, child.tree.clone(), vec![&child]).is_empty());
    assert!(!root.is_empty());
}

#[test]
fn amend_of_nothing_is_the_tree_of_the_commit() {
    let repo = memory_repo();
    let a = blob(&repo, "a");
    let b = blob(&repo, "b");
    let root = commit(&repo, 1, tree_of(&[("a.txt", a)]), vec![]);
    let child = commit(&repo, 2, tree_of(&[("a.txt", b), ("d/e.txt", a)]), vec![&root]);
    let nothing = Index { entries: vec![], conflicted: false, conflicts: vec![] };
    for parent in [&root, &child] {
        let opts = AmendFastOptions::FromIndex { paths: vec![] };
        assert!(opts.is_empty());
        let tree = amend_fast(parent, &opts, &nothing, &vec![]).unwrap();
        assert_eq!(write_tree(&repo, &tree), write_tree(&repo, &parent.tree));
        let opts = AmendFastOptions::FromWorkingCopy { status_entries: vec![] };
        assert!(opts.is_empty());
        let tree = amend_fast(parent, &opts, &nothing, &vec![]).unwrap();
        assert_eq!(write_tree(&repo, &tree), write_tree(&repo, &parent.tree));
    }
}

#[test]
fn amend_refuses_a_commit_with_two_parents() {
    let repo = memory_repo();
    let a = blob(&repo, "a");
    let root = commit(&repo, 1, tree_of(&[("a.txt", a)]), vec![]);
    let other = commit(&repo, 2, tree_of(&[("a.txt", a)]), vec![]);
    let merge_commit = commit(&repo, 3, tree_of(&[("a.txt", a)]), vec![&root, &other]);
    let nothing = Index { entries: vec![], conflicted: false, conflicts: vec![] };
    match amend_fast(
        &merge_commit,
        &AmendFastOptions::FromIndex { paths: vec![] },
        &nothing,
        &vec![],
    ) {
        Err(RepoError::GetPatch { commit }) => assert_eq!(commit, merge_commit.oid),
        other => panic!("unexpected: {:?}", other),
    }
}

#[test]
fn amend_from_index_removes_what_the_index_does_not_hold() {
    let repo = memory_repo();
    let a = blob(&repo, "a");
    let b = blob(&repo, "b");
    let root = commit(&repo, 1, tree_of(&[("a.txt", a)]), vec![]);
    let child = commit(&repo, 2, tree_of(&[("a.txt", a), ("b.txt", b), ("c.txt", b)]), vec![&root]);
    let staging = Index {
        entries: vec![IndexRecord {
            path: path("c.txt"),
            entry: IndexEntry { oid: MaybeZeroOid::Zero, file_mode: FileMode::Blob },
        }],
        conflicted: false,
        conflicts: vec![],
    };
    let opts = AmendFastOptions::FromIndex { paths: vec![path("a.txt"), path("c.txt")] };
    assert!(!opts.is_empty());
    let tree = amend_fast(&child, &opts, &staging, &vec![]).unwrap();
    assert_eq!(
        entries(&repo, &tree).into_iter().map(|(name, _)| name).collect::<Vec<_>>(),
        vec!["b.txt".to_string()]
    );
}

#[test]
fn amend_from_working_copy_keeps_the_mode_and_follows_renames() {
    let repo = memory_repo();
    let a = blob(&repo, "a");
    let moved = blob(&repo, "moved");
    let root = commit(&repo, 1, tree_of(&[("old.sh", a), ("other", a)]), vec![]);
    let entry = StatusEntry {
        index_status: FileStatus::Renamed,
        working_copy_status: FileStatus::Modified,
        working_copy_file_mode: FileMode::BlobExecutable,
        path: path("bin/new.sh"),
        orig_path: Some(path("old.sh")),
    };
    let blobs = vec![
        WorkingCopyBlob { path: path("bin/new.sh"), oid: Some(moved) },
        WorkingCopyBlob { path: path("old.sh"), oid: None },
    ];
    let nothing = Index { entries: vec![], conflicted: false, conflicts: vec![] };
    let tree = amend_fast(
        &root,
        &AmendFastOptions::FromWorkingCopy { status_entries: vec![entry] },
        &nothing,
        &blobs,
    )
    .unwrap();
    assert_eq!(tree.get_path(&path("old.sh")), None);
    assert_eq!(
        tree.get_path(&path("bin/new.sh")),
        Some(&TreeNode::File { entry: FileEntry { oid: moved, mode: FileMode::BlobExecutable } })
    );
    assert_eq!(
        tree.get_path(&path("other")),
        Some(&TreeNode::File { entry: FileEntry { oid: a, mode: FileMode::Blob } })
    );
}

#[test]
fn cherry_pick_changes_only_the_paths_that_the_patch_touches() {
    let repo = memory_repo();
    let a = blob(&repo, "a");
    let b = blob(&repo, "b");
    let c = blob(&repo, "c");
    let d = blob(&repo, "d");
    let parent = commit(&repo, 1, tree_of(&[("keep.txt", a), ("dir/x", a), ("dir/y", b)]), vec![]);
    let patch = commit(
        &repo,
        2,
        tree_of(&[("keep.txt", a), ("dir/x", c), ("new/z", d)]),
        vec![&parent],
    );
    let target = commit(
        &repo,
        3,
        tree_of(&[("keep.txt", b), ("dir/x", a), ("dir/y", b), ("other/w", d)]),
        vec![&parent],
    );
    let touched: Vec<TreePath> = get_paths_touched_by_commit(&patch).unwrap();
    let step = cherry_pick_fast(
        &patch,
        &target,
        &CherryPickFastOptions { reuse_parent_tree_if_possible: true },
    )
    .unwrap();
    let (changed_paths, index) = merge(&repo, &step);
    let tree = cherry_pick_fast_merged(&target, &changed_paths, &index).unwrap();
    let differing =
        git_branchless::tree::get_changed_paths_between_trees(Some(&target.tree), Some(&tree));
    assert!(!differing.is_empty());
    for path in &differing {
        assert!(touched.contains(path), "{:?} was not touched", path);
    }
    let mut names: Vec<Vec<u8>> = differing.iter().map(|p| p.to_bytes()).collect();
    names.sort();
    assert_eq!(names, vec![b"dir/x".to_vec(), b"dir/y".to_vec(), b"new/z".to_vec()]);
}

#[test]
fn status_entry_names_its_path_and_where_the_file_was() {
    let mut entry = status_entry(FileStatus::Renamed, FileStatus::Unmodified, "new.txt");
    assert_eq!(entry.paths(), vec![path("new.txt")]);
    entry.orig_path = Some(path("old.txt"));
    assert_eq!(entry.paths(), vec![path("new.txt"), path("old.txt")]);
}

#[test]
fn reported_conflicts_fail_the_cherry_pick_even_where_none_is_listed() {
    let repo = memory_repo();
    let a = blob(&repo, "a");
    let target = commit(&repo, 1, tree_of(&[("a.txt", a)]), vec![]);
    let index = Index { entries: vec![], conflicted: true, conflicts: vec![] };
    match cherry_pick_fast_merged(&target, &vec![], &index) {
        Err(CherryPickFastError::MergeConflict { conflicting_paths }) => {
            assert!(conflicting_paths.is_empty());
        }
        other => panic!("unexpected: {:?}", other),
    }
    // What the store does not report as a conflict is none.
    let index = Index {
        entries: vec![],
        conflicted: false,
        conflicts: vec![IndexConflict {
            ancestor: None,
            our: Some(ConflictPath::Decoded { path: b"a.txt".to_vec() }),
            their: None,
        }],
    };
    assert_eq!(cherry_pick_fast_merged(&target, &vec![], &index).unwrap(), target.tree);
}

#[test]
fn commit_with_the_tree_of_its_parent_gives_the_tree_of_the_target() {
    let repo = memory_repo();
    let a = blob(&repo, "a");
    let b = blob(&repo, "b");
    let parent = commit(&repo, 1, tree_of(&[("a.txt", a)]), vec![]);
    let reworded = commit(&repo, 2, tree_of(&[("a.txt", a)]), vec![&parent]);
    let target = commit(&repo, 3, tree_of(&[("b.txt", b)]), vec![]);
    assert!(reworded.is_content_addressed());
    assert!(reworded.is_empty());
    for reuse in [false, true] {
        match cherry_pick_fast(
            &reworded,
            &target,
            &CherryPickFastOptions { reuse_parent_tree_if_possible: reuse },
        )
        .unwrap()
        {
            CherryPickFastStep::Finished { tree } => assert_eq!(tree, target.tree),
            other => panic!("unexpected: {:?}", other),
        }
    }
    let mut wrong = commit(&repo, 4, tree_of(&[("a.txt", b)]), vec![&parent]);
    wrong.tree_oid = parent.tree_oid;
    assert!(!wrong.is_content_addressed());
    // The identifiers decide: a commit that goes by the identifier of its
    // parent's tree changes nothing.
    match cherry_pick_fast(
        &wrong,
        &target,
        &CherryPickFastOptions { reuse_parent_tree_if_possible: false },
    )
    .unwrap()
    {
        CherryPickFastStep::Finished { tree } => assert_eq!(tree, target.tree),
        other => panic!("unexpected: {:?}", other),
    }
}

#[test]
fn amend_does_not_depend_on_the_order_of_the_paths() {
    let repo = memory_repo();
    let a = blob(&repo, "a");
    let b = blob(&repo, "b");
    let parent = commit(&repo, 1, tree_of(&[("a", a)]), vec![]);
    let staging = Index {
        entries: vec![IndexRecord {
            path: path("a/b"),
            entry: IndexEntry { oid: MaybeZeroOid::NonZero(b), file_mode: FileMode::Blob },
        }],
        conflicted: false,
        conflicts: vec![],
    };
    let one = amend_fast(
        &parent,
        &AmendFastOptions::FromIndex { paths: vec![path("a/b"), path("a")] },
        &staging,
        &vec![],
    )
    .unwrap();
    let other = amend_fast(
        &parent,
        &AmendFastOptions::FromIndex { paths: vec![path("a"), path("a/b")] },
        &staging,
        &vec![],
    )
    .unwrap();
    assert_eq!(write_tree(&repo, &one), write_tree(&repo, &tree_of(&[("a/b", b)])));
    assert_eq!(other, one);
}

#[test]
fn cherry_pick_does_not_depend_on_the_order_of_the_paths() {
    let repo = memory_repo();
    let a = blob(&repo, "a");
    let b = blob(&repo, "b");
    let target = commit(&repo, 1, tree_of(&[("a", a), ("keep", a)]), vec![]);
    let merged = Index {
        entries: vec![IndexRecord {
            path: path("a/b"),
            entry: IndexEntry { oid: MaybeZeroOid::NonZero(b), file_mode: FileMode::Blob },
        }],
        conflicted: false,
        conflicts: vec![],
    };
    let one = cherry_pick_fast_merged(&target, &vec![path("a/b"), path("a")], &merged).unwrap();
    let other = cherry_pick_fast_merged(&target, &vec![path("a"), path("a/b")], &merged).unwrap();
    assert_eq!(
        write_tree(&repo, &one),
        write_tree(&repo, &tree_of(&[("a/b", b), ("keep", a)]))
    );
    assert_eq!(other, one);
}

#[test]
fn amend_keeps_what_the_commit_put_below_a_named_path() {
    let repo = memory_repo();
    let a = blob(&repo, "a");
    let b = blob(&repo, "b");
    let root = commit(&repo, 1, tree_of(&[("keep", a)]), vec![]);
    let child = commit(&repo, 2, tree_of(&[("keep", a), ("dir/x", b)]), vec![&root]);
    let nothing = Index { entries: vec![], conflicted: false, conflicts: vec![] };
    let tree = amend_fast(
        &child,
        &AmendFastOptions::FromIndex { paths: vec![path("dir")] },
        &nothing,
        &vec![],
    )
    .unwrap();
    assert_eq!(write_tree(&repo, &tree), write_tree(&repo, &child.tree));
}
