use git_branchless::file_mode::FileMode;
use git_branchless::oid::{MaybeZeroOid, NonZeroOid};
use git_branchless::path::TreePath;
use git_branchless::tree::{
    dehydrate_tree, entries_differ, get_changed_paths_between_trees, hydrate_tree,
    must_read_directory, FileEntry, Tree, TreeEntry, TreeNode, TreeUpdate,
};

fn oid(n: u8) -> NonZeroOid {
    NonZeroOid::from_bytes([n; 20]).unwrap()
}

fn file(n: u8) -> TreeNode {
    TreeNode::File {
        entry: FileEntry {
            oid: oid(n),
            mode: FileMode::Blob,
        },
    }
}

fn path(text: &str) -> TreePath {
    TreePath::from_bytes(text.as_bytes())
}

fn tree_of(files: &[(&str, u8)]) -> Tree {
    let updates: Vec<TreeUpdate> = files
        .iter()
        .map(|(p, n)| TreeUpdate {
            path: path(p),
            value: Some(file(*n)),
        })
        .collect();
    hydrate_tree(None, &updates)
}

fn files_of(tree: &Tree) -> Vec<(String, u8)> {
    let mut found: Vec<(String, u8)> = get_changed_paths_between_trees(None, Some(tree))
        .iter()
        .map(|p| {
            let n = match tree.get_path(p) {
                Some(TreeNode::File { entry }) => entry.oid.as_bytes()[0],
                other => panic!("no file at {:?}: {:?}", p, other),
            };
            (String::from_utf8(p.to_bytes()).unwrap(), n)
        })
        .collect();
    found.sort();
    found
}

fn listing(files: &[(&str, u8)]) -> Vec<(String, u8)> {
    let mut expected: Vec<(String, u8)> =
        files.iter().map(|(p, n)| (p.to_string(), *n)).collect();
    expected.sort();
    expected
}

#[test]
fn zero_oid_is_refused() {
    assert!(NonZeroOid::from_bytes([0; 20]).is_none());
    assert_eq!(MaybeZeroOid::from_bytes([0; 20]), MaybeZeroOid::Zero);
    let mut bytes = [0u8; 20];
    bytes[19] = 1;
    let made = NonZeroOid::from_bytes(bytes).unwrap();
    assert_eq!(made.as_bytes(), bytes);
    assert_eq!(MaybeZeroOid::from_bytes(bytes), MaybeZeroOid::NonZero(made));
    assert_eq!(MaybeZeroOid::from_bytes(bytes).non_zero(), Some(made));
    assert_eq!(MaybeZeroOid::Zero.non_zero(), None);
}

#[test]
fn oid_is_written_in_hexadecimal() {
    let mut bytes = [0u8; 20];
    bytes[0] = 0x5c;
    bytes[1] = 0x41;
    bytes[19] = 0xf8;
    let made = NonZeroOid::from_bytes(bytes).unwrap();
    assert_eq!(made.to_hex(), "5c410000000000000000000000000000000000f8");
    assert_eq!(made.to_hex().len(), 40);
    assert_eq!(&made.to_hex()[..4], "5c41");
    assert_eq!(&made.to_hex()[38..], "f8");
    assert_eq!(MaybeZeroOid::Zero.to_hex(), "0".repeat(40));
}

#[test]
fn oids_are_ordered_byte_by_byte() {
    let mut low = [1u8; 20];
    low[19] = 0;
    let low = NonZeroOid::from_bytes(low).unwrap();
    assert!(low.is_before(&oid(1)));
    assert!(!oid(1).is_before(&low));
    assert!(!oid(1).is_before(&oid(1)));
    assert!(oid(1).is_before(&oid(2)));
    assert_eq!(low.is_before(&oid(1)), low.to_hex() < oid(1).to_hex());
    assert_eq!(oid(0x0f).is_before(&oid(0xa0)), oid(0x0f).to_hex() < oid(0xa0).to_hex());
}

#[test]
fn file_modes_keep_their_bits() {
    for (mode, bits) in [
        (FileMode::Unreadable, 0o000000),
        (FileMode::Tree, 0o040000),
        (FileMode::Blob, 0o100644),
        (FileMode::BlobExecutable, 0o100755),
        (FileMode::Link, 0o120000),
        (FileMode::Commit, 0o160000),
    ] {
        assert_eq!(mode.to_bits(), bits);
        assert_eq!(FileMode::from_bits(bits), mode);
    }
    assert_eq!(FileMode::from_bits(0o100664), FileMode::Unreadable);
    assert!(FileMode::Tree.is_tree());
    assert!(!FileMode::Blob.is_tree());
}

#[test]
fn paths_are_cut_at_separators() {
    assert_eq!(path("a/b/c").components, vec![b"a".to_vec(), b"b".to_vec(), b"c".to_vec()]);
    assert_eq!(path("/a//b/").components, vec![b"a".to_vec(), b"b".to_vec()]);
    assert_eq!(path("").len(), 0);
    assert_eq!(path("a/b").to_bytes(), b"a/b".to_vec());
    assert_eq!(TreePath::from_bytes(&path("x/y/z").to_bytes()), path("x/y/z"));
    assert!(path("a").is_prefix_of(&path("a/b")));
    assert!(path("a/b").is_prefix_of(&path("a/b")));
    assert!(!path("a/b").is_prefix_of(&path("a")));
    assert!(!path("a").is_prefix_of(&path("ab")));
    assert!(path("a/b").same_as(&path("a//b")));
    assert!(!path("a/b").same_as(&path("a/c")));
}

#[test]
fn get_path_finds_files_and_directories() {
    let tree = tree_of(&[("a.txt", 1), ("dir/b.txt", 2), ("dir/sub/c.txt", 3)]);
    assert_eq!(tree.get_path(&path("a.txt")), Some(&file(1)));
    assert_eq!(tree.get_path(&path("dir/sub/c.txt")), Some(&file(3)));
    assert!(matches!(tree.get_path(&path("dir")), Some(TreeNode::Dir { .. })));
    assert_eq!(tree.get_path(&path("missing")), None);
    assert_eq!(tree.get_path(&path("a.txt/below")), None);
    assert_eq!(tree.get_path(&path("")), None);
}

#[test]
fn hydrate_with_no_update_is_the_base_tree() {
    let tree = tree_of(&[("a.txt", 1), ("dir/b.txt", 2)]);
    let same = hydrate_tree(Some(&tree), &Vec::new());
    assert_eq!(same, tree);
    assert_eq!(hydrate_tree(None, &Vec::new()), Tree::new());
}

#[test]
fn hydrate_sets_replaces_and_removes() {
    let tree = tree_of(&[("a.txt", 1), ("dir/b.txt", 2), ("dir/c.txt", 3)]);
    let updates = vec![
        TreeUpdate { path: path("a.txt"), value: Some(file(9)) },
        TreeUpdate { path: path("new/deep/d.txt"), value: Some(file(4)) },
        TreeUpdate { path: path("dir/b.txt"), value: None },
        TreeUpdate { path: path("missing"), value: None },
    ];
    let result = hydrate_tree(Some(&tree), &updates);
    assert_eq!(
        files_of(&result),
        listing(&[("a.txt", 9), ("dir/c.txt", 3), ("new/deep/d.txt", 4)])
    );
}

#[test]
fn hydrate_leaves_no_empty_directory() {
    let tree = tree_of(&[("dir/sub/b.txt", 2), ("keep.txt", 1)]);
    let updates = vec![TreeUpdate { path: path("dir/sub/b.txt"), value: None }];
    let result = hydrate_tree(Some(&tree), &updates);
    assert_eq!(result.get_path(&path("dir")), None);
    assert_eq!(files_of(&result), listing(&[("keep.txt", 1)]));
    assert_eq!(result.entries.len(), 1);
}

#[test]
fn hydrate_lets_the_last_update_of_a_path_decide() {
    let updates = vec![
        TreeUpdate { path: path("a"), value: Some(file(1)) },
        TreeUpdate { path: path("a"), value: Some(file(2)) },
        TreeUpdate { path: path("b"), value: Some(file(3)) },
        TreeUpdate { path: path("b"), value: None },
    ];
    assert_eq!(files_of(&hydrate_tree(None, &updates)), listing(&[("a", 2)]));
}

#[test]
fn hydrate_replaces_a_file_by_a_directory_and_back() {
    let tree = tree_of(&[("a", 1)]);
    let below = vec![TreeUpdate { path: path("a/b"), value: Some(file(2)) }];
    let result = hydrate_tree(Some(&tree), &below);
    assert_eq!(files_of(&result), listing(&[("a/b", 2)]));
    let above = vec![TreeUpdate { path: path("a"), value: Some(file(3)) }];
    assert_eq!(files_of(&hydrate_tree(Some(&result), &above)), listing(&[("a", 3)]));
    let gone = vec![TreeUpdate { path: path("a/b"), value: None }];
    assert_eq!(files_of(&hydrate_tree(Some(&tree), &gone)), listing(&[("a", 1)]));
}

#[test]
fn hydrate_does_not_depend_on_the_order_of_the_updates() {
    let tree = tree_of(&[("a", 1), ("keep", 5)]);
    let removal = || TreeUpdate { path: path("a"), value: None };
    let below = || TreeUpdate { path: path("a/b"), value: Some(file(2)) };
    let one = hydrate_tree(Some(&tree), &vec![below(), removal()]);
    let other = hydrate_tree(Some(&tree), &vec![removal(), below()]);
    assert_eq!(files_of(&one), listing(&[("a/b", 2), ("keep", 5)]));
    assert_eq!(one, other);

    let above = || TreeUpdate { path: path("a"), value: Some(file(3)) };
    let deep = || TreeUpdate { path: path("a/b/c"), value: Some(file(4)) };
    let expected = listing(&[("a/b", 2), ("keep", 5)]);
    assert_eq!(files_of(&hydrate_tree(Some(&tree), &vec![above(), below()])), expected);
    assert_eq!(files_of(&hydrate_tree(Some(&tree), &vec![below(), above()])), expected);

    let deepest = listing(&[("a/b/c", 4), ("keep", 5)]);
    for updates in [
        vec![above(), below(), deep()],
        vec![deep(), below(), above()],
        vec![below(), deep(), above()],
    ] {
        assert_eq!(files_of(&hydrate_tree(Some(&tree), &updates)), deepest);
    }
}

#[test]
fn hydrate_takes_the_last_naming_of_a_path_wherever_it_stands() {
    let tree = tree_of(&[("a/b", 1)]);
    let updates = vec![
        TreeUpdate { path: path("a/b"), value: Some(file(2)) },
        TreeUpdate { path: path("a"), value: Some(file(3)) },
        TreeUpdate { path: path("a/b"), value: None },
    ];
    assert_eq!(files_of(&hydrate_tree(Some(&tree), &updates)), listing(&[("a", 3)]));
}

#[test]
fn dehydrate_of_files_leaves_no_empty_directory() {
    let tree = tree_of(&[("dir/sub/b.txt", 2), ("keep.txt", 1)]);
    let result = dehydrate_tree(&tree, &vec![path("dir/sub/missing"), path("keep.txt")]);
    assert_eq!(result.get_path(&path("dir")), None);
    assert_eq!(files_of(&result), listing(&[("keep.txt", 1)]));
}

#[test]
fn hydrate_ignores_the_empty_path() {
    let tree = tree_of(&[("a", 1)]);
    let updates = vec![TreeUpdate { path: path(""), value: Some(file(2)) }];
    assert_eq!(hydrate_tree(Some(&tree), &updates), tree);
}

#[test]
fn hydrate_can_graft_a_directory() {
    let source = tree_of(&[("x/y", 1), ("x/z", 2)]);
    let node = source.get_path(&path("x")).unwrap().clone();
    let updates = vec![TreeUpdate { path: path("into/here"), value: Some(node) }];
    let result = hydrate_tree(Some(&tree_of(&[("other", 3)])), &updates);
    assert_eq!(
        files_of(&result),
        listing(&[("into/here/y", 1), ("into/here/z", 2), ("other", 3)])
    );
}

#[test]
fn dehydrate_keeps_only_the_named_paths() {
    let tree = tree_of(&[("a.txt", 1), ("dir/b.txt", 2), ("dir/c.txt", 3), ("e/f/g", 4)]);
    let paths = vec![path("a.txt"), path("dir/c.txt"), path("not/there"), path("e/f/g")];
    let result = dehydrate_tree(&tree, &paths);
    assert_eq!(
        files_of(&result),
        listing(&[("a.txt", 1), ("dir/c.txt", 3), ("e/f/g", 4)])
    );
    assert_eq!(result.get_path(&path("dir/b.txt")), None);
    assert_eq!(result.get_path(&path("not")), None);
}

#[test]
fn dehydrate_with_no_path_is_empty() {
    let tree = tree_of(&[("a.txt", 1), ("dir/b.txt", 2)]);
    assert_eq!(dehydrate_tree(&tree, &Vec::new()), Tree::new());
    assert!(dehydrate_tree(&tree, &vec![path("zzz")]).is_empty());
}

#[test]
fn dehydrate_takes_a_named_directory_whole() {
    let tree = tree_of(&[("a.txt", 1), ("dir/b.txt", 2), ("dir/sub/c.txt", 3)]);
    let result = dehydrate_tree(&tree, &vec![path("dir")]);
    assert_eq!(files_of(&result), listing(&[("dir/b.txt", 2), ("dir/sub/c.txt", 3)]));
}

#[test]
fn dehydrate_keeps_modes() {
    let link = TreeNode::File {
        entry: FileEntry { oid: oid(7), mode: FileMode::Link },
    };
    let exec = TreeNode::File {
        entry: FileEntry { oid: oid(8), mode: FileMode::BlobExecutable },
    };
    let tree = hydrate_tree(
        None,
        &vec![
            TreeUpdate { path: path("l"), value: Some(link.clone()) },
            TreeUpdate { path: path("bin/x"), value: Some(exec.clone()) },
        ],
    );
    let result = dehydrate_tree(&tree, &vec![path("l"), path("bin/x")]);
    assert_eq!(result.get_path(&path("l")), Some(&link));
    assert_eq!(result.get_path(&path("bin/x")), Some(&exec));
}

#[test]
fn changed_paths_are_where_two_trees_differ() {
    let old = tree_of(&[("same", 1), ("changed", 2), ("gone", 3), ("dir/kept", 4), ("dir/gone", 5)]);
    let new = tree_of(&[("same", 1), ("changed", 9), ("added", 6), ("dir/kept", 4), ("new/x", 7)]);
    let mut changed: Vec<Vec<u8>> = get_changed_paths_between_trees(Some(&old), Some(&new))
        .iter()
        .map(|p| p.to_bytes())
        .collect();
    changed.sort();
    assert_eq!(
        changed,
        vec![
            b"added".to_vec(),
            b"changed".to_vec(),
            b"dir/gone".to_vec(),
            b"gone".to_vec(),
            b"new/x".to_vec(),
        ]
    );
    assert!(get_changed_paths_between_trees(Some(&old), Some(&old)).is_empty());
    assert!(get_changed_paths_between_trees(None, None).is_empty());
}

#[test]
fn changed_paths_see_a_file_that_became_a_directory() {
    let old = tree_of(&[("a", 1)]);
    let new = tree_of(&[("a/b", 2), ("a/c", 3)]);
    let mut changed: Vec<Vec<u8>> = get_changed_paths_between_trees(Some(&old), Some(&new))
        .iter()
        .map(|p| p.to_bytes())
        .collect();
    changed.sort();
    assert_eq!(changed, vec![b"a".to_vec(), b"a/b".to_vec(), b"a/c".to_vec()]);
}

#[test]
fn changed_paths_see_a_changed_mode() {
    let old = tree_of(&[("a", 1)]);
    let new = hydrate_tree(
        None,
        &vec![TreeUpdate {
            path: path("a"),
            value: Some(TreeNode::File {
                entry: FileEntry { oid: oid(1), mode: FileMode::BlobExecutable },
            }),
        }],
    );
    assert_eq!(get_changed_paths_between_trees(Some(&old), Some(&new)).len(), 1);
}

#[test]
fn where_a_name_occurs_twice_the_first_counts() {
    let tree = Tree {
        entries: vec![
            TreeEntry { name: b"a".to_vec(), node: file(1) },
            TreeEntry { name: b"a".to_vec(), node: file(2) },
            TreeEntry { name: b"b".to_vec(), node: file(3) },
        ],
    };
    assert_eq!(tree.get_path(&path("a")), Some(&file(1)));
    assert_eq!(files_of(&tree), listing(&[("a", 1), ("b", 3)]));
    let removed = hydrate_tree(Some(&tree), &vec![TreeUpdate { path: path("a"), value: None }]);
    assert_eq!(files_of(&removed), listing(&[("b", 3)]));
}

#[test]
fn entries_differ_looks_at_the_files_below() {
    let one = tree_of(&[("d/x", 1), ("d/y", 2)]);
    let other = tree_of(&[("d/y", 2), ("d/x", 1)]);
    let third = tree_of(&[("d/x", 1), ("d/y", 3)]);
    assert!(!entries_differ(one.get_path(&path("d")), other.get_path(&path("d"))));
    assert!(entries_differ(one.get_path(&path("d")), third.get_path(&path("d"))));
    assert!(entries_differ(one.get_path(&path("d")), None));
    assert!(!entries_differ(None, None));
}

#[test]
fn trees_hold_the_same_files_whatever_the_order_of_their_entries() {
    let one = tree_of(&[("a", 1), ("d/x", 2), ("d/y", 3)]);
    let other = tree_of(&[("d/y", 3), ("a", 1), ("d/x", 2)]);
    assert!(one.holds_same_files(&other));
    assert!(one.holds_same_files(&one));
    assert!(!one.holds_same_files(&tree_of(&[("a", 1), ("d/x", 2)])));
    assert!(!one.holds_same_files(&tree_of(&[("a", 1), ("d/x", 2), ("d/y", 4)])));
    assert!(Tree::new().holds_same_files(&Tree::new()));
}

#[test]
fn a_directory_kept_by_its_identifier_is_left_alone() {
    let kept = TreeNode::File {
        entry: FileEntry { oid: oid(9), mode: FileMode::Tree },
    };
    let base = hydrate_tree(
        None,
        &vec![
            TreeUpdate { path: path("vendor"), value: Some(kept.clone()) },
            TreeUpdate { path: path("src/a"), value: Some(file(1)) },
        ],
    );
    let same = hydrate_tree(
        None,
        &vec![
            TreeUpdate { path: path("vendor"), value: Some(kept.clone()) },
            TreeUpdate { path: path("src/a"), value: Some(file(2)) },
        ],
    );
    let changed: Vec<Vec<u8>> = get_changed_paths_between_trees(Some(&base), Some(&same))
        .iter()
        .map(|p| p.to_bytes())
        .collect();
    assert_eq!(changed, vec![b"src/a".to_vec()]);
    let result = hydrate_tree(
        Some(&base),
        &vec![TreeUpdate { path: path("src/b"), value: Some(file(3)) }],
    );
    assert_eq!(result.get_path(&path("vendor")), Some(&kept));
    assert_eq!(dehydrate_tree(&base, &vec![path("src/a")]).get_path(&path("vendor")), None);
}

#[test]
fn a_directory_is_read_where_the_rewrite_reaches_it() {
    let along = vec![path("src/deep/file"), path("docs")];
    assert!(must_read_directory(&path("src"), &along, false, true));
    assert!(must_read_directory(&path("src/deep"), &along, false, true));
    assert!(must_read_directory(&path("docs"), &along, false, false));
    assert!(!must_read_directory(&path("docs/sub"), &along, false, false));
    assert!(!must_read_directory(&path("vendor"), &along, false, false));
    assert!(!must_read_directory(&path("vendor"), &along, true, true));
    assert!(must_read_directory(&path("vendor"), &along, true, false));
    assert!(must_read_directory(&path("src"), &along, true, true));
    assert!(!must_read_directory(&path("src"), &Vec::new(), false, false));
}
