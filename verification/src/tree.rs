//! Trees: directory snapshots as values.
//!
//! A tree maps names to nodes; a node is a file (an object identifier with a
//! mode) or a directory, which is a tree again. What a tree *means* is the
//! partial map from paths to files that [`file_at`] reads off it; the
//! contracts of this module are stated over that map.

use vstd::prelude::*;
use crate::file_mode::FileMode;
use crate::oid::{bytes_eq, NonZeroOid};
use crate::path::TreePath;

verus! {

/// What a tree stores for a file: the identifier of its content and its mode.
#[derive(Clone, Copy, Debug, PartialEq, Eq, PartialOrd, Ord, Hash)]
pub struct FileEntry {
    /// The identifier of the content.
    pub oid: NonZeroOid,
    /// The mode, kept verbatim.
    pub mode: FileMode,
}

impl FileEntry {
    /// Whether two entries name the same content with the same mode.
    pub fn same_as(&self, other: &FileEntry) -> (r: bool)
        ensures
            r == (*self == *other),
    {
        broadcast use NonZeroOid::lemma_view;

        self.oid == other.oid && self.mode == other.mode
    }
}

/// What a name in a tree refers to.
#[derive(Debug, PartialEq, Eq, Hash)]
pub enum TreeNode {
    /// A file, a symbolic link or a link to a commit; or, with the mode of
    /// a tree, a directory that is kept by its identifier and not looked
    /// into.
    File {
        /// Its content and mode.
        entry: FileEntry,
    },
    /// A directory.
    Dir {
        /// What the directory holds.
        tree: Tree,
    },
}

/// A name in a tree together with what it refers to.
#[derive(Debug, PartialEq, Eq, Hash)]
pub struct TreeEntry {
    /// The name: one path component.
    pub name: Vec<u8>,
    /// What the name refers to.
    pub node: TreeNode,
}

/// A directory snapshot. Where a name occurs more than once, the first
/// occurrence counts.
#[derive(Debug, PartialEq, Eq, Hash)]
pub struct Tree {
    /// The entries of the directory.
    pub entries: Vec<TreeEntry>,
}

/// The mathematical value of a [`TreeNode`].
pub enum NodeView {
    /// A file.
    File { entry: FileEntry },
    /// A directory with its entries.
    Dir { entries: Seq<EntryView> },
}

/// The mathematical value of a [`TreeEntry`].
pub struct EntryView {
    /// The name.
    pub name: Seq<u8>,
    /// What it refers to.
    pub node: NodeView,
}

impl View for TreeNode {
    type V = NodeView;

    open spec fn view(&self) -> NodeView
        decreases self,
    {
        match self {
            TreeNode::File { entry } => NodeView::File { entry: *entry },
            TreeNode::Dir { tree } => NodeView::Dir { entries: tree@ },
        }
    }
}

impl View for TreeEntry {
    type V = EntryView;

    open spec fn view(&self) -> EntryView
        decreases self,
    {
        EntryView { name: self.name@, node: self.node@ }
    }
}

impl View for Tree {
    type V = Seq<EntryView>;

    open spec fn view(&self) -> Seq<EntryView>
        decreases self,
    {
        entries_view(self.entries@)
    }
}

/// The values of a run of entries.
pub open spec fn entries_view(entries: Seq<TreeEntry>) -> Seq<EntryView>
    decreases entries,
{
    Seq::new(
        entries.len(),
        |i: int|
            if 0 <= i < entries.len() {
                entries[i]@
            } else {
                arbitrary()
            },
    )
}


/// The node that `name` refers to among `entries`: that of the first entry
/// with this name.
pub open spec fn lookup(entries: Seq<EntryView>, name: Seq<u8>) -> Option<NodeView>
    decreases entries.len(),
{
    if entries.len() == 0 {
        None
    } else if entries[0].name == name {
        Some(entries[0].node)
    } else {
        lookup(entries.drop_first(), name)
    }
}

/// The node reached from `node` by following `rel`, if there is one.
pub open spec fn node_below(node: NodeView, rel: Seq<Seq<u8>>) -> Option<NodeView>
    decreases rel.len(),
{
    if rel.len() == 0 {
        Some(node)
    } else {
        match node {
            NodeView::File { .. } => None,
            NodeView::Dir { entries } => match lookup(entries, rel[0]) {
                None => None,
                Some(child) => node_below(child, rel.drop_first()),
            },
        }
    }
}

/// The file reached from `node` by following `rel`, if there is one.
pub open spec fn file_below(node: NodeView, rel: Seq<Seq<u8>>) -> Option<FileEntry> {
    match node_below(node, rel) {
        Some(NodeView::File { entry }) => Some(entry),
        _ => None,
    }
}

/// The file reached from `node` by following `rel`, if `node` is there at all.
pub open spec fn file_below_opt(node: Option<NodeView>, rel: Seq<Seq<u8>>) -> Option<FileEntry> {
    match node {
        Some(n) => file_below(n, rel),
        None => None,
    }
}

/// The file or directory at `path` in a tree; nothing at the empty path.
pub open spec fn entry_at(tree: Seq<EntryView>, path: Seq<Seq<u8>>) -> Option<NodeView> {
    if path.len() == 0 {
        None
    } else {
        node_below(NodeView::Dir { entries: tree }, path)
    }
}

/// The file at `path` in a tree.
pub open spec fn file_at(tree: Seq<EntryView>, path: Seq<Seq<u8>>) -> Option<FileEntry> {
    file_below(NodeView::Dir { entries: tree }, path)
}

/// The files of a tree by path.
pub open spec fn files(tree: Seq<EntryView>) -> Map<Seq<Seq<u8>>, FileEntry> {
    Map::new(
        |path: Seq<Seq<u8>>| file_at(tree, path) is Some,
        |path: Seq<Seq<u8>>| file_at(tree, path)->0,
    )
}

/// The tree without entries.
pub open spec fn empty_tree() -> Seq<EntryView> {
    Seq::empty()
}

/// Looking a name up finds the first entry that has it.
pub proof fn lemma_lookup_first(entries: Seq<EntryView>, name: Seq<u8>, i: int)
    requires
        0 <= i <= entries.len(),
        forall|j: int| 0 <= j < i ==> entries[j].name != name,
        i < entries.len() ==> entries[i].name == name,
    ensures
        lookup(entries, name) == if i < entries.len() {
            Some(entries[i].node)
        } else {
            None
        },
    decreases entries.len(),
{
    if entries.len() > 0 && i > 0 {
        let rest = entries.drop_first();
        assert forall|j: int| 0 <= j < i - 1 implies rest[j].name != name by {
            assert(rest[j] == entries[j + 1]);
        }
        lemma_lookup_first(rest, name, i - 1);
    }
}

/// Removing an entry leaves every other name as it was.
pub proof fn lemma_lookup_remove(entries: Seq<EntryView>, i: int, name: Seq<u8>)
    requires
        0 <= i < entries.len(),
        entries[i].name != name,
    ensures
        lookup(entries.remove(i), name) == lookup(entries, name),
    decreases entries.len(),
{
    let removed = entries.remove(i);
    if i == 0 {
        assert(removed =~= entries.drop_first());
    } else {
        assert(removed[0] == entries[0]);
        assert(removed.drop_first() =~= entries.drop_first().remove(i - 1));
        if entries[0].name != name {
            lemma_lookup_remove(entries.drop_first(), i - 1, name);
        }
    }
}

/// Appending an entry gives its name a node only where the name had none,
/// and leaves the other names alone.
pub proof fn lemma_lookup_push(entries: Seq<EntryView>, entry: EntryView, name: Seq<u8>)
    ensures
        lookup(entries.push(entry), name) == if lookup(entries, name) is Some {
            lookup(entries, name)
        } else if entry.name == name {
            Some(entry.node)
        } else {
            None
        },
    decreases entries.len(),
{
    let pushed = entries.push(entry);
    if entries.len() == 0 {
        assert(pushed.drop_first() =~= Seq::<EntryView>::empty());
    } else {
        assert(pushed[0] == entries[0]);
        assert(pushed.drop_first() =~= entries.drop_first().push(entry));
        if entries[0].name != name {
            lemma_lookup_push(entries.drop_first(), entry, name);
        }
    }
}

/// Below a file, and below nothing, there is nothing.
pub proof fn lemma_nothing_below(node: NodeView, p: Seq<Seq<u8>>, q: Seq<Seq<u8>>)
    requires
        p.is_prefix_of(q),
        p != q,
        !(node_below(node, p) matches Some(NodeView::Dir { .. })),
    ensures
        node_below(node, q) is None,
    decreases p.len(),
{
    if p.len() == 0 {
        if q.len() == 0 {
            assert(p =~= q);
        }
    } else {
        assert(q[0] == p[0]);
        assert(p.drop_first().is_prefix_of(q.drop_first())) by {
            assert(p.drop_first() =~= q.drop_first().subrange(0, p.len() - 1));
        }
        if p.drop_first() == q.drop_first() {
            assert(p =~= seq![p[0]] + p.drop_first());
            assert(q =~= seq![q[0]] + q.drop_first());
        }
        match node {
            NodeView::File { .. } => {},
            NodeView::Dir { entries } => match lookup(entries, p[0]) {
                None => {},
                Some(child) => {
                    lemma_nothing_below(child, p.drop_first(), q.drop_first());
                },
            },
        }
    }
}

/// Following a path in two steps leads where following it in one step leads.
pub proof fn lemma_node_below_split(node: NodeView, p: Seq<Seq<u8>>, q: Seq<Seq<u8>>)
    requires
        p.is_prefix_of(q),
    ensures
        node_below(node, q) == match node_below(node, p) {
            Some(mid) => node_below(mid, q.skip(p.len() as int)),
            None => None,
        },
    decreases p.len(),
{
    if p.len() == 0 {
        assert(q.skip(0) =~= q);
    } else {
        assert(q[0] == p[0]);
        assert(p.drop_first().is_prefix_of(q.drop_first())) by {
            assert(p.drop_first() =~= q.drop_first().subrange(0, p.len() - 1));
        }
        assert(q.drop_first().skip(p.len() - 1) =~= q.skip(p.len() as int));
        match node {
            NodeView::File { .. } => {},
            NodeView::Dir { entries } => match lookup(entries, p[0]) {
                None => {},
                Some(child) => {
                    lemma_node_below_split(child, p.drop_first(), q.drop_first());
                },
            },
        }
    }
}

/// A copy of some bytes.
pub fn copy_bytes(bytes: &[u8]) -> (r: Vec<u8>)
    ensures
        r@ == bytes@,
{
    vstd::slice::slice_to_vec(bytes)
}

impl Clone for TreeNode {
    fn clone(&self) -> (r: TreeNode)
        ensures
            r@ == self@,
        decreases self,
    {
        match self {
            TreeNode::File { entry } => TreeNode::File { entry: *entry },
            TreeNode::Dir { tree } => TreeNode::Dir { tree: tree.clone() },
        }
    }
}

impl Clone for TreeEntry {
    fn clone(&self) -> (r: TreeEntry)
        ensures
            r@ == self@,
        decreases self,
    {
        TreeEntry { name: copy_bytes(self.name.as_slice()), node: self.node.clone() }
    }
}

impl Clone for Tree {
    fn clone(&self) -> (r: Tree)
        ensures
            r@ == self@,
        decreases self,
    {
        let mut entries: Vec<TreeEntry> = Vec::new();
        let mut i: usize = 0;
        while i < self.entries.len()
            invariant
                i <= self.entries@.len(),
                entries@.len() == i,
                forall|k: int| 0 <= k < i ==> entries@[k]@ == self.entries@[k]@,
            decreases self.entries@.len() - i,
        {
            let entry = self.entries[i].clone();
            entries.push(entry);
            i += 1;
        }
        let r = Tree { entries };
        assert(r@ =~= self@);
        r
    }
}

/// The index of the first entry with the given name.
fn find_first(entries: &Vec<TreeEntry>, name: &[u8]) -> (r: Option<usize>)
    ensures
        match r {
            Some(i) => i < entries@.len() && entries@[i as int].name@ == name@ && forall|j: int|
                0 <= j < i ==> entries@[j].name@ != name@,
            None => forall|j: int| 0 <= j < entries@.len() ==> entries@[j].name@ != name@,
        },
        r is Some <==> lookup(entries_view(entries@), name@) is Some,
        r matches Some(i) ==> lookup(entries_view(entries@), name@) == Some(entries@[i as int].node@),
{
    let mut i: usize = 0;
    while i < entries.len()
        invariant
            i <= entries@.len(),
            forall|j: int| 0 <= j < i ==> entries@[j].name@ != name@,
        decreases entries@.len() - i,
    {
        if bytes_eq(entries[i].name.as_slice(), name) {
            proof {
                lemma_lookup_first(entries_view(entries@), name@, i as int);
            }
            return Some(i);
        }
        i += 1;
    }
    proof {
        lemma_lookup_first(entries_view(entries@), name@, i as int);
    }
    None
}

/// Takes every entry with the given name out of `entries` and hands back
/// the node that the name referred to.
fn take_named(entries: &mut Vec<TreeEntry>, name: &[u8]) -> (r: Option<TreeNode>)
    ensures
        match r {
            Some(node) => lookup(entries_view(old(entries)@), name@) == Some(node@),
            None => lookup(entries_view(old(entries)@), name@) is None,
        },
        lookup(entries_view(final(entries)@), name@) is None,
        forall|other: Seq<u8>|
            other != name@ ==> lookup(entries_view(final(entries)@), other) == lookup(
                entries_view(old(entries)@),
                other,
            ),
        final(entries)@.len() <= old(entries)@.len(),
{
    let first = match find_first(entries, name) {
        None => {
            return None;
        },
        Some(i) => {
            proof {
                let before = entries_view(entries@);
                assert(entries_view(entries@.remove(i as int)) =~= before.remove(i as int));
                assert forall|other: Seq<u8>| other != name@ implies lookup(
                    before.remove(i as int),
                    other,
                ) == lookup(before, other) by {
                    lemma_lookup_remove(before, i as int, other);
                }
            }
            entries.remove(i).node
        },
    };
    loop
        invariant
            lookup(entries_view(old(entries)@), name@) == Some(first@),
            forall|other: Seq<u8>|
                other != name@ ==> lookup(entries_view(entries@), other) == lookup(
                    entries_view(old(entries)@),
                    other,
                ),
            entries@.len() <= old(entries)@.len(),
        ensures
            lookup(entries_view(entries@), name@) is None,
        decreases entries@.len(),
    {
        match find_first(entries, name) {
            None => {
                break ;
            },
            Some(i) => {
                proof {
                    let before = entries_view(entries@);
                    assert(entries_view(entries@.remove(i as int)) =~= before.remove(i as int));
                    assert forall|other: Seq<u8>| other != name@ implies lookup(
                        before.remove(i as int),
                        other,
                    ) == lookup(before, other) by {
                        lemma_lookup_remove(before, i as int, other);
                    }
                }
                entries.remove(i);
            },
        }
    }
    Some(first)
}

impl Tree {
    /// The tree without entries.
    pub fn new() -> (r: Tree)
        ensures
            r@ == empty_tree(),
    {
        let r = Tree { entries: Vec::new() };
        assert(r@ =~= empty_tree());
        r
    }

    /// Whether the tree has no entries.
    pub fn is_empty(&self) -> (r: bool)
        ensures
            r == (self@.len() == 0),
    {
        self.entries.len() == 0
    }

    /// The file or directory at `path`, if there is one. The empty path names
    /// no entry.
    pub fn get_path(&self, path: &TreePath) -> (r: Option<&TreeNode>)
        ensures
            match r {
                Some(node) => entry_at(self@, path@) == Some(node@),
                None => entry_at(self@, path@) is None,
            },
    {
        if path.len() == 0 {
            return None;
        }
        let mut tree: &Tree = self;
        let mut depth: usize = 0;
        assert(path@.skip(0) =~= path@);
        loop
            invariant
                depth < path@.len(),
                path@.len() == path.components@.len(),
                entry_at(self@, path@) == node_below(
                    NodeView::Dir { entries: tree@ },
                    path@.skip(depth as int),
                ),
            decreases path@.len() - depth,
        {
            let ghost rest = path@.skip(depth as int);
            assert(rest[0] == path@[depth as int]);
            assert(rest.drop_first() =~= path@.skip(depth + 1));
            let name = &path.components[depth];
            assert(name@ == rest[0]);
            assert(rest.len() == path@.len() - depth);
            let node: &TreeNode = match find_first(&tree.entries, name.as_slice()) {
                None => {
                    return None;
                },
                Some(i) => &tree.entries[i].node,
            };
            if depth == path.len() - 1 {
                assert(node_below(node@, rest.drop_first()) == Some(node@));
                return Some(node);
            }
            match node {
                TreeNode::File { .. } => {
                    return None;
                },
                TreeNode::Dir { tree: sub } => {
                    tree = sub;
                },
            }
            depth += 1;
        }
    }
}


/// Whether there is a file at the node or below it.
pub open spec fn has_file(node: NodeView) -> bool {
    exists|rel: Seq<Seq<u8>>| (#[trigger] file_below(node, rel)) is Some
}

/// Whether the node, if there is one, holds no directory without files: at
/// the node and at every node below it there is a file, there or further down.
pub open spec fn node_pruned(node: Option<NodeView>) -> bool {
    forall|d: Seq<Seq<u8>>|
        node is Some ==> match #[trigger] node_below(node->0, d) {
            Some(n) => has_file(n),
            None => true,
        }
}

/// Whether the tree holds no directory without files: every entry is a file,
/// or a directory with a file somewhere below it.
pub open spec fn pruned(tree: Seq<EntryView>) -> bool {
    forall|d: Seq<Seq<u8>>|
        d.len() > 0 ==> match #[trigger] node_below(NodeView::Dir { entries: tree }, d) {
            Some(n) => has_file(n),
            None => true,
        }
}

/// A file below a node that is found below another is a file below that one.
pub proof fn lemma_file_below_compose(
    node: NodeView,
    d: Seq<Seq<u8>>,
    mid: NodeView,
    rel: Seq<Seq<u8>>,
)
    requires
        node_below(node, d) == Some(mid),
    ensures
        file_below(node, d + rel) == file_below(mid, rel),
{
    assert(d.is_prefix_of(d + rel)) by {
        assert(d =~= (d + rel).subrange(0, d.len() as int));
    }
    assert((d + rel).skip(d.len() as int) =~= rel);
    lemma_node_below_split(node, d, d + rel);
}

/// In a tree without empty directories, what a path leads to holds none either.
pub proof fn lemma_pruned_entry(tree: Seq<EntryView>, p: Seq<Seq<u8>>)
    requires
        pruned(tree),
    ensures
        node_pruned(entry_at(tree, p)),
{
    let root = NodeView::Dir { entries: tree };
    let node = entry_at(tree, p);
    if node is Some {
        assert forall|d: Seq<Seq<u8>>| true implies match #[trigger] node_below(node->0, d) {
            Some(n) => has_file(n),
            None => true,
        } by {
            assert(p.is_prefix_of(p + d)) by {
                assert(p =~= (p + d).subrange(0, p.len() as int));
            }
            assert((p + d).skip(p.len() as int) =~= d);
            lemma_node_below_split(root, p, p + d);
            assert(node_below(root, p + d) == node_below(node->0, d));
        }
    }
}

/// A directory that has entries and holds no empty directory has a file.
proof fn lemma_pruned_dir(sub: Seq<EntryView>)
    requires
        pruned(sub),
        sub.len() > 0,
    ensures
        node_pruned(Some(NodeView::Dir { entries: sub })),
{
    let dir = NodeView::Dir { entries: sub };
    let first = seq![sub[0].name];
    assert(first.drop_first() =~= Seq::<Seq<u8>>::empty());
    assert(node_below(sub[0].node, first.drop_first()) == Some(sub[0].node));
    assert(node_below(dir, first) == Some(sub[0].node));
    let rel = choose|rel: Seq<Seq<u8>>| (#[trigger] file_below(sub[0].node, rel)) is Some;
    lemma_file_below_compose(dir, first, sub[0].node, rel);
    assert(file_below(dir, first + rel) is Some);
    assert(has_file(dir));
    assert forall|d: Seq<Seq<u8>>| true implies match #[trigger] node_below(dir, d) {
        Some(n) => has_file(n),
        None => true,
    } by {
        if d.len() == 0 {
        }
    }
}

/// A tree in which one name refers to something else, with nothing empty in
/// it, holds no empty directory if it held none before.
proof fn lemma_pruned_rebuild(
    old: Seq<EntryView>,
    new: Seq<EntryView>,
    name: Seq<u8>,
    x: Option<NodeView>,
)
    requires
        pruned(old),
        forall|m: Seq<u8>| m != name ==> lookup(new, m) == lookup(old, m),
        lookup(new, name) == x,
        node_pruned(x),
    ensures
        pruned(new),
{
    assert forall|d: Seq<Seq<u8>>| d.len() > 0 implies match #[trigger] node_below(
        NodeView::Dir { entries: new },
        d,
    ) {
        Some(n) => has_file(n),
        None => true,
    } by {
        if d[0] != name {
            assert(node_below(NodeView::Dir { entries: new }, d) == node_below(
                NodeView::Dir { entries: old },
                d,
            ));
        } else if x is Some {
            assert(node_below(NodeView::Dir { entries: new }, d) == node_below(
                x->0,
                d.drop_first(),
            ));
        }
    }
}

/// The value of a node that may be missing.
pub open spec fn node_opt_view(node: Option<TreeNode>) -> Option<NodeView> {
    match node {
        Some(n) => Some(n@),
        None => None,
    }
}

/// The file at `q` once `value` has been put at `p` in `base` (`None` takes
/// away what was at `p`).
///
/// At `p` and below it stands what `value` holds. Where a value is put, the
/// names above it become directories, so a file that stood at one of them is
/// gone. Every other path keeps what it had. The empty path names nothing:
/// putting a value there changes nothing.
pub open spec fn file_after_set(
    base: Seq<EntryView>,
    p: Seq<Seq<u8>>,
    value: Option<NodeView>,
    q: Seq<Seq<u8>>,
) -> Option<FileEntry> {
    if p.len() == 0 {
        file_at(base, q)
    } else if p.is_prefix_of(q) {
        file_below_opt(value, q.skip(p.len() as int))
    } else if q.is_prefix_of(p) && value is Some {
        None
    } else {
        file_at(base, q)
    }
}

/// The file at a non-empty path is found below what its first name refers to.
pub proof fn lemma_file_at_step(tree: Seq<EntryView>, q: Seq<Seq<u8>>)
    requires
        q.len() > 0,
    ensures
        file_at(tree, q) == file_below_opt(lookup(tree, q[0]), q.drop_first()),
{
}

/// How two paths with the same first name compare is how their tails compare.
proof fn lemma_prefix_tail(p: Seq<Seq<u8>>, q: Seq<Seq<u8>>)
    requires
        p.len() > 0,
        q.len() > 0,
        p[0] == q[0],
    ensures
        p.is_prefix_of(q) == p.drop_first().is_prefix_of(q.drop_first()),
        q.is_prefix_of(p) == q.drop_first().is_prefix_of(p.drop_first()),
        p.is_prefix_of(q) ==> q.skip(p.len() as int) == q.drop_first().skip(p.len() - 1),
{
    if p.is_prefix_of(q) {
        assert(p.drop_first() =~= q.drop_first().subrange(0, p.len() - 1));
        assert(q.skip(p.len() as int) =~= q.drop_first().skip(p.len() - 1));
    }
    if p.drop_first().is_prefix_of(q.drop_first()) {
        assert(p =~= q.subrange(0, p.len() as int)) by {
            assert forall|i: int| 0 <= i < p.len() implies p[i] == q[i] by {
                if i > 0 {
                    assert(p.drop_first()[i - 1] == q.drop_first().subrange(0, p.len() - 1)[i - 1]);
                }
            }
        }
    }
    if q.is_prefix_of(p) {
        assert(q.drop_first() =~= p.drop_first().subrange(0, q.len() - 1));
    }
    if q.drop_first().is_prefix_of(p.drop_first()) {
        assert(q =~= p.subrange(0, q.len() as int)) by {
            assert forall|i: int| 0 <= i < q.len() implies q[i] == p[i] by {
                if i > 0 {
                    assert(q.drop_first()[i - 1] == p.drop_first().subrange(0, q.len() - 1)[i - 1]);
                }
            }
        }
    }
}

/// The node reached from `node` by following `rel`, if `node` is there at all.
pub open spec fn node_below_opt(node: Option<NodeView>, rel: Seq<Seq<u8>>) -> Option<NodeView> {
    match node {
        Some(n) => node_below(n, rel),
        None => None,
    }
}

/// Whether something can stand at `d` once `value` has been put at `p` in
/// `base`: the root; what `value` holds; a directory above a value that was
/// put; or what `base` held.
pub open spec fn node_after_set(
    base: Seq<EntryView>,
    p: Seq<Seq<u8>>,
    value: Option<NodeView>,
    d: Seq<Seq<u8>>,
) -> bool {
    ||| node_below(NodeView::Dir { entries: base }, d) is Some
    ||| p.len() > 0 && p.is_prefix_of(d) && node_below_opt(value, d.skip(p.len() as int)) is Some
    ||| p.len() > 0 && d.is_prefix_of(p) && value is Some
}

/// What a path leads to is led to by every path above it.
pub proof fn lemma_node_above(node: NodeView, d: Seq<Seq<u8>>, p: Seq<Seq<u8>>)
    requires
        d.is_prefix_of(p),
        node_below(node, p) is Some,
    ensures
        node_below(node, d) is Some,
{
    lemma_node_below_split(node, d, p);
}

/// One step of putting a value at a path, for the nodes: see
/// [`lemma_set_step`].
proof fn lemma_node_step(
    old: Seq<EntryView>,
    new: Seq<EntryView>,
    p: Seq<Seq<u8>>,
    value: Option<NodeView>,
    sub: Seq<EntryView>,
    new_sub: Seq<EntryView>,
    d: Seq<Seq<u8>>,
)
    requires
        p.len() > 1,
        forall|m: Seq<u8>| m != p[0] ==> lookup(new, m) == lookup(old, m),
        lookup(new, p[0]) == if new_sub.len() == 0 {
            None
        } else {
            Some(NodeView::Dir { entries: new_sub })
        },
        match lookup(old, p[0]) {
            Some(NodeView::Dir { entries }) => sub == entries,
            _ => value is Some && sub == empty_tree(),
        },
        forall|r: Seq<Seq<u8>>|
            node_below(NodeView::Dir { entries: new_sub }, r) is Some ==> node_after_set(
                sub,
                p.drop_first(),
                value,
                r,
            ),
        node_below(NodeView::Dir { entries: new }, d) is Some,
    ensures
        node_after_set(old, p, value, d),
{
    if d.len() == 0 {
    } else if d[0] != p[0] {
    } else {
        let r = d.drop_first();
        lemma_prefix_tail(p, d);
        assert(node_below(NodeView::Dir { entries: new }, d) == node_below(
            NodeView::Dir { entries: new_sub },
            r,
        ));
        assert(node_after_set(sub, p.drop_first(), value, r));
        match lookup(old, p[0]) {
            Some(NodeView::Dir { entries }) => {
                assert(node_below(NodeView::Dir { entries: old }, d) == node_below(
                    NodeView::Dir { entries: sub },
                    r,
                ));
            },
            _ => {
                if node_below(NodeView::Dir { entries: sub }, r) is Some {
                    assert(r.len() == 0);
                    assert(r.is_prefix_of(p.drop_first()));
                }
            },
        }
    }
}

/// One step of putting a value at a path: the tree `new` is `old` with the
/// first name of `p` made to refer to `x`, and `x` is what the step below
/// made of `sub`, the directory that the name referred to before (empty if it
/// referred to none).
proof fn lemma_set_step(
    old: Seq<EntryView>,
    new: Seq<EntryView>,
    p: Seq<Seq<u8>>,
    value: Option<NodeView>,
    sub: Seq<EntryView>,
    new_sub: Seq<EntryView>,
    q: Seq<Seq<u8>>,
)
    requires
        p.len() > 1,
        forall|m: Seq<u8>| m != p[0] ==> lookup(new, m) == lookup(old, m),
        lookup(new, p[0]) == if new_sub.len() == 0 {
            None
        } else {
            Some(NodeView::Dir { entries: new_sub })
        },
        match lookup(old, p[0]) {
            Some(NodeView::Dir { entries }) => sub == entries,
            _ => value is Some && sub == empty_tree(),
        },
        forall|r: Seq<Seq<u8>>| file_at(new_sub, r) == file_after_set(sub, p.drop_first(), value, r),
    ensures
        file_at(new, q) == file_after_set(old, p, value, q),
{
    if q.len() == 0 {
    } else if q[0] != p[0] {
        lemma_file_at_step(new, q);
        lemma_file_at_step(old, q);
    } else {
        let r = q.drop_first();
        lemma_file_at_step(new, q);
        lemma_file_at_step(old, q);
        lemma_prefix_tail(p, q);
        assert(file_at(new, q) == file_at(new_sub, r));
        assert(file_at(new_sub, r) == file_after_set(sub, p.drop_first(), value, r));
        match lookup(old, p[0]) {
            Some(NodeView::Dir { entries }) => {},
            _ => {
                if r.len() == 0 {
                    assert(r.is_prefix_of(p.drop_first()));
                }
            },
        }
    }
}

/// Puts `value` at `path[depth..]` in `tree`.
fn set_from(tree: Tree, path: &TreePath, depth: usize, value: Option<TreeNode>) -> (r: Tree)
    requires
        depth < path@.len(),
    ensures
        forall|q: Seq<Seq<u8>>|
            file_at(r@, q) == file_after_set(
                tree@,
                path@.skip(depth as int),
                node_opt_view(value),
                q,
            ),
        pruned(tree@) && node_pruned(node_opt_view(value)) ==> pruned(r@),
        forall|d: Seq<Seq<u8>>|
            node_below(NodeView::Dir { entries: r@ }, d) is Some ==> node_after_set(
                tree@,
                path@.skip(depth as int),
                node_opt_view(value),
                d,
            ),
    decreases path@.len() - depth,
{
    let ghost p = path@.skip(depth as int);
    let ghost old_view = tree@;
    let ghost v = node_opt_view(value);
    let name = &path.components[depth];
    assert(name@ == p[0]);
    assert(p.drop_first() =~= path@.skip(depth + 1));
    let mut entries = tree.entries;
    let taken = take_named(&mut entries, name.as_slice());
    let ghost taken_view = entries_view(entries@);
    if depth == path.len() - 1 {
        match value {
            Some(node) => {
                proof {
                    let e = EntryView { name: name@, node: node@ };
                    assert forall|m: Seq<u8>|
                        lookup(taken_view.push(e), m) == if m == name@ {
                            Some(node@)
                        } else {
                            lookup(old_view, m)
                        } by {
                        lemma_lookup_push(taken_view, e, m);
                    }
                }
                entries.push(TreeEntry { name: copy_bytes(name.as_slice()), node });
                assert(entries_view(entries@) =~= taken_view.push(
                    EntryView { name: name@, node: node@ },
                ));
            },
            None => {},
        }
        let r = Tree { entries };
        proof {
            if pruned(old_view) && node_pruned(v) {
                lemma_pruned_rebuild(old_view, r@, name@, v);
            }
            assert(p.len() == 1);
            assert forall|d: Seq<Seq<u8>>|
                node_below(NodeView::Dir { entries: r@ }, d) is Some implies node_after_set(
                old_view,
                p,
                v,
                d,
            ) by {
                if d.len() > 0 && d[0] == p[0] {
                    assert(p =~= d.subrange(0, 1));
                    assert(d.skip(1) =~= d.drop_first());
                }
            }
            assert forall|q: Seq<Seq<u8>>| file_at(r@, q) == file_after_set(old_view, p, v, q) by {
                if q.len() > 0 {
                    lemma_file_at_step(r@, q);
                    lemma_file_at_step(old_view, q);
                    if q[0] == p[0] {
                        assert(p =~= q.subrange(0, 1));
                        assert(q.skip(1) =~= q.drop_first());
                    }
                }
            }
        }
        return r;
    }
    let sub: Tree = match taken {
        Some(TreeNode::Dir { tree: sub }) => sub,
        other => {
            if value.is_none() {
                match other {
                    Some(node) => {
                        proof {
                            let e = EntryView { name: name@, node: node@ };
                            assert forall|m: Seq<u8>|
                                lookup(taken_view.push(e), m) == lookup(old_view, m) by {
                                lemma_lookup_push(taken_view, e, m);
                            }
                        }
                        entries.push(TreeEntry { name: copy_bytes(name.as_slice()), node });
                        assert(entries_view(entries@) =~= taken_view.push(
                            EntryView { name: name@, node: node@ },
                        ));
                    },
                    None => {},
                }
                let r = Tree { entries };
                proof {
                    if pruned(old_view) {
                        lemma_pruned_entry(old_view, seq![name@]);
                        assert(seq![name@].drop_first() =~= Seq::<Seq<u8>>::empty());
                        if lookup(old_view, name@) is Some {
                            let c = lookup(old_view, name@)->0;
                            assert(node_below(c, seq![name@].drop_first()) == Some(c));
                        }
                        assert(entry_at(old_view, seq![name@]) == lookup(old_view, name@));
                        lemma_pruned_rebuild(old_view, r@, name@, lookup(old_view, name@));
                    }
                    assert forall|d: Seq<Seq<u8>>|
                        node_below(NodeView::Dir { entries: r@ }, d)
                            is Some implies node_after_set(old_view, p, v, d) by {
                        if d.len() > 0 {
                            assert(lookup(r@, d[0]) == lookup(old_view, d[0]));
                        }
                    }
                    assert forall|q: Seq<Seq<u8>>| file_at(r@, q) == file_after_set(
                        old_view,
                        p,
                        v,
                        q,
                    ) by {
                        if q.len() > 0 {
                            lemma_file_at_step(r@, q);
                            lemma_file_at_step(old_view, q);
                            if p.is_prefix_of(q) {
                                assert(q[0] == p[0]);
                                assert(q.drop_first().len() > 0);
                            }
                        }
                    }
                }
                return r;
            }
            Tree::new()
        },
    };
    let ghost sub_view = sub@;
    let new_sub = set_from(sub, path, depth + 1, value);
    if !new_sub.is_empty() {
        proof {
            let e = EntryView { name: name@, node: NodeView::Dir { entries: new_sub@ } };
            assert forall|m: Seq<u8>|
                lookup(taken_view.push(e), m) == if m == name@ {
                    Some(e.node)
                } else {
                    lookup(old_view, m)
                } by {
                lemma_lookup_push(taken_view, e, m);
            }
        }
        let ghost nv = new_sub@;
        entries.push(
            TreeEntry { name: copy_bytes(name.as_slice()), node: TreeNode::Dir { tree: new_sub } },
        );
        assert(entries_view(entries@) =~= taken_view.push(
            EntryView { name: name@, node: NodeView::Dir { entries: nv } },
        ));
    }
    let r = Tree { entries };
    proof {
        if pruned(old_view) && node_pruned(v) {
            assert(pruned(sub_view)) by {
                if lookup(old_view, name@) matches Some(NodeView::Dir { entries }) {
                    assert forall|d: Seq<Seq<u8>>| d.len() > 0 implies match #[trigger] node_below(
                        NodeView::Dir { entries: sub_view },
                        d,
                    ) {
                        Some(n) => has_file(n),
                        None => true,
                    } by {
                        let whole = seq![name@] + d;
                        assert(whole.drop_first() =~= d);
                        assert(node_below(NodeView::Dir { entries: old_view }, whole) == node_below(
                            NodeView::Dir { entries: sub_view },
                            d,
                        ));
                    }
                }
            }
            if new_sub@.len() > 0 {
                lemma_pruned_dir(new_sub@);
            }
            lemma_pruned_rebuild(old_view, r@, name@, lookup(r@, name@));
        }
        let nv = if new_sub@.len() == 0 { empty_tree() } else { new_sub@ };
        assert(new_sub@ =~= nv);
        assert forall|q: Seq<Seq<u8>>| file_at(r@, q) == file_after_set(old_view, p, v, q) by {
            lemma_set_step(old_view, r@, p, v, sub_view, new_sub@, q);
        }
        assert forall|d: Seq<Seq<u8>>|
            node_below(NodeView::Dir { entries: r@ }, d) is Some implies node_after_set(
            old_view,
            p,
            v,
            d,
        ) by {
            lemma_node_step(old_view, r@, p, v, sub_view, new_sub@, d);
        }
    }
    r
}

impl Tree {
    /// Puts `value` at `path`, or takes away what is there if `value` is
    /// `None`. Directories on the way are made as needed, and one that is
    /// left without entries is taken away with what it held.
    pub fn set_path(self, path: &TreePath, value: Option<TreeNode>) -> (r: Tree)
        ensures
            forall|q: Seq<Seq<u8>>|
                file_at(r@, q) == file_after_set(self@, path@, node_opt_view(value), q),
            path@.len() == 0 ==> r == self,
            pruned(self@) && node_pruned(node_opt_view(value)) ==> pruned(r@),
            forall|d: Seq<Seq<u8>>|
                node_below(NodeView::Dir { entries: r@ }, d) is Some ==> node_after_set(
                    self@,
                    path@,
                    node_opt_view(value),
                    d,
                ),
    {
        if path.len() == 0 {
            return self;
        }
        assert(path@.skip(0) =~= path@);
        set_from(self, path, 0, value)
    }
}


/// One change to a tree: what to put at a path, or `None` to take away what
/// is there.
#[derive(Debug, PartialEq, Eq, Hash)]
pub struct TreeUpdate {
    /// Where the change applies.
    pub path: TreePath,
    /// What the path refers to afterwards.
    pub value: Option<TreeNode>,
}

impl View for TreeUpdate {
    type V = (Seq<Seq<u8>>, Option<NodeView>);

    open spec fn view(&self) -> (Seq<Seq<u8>>, Option<NodeView>) {
        (self.path@, node_opt_view(self.value))
    }
}

/// The values of a run of updates.
pub open spec fn updates_view(updates: Seq<TreeUpdate>) -> Seq<(Seq<Seq<u8>>, Option<NodeView>)> {
    Seq::new(updates.len(), |i: int| updates[i]@)
}

/// The values of a run of paths.
pub open spec fn paths_view(paths: Seq<TreePath>) -> Seq<Seq<Seq<u8>>> {
    Seq::new(paths.len(), |i: int| paths[i]@)
}

/// The file at `q` once the updates have been made to `base`, one after the
/// other: the last update that reaches `q` decides (see [`file_after_set`]).
pub open spec fn file_after_updates(
    base: Seq<EntryView>,
    updates: Seq<(Seq<Seq<u8>>, Option<NodeView>)>,
    q: Seq<Seq<u8>>,
) -> Option<FileEntry>
    decreases updates.len(),
{
    if updates.len() == 0 {
        file_at(base, q)
    } else {
        let (p, value) = updates.last();
        if p.len() == 0 {
            file_after_updates(base, updates.drop_last(), q)
        } else if p.is_prefix_of(q) {
            file_below_opt(value, q.skip(p.len() as int))
        } else if q.is_prefix_of(p) && value is Some {
            None
        } else {
            file_after_updates(base, updates.drop_last(), q)
        }
    }
}

/// Whether one of the paths is not empty and leads to `q` or to a directory
/// above it.
pub open spec fn covered(paths: Seq<Seq<Seq<u8>>>, q: Seq<Seq<u8>>) -> bool {
    exists|i: int| 0 <= i < paths.len() && (#[trigger] paths[i]).len() > 0 && paths[i].is_prefix_of(q)
}

/// Whether two paths lie on one line: one leads to the other or above it.
pub open spec fn comparable(p: Seq<Seq<u8>>, q: Seq<Seq<u8>>) -> bool {
    p.is_prefix_of(q) || q.is_prefix_of(p)
}

/// Whether none of the paths names a directory of the tree.
pub open spec fn names_no_directory(tree: Seq<EntryView>, paths: Seq<Seq<Seq<u8>>>) -> bool {
    forall|i: int|
        0 <= i < paths.len() ==> !(entry_at(tree, #[trigger] paths[i]) matches Some(
            NodeView::Dir { .. },
        ))
}

/// A file, or nothing, holds no empty directory.
pub proof fn lemma_leaf_pruned(node: Option<NodeView>)
    requires
        !(node matches Some(NodeView::Dir { .. })),
    ensures
        node_pruned(node),
{
    if node is Some {
        let n = node->0;
        assert forall|d: Seq<Seq<u8>>| true implies match #[trigger] node_below(n, d) {
            Some(m) => has_file(m),
            None => true,
        } by {
            if d.len() == 0 {
                assert(file_below(n, d) is Some);
            }
        }
    }
}

/// The file at `q` in the part of `tree` that the paths select.
pub open spec fn file_if_covered(
    tree: Seq<EntryView>,
    paths: Seq<Seq<Seq<u8>>>,
    q: Seq<Seq<u8>>,
) -> Option<FileEntry> {
    if covered(paths, q) {
        file_at(tree, q)
    } else {
        None
    }
}

/// The map that a run of updates stands for: each path that is named, with
/// what the last update of that path gives. The empty path names nothing.
pub open spec fn updates_map(updates: Seq<(Seq<Seq<u8>>, Option<NodeView>)>) -> Map<
    Seq<Seq<u8>>,
    Option<NodeView>,
>
    decreases updates.len(),
{
    if updates.len() == 0 {
        Map::empty()
    } else {
        let before = updates_map(updates.drop_last());
        let (p, value) = updates.last();
        if p.len() == 0 {
            before
        } else {
            before.insert(p, value)
        }
    }
}

/// Whether the map puts a value at `p`.
pub open spec fn sets(m: Map<Seq<Seq<u8>>, Option<NodeView>>, p: Seq<Seq<u8>>) -> bool {
    m.contains_key(p) && m[p] is Some
}

/// Whether the map puts a value at a path strictly below `q`, which makes
/// `q` a directory.
pub open spec fn set_below(m: Map<Seq<Seq<u8>>, Option<NodeView>>, q: Seq<Seq<u8>>) -> bool {
    exists|p: Seq<Seq<u8>>| #[trigger] sets(m, p) && q.is_prefix_of(p) && p != q
}

/// The length of the longest path that the map names among the first
/// `limit` paths that lead to `q` (`q` itself being the last of them);
/// zero if it names none.
pub open spec fn deepest_key(
    m: Map<Seq<Seq<u8>>, Option<NodeView>>,
    q: Seq<Seq<u8>>,
    limit: nat,
) -> nat
    decreases limit,
{
    if limit == 0 {
        0
    } else if m.contains_key(q.take(limit as int)) {
        limit
    } else {
        deepest_key(m, q, (limit - 1) as nat)
    }
}

/// The file at `q` once the map of updates has been brought into `base`.
///
/// Where the map puts a value strictly below `q`, `q` is a directory and
/// holds no file. Else the deepest path that the map names on the way to
/// `q` (or `q` itself) decides: what the map gives for it holds at `q` what
/// stands there, and nothing if the map takes that path away. Where the map
/// names no such path, `q` keeps what `base` had.
pub open spec fn file_after_map(
    base: Seq<EntryView>,
    m: Map<Seq<Seq<u8>>, Option<NodeView>>,
    q: Seq<Seq<u8>>,
) -> Option<FileEntry> {
    if set_below(m, q) {
        None
    } else {
        let k = deepest_key(m, q, q.len());
        if k > 0 {
            file_below_opt(m[q.take(k as int)], q.skip(k as int))
        } else {
            file_at(base, q)
        }
    }
}

/// The deepest named path on the way to `q` is named, and no deeper one is.
pub proof fn lemma_deepest_key(m: Map<Seq<Seq<u8>>, Option<NodeView>>, q: Seq<Seq<u8>>, limit: nat)
    ensures
        deepest_key(m, q, limit) <= limit,
        deepest_key(m, q, limit) > 0 ==> m.contains_key(q.take(deepest_key(m, q, limit) as int)),
        forall|j: int|
            deepest_key(m, q, limit) < j <= limit ==> !m.contains_key(#[trigger] q.take(j)),
    decreases limit,
{
    if limit > 0 && !m.contains_key(q.take(limit as int)) {
        lemma_deepest_key(m, q, (limit - 1) as nat);
    }
}

/// Two maps that name the same paths on the way to `q` have the same
/// deepest one.
proof fn lemma_deepest_key_same(
    m: Map<Seq<Seq<u8>>, Option<NodeView>>,
    n: Map<Seq<Seq<u8>>, Option<NodeView>>,
    q: Seq<Seq<u8>>,
    limit: nat,
)
    requires
        forall|j: int| 0 < j <= limit ==> m.contains_key(#[trigger] q.take(j)) == n.contains_key(
            q.take(j),
        ),
    ensures
        deepest_key(m, q, limit) == deepest_key(n, q, limit),
    decreases limit,
{
    if limit > 0 {
        assert(m.contains_key(q.take(limit as int)) == n.contains_key(q.take(limit as int)));
        lemma_deepest_key_same(m, n, q, (limit - 1) as nat);
    }
}

/// A path that leads to `q` is the start of `q`.
proof fn lemma_prefix_is_take(p: Seq<Seq<u8>>, q: Seq<Seq<u8>>)
    ensures
        p.is_prefix_of(q) <==> p.len() <= q.len() && q.take(p.len() as int) == p,
{
    if p.len() <= q.len() {
        assert(q.take(p.len() as int) =~= q.subrange(0, p.len() as int));
    }
}

/// What the map holds for a path is what the last update of the path gives.
pub proof fn lemma_last_update(updates: Seq<(Seq<Seq<u8>>, Option<NodeView>)>, p: Seq<Seq<u8>>) -> (i:
    int)
    requires
        updates_map(updates).contains_key(p),
    ensures
        0 <= i < updates.len(),
        updates[i].0 == p,
        p.len() > 0,
        forall|j: int| i < j < updates.len() ==> updates[j].0 != p,
        updates_map(updates)[p] == updates[i].1,
    decreases updates.len(),
{
    let init = updates.drop_last();
    let (last, value) = updates.last();
    if last.len() > 0 && last == p {
        updates.len() - 1
    } else {
        let i = lemma_last_update(init, p);
        assert(init[i] == updates[i]);
        assert forall|j: int| i < j < updates.len() implies updates[j].0 != p by {
            if j < init.len() {
                assert(init[j] == updates[j]);
            }
        }
        i
    }
}

/// The last update of a path that is not empty is what the map holds for it.
pub proof fn lemma_live_update(updates: Seq<(Seq<Seq<u8>>, Option<NodeView>)>, i: int)
    requires
        0 <= i < updates.len(),
        updates[i].0.len() > 0,
        forall|j: int| i < j < updates.len() ==> updates[j].0 != updates[i].0,
    ensures
        updates_map(updates).contains_key(updates[i].0),
        updates_map(updates)[updates[i].0] == updates[i].1,
    decreases updates.len(),
{
    if i < updates.len() - 1 {
        let init = updates.drop_last();
        assert(init[i] == updates[i]);
        assert(updates[updates.len() - 1].0 != updates[i].0);
        assert forall|j: int| i < j < init.len() implies init[j].0 != init[i].0 by {
            assert(init[j] == updates[j]);
        }
        lemma_live_update(init, i);
    }
}

/// Whether the updates are in the order in which they are made: no path
/// occurs twice, none is empty, and no path stands behind a longer one.
pub open spec fn in_order(updates: Seq<(Seq<Seq<u8>>, Option<NodeView>)>) -> bool {
    &&& forall|a: int| 0 <= a < updates.len() ==> (#[trigger] updates[a]).0.len() > 0
    &&& forall|a: int, b: int|
        0 <= a < b < updates.len() ==> (#[trigger] updates[a]).0 != (#[trigger] updates[b]).0
            && updates[a].0.len() <= updates[b].0.len()
}

/// Whether the updates hold what the map holds: each path of the map once,
/// with its value.
pub open spec fn holds_map(
    updates: Seq<(Seq<Seq<u8>>, Option<NodeView>)>,
    m: Map<Seq<Seq<u8>>, Option<NodeView>>,
) -> bool {
    &&& forall|a: int|
        0 <= a < updates.len() ==> m.contains_key((#[trigger] updates[a]).0) && m[updates[a].0]
            == updates[a].1
    &&& forall|p: Seq<Seq<u8>>| #[trigger]
        m.contains_key(p) ==> exists|a: int| 0 <= a < updates.len() && (#[trigger] updates[a]).0 == p
}

/// Updates that are made one after the other, paths above before paths
/// below, give what their map gives.
pub proof fn lemma_ordered_updates(
    base: Seq<EntryView>,
    updates: Seq<(Seq<Seq<u8>>, Option<NodeView>)>,
    m: Map<Seq<Seq<u8>>, Option<NodeView>>,
    q: Seq<Seq<u8>>,
)
    requires
        in_order(updates),
        holds_map(updates, m),
    ensures
        file_after_updates(base, updates, q) == file_after_map(base, m, q),
    decreases updates.len(),
{
    if updates.len() == 0 {
        assert(!set_below(m, q));
        lemma_deepest_key(m, q, q.len());
    } else {
        let n = updates.len() - 1;
        let (p, value) = updates[n];
        let init = updates.drop_last();
        let rest = m.remove(p);
        assert(updates.last() == updates[n]);
        assert(in_order(init)) by {
            assert forall|a: int| 0 <= a < init.len() implies (#[trigger] init[a]).0.len() > 0 by {
                assert(init[a] == updates[a]);
            }
            assert forall|a: int, b: int| 0 <= a < b < init.len() implies (#[trigger] init[a]).0 != (
            #[trigger] init[b]).0 && init[a].0.len() <= init[b].0.len() by {
                assert(init[a] == updates[a] && init[b] == updates[b]);
            }
        }
        assert(holds_map(init, rest)) by {
            assert forall|a: int| 0 <= a < init.len() implies rest.contains_key(
                (#[trigger] init[a]).0,
            ) && rest[init[a].0] == init[a].1 by {
                assert(init[a] == updates[a]);
                assert(updates[a].0 != updates[n].0);
            }
            assert forall|r: Seq<Seq<u8>>| #[trigger] rest.contains_key(r) implies exists|a: int|
                0 <= a < init.len() && (#[trigger] init[a]).0 == r by {
                assert(m.contains_key(r));
                let a = choose|a: int| 0 <= a < updates.len() && (#[trigger] updates[a]).0 == r;
                assert(init[a] == updates[a]);
            }
        }
        lemma_ordered_updates(base, init, rest, q);
        lemma_prefix_is_take(p, q);
        lemma_deepest_key(m, q, q.len());
        // Every path of the map but `p` is the path of an earlier update, so
        // it is no longer than `p`.
        assert forall|r: Seq<Seq<u8>>| #[trigger] m.contains_key(r) implies r.len() <= p.len() by {
            let a = choose|a: int| 0 <= a < updates.len() && (#[trigger] updates[a]).0 == r;
            if a < n {
                assert(updates[a].0.len() <= updates[n].0.len());
            }
        }
        if p.is_prefix_of(q) {
            assert(!set_below(m, q)) by {
                if set_below(m, q) {
                    let r = choose|r: Seq<Seq<u8>>| #[trigger] sets(m, r) && q.is_prefix_of(r) && r != q;
                    assert(m.contains_key(r));
                    if r.len() == q.len() {
                        assert(r =~= q);
                    }
                }
            }
            let k = deepest_key(m, q, q.len());
            assert(m.contains_key(q.take(p.len() as int)));
            assert(k >= p.len());
            if k > p.len() {
                assert(m.contains_key(q.take(k as int)));
            }
            assert(k == p.len());
        } else if q.is_prefix_of(p) && value is Some {
            assert(sets(m, p));
        } else {
            // The update decides nothing at `q`: the map without it gives
            // the same there.
            assert(set_below(m, q) == set_below(rest, q)) by {
                if set_below(m, q) {
                    let r = choose|r: Seq<Seq<u8>>| #[trigger] sets(m, r) && q.is_prefix_of(r) && r != q;
                    assert(r != p);
                    assert(sets(rest, r));
                }
                if set_below(rest, q) {
                    let r = choose|r: Seq<Seq<u8>>|
                        #[trigger] sets(rest, r) && q.is_prefix_of(r) && r != q;
                    assert(sets(m, r));
                }
            }
            assert forall|j: int| 0 < j <= q.len() implies m.contains_key(#[trigger] q.take(j))
                == rest.contains_key(q.take(j)) by {
                lemma_prefix_is_take(q.take(j), q);
                if q.take(j) == p {
                    assert(q.take(p.len() as int) == p);
                }
            }
            lemma_deepest_key_same(m, rest, q, q.len());
            let k = deepest_key(m, q, q.len());
            if k > 0 {
                assert(q.take(k as int) != p) by {
                    if q.take(k as int) == p {
                        assert(q.take(p.len() as int) == p);
                    }
                }
            }
        }
    }
}

/// Whether no later update has the path of the update `i`.
spec fn is_last_of_path(updates: Seq<(Seq<Seq<u8>>, Option<NodeView>)>, i: int) -> bool {
    forall|j: int| i < j < updates.len() ==> (#[trigger] updates[j]).0 != updates[i].0
}

/// Whether the update `i` is made: its path is not empty and no later
/// update has it.
spec fn is_made(updates: Seq<(Seq<Seq<u8>>, Option<NodeView>)>, i: int) -> bool {
    0 <= i < updates.len() && updates[i].0.len() > 0 && is_last_of_path(updates, i)
}

/// Whether the update `i` has been made when all paths shorter than `len`
/// are done, and of those of that length the updates before `cursor`.
spec fn is_done(updates: Seq<(Seq<Seq<u8>>, Option<NodeView>)>, i: int, len: int, cursor: int) -> bool {
    is_made(updates, i) && (updates[i].0.len() < len || (updates[i].0.len() == len && i < cursor))
}

/// Whether the updates that have been made are those that are done, in the
/// order in which they are to be made.
spec fn made_so_far(
    updates: Seq<(Seq<Seq<u8>>, Option<NodeView>)>,
    made: Seq<(Seq<Seq<u8>>, Option<NodeView>)>,
    len: int,
    cursor: int,
) -> bool {
    &&& in_order(made)
    &&& forall|a: int| 0 <= a < made.len() ==> is_done_update(updates, #[trigger] made[a], len, cursor)
    &&& forall|i: int| #[trigger] is_done(updates, i, len, cursor) ==> made.contains(updates[i])
}

/// Whether `x` is one of the updates that are done.
spec fn is_done_update(
    updates: Seq<(Seq<Seq<u8>>, Option<NodeView>)>,
    x: (Seq<Seq<u8>>, Option<NodeView>),
    len: int,
    cursor: int,
) -> bool {
    exists|i: int| #[trigger] is_done(updates, i, len, cursor) && updates[i] == x
}

/// Decides whether no later update has the path of the update `i`.
fn last_of_path(updates: &Vec<TreeUpdate>, i: usize) -> (r: bool)
    requires
        i < updates@.len(),
    ensures
        r == is_last_of_path(updates_view(updates@), i as int),
{
    let ghost all = updates_view(updates@);
    let n = updates.len();
    let mut j: usize = i + 1;
    while j < n
        invariant
            i < j <= n,
            n == updates@.len(),
            all == updates_view(updates@),
            forall|k: int| i < k < j ==> (#[trigger] all[k]).0 != all[i as int].0,
        decreases n - j,
    {
        if updates[j].path.same_as(&updates[i].path) {
            assert(all[j as int].0 == all[i as int].0);
            return false;
        }
        j += 1;
    }
    true
}

/// Brings the updates into `base` (the empty tree if there is none).
///
/// The updates stand for a map from paths to values: where a path is named
/// more than once, the last naming counts, and in no other way does the
/// order of the updates matter. A path with a value is set to that value,
/// creating or replacing; a path without is taken away. Paths that no
/// update reaches keep what they had, and no directory is left without
/// entries. Where one named path lies above another, the one below is
/// settled last; see [`file_after_map`].
pub fn hydrate_tree(base: Option<&Tree>, updates: &Vec<TreeUpdate>) -> (r: Tree)
    ensures
        forall|q: Seq<Seq<u8>>|
            file_at(r@, q) == file_after_map(
                tree_or_empty(base),
                updates_map(updates_view(updates@)),
                q,
            ),
        updates@.len() == 0 && base is Some ==> r@ == base->0@,
        pruned(tree_or_empty(base)) && (forall|i: int|
            0 <= i < updates@.len() ==> node_pruned(#[trigger] updates_view(updates@)[i].1))
            ==> pruned(r@),
{
    let mut tree = match base {
        Some(tree) => tree.clone(),
        None => Tree::new(),
    };
    let ghost start = tree@;
    let ghost all = updates_view(updates@);
    let ghost mut made: Seq<(Seq<Seq<u8>>, Option<NodeView>)> = Seq::empty();
    let ghost values_pruned = forall|k: int| 0 <= k < all.len() ==> node_pruned(#[trigger] all[k].1);
    let ghost base_view = tree_or_empty(base);
    assert(start == base_view);

    // The length of the longest path.
    let mut longest: usize = 0;
    let mut n: usize = 0;
    while n < updates.len()
        invariant
            n <= updates@.len(),
            all == updates_view(updates@),
            forall|k: int| 0 <= k < n ==> (#[trigger] all[k]).0.len() <= longest,
        decreases updates@.len() - n,
    {
        if updates[n].path.len() > longest {
            longest = updates[n].path.len();
        }
        n += 1;
    }

    if updates.len() == 0 {
        assert(updates_map(all) =~= Map::empty());
        assert forall|q: Seq<Seq<u8>>| file_at(tree@, q) == file_after_map(
            start,
            updates_map(all),
            q,
        ) by {
            lemma_deepest_key(updates_map(all), q, q.len());
        }
        return tree;
    }
    let mut len: usize = 0;
    while len < longest
        invariant
            len <= longest,
            all == updates_view(updates@),
            forall|k: int| 0 <= k < all.len() ==> (#[trigger] all[k]).0.len() <= longest,
            made_so_far(all, made, len + 1, 0),
            forall|q: Seq<Seq<u8>>| file_at(tree@, q) == file_after_updates(start, made, q),
            made.len() == 0 ==> tree@ == start,
            pruned(start) && values_pruned ==> pruned(tree@),
            values_pruned == (forall|k: int| 0 <= k < all.len() ==> node_pruned(#[trigger] all[k].1)),
        decreases longest - len,
    {
        len += 1;
        let mut i: usize = 0;
        while i < updates.len()
            invariant
                i <= updates@.len(),
                0 < len <= longest,
                all == updates_view(updates@),
                made_so_far(all, made, len as int, i as int),
                forall|q: Seq<Seq<u8>>| file_at(tree@, q) == file_after_updates(start, made, q),
                made.len() == 0 ==> tree@ == start,
                pruned(start) && values_pruned ==> pruned(tree@),
                values_pruned == (forall|k: int|
                    0 <= k < all.len() ==> node_pruned(#[trigger] all[k].1)),
            decreases updates@.len() - i,
        {
            let update = &updates[i];
            if update.path.len() == len && last_of_path(updates, i) {
                let value = match &update.value {
                    Some(node) => Some(node.clone()),
                    None => None,
                };
                let ghost before = tree@;
                let ghost old_made = made;
                assert(all[i as int] == (update.path@, node_opt_view(value)));
                tree = tree.set_path(&update.path, value);
                proof {
                    made = old_made.push(all[i as int]);
                    assert(made.last() == all[i as int]);
                    assert(made.drop_last() =~= old_made);
                    assert forall|q: Seq<Seq<u8>>|
                        file_at(tree@, q) == file_after_updates(start, made, q) by {
                        assert(file_at(tree@, q) == file_after_set(
                            before,
                            all[i as int].0,
                            all[i as int].1,
                            q,
                        ));
                    }
                    lemma_made_step(all, old_made, len as int, i as int);
                }
            } else {
                proof {
                    lemma_skipped_step(all, made, len as int, i as int);
                }
            }
            i += 1;
        }
        proof {
            lemma_next_length(all, made, len as int);
        }
    }
    proof {
        let m = updates_map(all);
        assert(holds_map(made, m)) by {
            assert forall|a: int| 0 <= a < made.len() implies m.contains_key(
                (#[trigger] made[a]).0,
            ) && m[made[a].0] == made[a].1 by {
                assert(is_done_update(all, made[a], len + 1, 0));
                let i = choose|i: int| #[trigger] is_done(all, i, len + 1, 0) && all[i] == made[a];
                lemma_live_update(all, i);
            }
            assert forall|p: Seq<Seq<u8>>| #[trigger] m.contains_key(p) implies exists|a: int|
                0 <= a < made.len() && (#[trigger] made[a]).0 == p by {
                let i = lemma_last_update(all, p);
                assert(all[i].0.len() <= longest);
                assert(is_done(all, i, len + 1, 0));
                assert(made.contains(all[i]));
                let a = choose|a: int| 0 <= a < made.len() && made[a] == all[i];
                assert(made[a].0 == p);
            }
        }
        assert forall|q: Seq<Seq<u8>>| file_at(tree@, q) == file_after_map(start, m, q) by {
            lemma_ordered_updates(start, made, m, q);
        }
    }
    tree
}

/// Making the update `i`, which is next in order, keeps the record of what
/// has been made.
proof fn lemma_made_step(
    all: Seq<(Seq<Seq<u8>>, Option<NodeView>)>,
    made: Seq<(Seq<Seq<u8>>, Option<NodeView>)>,
    len: int,
    i: int,
)
    requires
        made_so_far(all, made, len, i),
        0 <= i < all.len(),
        len > 0,
        all[i].0.len() == len,
        is_last_of_path(all, i),
    ensures
        made_so_far(all, made.push(all[i]), len, i + 1),
{
    let next = made.push(all[i]);
    assert(is_done(all, i, len, i + 1));
    assert forall|a: int| 0 <= a < next.len() implies is_done_update(
        all,
        #[trigger] next[a],
        len,
        i + 1,
    ) by {
        if a < made.len() {
            assert(is_done_update(all, made[a], len, i));
            let k = choose|k: int| #[trigger] is_done(all, k, len, i) && all[k] == made[a];
            assert(is_done(all, k, len, i + 1) && all[k] == next[a]);
        } else {
            assert(is_done(all, i, len, i + 1) && all[i] == next[a]);
        }
    }
    assert forall|k: int| #[trigger] is_done(all, k, len, i + 1) implies next.contains(all[k]) by {
        if k == i {
            assert(next[made.len() as int] == all[i]);
        } else {
            assert(is_done(all, k, len, i));
            assert(made.contains(all[k]));
            let a = choose|a: int| 0 <= a < made.len() && made[a] == all[k];
            assert(next[a] == all[k]);
        }
    }
    assert(in_order(next)) by {
        assert forall|a: int| 0 <= a < next.len() implies (#[trigger] next[a]).0.len() > 0 by {
            if a < made.len() {
                assert(next[a] == made[a]);
            }
        }
        assert forall|a: int, b: int| 0 <= a < b < next.len() implies (#[trigger] next[a]).0 != (
        #[trigger] next[b]).0 && next[a].0.len() <= next[b].0.len() by {
            assert(next[a] == made[a]);
            if b < made.len() {
                assert(next[b] == made[b]);
            } else {
                assert(is_done_update(all, made[a], len, i));
                let k = choose|k: int| #[trigger] is_done(all, k, len, i) && all[k] == made[a];
                // Two updates that are both the last of their path have
                // different paths.
                if all[k].0 == all[i].0 {
                    if k < i {
                        assert(all[i].0 != all[k].0);
                    } else {
                        assert(all[k].0 != all[i].0);
                    }
                }
            }
        }
    }
}

/// Passing over the update `i`, which is not to be made now, keeps the
/// record of what has been made.
proof fn lemma_skipped_step(
    all: Seq<(Seq<Seq<u8>>, Option<NodeView>)>,
    made: Seq<(Seq<Seq<u8>>, Option<NodeView>)>,
    len: int,
    i: int,
)
    requires
        made_so_far(all, made, len, i),
        0 <= i < all.len(),
        !(all[i].0.len() == len && is_last_of_path(all, i)),
    ensures
        made_so_far(all, made, len, i + 1),
{
    assert forall|a: int| 0 <= a < made.len() implies is_done_update(
        all,
        #[trigger] made[a],
        len,
        i + 1,
    ) by {
        assert(is_done_update(all, made[a], len, i));
        let k = choose|k: int| #[trigger] is_done(all, k, len, i) && all[k] == made[a];
        assert(is_done(all, k, len, i + 1) && all[k] == made[a]);
    }
    assert forall|k: int| #[trigger] is_done(all, k, len, i + 1) implies made.contains(all[k]) by {
        if k == i {
            assert(all[i].0.len() < len);
        }
        assert(is_done(all, k, len, i));
    }
}

/// When all updates of one length have been passed, those of the next
/// length are up.
proof fn lemma_next_length(
    all: Seq<(Seq<Seq<u8>>, Option<NodeView>)>,
    made: Seq<(Seq<Seq<u8>>, Option<NodeView>)>,
    len: int,
)
    requires
        made_so_far(all, made, len, all.len() as int),
    ensures
        made_so_far(all, made, len + 1, 0),
{
    assert forall|a: int| 0 <= a < made.len() implies is_done_update(
        all,
        #[trigger] made[a],
        len + 1,
        0,
    ) by {
        assert(is_done_update(all, made[a], len, all.len() as int));
        let k = choose|k: int|
            #[trigger] is_done(all, k, len, all.len() as int) && all[k] == made[a];
        assert(is_done(all, k, len + 1, 0) && all[k] == made[a]);
    }
    assert forall|k: int| #[trigger] is_done(all, k, len + 1, 0) implies made.contains(all[k]) by {
        assert(all[k].0.len() <= len);
        assert(is_done(all, k, len, all.len() as int));
    }
}

/// The part of `tree` that the paths select: each file of `tree` that one of
/// the paths names, or that lies below a directory that one of them names,
/// and nothing else. No directory of the result is without entries where
/// none of the paths names a directory of `tree`; where one does, the
/// directory is taken as it is, and the result has an empty directory only
/// if `tree` has one.
pub fn dehydrate_tree(tree: &Tree, paths: &Vec<TreePath>) -> (r: Tree)
    ensures
        forall|q: Seq<Seq<u8>>|
            file_at(r@, q) == file_if_covered(tree@, paths_view(paths@), q),
        pruned(tree@) || names_no_directory(tree@, paths_view(paths@)) ==> pruned(r@),
        forall|d: Seq<Seq<u8>>|
            node_below(NodeView::Dir { entries: r@ }, d) is Some ==> node_below(
                NodeView::Dir { entries: tree@ },
                d,
            ) is Some,
{
    let mut acc = Tree::new();
    let ghost all = paths_view(paths@);
    let mut i: usize = 0;
    assert forall|q: Seq<Seq<u8>>| file_at(acc@, q) == file_if_covered(tree@, all.take(0), q) by {
        lemma_empty_tree_has_no_file(q);
    }
    while i < paths.len()
        invariant
            i <= paths@.len(),
            all == paths_view(paths@),
            forall|q: Seq<Seq<u8>>| file_at(acc@, q) == file_if_covered(tree@, all.take(i as int), q),
            pruned(tree@) || names_no_directory(tree@, all) ==> pruned(acc@),
            forall|d: Seq<Seq<u8>>|
                node_below(NodeView::Dir { entries: acc@ }, d) is Some ==> node_below(
                    NodeView::Dir { entries: tree@ },
                    d,
                ) is Some,
        decreases paths@.len() - i,
    {
        let path = &paths[i];
        let value = match tree.get_path(path) {
            Some(node) => Some(node.clone()),
            None => None,
        };
        let ghost before = acc@;
        let ghost v = node_opt_view(value);
        proof {
            if pruned(tree@) {
                lemma_pruned_entry(tree@, path@);
            } else if names_no_directory(tree@, all) {
                assert(all[i as int] == path@);
                assert(!(entry_at(tree@, all[i as int]) matches Some(NodeView::Dir { .. })));
                lemma_leaf_pruned(v);
            }
        }
        acc = acc.set_path(path, value);
        proof {
            let p = path@;
            let done = all.take(i as int);
            let next = all.take(i + 1);
            assert(next[i as int] == p);
            assert forall|d: Seq<Seq<u8>>|
                node_below(NodeView::Dir { entries: acc@ }, d) is Some implies node_below(
                NodeView::Dir { entries: tree@ },
                d,
            ) is Some by {
                let root = NodeView::Dir { entries: tree@ };
                assert(node_after_set(before, p, v, d));
                if node_below(NodeView::Dir { entries: before }, d) is Some {
                } else if p.len() > 0 && p.is_prefix_of(d) && node_below_opt(
                    v,
                    d.skip(p.len() as int),
                ) is Some {
                    lemma_node_below_split(root, p, d);
                } else {
                    lemma_node_above(root, d, p);
                }
            }
            assert forall|q: Seq<Seq<u8>>| file_at(acc@, q) == file_if_covered(tree@, next, q) by {
                assert(file_at(acc@, q) == file_after_set(before, p, v, q));
                assert(file_at(before, q) == file_if_covered(tree@, done, q));
                // What the longer run of paths covers.
                if covered(done, q) {
                    let k = choose|k: int|
                        0 <= k < done.len() && (#[trigger] done[k]).len() > 0 && done[k].is_prefix_of(
                            q,
                        );
                    assert(next[k] == done[k]);
                }
                if covered(next, q) && !(p.len() > 0 && p.is_prefix_of(q)) {
                    let k = choose|k: int|
                        0 <= k < next.len() && (#[trigger] next[k]).len() > 0 && next[k].is_prefix_of(
                            q,
                        );
                    assert(k < i);
                    assert(done[k] == next[k]);
                }
                if p.len() > 0 {
                    let root = NodeView::Dir { entries: tree@ };
                    if p.is_prefix_of(q) {
                        lemma_node_below_split(root, p, q);
                    } else if q.is_prefix_of(p) && v is Some {
                        if file_at(tree@, q) is Some {
                            lemma_nothing_below(root, q, p);
                        }
                    }
                }
            }
        }
        i += 1;
    }
    assert(all.take(i as int) =~= all);
    acc
}

/// The empty tree holds no file.
pub proof fn lemma_empty_tree_has_no_file(q: Seq<Seq<u8>>)
    ensures
        file_at(empty_tree(), q) is None,
{
}


/// The paths with `name` put in front of each.
pub open spec fn under(name: Seq<u8>, paths: Seq<Seq<Seq<u8>>>) -> Seq<Seq<Seq<u8>>> {
    Seq::new(paths.len(), |i: int| seq![name] + paths[i])
}

/// Whether one of the first `i` entries has the given name.
pub open spec fn named_before(entries: Seq<EntryView>, i: int, name: Seq<u8>) -> bool {
    exists|j: int| 0 <= j < i && j < entries.len() && (#[trigger] entries[j]).name == name
}

/// A name refers to something exactly if an entry has it.
pub proof fn lemma_lookup_named(entries: Seq<EntryView>, name: Seq<u8>)
    ensures
        lookup(entries, name) is Some <==> named_before(entries, entries.len() as int, name),
    decreases entries.len(),
{
    if entries.len() == 0 {
    } else if entries[0].name == name {
        assert(entries[0].name == name);
    } else {
        let rest = entries.drop_first();
        lemma_lookup_named(rest, name);
        if named_before(rest, rest.len() as int, name) {
            let j = choose|j: int| 0 <= j < rest.len() && (#[trigger] rest[j]).name == name;
            assert(entries[j + 1] == rest[j]);
        }
        if named_before(entries, entries.len() as int, name) {
            let j = choose|j: int| 0 <= j < entries.len() && (#[trigger] entries[j]).name == name;
            assert(rest[j - 1] == entries[j]);
        }
    }
}

/// A path is among those put under `name` exactly if it starts with `name`
/// and its tail is among the paths.
pub proof fn lemma_under_contains(name: Seq<u8>, paths: Seq<Seq<Seq<u8>>>, q: Seq<Seq<u8>>)
    ensures
        under(name, paths).contains(q) <==> q.len() > 0 && q[0] == name && paths.contains(
            q.drop_first(),
        ),
{
    let u = under(name, paths);
    if u.contains(q) {
        let i = choose|i: int| 0 <= i < u.len() && u[i] == q;
        assert(q.drop_first() =~= paths[i]);
    }
    if q.len() > 0 && q[0] == name && paths.contains(q.drop_first()) {
        let i = choose|i: int| 0 <= i < paths.len() && paths[i] == q.drop_first();
        assert(u[i] =~= q);
    }
}

/// A path is in a concatenation exactly if it is in one of the parts.
pub proof fn lemma_concat_contains(
    a: Seq<Seq<Seq<u8>>>,
    b: Seq<Seq<Seq<u8>>>,
    q: Seq<Seq<u8>>,
)
    ensures
        (a + b).contains(q) <==> a.contains(q) || b.contains(q),
{
    let c = a + b;
    if c.contains(q) {
        let i = choose|i: int| 0 <= i < c.len() && c[i] == q;
        if i < a.len() {
            assert(a[i] == q);
        } else {
            assert(b[i - a.len()] == q);
        }
    }
    if a.contains(q) {
        let i = choose|i: int| 0 <= i < a.len() && a[i] == q;
        assert(c[i] == q);
    }
    if b.contains(q) {
        let i = choose|i: int| 0 <= i < b.len() && b[i] == q;
        assert(c[i + a.len()] == q);
    }
}

/// Distinct paths stay distinct when a name is put in front of each.
pub proof fn lemma_under_distinct(name: Seq<u8>, paths: Seq<Seq<Seq<u8>>>)
    requires
        paths.no_duplicates(),
    ensures
        under(name, paths).no_duplicates(),
{
    let u = under(name, paths);
    assert forall|i: int, j: int| 0 <= i < u.len() && 0 <= j < u.len() && i != j implies u[i]
        != u[j] by {
        if u[i] == u[j] {
            assert(u[i].drop_first() =~= paths[i]);
            assert(u[j].drop_first() =~= paths[j]);
        }
    }
}

/// Two runs of distinct paths that share no path make one run of distinct
/// paths.
pub proof fn lemma_concat_distinct(a: Seq<Seq<Seq<u8>>>, b: Seq<Seq<Seq<u8>>>)
    requires
        a.no_duplicates(),
        b.no_duplicates(),
        forall|q: Seq<Seq<u8>>| !(a.contains(q) && b.contains(q)),
    ensures
        (a + b).no_duplicates(),
{
    let c = a + b;
    assert forall|i: int, j: int| 0 <= i < c.len() && 0 <= j < c.len() && i != j implies c[i]
        != c[j] by {
        if i < a.len() && j >= a.len() {
            assert(a.contains(a[i]));
            assert(b.contains(b[j - a.len()]));
        } else if j < a.len() && i >= a.len() {
            assert(a.contains(a[j]));
            assert(b.contains(b[i - a.len()]));
        }
    }
}

/// Appends to `out` the paths of `sub`, each with `name` in front.
fn append_under(out: &mut Vec<TreePath>, name: &[u8], sub: &Vec<TreePath>)
    ensures
        paths_view(final(out)@) == paths_view(old(out)@) + under(name@, paths_view(sub@)),
{
    let ghost start = paths_view(out@);
    let mut i: usize = 0;
    while i < sub.len()
        invariant
            i <= sub@.len(),
            paths_view(out@) == start + under(name@, paths_view(sub@)).take(i as int),
        decreases sub@.len() - i,
    {
        let tail = &sub[i].components;
        let mut components: Vec<Vec<u8>> = Vec::new();
        components.push(copy_bytes(name));
        let mut j: usize = 0;
        while j < tail.len()
            invariant
                j <= tail@.len(),
                components@.len() == j + 1,
                components@[0]@ == name@,
                forall|k: int| 0 <= k < j ==> components@[k + 1]@ == tail@[k]@,
            decreases tail@.len() - j,
        {
            components.push(copy_bytes(tail[j].as_slice()));
            j += 1;
        }
        let path = TreePath { components };
        let ghost before = paths_view(out@);
        assert(path@ =~= seq![name@] + sub@[i as int]@);
        out.push(path);
        assert(paths_view(out@) =~= before.push(path@));
        assert(paths_view(out@) =~= start + under(name@, paths_view(sub@)).take(i + 1));
        i += 1;
    }
    assert(under(name@, paths_view(sub@)).take(i as int) =~= under(name@, paths_view(sub@)));
}

/// The paths of the files at and below a node, from the node.
fn node_files(node: &TreeNode) -> (r: Vec<TreePath>)
    ensures
        forall|q: Seq<Seq<u8>>| paths_view(r@).contains(q) <==> file_below(node@, q) is Some,
        paths_view(r@).no_duplicates(),
    decreases node,
{
    match node {
        TreeNode::File { .. } => {
            let mut out: Vec<TreePath> = Vec::new();
            out.push(TreePath { components: Vec::new() });
            proof {
                let e = Seq::<Seq<u8>>::empty();
                assert(paths_view(out@)[0] =~= e);
                assert forall|q: Seq<Seq<u8>>| paths_view(out@).contains(q) <==> file_below(
                    node@,
                    q,
                ) is Some by {
                    if q.len() == 0 {
                        assert(q =~= e);
                    }
                }
            }
            out
        },
        TreeNode::Dir { tree } => {
            let out = tree_files(tree);
            assert forall|q: Seq<Seq<u8>>| paths_view(out@).contains(q) <==> file_below(
                node@,
                q,
            ) is Some by {
                assert(file_below(node@, q) == file_at(tree@, q));
            }
            out
        },
    }
}

/// The paths of the files of a tree.
fn tree_files(tree: &Tree) -> (r: Vec<TreePath>)
    ensures
        forall|q: Seq<Seq<u8>>| paths_view(r@).contains(q) <==> file_at(tree@, q) is Some,
        paths_view(r@).no_duplicates(),
    decreases tree,
{
    let mut out: Vec<TreePath> = Vec::new();
    let mut i: usize = 0;
    while i < tree.entries.len()
        invariant
            i <= tree.entries@.len(),
            forall|q: Seq<Seq<u8>>|
                paths_view(out@).contains(q) <==> q.len() > 0 && named_before(
                    tree@,
                    i as int,
                    q[0],
                ) && file_at(tree@, q) is Some,
            paths_view(out@).no_duplicates(),
        decreases tree.entries@.len() - i,
    {
        let entry = &tree.entries[i];
        let first = find_first(&tree.entries, entry.name.as_slice());
        let ghost before = paths_view(out@);
        let ghost name = entry.name@;
        assert(tree@[i as int].name == name);
        if first == Some(i) {
            let sub = node_files(&entry.node);
            assert forall|q: Seq<Seq<u8>>| before.contains(q) implies q.len() > 0 && q[0] != name by {
                if q.len() > 0 && named_before(tree@, i as int, q[0]) && q[0] == name {
                    let j = choose|j: int|
                        0 <= j < i && j < tree@.len() && (#[trigger] tree@[j]).name == name;
                    assert(tree.entries@[j].name@ == name);
                }
            }
            append_under(&mut out, entry.name.as_slice(), &sub);
            proof {
                lemma_under_distinct(name, paths_view(sub@));
                assert forall|q: Seq<Seq<u8>>|
                    !(before.contains(q) && under(name, paths_view(sub@)).contains(q)) by {
                    lemma_under_contains(name, paths_view(sub@), q);
                }
                lemma_concat_distinct(before, under(name, paths_view(sub@)));
                assert forall|q: Seq<Seq<u8>>|
                    paths_view(out@).contains(q) <==> q.len() > 0 && named_before(
                        tree@,
                        i + 1,
                        q[0],
                    ) && file_at(tree@, q) is Some by {
                    lemma_concat_contains(before, under(name, paths_view(sub@)), q);
                    lemma_under_contains(name, paths_view(sub@), q);
                    if q.len() > 0 {
                        lemma_file_at_step(tree@, q);
                        lemma_named_step(tree@, i as int, q[0]);
                        if q[0] == name {
                            if named_before(tree@, i as int, name) {
                                let j = choose|j: int|
                                    0 <= j < i && j < tree@.len() && (#[trigger] tree@[j]).name
                                        == name;
                                assert(tree.entries@[j].name@ == name);
                            }
                        }
                    }
                }
            }
        } else {
            proof {
                let f = first->0 as int;
                assert(f < i);
                assert(tree@[f].name == name);
                assert forall|q: Seq<Seq<u8>>|
                    q.len() > 0 implies named_before(tree@, i + 1, q[0]) == named_before(
                        tree@,
                        i as int,
                        q[0],
                    ) by {
                    lemma_named_step(tree@, i as int, q[0]);
                }
            }
        }
        i += 1;
    }
    proof {
        assert forall|q: Seq<Seq<u8>>| paths_view(out@).contains(q) <==> file_at(
            tree@,
            q,
        ) is Some by {
            if q.len() > 0 {
                lemma_file_at_step(tree@, q);
                lemma_lookup_named(tree@, q[0]);
            }
        }
    }
    out
}

/// One entry more is counted: its name is among the names then.
proof fn lemma_named_step(entries: Seq<EntryView>, i: int, name: Seq<u8>)
    requires
        0 <= i < entries.len(),
    ensures
        named_before(entries, i + 1, name) <==> named_before(entries, i, name) || entries[i].name
            == name,
{
    if named_before(entries, i + 1, name) {
        let j = choose|j: int| 0 <= j < i + 1 && j < entries.len() && (#[trigger] entries[j]).name == name;
        if j < i {
            assert(named_before(entries, i, name));
        }
    }
    if named_before(entries, i, name) {
        let j = choose|j: int| 0 <= j < i && j < entries.len() && (#[trigger] entries[j]).name == name;
        assert(0 <= j < i + 1 && entries[j].name == name);
    }
    if entries[i].name == name {
        assert(0 <= i < i + 1 && entries[i].name == name);
    }
}

/// The paths, from a node, at which the node and `other` hold different
/// files, or only one of them holds a file.
fn diff_nodes(node: &TreeNode, other: Option<&TreeNode>) -> (r: Vec<TreePath>)
    ensures
        forall|q: Seq<Seq<u8>>|
            paths_view(r@).contains(q) <==> file_below(node@, q) != file_below_opt(
                match other {
                    Some(o) => Some(o@),
                    None => None,
                },
                q,
            ),
        paths_view(r@).no_duplicates(),
    decreases node,
{
    let ghost ov: Option<NodeView> = match other {
        Some(o) => Some(o@),
        None => None,
    };
    let here_differs: bool = match (node, other) {
        (TreeNode::File { entry: a }, Some(TreeNode::File { entry: b })) => !a.same_as(b),
        (TreeNode::File { .. }, _) => true,
        (TreeNode::Dir { .. }, Some(TreeNode::File { .. })) => true,
        (TreeNode::Dir { .. }, _) => false,
    };
    let below: Vec<TreePath> = match (node, other) {
        (TreeNode::File { .. }, Some(TreeNode::Dir { tree: b })) => tree_files(b),
        (TreeNode::File { .. }, _) => Vec::new(),
        (TreeNode::Dir { tree: a }, Some(TreeNode::Dir { tree: b })) => diff_trees(a, b),
        (TreeNode::Dir { tree: a }, _) => tree_files(a),
    };
    let ghost e = Seq::<Seq<u8>>::empty();
    proof {
        // `below` holds no empty path, and the non-empty ones that differ.
        assert forall|q: Seq<Seq<u8>>|
            paths_view(below@).contains(q) <==> q.len() > 0 && file_below(node@, q)
                != file_below_opt(ov, q) by {
            if paths_view(below@).contains(q) {
                let i = choose|i: int| 0 <= i < below@.len() && paths_view(below@)[i] == q;
            }
        }
    }
    if here_differs {
        let mut out: Vec<TreePath> = Vec::new();
        out.push(TreePath { components: Vec::new() });
        assert(paths_view(out@)[0] =~= e);
        assert(paths_view(out@) =~= seq![e]);
        let ghost first = paths_view(out@);
        let mut k: usize = 0;
        while k < below.len()
            invariant
                k <= below@.len(),
                paths_view(out@) == first + paths_view(below@).take(k as int),
            decreases below@.len() - k,
        {
            let ghost before = paths_view(out@);
            let copy = TreePath { components: copy_components(&below[k].components) };
            assert(copy@ =~= below@[k as int]@);
            out.push(copy);
            assert(paths_view(out@) =~= before.push(below@[k as int]@));
            assert(paths_view(out@) =~= first + paths_view(below@).take(k + 1));
            k += 1;
        }
        proof {
            assert(paths_view(below@).take(k as int) =~= paths_view(below@));
            assert(first.no_duplicates());
            assert forall|q: Seq<Seq<u8>>| !(first.contains(q) && paths_view(below@).contains(q)) by {
                if first.contains(q) {
                    let i = choose|i: int| 0 <= i < first.len() && first[i] == q;
                }
            }
            lemma_concat_distinct(first, paths_view(below@));
            assert forall|q: Seq<Seq<u8>>|
                paths_view(out@).contains(q) <==> file_below(node@, q) != file_below_opt(ov, q) by {
                lemma_concat_contains(first, paths_view(below@), q);
                if q.len() == 0 {
                    assert(q =~= e);
                    assert(first[0] == q);
                } else if first.contains(q) {
                    let i = choose|i: int| 0 <= i < first.len() && first[i] == q;
                }
            }
        }
        out
    } else {
        proof {
            assert forall|q: Seq<Seq<u8>>|
                paths_view(below@).contains(q) <==> file_below(node@, q) != file_below_opt(
                    ov,
                    q,
                ) by {
                if q.len() == 0 {
                    assert(q =~= e);
                }
            }
        }
        below
    }
}

/// A copy of the components of a path.
fn copy_components(components: &Vec<Vec<u8>>) -> (r: Vec<Vec<u8>>)
    ensures
        r@.len() == components@.len(),
        forall|i: int| 0 <= i < r@.len() ==> r@[i]@ == components@[i]@,
{
    let mut out: Vec<Vec<u8>> = Vec::new();
    let mut i: usize = 0;
    while i < components.len()
        invariant
            i <= components@.len(),
            out@.len() == i,
            forall|k: int| 0 <= k < i ==> out@[k]@ == components@[k]@,
        decreases components@.len() - i,
    {
        out.push(copy_bytes(components[i].as_slice()));
        i += 1;
    }
    out
}

/// The paths at which two trees hold different files, or only one of them
/// holds a file.
fn diff_trees(a: &Tree, b: &Tree) -> (r: Vec<TreePath>)
    ensures
        forall|q: Seq<Seq<u8>>| paths_view(r@).contains(q) <==> file_at(a@, q) != file_at(b@, q),
        paths_view(r@).no_duplicates(),
    decreases a,
{
    let mut out: Vec<TreePath> = Vec::new();
    let mut i: usize = 0;
    while i < a.entries.len()
        invariant
            i <= a.entries@.len(),
            forall|q: Seq<Seq<u8>>|
                paths_view(out@).contains(q) <==> q.len() > 0 && named_before(a@, i as int, q[0])
                    && file_at(a@, q) != file_at(b@, q),
            paths_view(out@).no_duplicates(),
        decreases a.entries@.len() - i,
    {
        let entry = &a.entries[i];
        let first = find_first(&a.entries, entry.name.as_slice());
        let ghost before = paths_view(out@);
        let ghost name = entry.name@;
        assert(a@[i as int].name == name);
        if first == Some(i) {
            let other: Option<&TreeNode> = match find_first(&b.entries, entry.name.as_slice()) {
                Some(k) => Some(&b.entries[k].node),
                None => None,
            };
            let sub = diff_nodes(&entry.node, other);
            assert forall|q: Seq<Seq<u8>>| before.contains(q) implies q.len() > 0 && q[0] != name by {
                assert(before.contains(q) <==> q.len() > 0 && named_before(a@, i as int, q[0])
                    && file_at(a@, q) != file_at(b@, q));
                if q.len() > 0 && named_before(a@, i as int, q[0]) && q[0] == name {
                    let j = choose|j: int|
                        0 <= j < i && j < a@.len() && (#[trigger] a@[j]).name == name;
                    assert(a.entries@[j].name@ == name);
                }
            }
            append_under(&mut out, entry.name.as_slice(), &sub);
            proof {
                lemma_under_distinct(name, paths_view(sub@));
                assert forall|q: Seq<Seq<u8>>|
                    !(before.contains(q) && under(name, paths_view(sub@)).contains(q)) by {
                    lemma_under_contains(name, paths_view(sub@), q);
                }
                lemma_concat_distinct(before, under(name, paths_view(sub@)));
                assert forall|q: Seq<Seq<u8>>|
                    paths_view(out@).contains(q) <==> q.len() > 0 && named_before(
                        a@,
                        i + 1,
                        q[0],
                    ) && file_at(a@, q) != file_at(b@, q) by {
                    lemma_concat_contains(before, under(name, paths_view(sub@)), q);
                    lemma_under_contains(name, paths_view(sub@), q);
                    if q.len() > 0 {
                        lemma_file_at_step(a@, q);
                        lemma_file_at_step(b@, q);
                        lemma_named_step(a@, i as int, q[0]);
                        if q[0] == name {
                            if named_before(a@, i as int, name) {
                                let j = choose|j: int|
                                    0 <= j < i && j < a@.len() && (#[trigger] a@[j]).name == name;
                                assert(a.entries@[j].name@ == name);
                            }
                        }
                    }
                }
            }
        } else {
            proof {
                let f = first->0 as int;
                assert(f < i);
                assert(a@[f].name == name);
                assert forall|q: Seq<Seq<u8>>|
                    q.len() > 0 implies named_before(a@, i + 1, q[0]) == named_before(
                        a@,
                        i as int,
                        q[0],
                    ) by {
                    lemma_named_step(a@, i as int, q[0]);
                }
            }
        }
        i += 1;
    }
    let mut k: usize = 0;
    while k < b.entries.len()
        invariant
            k <= b.entries@.len(),
            forall|q: Seq<Seq<u8>>|
                paths_view(out@).contains(q) <==> q.len() > 0 && (named_before(
                    a@,
                    a@.len() as int,
                    q[0],
                ) || named_before(b@, k as int, q[0])) && file_at(a@, q) != file_at(b@, q),
            paths_view(out@).no_duplicates(),
        decreases b.entries@.len() - k,
    {
        let entry = &b.entries[k];
        let first = find_first(&b.entries, entry.name.as_slice());
        let in_a = find_first(&a.entries, entry.name.as_slice());
        let ghost before = paths_view(out@);
        let ghost name = entry.name@;
        assert(b@[k as int].name == name);
        proof {
            lemma_lookup_named(a@, name);
        }
        if first == Some(k) && in_a.is_none() {
            let sub = node_files(&entry.node);
            assert forall|q: Seq<Seq<u8>>| before.contains(q) implies q.len() > 0 && q[0] != name by {
                assert(before.contains(q) <==> q.len() > 0 && (named_before(
                    a@,
                    a@.len() as int,
                    q[0],
                ) || named_before(b@, k as int, q[0])) && file_at(a@, q) != file_at(b@, q));
                if q.len() > 0 && q[0] == name {
                    if named_before(b@, k as int, name) {
                        let j = choose|j: int|
                            0 <= j < k && j < b@.len() && (#[trigger] b@[j]).name == name;
                        assert(b.entries@[j].name@ == name);
                    }
                }
            }
            append_under(&mut out, entry.name.as_slice(), &sub);
            proof {
                lemma_under_distinct(name, paths_view(sub@));
                assert forall|q: Seq<Seq<u8>>|
                    !(before.contains(q) && under(name, paths_view(sub@)).contains(q)) by {
                    lemma_under_contains(name, paths_view(sub@), q);
                }
                lemma_concat_distinct(before, under(name, paths_view(sub@)));
                assert forall|q: Seq<Seq<u8>>|
                    paths_view(out@).contains(q) <==> q.len() > 0 && (named_before(
                        a@,
                        a@.len() as int,
                        q[0],
                    ) || named_before(b@, k + 1, q[0])) && file_at(a@, q) != file_at(b@, q) by {
                    lemma_concat_contains(before, under(name, paths_view(sub@)), q);
                    lemma_under_contains(name, paths_view(sub@), q);
                    if q.len() > 0 {
                        lemma_file_at_step(a@, q);
                        lemma_file_at_step(b@, q);
                        lemma_named_step(b@, k as int, q[0]);
                        if q[0] == name {
                            if named_before(b@, k as int, name) {
                                let j = choose|j: int|
                                    0 <= j < k && j < b@.len() && (#[trigger] b@[j]).name == name;
                                assert(b.entries@[j].name@ == name);
                            }
                        }
                    }
                }
            }
        } else {
            proof {
                if first != Some(k) {
                    let f = first->0 as int;
                    assert(f < k);
                    assert(b@[f].name == name);
                }
                assert forall|q: Seq<Seq<u8>>|
                    q.len() > 0 implies (named_before(a@, a@.len() as int, q[0]) || named_before(
                        b@,
                        k + 1,
                        q[0],
                    )) == (named_before(a@, a@.len() as int, q[0]) || named_before(
                        b@,
                        k as int,
                        q[0],
                    )) by {
                    lemma_named_step(b@, k as int, q[0]);
                }
            }
        }
        k += 1;
    }
    proof {
        assert forall|q: Seq<Seq<u8>>| paths_view(out@).contains(q) <==> file_at(a@, q) != file_at(
            b@,
            q,
        ) by {
            if q.len() > 0 {
                lemma_file_at_step(a@, q);
                lemma_file_at_step(b@, q);
                lemma_lookup_named(a@, q[0]);
                lemma_lookup_named(b@, q[0]);
            }
        }
    }
    out
}

/// The tree that an optional tree stands for: the empty tree if there is none.
pub open spec fn tree_or_empty(tree: Option<&Tree>) -> Seq<EntryView> {
    match tree {
        Some(t) => t@,
        None => empty_tree(),
    }
}

/// The paths at which two trees differ: each path at which they hold
/// different files, or at which only one of them holds a file. A missing
/// tree counts as empty.
pub fn get_changed_paths_between_trees(old_tree: Option<&Tree>, new_tree: Option<&Tree>) -> (r:
    Vec<TreePath>)
    ensures
        forall|q: Seq<Seq<u8>>|
            paths_view(r@).contains(q) <==> file_at(tree_or_empty(old_tree), q) != file_at(
                tree_or_empty(new_tree),
                q,
            ),
        paths_view(r@).no_duplicates(),
{
    let empty = Tree::new();
    let a: &Tree = match old_tree {
        Some(t) => t,
        None => &empty,
    };
    let b: &Tree = match new_tree {
        Some(t) => t,
        None => &empty,
    };
    diff_trees(a, b)
}


/// Bringing in no update leaves every file of the base tree as it is.
pub proof fn lemma_hydrate_identity(base: Seq<EntryView>, q: Seq<Seq<u8>>)
    ensures
        file_after_map(base, updates_map(Seq::empty()), q) == file_at(base, q),
{
    let m = updates_map(Seq::empty());
    assert(m =~= Map::empty());
    lemma_deepest_key(m, q, q.len());
}

/// A path that lies on one line with none of the updated paths keeps what
/// the base tree had there.
pub proof fn lemma_hydrate_keeps_other_paths(
    base: Seq<EntryView>,
    m: Map<Seq<Seq<u8>>, Option<NodeView>>,
    q: Seq<Seq<u8>>,
)
    requires
        forall|p: Seq<Seq<u8>>| #[trigger] m.contains_key(p) ==> !comparable(p, q),
    ensures
        file_after_map(base, m, q) == file_at(base, q),
{
    lemma_deepest_key(m, q, q.len());
    let k = deepest_key(m, q, q.len());
    if k > 0 {
        lemma_prefix_is_take(q.take(k as int), q);
        assert(m.contains_key(q.take(k as int)));
    }
    if set_below(m, q) {
        let p = choose|p: Seq<Seq<u8>>| #[trigger] sets(m, p) && q.is_prefix_of(p) && p != q;
        assert(m.contains_key(p));
    }
}

/// An update decides what stands at its path, unless a value is put below
/// it: a file is there afterwards exactly if the update puts one there.
pub proof fn lemma_hydrate_sets_path(
    base: Seq<EntryView>,
    m: Map<Seq<Seq<u8>>, Option<NodeView>>,
    p: Seq<Seq<u8>>,
)
    requires
        m.contains_key(p),
        p.len() > 0,
    ensures
        file_after_map(base, m, p) == if set_below(m, p) {
            None
        } else {
            match m[p] {
                Some(NodeView::File { entry }) => Some(entry),
                _ => None,
            }
        },
{
    assert(p.take(p.len() as int) =~= p);
    lemma_deepest_key(m, p, p.len());
    assert(p.skip(p.len() as int) =~= Seq::<Seq<u8>>::empty());
}

/// Whether no path is named twice.
pub open spec fn paths_distinct(updates: Seq<(Seq<Seq<u8>>, Option<NodeView>)>) -> bool {
    forall|a: int, b: int|
        0 <= a < b < updates.len() ==> (#[trigger] updates[a]).0 != (#[trigger] updates[b]).0
}

/// The order of the updates does not matter: two runs that hold the same
/// updates, and name no path twice, stand for the same map, and so give
/// the same tree.
pub proof fn lemma_order_of_updates_is_irrelevant(
    first: Seq<(Seq<Seq<u8>>, Option<NodeView>)>,
    second: Seq<(Seq<Seq<u8>>, Option<NodeView>)>,
)
    requires
        paths_distinct(first),
        paths_distinct(second),
        forall|x: (Seq<Seq<u8>>, Option<NodeView>)| first.contains(x) <==> second.contains(x),
    ensures
        updates_map(first) == updates_map(second),
{
    let m1 = updates_map(first);
    let m2 = updates_map(second);
    assert forall|p: Seq<Seq<u8>>| #[trigger] m1.contains_key(p) implies m2.contains_key(p) && m2[p] == m1[p] by {
        lemma_map_of_member(first, second, p);
    }
    assert forall|p: Seq<Seq<u8>>| #[trigger] m2.contains_key(p) implies m1.contains_key(p) by {
        lemma_map_of_member(second, first, p);
    }
    assert(m1 =~= m2);
}

proof fn lemma_map_of_member(
    first: Seq<(Seq<Seq<u8>>, Option<NodeView>)>,
    second: Seq<(Seq<Seq<u8>>, Option<NodeView>)>,
    p: Seq<Seq<u8>>,
)
    requires
        paths_distinct(second),
        forall|x: (Seq<Seq<u8>>, Option<NodeView>)| first.contains(x) ==> second.contains(x),
        updates_map(first).contains_key(p),
    ensures
        updates_map(second).contains_key(p),
        updates_map(second)[p] == updates_map(first)[p],
{
    let i = lemma_last_update(first, p);
    assert(first.contains(first[i]));
    let j = choose|j: int| 0 <= j < second.len() && second[j] == first[i];
    assert forall|k: int| j < k < second.len() implies second[k].0 != second[j].0 by {
        assert(second[j].0 != second[k].0);
    }
    lemma_live_update(second, j);
}

/// Updates in which the value is decided by the path alone stand for the
/// map that gives each named path its value.
pub proof fn lemma_map_by_path(
    updates: Seq<(Seq<Seq<u8>>, Option<NodeView>)>,
    m: Map<Seq<Seq<u8>>, Option<NodeView>>,
)
    requires
        forall|p: Seq<Seq<u8>>| #[trigger]
            m.contains_key(p) <==> p.len() > 0 && exists|i: int|
                0 <= i < updates.len() && (#[trigger] updates[i]).0 == p,
        forall|i: int|
            0 <= i < updates.len() && (#[trigger] updates[i]).0.len() > 0 ==> m[updates[i].0]
                == updates[i].1,
    ensures
        updates_map(updates) == m,
{
    let n = updates_map(updates);
    assert forall|p: Seq<Seq<u8>>| #[trigger] n.contains_key(p) implies m.contains_key(p) && m[p] == n[p] by {
        let i = lemma_last_update(updates, p);
        assert(updates[i].0 == p);
    }
    assert forall|p: Seq<Seq<u8>>| #[trigger] m.contains_key(p) implies n.contains_key(p) by {
        let i = choose|i: int| 0 <= i < updates.len() && (#[trigger] updates[i]).0 == p;
        lemma_named_path(updates, i);
    }
    assert(n =~= m);
}

/// A path that an update names, and that is not empty, is named by the map.
pub proof fn lemma_named_path(updates: Seq<(Seq<Seq<u8>>, Option<NodeView>)>, i: int)
    requires
        0 <= i < updates.len(),
        updates[i].0.len() > 0,
    ensures
        updates_map(updates).contains_key(updates[i].0),
    decreases updates.len(),
{
    if i < updates.len() - 1 {
        let init = updates.drop_last();
        assert(init[i] == updates[i]);
        lemma_named_path(init, i);
    }
}

/// A map that gives each of its paths what the tree holds there already
/// changes nothing; and it changes nothing at `q` if it does so for each
/// of its paths that lie on one line with `q`.
pub proof fn lemma_keeping_map(
    base: Seq<EntryView>,
    m: Map<Seq<Seq<u8>>, Option<NodeView>>,
    q: Seq<Seq<u8>>,
)
    requires
        forall|p: Seq<Seq<u8>>| #[trigger]
            m.contains_key(p) && comparable(p, q) ==> m[p] == entry_at(base, p),
    ensures
        file_after_map(base, m, q) == file_at(base, q),
{
    let root = NodeView::Dir { entries: base };
    if set_below(m, q) {
        let p = choose|p: Seq<Seq<u8>>| #[trigger] sets(m, p) && q.is_prefix_of(p) && p != q;
        assert(m.contains_key(p));
        assert(node_below(root, p) is Some);
        if file_at(base, q) is Some {
            lemma_nothing_below(root, q, p);
        }
    } else {
        lemma_deepest_key(m, q, q.len());
        let k = deepest_key(m, q, q.len());
        if k > 0 {
            let p = q.take(k as int);
            lemma_prefix_is_take(p, q);
            assert(m.contains_key(p));
            lemma_node_below_split(root, p, q);
        }
    }
}

/// What a selection holds is held by the tree it was taken from, at a path
/// that one of the selecting paths leads to. And where no selecting path
/// names a directory of that tree, every file of the selection stands at one
/// of the selecting paths.
pub proof fn lemma_dehydrate_subset(
    tree: Seq<EntryView>,
    paths: Seq<Seq<Seq<u8>>>,
    q: Seq<Seq<u8>>,
)
    requires
        file_if_covered(tree, paths, q) is Some,
    ensures
        file_at(tree, q) == file_if_covered(tree, paths, q),
        covered(paths, q),
        names_no_directory(tree, paths) ==> paths.contains(q),
{
    let i = choose|i: int|
        0 <= i < paths.len() && (#[trigger] paths[i]).len() > 0 && paths[i].is_prefix_of(q);
    if !(entry_at(tree, paths[i]) matches Some(NodeView::Dir { .. })) {
        if paths[i] != q {
            lemma_nothing_below(NodeView::Dir { entries: tree }, paths[i], q);
        }
        assert(paths[i] == q);
    }
}

/// Two trees hold the same files exactly if they differ at no path.
pub proof fn lemma_no_changed_paths(a: Seq<EntryView>, b: Seq<EntryView>)
    ensures
        files(a) == files(b) <==> (forall|q: Seq<Seq<u8>>| file_at(a, q) == file_at(b, q)),
{
    if files(a) == files(b) {
        assert forall|q: Seq<Seq<u8>>| file_at(a, q) == file_at(b, q) by {
            assert(files(a).contains_key(q) == files(b).contains_key(q));
            if files(a).contains_key(q) {
                assert(files(a)[q] == files(b)[q]);
            }
        }
    }
    if forall|q: Seq<Seq<u8>>| file_at(a, q) == file_at(b, q) {
        assert(files(a) =~= files(b));
    }
}


/// Whether two nodes, each of which may be missing, differ in some file at
/// or below them.
pub open spec fn nodes_differ(a: Option<NodeView>, b: Option<NodeView>) -> bool {
    exists|rel: Seq<Seq<u8>>| file_below_opt(a, rel) != #[trigger] file_below_opt(b, rel)
}

/// Decides whether two nodes differ in some file at or below them.
pub fn entries_differ(a: Option<&TreeNode>, b: Option<&TreeNode>) -> (r: bool)
    ensures
        r == nodes_differ(
            match a {
                Some(n) => Some(n@),
                None => None,
            },
            match b {
                Some(n) => Some(n@),
                None => None,
            },
        ),
{
    let ghost av: Option<NodeView> = match a {
        Some(n) => Some(n@),
        None => None,
    };
    let ghost bv: Option<NodeView> = match b {
        Some(n) => Some(n@),
        None => None,
    };
    let found: Vec<TreePath> = match (a, b) {
        (None, None) => Vec::new(),
        (Some(node), other) => diff_nodes(node, other),
        (None, Some(node)) => node_files(node),
    };
    proof {
        assert forall|q: Seq<Seq<u8>>| paths_view(found@).contains(q) <==> file_below_opt(av, q)
            != file_below_opt(bv, q) by {
            if paths_view(found@).contains(q) {
                let i = choose|i: int| 0 <= i < found@.len() && paths_view(found@)[i] == q;
            }
        }
        if found@.len() > 0 {
            let q = paths_view(found@)[0];
            assert(paths_view(found@).contains(q));
            assert(file_below_opt(av, q) != file_below_opt(bv, q));
        }
    }
    found.len() > 0
}


impl Tree {
    /// Whether the two trees hold the same files: the same content with the
    /// same mode at every path.
    pub fn holds_same_files(&self, other: &Tree) -> (r: bool)
        ensures
            r == (files(self@) == files(other@)),
    {
        let changed = diff_trees(self, other);
        proof {
            lemma_no_changed_paths(self@, other@);
            if changed@.len() > 0 {
                let q = paths_view(changed@)[0];
                assert(paths_view(changed@).contains(q));
                assert(file_at(self@, q) != file_at(other@, q));
                assert(files(self@) != files(other@));
            } else {
                assert forall|q: Seq<Seq<u8>>| file_at(self@, q) == file_at(other@, q) by {
                    if paths_view(changed@).contains(q) {
                        let i = choose|i: int|
                            0 <= i < paths_view(changed@).len() && paths_view(changed@)[i] == q;
                    }
                }
                assert(files(self@) == files(other@));
            }
        }
        changed.len() == 0
    }
}


/// Whether `path` leads to one of the paths, or is one of them.
pub open spec fn leads_to_one_of(path: Seq<Seq<u8>>, paths: Seq<Seq<Seq<u8>>>) -> bool {
    exists|i: int| 0 <= i < paths.len() && path.is_prefix_of(#[trigger] paths[i])
}

/// Whether the directory at `path` has to be read from the store when a
/// tree is read for a rewrite, rather than kept by its identifier alone.
///
/// A directory is read if it lies on the way to one of the paths that the
/// rewrite names (`along`). Where the tree is compared with another
/// (`compare`), a directory is read also unless the other tree holds the
/// very same directory at its place (`same_as_twin`): every path at which
/// the two trees differ lies in a directory that is read then.
pub fn must_read_directory(
    path: &TreePath,
    along: &Vec<TreePath>,
    compare: bool,
    same_as_twin: bool,
) -> (r: bool)
    ensures
        r == (leads_to_one_of(path@, paths_view(along@)) || (compare && !same_as_twin)),
{
    if compare && !same_as_twin {
        return true;
    }
    let mut i: usize = 0;
    while i < along.len()
        invariant
            i <= along@.len(),
            forall|k: int| 0 <= k < i ==> !path@.is_prefix_of(#[trigger] paths_view(along@)[k]),
        decreases along@.len() - i,
    {
        if path.is_prefix_of(&along[i]) {
            assert(path@.is_prefix_of(paths_view(along@)[i as int]));
            return true;
        }
        i += 1;
    }
    false
}

} // verus!
