//! The smartlog graph: the commits on the way from each active head down to
//! the main branch, with the links between them.

use vstd::prelude::*;
use crate::commit::{time_lt, Time};
use crate::oid::{bytes_lt, NonZeroOid};

verus! {

/// What a node of the graph stands for.
#[derive(Clone, Copy, Debug, PartialEq, Eq, Hash)]
pub enum NodeObject {
    /// A commit that the store holds.
    Commit {
        /// The identifier of the commit.
        oid: NonZeroOid,
        /// When the commit was made.
        time: Time,
    },
    /// A commit that the store no longer holds.
    GarbageCollected {
        /// The identifier of the commit.
        oid: NonZeroOid,
    },
}

impl NodeObject {
    /// The identifier of the commit.
    pub open spec fn oid(self) -> NonZeroOid {
        match self {
            NodeObject::Commit { oid, .. } => oid,
            NodeObject::GarbageCollected { oid } => oid,
        }
    }

    /// When the commit was made, if the store holds it.
    pub open spec fn time(self) -> Option<Time> {
        match self {
            NodeObject::Commit { time, .. } => Some(time),
            NodeObject::GarbageCollected { .. } => None,
        }
    }

    /// The identifier of the commit.
    pub fn get_oid(&self) -> (r: NonZeroOid)
        ensures
            r == self.oid(),
    {
        match self {
            NodeObject::Commit { oid, .. } => *oid,
            NodeObject::GarbageCollected { oid } => *oid,
        }
    }

    /// When the commit was made, if the store holds it.
    pub fn get_time(&self) -> (r: Option<Time>)
        ensures
            r == self.time(),
    {
        match self {
            NodeObject::Commit { time, .. } => Some(*time),
            NodeObject::GarbageCollected { .. } => None,
        }
    }
}

/// Node contained in the smartlog commit graph.
#[derive(Debug)]
pub struct Node {
    /// The underlying commit object.
    pub object: NodeObject,
    /// The parent node in the smartlog commit graph. This is not the
    /// commit's own parent where the graph hides commits in between.
    pub parent: Option<NonZeroOid>,
    /// The children nodes in the smartlog commit graph, in a fixed order.
    pub children: Vec<NonZeroOid>,
    /// Indicates that this is a commit to the main branch.
    pub is_main: bool,
    /// Indicates that this commit has been marked as obsolete.
    pub is_obsolete: bool,
}

/// Graph of commits that the user is working on. In a well-formed graph
/// (see [`SmartlogGraph::wf`]) no two nodes stand for the same commit. The
/// graphs that are built here are well formed, and the functions that take
/// a graph ask for a well-formed one; [`SmartlogGraph::is_well_formed`]
/// tells whether a graph that was put together by hand is.
#[derive(Debug)]
pub struct SmartlogGraph {
    /// The nodes.
    pub nodes: Vec<Node>,
}

/// What the commit graph and the store say about one commit.
#[derive(Debug)]
pub struct Vertex {
    /// The commit, or what is left of it.
    pub object: NodeObject,
    /// Whether the commit is public: part of the main branch.
    pub is_public: bool,
    /// Whether the commit is obsolete.
    pub is_obsolete: bool,
    /// The commit's own parents.
    pub parents: Vec<NonZeroOid>,
}

/// An active head together with its path to the main branch: the commits
/// from the main branch up to the head, if the commit graph knows such a
/// path.
#[derive(Debug)]
pub struct ActiveHead {
    /// The head.
    pub head: Vertex,
    /// The path, the head last.
    pub path_to_main_branch: Option<Vec<Vertex>>,
}

/// The vertices that a head brings into the graph: those of its path, or
/// the head alone where there is no path.
pub open spec fn head_vertices(head: ActiveHead) -> Seq<Vertex> {
    match head.path_to_main_branch {
        Some(path) => path@,
        None => seq![head.head],
    }
}

/// The vertices that the heads bring into the graph, in order.
pub open spec fn all_vertices(heads: Seq<ActiveHead>) -> Seq<Vertex>
    decreases heads.len(),
{
    if heads.len() == 0 {
        seq![]
    } else {
        all_vertices(heads.drop_last()) + head_vertices(heads.last())
    }
}

/// The identifiers of the vertices, each once, in the order of their first
/// occurrence.
pub open spec fn distinct_oids(vertices: Seq<Vertex>) -> Seq<NonZeroOid>
    decreases vertices.len(),
{
    if vertices.len() == 0 {
        seq![]
    } else {
        let before = distinct_oids(vertices.drop_last());
        let oid = vertices.last().object.oid();
        if before.contains(oid) {
            before
        } else {
            before.push(oid)
        }
    }
}

/// What is known about the commit `oid`: the last vertex that stands for it.
pub open spec fn last_vertex(vertices: Seq<Vertex>, oid: NonZeroOid) -> Option<Vertex>
    decreases vertices.len(),
{
    if vertices.len() == 0 {
        None
    } else if vertices.last().object.oid() == oid {
        Some(vertices.last())
    } else {
        last_vertex(vertices.drop_last(), oid)
    }
}

/// The last of `parents` that is among the vertices.
pub open spec fn last_known(vertices: Seq<Vertex>, parents: Seq<NonZeroOid>) -> Option<NonZeroOid>
    decreases parents.len(),
{
    if parents.len() == 0 {
        None
    } else if last_vertex(vertices, parents.last()) is Some {
        Some(parents.last())
    } else {
        last_known(vertices, parents.drop_last())
    }
}

/// The parent that a commit has in the graph: none for a commit of the main
/// branch; else the last of its own parents that is in the graph.
pub open spec fn projected_parent(vertices: Seq<Vertex>, vertex: Vertex) -> Option<NonZeroOid> {
    if vertex.is_public {
        None
    } else {
        last_known(vertices, vertex.parents@)
    }
}

/// Whether `child` is a child of `parent` in the graph: it is in the graph,
/// it is not on the main branch, and `parent` is one of its own parents.
pub open spec fn is_child(vertices: Seq<Vertex>, child: NonZeroOid, parent: NonZeroOid) -> bool {
    match last_vertex(vertices, child) {
        Some(vertex) => !vertex.is_public && vertex.parents@.contains(parent),
        None => false,
    }
}

/// When the commit `oid` was made, as far as the vertices tell.
pub open spec fn time_of(vertices: Seq<Vertex>, oid: NonZeroOid) -> Option<Time> {
    match last_vertex(vertices, oid) {
        Some(vertex) => vertex.object.time(),
        None => None,
    }
}

/// The order of children: by the time at which the commit was made, a commit
/// that the store no longer holds first; commits of one time by identifier.
pub open spec fn key_lt(a: (Option<Time>, NonZeroOid), b: (Option<Time>, NonZeroOid)) -> bool {
    match (a.0, b.0) {
        (None, Some(_)) => true,
        (Some(_), None) => false,
        (Some(x), Some(y)) => if x == y {
            bytes_lt(a.1@, b.1@)
        } else {
            time_lt(x, y)
        },
        (None, None) => bytes_lt(a.1@, b.1@),
    }
}

/// The order of two children of a node.
pub open spec fn child_lt(vertices: Seq<Vertex>, a: NonZeroOid, b: NonZeroOid) -> bool {
    key_lt((time_of(vertices, a), a), (time_of(vertices, b), b))
}

/// Whether the sequence ascends strictly in the order of children.
pub open spec fn children_sorted(vertices: Seq<Vertex>, children: Seq<NonZeroOid>) -> bool {
    forall|i: int, j: int|
        0 <= i < j < children.len() ==> child_lt(vertices, #[trigger] children[i], #[trigger] children[j])
}

/// The identifiers of the nodes, in order.
pub open spec fn graph_oids(nodes: Seq<Node>) -> Seq<NonZeroOid> {
    Seq::new(nodes.len(), |i: int| nodes[i].object.oid())
}

/// Whether the node is what the vertices make of its commit, links apart.
pub open spec fn node_matches(node: Node, vertices: Seq<Vertex>) -> bool {
    match last_vertex(vertices, node.object.oid()) {
        Some(vertex) => {
            &&& node.object == vertex.object
            &&& node.is_main == vertex.is_public
            &&& node.is_obsolete == vertex.is_obsolete
        },
        None => false,
    }
}

/// Whether the node has the links that the vertices give it: its parent is
/// its projected parent, and its children are the commits of the graph of
/// which it is a parent, each once.
pub open spec fn node_linked(node: Node, vertices: Seq<Vertex>) -> bool {
    &&& last_vertex(vertices, node.object.oid()) matches Some(vertex) && node.parent
        == projected_parent(vertices, vertex)
    &&& node.children@.no_duplicates()
    &&& forall|c: NonZeroOid| #[trigger]
        node.children@.contains(c) <==> is_child(vertices, c, node.object.oid())
}

/// Whether the nodes are the graph of the vertices, the order of the
/// children apart.
pub open spec fn is_graph_of(nodes: Seq<Node>, vertices: Seq<Vertex>) -> bool {
    &&& graph_oids(nodes) == distinct_oids(vertices)
    &&& forall|i: int|
        0 <= i < nodes.len() ==> node_matches(#[trigger] nodes[i], vertices) && node_linked(
            nodes[i],
            vertices,
        )
}

/// Whether the nodes are the smartlog graph of the vertices: the graph,
/// with the children of every node in order.
pub open spec fn is_smartlog_of(nodes: Seq<Node>, vertices: Seq<Vertex>) -> bool {
    &&& is_graph_of(nodes, vertices)
    &&& forall|i: int|
        0 <= i < nodes.len() ==> children_sorted(vertices, (#[trigger] nodes[i]).children@)
}

/// No identifier occurs twice among the distinct ones, and an identifier is
/// among them exactly if a vertex stands for it.
pub proof fn lemma_distinct_oids(vertices: Seq<Vertex>, oid: NonZeroOid)
    ensures
        distinct_oids(vertices).no_duplicates(),
        distinct_oids(vertices).contains(oid) <==> last_vertex(vertices, oid) is Some,
    decreases vertices.len(),
{
    if vertices.len() > 0 {
        let init = vertices.drop_last();
        let before = distinct_oids(init);
        let last = vertices.last().object.oid();
        lemma_distinct_oids(init, oid);
        lemma_distinct_oids(init, last);
        let all = distinct_oids(vertices);
        if before.contains(oid) {
            let k = choose|k: int| 0 <= k < before.len() && before[k] == oid;
            assert(all[k] == oid);
        }
        if all.contains(oid) && !before.contains(oid) {
            let k = choose|k: int| 0 <= k < all.len() && all[k] == oid;
            if k < before.len() {
                assert(before[k] == oid);
            }
        }
        if oid == last && !before.contains(oid) {
            assert(all[all.len() - 1] == oid);
        }
    }
}

/// A copy of some identifiers.
fn copy_oids(oids: &Vec<NonZeroOid>) -> (r: Vec<NonZeroOid>)
    ensures
        r@ == oids@,
{
    let mut out: Vec<NonZeroOid> = Vec::new();
    let mut i: usize = 0;
    while i < oids.len()
        invariant
            i <= oids@.len(),
            out@ == oids@.take(i as int),
        decreases oids@.len() - i,
    {
        out.push(oids[i]);
        assert(out@ =~= oids@.take(i + 1));
        i += 1;
    }
    assert(oids@.take(i as int) =~= oids@);
    out
}

/// Whether the identifiers hold `oid`.
fn holds_oid(oids: &Vec<NonZeroOid>, oid: NonZeroOid) -> (r: bool)
    ensures
        r == oids@.contains(oid),
{
    broadcast use NonZeroOid::lemma_view;

    let mut i: usize = 0;
    while i < oids.len()
        invariant
            i <= oids@.len(),
            forall|j: int| 0 <= j < i ==> oids@[j] != oid,
        decreases oids@.len() - i,
    {
        proof {
            oids@[i as int].lemma_view(oid);
        }
        if oids[i] == oid {
            return true;
        }
        i += 1;
    }
    false
}

/// The index of the node that stands for `oid`.
fn find_node(nodes: &Vec<Node>, oid: NonZeroOid) -> (r: Option<usize>)
    ensures
        match r {
            Some(i) => i < nodes@.len() && graph_oids(nodes@)[i as int] == oid,
            None => !graph_oids(nodes@).contains(oid),
        },
        position(graph_oids(nodes@), oid) == match r {
            Some(i) => i as int,
            None => nodes@.len() as int,
        },
{
    broadcast use NonZeroOid::lemma_view;

    let mut i: usize = 0;
    while i < nodes.len()
        invariant
            i <= nodes@.len(),
            forall|j: int| 0 <= j < i ==> graph_oids(nodes@)[j] != oid,
        decreases nodes@.len() - i,
    {
        proof {
            nodes@[i as int].object.oid().lemma_view(oid);
        }
        if nodes[i].object.get_oid() == oid {
            proof {
                lemma_position_first(graph_oids(nodes@), oid, i as int);
            }
            return Some(i);
        }
        i += 1;
    }
    proof {
        lemma_position_first(graph_oids(nodes@), oid, i as int);
    }
    None
}

/// The position of an identifier is where it first occurs.
pub proof fn lemma_position_first(oids: Seq<NonZeroOid>, oid: NonZeroOid, i: int)
    requires
        0 <= i <= oids.len(),
        forall|j: int| 0 <= j < i ==> oids[j] != oid,
        i < oids.len() ==> oids[i] == oid,
    ensures
        position(oids, oid) == i,
    decreases oids.len(),
{
    if oids.len() > 0 && i > 0 {
        let rest = oids.drop_first();
        assert forall|j: int| 0 <= j < i - 1 implies rest[j] != oid by {
            assert(rest[j] == oids[j + 1]);
        }
        lemma_position_first(rest, oid, i - 1);
    }
}

impl SmartlogGraph {
    /// Whether the graph is well formed: no two nodes stand for the same
    /// commit.
    pub open spec fn wf(&self) -> bool {
        graph_oids(self.nodes@).no_duplicates()
    }

    /// Tells whether the graph is well formed. The functions that take a
    /// graph ask for one that is.
    pub fn is_well_formed(&self) -> (r: bool)
        ensures
            r == self.wf(),
    {
        let ghost oids = graph_oids(self.nodes@);
        let n = self.nodes.len();
        let mut i: usize = 0;
        while i < n
            invariant
                n == self.nodes@.len(),
                oids == graph_oids(self.nodes@),
                i <= n,
                forall|a: int, b: int| 0 <= a < b < i ==> oids[a] != oids[b],
            decreases n - i,
        {
            let oid = self.nodes[i].object.get_oid();
            assert(oids[i as int] == oid);
            proof {
                lemma_position(oids, oid);
            }
            match find_node(&self.nodes, oid) {
                Some(first) => {
                    if first != i {
                        assert(oids[first as int] == oids[i as int]);
                        return false;
                    }
                    assert forall|a: int| 0 <= a < i implies oids[a] != oids[i as int] by {
                        if oids[a] == oid {
                            lemma_position_least(oids, oid, a);
                        }
                    }
                },
                None => {
                    assert(oids.contains(oid));
                    return false;
                },
            }
            i += 1;
        }
        true
    }

    /// Whether the graph has a node for `oid`.
    pub open spec fn has(&self, oid: NonZeroOid) -> bool {
        graph_oids(self.nodes@).contains(oid)
    }

    /// The node that stands for `oid`, if there is one.
    pub fn get(&self, oid: NonZeroOid) -> (r: Option<&Node>)
        requires
            self.wf(),
        ensures
            r is Some <==> self.has(oid),
            r matches Some(node) ==> node.object.oid() == oid && exists|i: int|
                0 <= i < self.nodes@.len() && self.nodes@[i] == *node,
    {
        match find_node(&self.nodes, oid) {
            Some(i) => {
                assert(graph_oids(self.nodes@)[i as int] == oid);
                Some(&self.nodes[i])
            },
            None => None,
        }
    }

    /// The index of the node that stands for `oid`, if there is one.
    pub fn find(&self, oid: NonZeroOid) -> (r: Option<usize>)
        requires
            self.wf(),
        ensures
            position(graph_oids(self.nodes@), oid) == match r {
                Some(i) => i as int,
                None => self.nodes@.len() as int,
            },
            r matches Some(i) ==> i < self.nodes@.len(),
    {
        find_node(&self.nodes, oid)
    }

    /// The number of nodes.
    pub fn len(&self) -> (r: usize)
        ensures
            r == self.nodes@.len(),
    {
        self.nodes.len()
    }
}

/// Whether the nodes are what the vertices make of their commits, before
/// any link is made.
spec fn is_unlinked_of(nodes: Seq<Node>, true_parents: Seq<Vec<NonZeroOid>>, vertices: Seq<Vertex>) -> bool {
    &&& graph_oids(nodes) == distinct_oids(vertices)
    &&& true_parents.len() == nodes.len()
    &&& forall|i: int|
        0 <= i < nodes.len() ==> {
            &&& node_matches(#[trigger] nodes[i], vertices)
            &&& nodes[i].parent is None
            &&& nodes[i].children@.len() == 0
            &&& true_parents[i]@ == last_vertex(vertices, nodes[i].object.oid())->0.parents@
        }
}

/// Brings one vertex into the graph: a new node, or new contents for the
/// node that stands for the same commit.
fn add_vertex(
    nodes: &mut Vec<Node>,
    true_parents: &mut Vec<Vec<NonZeroOid>>,
    vertex: &Vertex,
    Ghost(done): Ghost<Seq<Vertex>>,
)
    requires
        is_unlinked_of(old(nodes)@, old(true_parents)@, done),
    ensures
        is_unlinked_of(final(nodes)@, final(true_parents)@, done.push(*vertex)),
{
    let ghost next = done.push(*vertex);
    assert(next.drop_last() =~= done);
    assert(next.last() == *vertex);
    let oid = vertex.object.get_oid();
    let node = Node {
        object: vertex.object,
        parent: None,
        children: Vec::new(),
        is_main: vertex.is_public,
        is_obsolete: vertex.is_obsolete,
    };
    let parents = copy_oids(&vertex.parents);
    let ghost old_nodes = nodes@;
    match find_node(nodes, oid) {
        Some(k) => {
            nodes.set(k, node);
            true_parents.set(k, parents);
            proof {
                assert(graph_oids(old_nodes).contains(oid)) by {
                    assert(graph_oids(old_nodes)[k as int] == oid);
                }
                assert(graph_oids(nodes@) =~= graph_oids(old_nodes));
                assert forall|i: int| 0 <= i < nodes@.len() implies {
                    &&& node_matches(#[trigger] nodes@[i], next)
                    &&& nodes@[i].parent is None
                    &&& nodes@[i].children@.len() == 0
                    &&& true_parents@[i]@ == last_vertex(next, nodes@[i].object.oid())->0.parents@
                } by {
                    if i != k {
                        assert(nodes@[i] == old_nodes[i]);
                        assert(node_matches(old_nodes[i], done));
                        lemma_distinct_oids(done, oid);
                        assert(graph_oids(old_nodes)[i] != oid) by {
                            assert(graph_oids(old_nodes)[i] == old_nodes[i].object.oid());
                            assert(graph_oids(old_nodes)[k as int] == oid);
                        }
                    }
                }
            }
        },
        None => {
            nodes.push(node);
            true_parents.push(parents);
            proof {
                assert(graph_oids(nodes@) =~= graph_oids(old_nodes).push(oid));
                assert forall|i: int| 0 <= i < nodes@.len() implies {
                    &&& node_matches(#[trigger] nodes@[i], next)
                    &&& nodes@[i].parent is None
                    &&& nodes@[i].children@.len() == 0
                    &&& true_parents@[i]@ == last_vertex(next, nodes@[i].object.oid())->0.parents@
                } by {
                    if i < old_nodes.len() {
                        assert(nodes@[i] == old_nodes[i]);
                        assert(node_matches(old_nodes[i], done));
                        assert(graph_oids(old_nodes)[i] == old_nodes[i].object.oid());
                        assert(graph_oids(old_nodes).contains(old_nodes[i].object.oid()));
                    }
                }
            }
        },
    }
}


/// The nodes that the heads bring into the graph, without links, and the
/// own parents of each node's commit.
fn collect_nodes(heads: &Vec<ActiveHead>) -> (r: (Vec<Node>, Vec<Vec<NonZeroOid>>))
    ensures
        is_unlinked_of(r.0@, r.1@, all_vertices(heads@)),
{
    let mut nodes: Vec<Node> = Vec::new();
    let mut true_parents: Vec<Vec<NonZeroOid>> = Vec::new();
    let mut h: usize = 0;
    assert(heads@.take(0) =~= Seq::<ActiveHead>::empty());
    assert(graph_oids(nodes@) =~= distinct_oids(all_vertices(heads@.take(0))));
    while h < heads.len()
        invariant
            h <= heads@.len(),
            is_unlinked_of(nodes@, true_parents@, all_vertices(heads@.take(h as int))),
        decreases heads@.len() - h,
    {
        let head = &heads[h];
        let ghost before = all_vertices(heads@.take(h as int));
        proof {
            let next = heads@.take(h + 1);
            assert(next.drop_last() =~= heads@.take(h as int));
            assert(next.last() == *head);
        }
        match &head.path_to_main_branch {
            Some(path) => {
                let mut j: usize = 0;
                assert(before + path@.take(0) =~= before);
                while j < path.len()
                    invariant
                        j <= path@.len(),
                        is_unlinked_of(nodes@, true_parents@, before + path@.take(j as int)),
                    decreases path@.len() - j,
                {
                    add_vertex(
                        &mut nodes,
                        &mut true_parents,
                        &path[j],
                        Ghost(before + path@.take(j as int)),
                    );
                    assert((before + path@.take(j as int)).push(path@[j as int]) =~= before
                        + path@.take(j + 1));
                    j += 1;
                }
                assert(path@.take(j as int) =~= path@);
            },
            None => {
                add_vertex(&mut nodes, &mut true_parents, &head.head, Ghost(before));
                assert(before.push(head.head) =~= before + seq![head.head]);
            },
        }
        h += 1;
    }
    assert(heads@.take(h as int) =~= heads@);
    (nodes, true_parents)
}

/// The index of the first occurrence of `oid`, or the length if there is none.
pub open spec fn position(oids: Seq<NonZeroOid>, oid: NonZeroOid) -> int
    decreases oids.len(),
{
    if oids.len() == 0 {
        0
    } else if oids[0] == oid {
        0
    } else {
        1 + position(oids.drop_first(), oid)
    }
}

/// No occurrence of an identifier stands before its position.
pub proof fn lemma_position_least(oids: Seq<NonZeroOid>, oid: NonZeroOid, a: int)
    requires
        0 <= a < oids.len(),
        oids[a] == oid,
    ensures
        position(oids, oid) <= a,
    decreases oids.len(),
{
    if oids[0] != oid {
        assert(oids.drop_first()[a - 1] == oids[a]);
        lemma_position_least(oids.drop_first(), oid, a - 1);
    }
}

/// The position of an identifier is the index of its first occurrence.
pub proof fn lemma_position(oids: Seq<NonZeroOid>, oid: NonZeroOid)
    ensures
        0 <= position(oids, oid) <= oids.len(),
        position(oids, oid) < oids.len() <==> oids.contains(oid),
        position(oids, oid) < oids.len() ==> oids[position(oids, oid)] == oid,
    decreases oids.len(),
{
    if oids.len() > 0 && oids[0] != oid {
        let rest = oids.drop_first();
        lemma_position(rest, oid);
        if rest.contains(oid) {
            let k = choose|k: int| 0 <= k < rest.len() && rest[k] == oid;
            assert(oids[k + 1] == oid);
        }
        if oids.contains(oid) {
            let k = choose|k: int| 0 <= k < oids.len() && oids[k] == oid;
            assert(rest[k - 1] == oid);
        }
    }
}

/// Where no identifier occurs twice, each stands at its position.
pub proof fn lemma_position_unique(oids: Seq<NonZeroOid>, m: int)
    requires
        oids.no_duplicates(),
        0 <= m < oids.len(),
    ensures
        position(oids, oids[m]) == m,
{
    lemma_position(oids, oids[m]);
}

/// Whether the link from `child` to `parent` has been made when the nodes
/// before `ci` are done and of the node `ci` the first `k` parents.
spec fn linked_upto(
    nodes: Seq<Node>,
    true_parents: Seq<Vec<NonZeroOid>>,
    ci: int,
    k: int,
    child: NonZeroOid,
    parent: NonZeroOid,
) -> bool {
    let m = position(graph_oids(nodes), child);
    m < nodes.len() && !nodes[m].is_main && ((m < ci && true_parents[m]@.contains(parent)) || (m
        == ci && true_parents[m]@.take(k).contains(parent)))
}

/// What the linking keeps of each node: everything but the links.
pub open spec fn same_but_links(a: Node, b: Node) -> bool {
    a.object == b.object && a.is_main == b.is_main && a.is_obsolete == b.is_obsolete
}

spec fn links_upto(
    nodes: Seq<Node>,
    true_parents: Seq<Vec<NonZeroOid>>,
    vertices: Seq<Vertex>,
    ci: int,
    k: int,
) -> bool {
    forall|i: int|
        0 <= i < nodes.len() ==> {
            &&& (#[trigger] nodes[i]).children@.no_duplicates()
            &&& forall|c: NonZeroOid| #[trigger]
                nodes[i].children@.contains(c) <==> linked_upto(
                    nodes,
                    true_parents,
                    ci,
                    k,
                    c,
                    nodes[i].object.oid(),
                )
            &&& nodes[i].parent == if nodes[i].is_main || i > ci {
                None
            } else if i < ci {
                last_known(vertices, true_parents[i]@)
            } else {
                last_known(vertices, true_parents[i]@.take(k))
            }
        }
}

/// Whether the nodes stand for the commits of the vertices, with the own
/// parents of each beside them.
spec fn nodes_of(nodes: Seq<Node>, true_parents: Seq<Vec<NonZeroOid>>, vertices: Seq<Vertex>) -> bool {
    &&& graph_oids(nodes) == distinct_oids(vertices)
    &&& true_parents.len() == nodes.len()
    &&& forall|i: int|
        0 <= i < nodes.len() ==> {
            &&& node_matches(#[trigger] nodes[i], vertices)
            &&& true_parents[i]@ == last_vertex(vertices, nodes[i].object.oid())->0.parents@
        }
}

/// Makes the link from the node `ci` to its parent number `k`, if that
/// parent is in the graph.
fn link_one(
    nodes: &mut Vec<Node>,
    true_parents: &Vec<Vec<NonZeroOid>>,
    ci: usize,
    k: usize,
    Ghost(vertices): Ghost<Seq<Vertex>>,
)
    requires
        nodes_of(old(nodes)@, true_parents@, vertices),
        links_upto(old(nodes)@, true_parents@, vertices, ci as int, k as int),
        ci < old(nodes)@.len(),
        k < true_parents@[ci as int]@.len(),
        !old(nodes)@[ci as int].is_main,
    ensures
        nodes_of(final(nodes)@, true_parents@, vertices),
        links_upto(final(nodes)@, true_parents@, vertices, ci as int, k + 1),
        final(nodes)@.len() == old(nodes)@.len(),
        forall|i: int|
            0 <= i < old(nodes)@.len() ==> same_but_links(#[trigger] final(nodes)@[i], old(nodes)@[i]),
{
    let ghost old_nodes = nodes@;
    let ghost oids = graph_oids(old_nodes);
    let child = nodes[ci].object.get_oid();
    let parent = true_parents[ci][k];
    let ghost parents = true_parents@[ci as int]@;
    proof {
        assert(parents.take(k + 1).drop_last() =~= parents.take(k as int));
        assert(parents.take(k + 1).last() == parent);
        lemma_distinct_oids(vertices, parent);
        lemma_distinct_oids(vertices, child);
        assert(oids[ci as int] == child);
        lemma_position_unique(oids, ci as int);
        assert forall|x: NonZeroOid|
            parents.take(k + 1).contains(x) <==> parents.take(k as int).contains(x) || x
                == parent by {
            let a = parents.take(k + 1);
            let b = parents.take(k as int);
            if a.contains(x) {
                let j = choose|j: int| 0 <= j < a.len() && a[j] == x;
                if j < k {
                    assert(b[j] == x);
                }
            }
            if b.contains(x) {
                let j = choose|j: int| 0 <= j < b.len() && b[j] == x;
                assert(a[j] == x);
            }
            assert(a[k as int] == parent);
        }
    }
    match find_node(nodes, parent) {
        Some(pi) => {
            nodes[ci].parent = Some(parent);
            let present = holds_oid(&nodes[pi].children, child);
            if !present {
                nodes[pi].children.push(child);
            }
            proof {
                assert(graph_oids(nodes@) =~= oids);
                assert forall|i: int| 0 <= i < nodes@.len() implies same_but_links(
                    #[trigger] nodes@[i],
                    old_nodes[i],
                ) by {}
                assert(oids[pi as int] == parent);
                lemma_position_unique(oids, pi as int);
                assert forall|i: int| 0 <= i < nodes@.len() implies {
                    &&& (#[trigger] nodes@[i]).children@.no_duplicates()
                    &&& forall|c: NonZeroOid| #[trigger]
                        nodes@[i].children@.contains(c) <==> linked_upto(
                            nodes@,
                            true_parents@,
                            ci as int,
                            k + 1,
                            c,
                            nodes@[i].object.oid(),
                        )
                    &&& nodes@[i].parent == if nodes@[i].is_main || i > ci {
                        None
                    } else if i < ci {
                        last_known(vertices, true_parents@[i]@)
                    } else {
                        last_known(vertices, true_parents@[i]@.take(k + 1))
                    }
                } by {
                    let before = old_nodes[i].children@;
                    let after = nodes@[i].children@;
                    let me = nodes@[i].object.oid();
                    assert(oids[i] == me);
                    lemma_position_unique(oids, i);
                    assert forall|c: NonZeroOid| #[trigger]
                        after.contains(c) <==> linked_upto(
                            nodes@,
                            true_parents@,
                            ci as int,
                            k + 1,
                            c,
                            me,
                        ) by {
                        lemma_position(oids, c);
                        let m = position(oids, c);
                        if m < nodes@.len() {
                            assert(same_but_links(nodes@[m], old_nodes[m]));
                        }
                        assert(before.contains(c) <==> linked_upto(
                            old_nodes,
                            true_parents@,
                            ci as int,
                            k as int,
                            c,
                            me,
                        ));
                        if i == pi && !present {
                            assert(after =~= before.push(child));
                            if before.contains(c) {
                                let j = choose|j: int| 0 <= j < before.len() && before[j] == c;
                                assert(after[j] == c);
                            }
                            if after.contains(c) && c != child {
                                let j = choose|j: int| 0 <= j < after.len() && after[j] == c;
                                assert(before[j] == c);
                            }
                            assert(after[after.len() - 1] == child);
                        } else {
                            assert(after == before);
                        }
                        if me != parent {
                            assert(i != pi);
                        }
                    }
                    if i == pi && !present {
                        assert(after =~= before.push(child));
                        assert(after.no_duplicates()) by {
                            assert forall|a: int, b: int|
                                0 <= a < after.len() && 0 <= b < after.len() && a
                                    != b implies after[a] != after[b] by {
                                if a < before.len() && b < before.len() {
                                } else if a < before.len() {
                                    assert(before[a] == after[a]);
                                } else if b < before.len() {
                                    assert(before[b] == after[b]);
                                }
                            }
                        }
                    }
                }
            }
        },
        None => {
            proof {
                assert forall|i: int| 0 <= i < nodes@.len() implies {
                    &&& forall|c: NonZeroOid| #[trigger]
                        nodes@[i].children@.contains(c) <==> linked_upto(
                            nodes@,
                            true_parents@,
                            ci as int,
                            k + 1,
                            c,
                            (#[trigger] nodes@[i]).object.oid(),
                        )
                } by {
                    let me = nodes@[i].object.oid();
                    assert(oids[i] == me);
                    assert(oids.contains(me));
                    assert forall|c: NonZeroOid| #[trigger]
                        nodes@[i].children@.contains(c) <==> linked_upto(
                            nodes@,
                            true_parents@,
                            ci as int,
                            k + 1,
                            c,
                            me,
                        ) by {
                        assert(nodes@[i].children@.contains(c) <==> linked_upto(
                            nodes@,
                            true_parents@,
                            ci as int,
                            k as int,
                            c,
                            me,
                        ));
                    }
                }
            }
        },
    }
}


/// Makes the links of all nodes.
fn link_all(nodes: &mut Vec<Node>, true_parents: &Vec<Vec<NonZeroOid>>, Ghost(vertices): Ghost<Seq<Vertex>>)
    requires
        is_unlinked_of(old(nodes)@, true_parents@, vertices),
    ensures
        is_graph_of(final(nodes)@, vertices),
{
    let n = nodes.len();
    let mut ci: usize = 0;
    assert(links_upto(nodes@, true_parents@, vertices, 0, 0)) by {
        assert forall|i: int| 0 <= i < nodes@.len() implies {
            &&& (#[trigger] nodes@[i]).children@.no_duplicates()
            &&& forall|c: NonZeroOid| #[trigger]
                nodes@[i].children@.contains(c) <==> linked_upto(
                    nodes@,
                    true_parents@,
                    0,
                    0,
                    c,
                    nodes@[i].object.oid(),
                )
            &&& nodes@[i].parent == if nodes@[i].is_main || i > 0 {
                None
            } else {
                last_known(vertices, true_parents@[i]@.take(0))
            }
        } by {
            assert(true_parents@[i]@.take(0) =~= Seq::<NonZeroOid>::empty());
            assert forall|c: NonZeroOid| #[trigger]
                nodes@[i].children@.contains(c) <==> linked_upto(
                    nodes@,
                    true_parents@,
                    0,
                    0,
                    c,
                    nodes@[i].object.oid(),
                ) by {
                lemma_position(graph_oids(nodes@), c);
                let m = position(graph_oids(nodes@), c);
                if m == 0 && m < nodes@.len() {
                    assert(true_parents@[m]@.take(0) =~= Seq::<NonZeroOid>::empty());
                }
            }
        }
    }
    while ci < n
        invariant
            ci <= n,
            n == nodes@.len(),
            nodes_of(nodes@, true_parents@, vertices),
            links_upto(nodes@, true_parents@, vertices, ci as int, 0),
        decreases n - ci,
    {
        let count = true_parents[ci].len();
        let mut k: usize = 0;
        if !nodes[ci].is_main {
            while k < count
                invariant
                    k <= count,
                    ci < n,
                    n == nodes@.len(),
                    count == true_parents@[ci as int]@.len(),
                    !nodes@[ci as int].is_main,
                    nodes_of(nodes@, true_parents@, vertices),
                    links_upto(nodes@, true_parents@, vertices, ci as int, k as int),
                decreases count - k,
            {
                link_one(nodes, true_parents, ci, k, Ghost(vertices));
                k += 1;
            }
        }
        proof {
            let full = true_parents@[ci as int]@;
            assert(full.take(full.len() as int) =~= full);
            assert forall|i: int| 0 <= i < nodes@.len() implies {
                &&& (#[trigger] nodes@[i]).children@.no_duplicates()
                &&& forall|c: NonZeroOid| #[trigger]
                    nodes@[i].children@.contains(c) <==> linked_upto(
                        nodes@,
                        true_parents@,
                        ci + 1,
                        0,
                        c,
                        nodes@[i].object.oid(),
                    )
                &&& nodes@[i].parent == if nodes@[i].is_main || i > ci + 1 {
                    None
                } else if i < ci + 1 {
                    last_known(vertices, true_parents@[i]@)
                } else {
                    last_known(vertices, true_parents@[i]@.take(0))
                }
            } by {
                let me = nodes@[i].object.oid();
                assert(true_parents@[i]@.take(0) =~= Seq::<NonZeroOid>::empty());
                assert forall|c: NonZeroOid| #[trigger]
                    nodes@[i].children@.contains(c) <==> linked_upto(
                        nodes@,
                        true_parents@,
                        ci + 1,
                        0,
                        c,
                        me,
                    ) by {
                    assert(nodes@[i].children@.contains(c) <==> linked_upto(
                        nodes@,
                        true_parents@,
                        ci as int,
                        k as int,
                        c,
                        me,
                    ));
                    lemma_position(graph_oids(nodes@), c);
                    let m = position(graph_oids(nodes@), c);
                    if m < nodes@.len() {
                        assert(true_parents@[m]@.take(0) =~= Seq::<NonZeroOid>::empty());
                    }
                }
            }
        }
        ci += 1;
    }
    proof {
        assert forall|i: int| 0 <= i < nodes@.len() implies node_matches(
            #[trigger] nodes@[i],
            vertices,
        ) && node_linked(nodes@[i], vertices) by {
            let me = nodes@[i].object.oid();
            let oids = graph_oids(nodes@);
            assert forall|c: NonZeroOid| #[trigger]
                nodes@[i].children@.contains(c) <==> is_child(vertices, c, me) by {
                assert(nodes@[i].children@.contains(c) <==> linked_upto(
                    nodes@,
                    true_parents@,
                    n as int,
                    0,
                    c,
                    me,
                ));
                lemma_position(oids, c);
                lemma_distinct_oids(vertices, c);
                let m = position(oids, c);
                if m < nodes@.len() {
                    assert(node_matches(nodes@[m], vertices));
                    assert(oids[m] == nodes@[m].object.oid());
                }
            }
        }
    }
}

/// The graph of the commits on the paths of the active heads, with its
/// links; the children of a node stand in no particular order.
///
/// Every commit on a path becomes a node. A node that is not on the main
/// branch gets as parent the last of its commit's own parents that is in
/// the graph, and becomes a child of each of them that is.
pub fn walk_from_active_heads(heads: &Vec<ActiveHead>) -> (graph: SmartlogGraph)
    ensures
        is_graph_of(graph.nodes@, all_vertices(heads@)),
        graph.wf(),
{
    let (mut nodes, true_parents) = collect_nodes(heads);
    link_all(&mut nodes, &true_parents, Ghost(all_vertices(heads@)));
    proof {
        if nodes@.len() > 0 {
            lemma_distinct_oids(all_vertices(heads@), nodes@[0].object.oid());
        } else {
            assert(graph_oids(nodes@) =~= Seq::<NonZeroOid>::empty());
        }
    }
    SmartlogGraph { nodes }
}


/// A commit with the time by which it is sorted.
#[derive(Clone, Copy, Debug)]
pub struct SortKey {
    /// When the commit was made, if that is known.
    pub time: Option<Time>,
    /// The identifier of the commit.
    pub oid: NonZeroOid,
}

impl View for SortKey {
    type V = (Option<Time>, NonZeroOid);

    open spec fn view(&self) -> (Option<Time>, NonZeroOid) {
        (self.time, self.oid)
    }
}

/// Of two different keys exactly one precedes the other, and none precedes
/// itself.
pub proof fn lemma_key_lt_total(a: (Option<Time>, NonZeroOid), b: (Option<Time>, NonZeroOid))
    ensures
        a != b ==> (key_lt(a, b) <==> !key_lt(b, a)),
        a == b ==> !key_lt(a, b),
{
    crate::oid::lemma_bytes_lt_total(a.1@, b.1@);
    a.1.lemma_view(b.1);
}

/// The order of keys is transitive.
pub proof fn lemma_key_lt_transitive(
    a: (Option<Time>, NonZeroOid),
    b: (Option<Time>, NonZeroOid),
    c: (Option<Time>, NonZeroOid),
)
    requires
        key_lt(a, b),
        key_lt(b, c),
    ensures
        key_lt(a, c),
{
    if bytes_lt(a.1@, b.1@) && bytes_lt(b.1@, c.1@) {
        crate::oid::lemma_bytes_lt_transitive(a.1@, b.1@, c.1@);
    }
}

/// Whether the keys ascend: none stands before a smaller one.
pub open spec fn keys_ascend(keys: Seq<SortKey>) -> bool {
    forall|i: int, j: int| 0 <= i < j < keys.len() ==> !key_lt(#[trigger] keys[j]@, #[trigger] keys[i]@)
}

/// Whether `a` comes before `b`.
pub fn key_before(a: &SortKey, b: &SortKey) -> (r: bool)
    ensures
        r == key_lt(a@, b@),
{
    match (a.time, b.time) {
        (None, Some(_)) => true,
        (Some(_), None) => false,
        (Some(x), Some(y)) => if x == y {
            a.oid.is_before(&b.oid)
        } else {
            x.is_before(&y)
        },
        (None, None) => a.oid.is_before(&b.oid),
    }
}

/// The keys in ascending order: the same keys, each as often as it was
/// given. Equal keys are the same key, so nothing tells the order in which
/// they stand.
pub fn sort_keys(keys: &Vec<SortKey>) -> (r: Vec<SortKey>)
    ensures
        keys_ascend(r@),
        r@.to_multiset() == keys@.to_multiset(),
{
    let mut out: Vec<SortKey> = Vec::new();
    let mut n: usize = 0;
    assert(keys@.take(0) =~= out@);
    while n < keys.len()
        invariant
            n <= keys@.len(),
            keys_ascend(out@),
            out@.to_multiset() == keys@.take(n as int).to_multiset(),
        decreases keys@.len() - n,
    {
        let x = keys[n];
        let mut pos: usize = 0;
        while pos < out.len() && !key_before(&x, &out[pos])
            invariant
                pos <= out@.len(),
                forall|i: int| 0 <= i < pos ==> !key_lt(x@, (#[trigger] out@[i])@),
            decreases out@.len() - pos,
        {
            pos += 1;
        }
        let ghost before = out@;
        out.insert(pos, x);
        proof {
            assert(out@ =~= before.insert(pos as int, x));
            assert forall|i: int, j: int| 0 <= i < j < out@.len() implies !key_lt(
                #[trigger] out@[j]@,
                #[trigger] out@[i]@,
            ) by {
                if j < pos {
                    assert(out@[i] == before[i] && out@[j] == before[j]);
                } else if j == pos {
                    assert(out@[i] == before[i]);
                } else if i < pos {
                    assert(out@[i] == before[i] && out@[j] == before[j - 1]);
                } else if i == pos {
                    assert(out@[j] == before[j - 1]);
                    assert(key_lt(x@, before[pos as int]@));
                    if key_lt(before[j - 1]@, x@) {
                        lemma_key_lt_transitive(before[j - 1]@, x@, before[pos as int]@);
                        lemma_key_lt_total(before[pos as int]@, before[pos as int]@);
                        if j - 1 > pos {
                            assert(!key_lt(before[j - 1]@, before[pos as int]@));
                        }
                    }
                } else {
                    assert(out@[i] == before[i - 1] && out@[j] == before[j - 1]);
                }
            }
            vstd::seq_lib::to_multiset_insert(before, pos as int, x);
            assert(keys@.take(n + 1) =~= keys@.take(n as int).push(x));
            vstd::seq_lib::to_multiset_build(keys@.take(n as int), x);
        }
        n += 1;
    }
    assert(keys@.take(n as int) =~= keys@);
    out
}

/// The identifiers of the keys.
pub open spec fn oids_of(keys: Seq<SortKey>) -> Seq<NonZeroOid> {
    Seq::new(keys.len(), |i: int| keys[i].oid)
}

/// Keys that are the same but for their order have identifiers that are
/// the same but for their order.
pub proof fn lemma_oids_permuted(s: Seq<SortKey>, t: Seq<SortKey>)
    requires
        s.to_multiset() == t.to_multiset(),
    ensures
        oids_of(s).to_multiset() == oids_of(t).to_multiset(),
    decreases s.len(),
{
    vstd::seq_lib::to_multiset_len(s);
    vstd::seq_lib::to_multiset_len(t);
    if s.len() == 0 {
        assert(oids_of(s) =~= oids_of(t));
    } else {
        let x = s.last();
        assert(s[s.len() - 1] == x);
        assert(s.contains(x));
        vstd::seq_lib::to_multiset_contains(s, x);
        vstd::seq_lib::to_multiset_contains(t, x);
        let k = choose|k: int| 0 <= k < t.len() && t[k] == x;
        let s1 = s.drop_last();
        let t1 = t.remove(k);
        assert(s.remove(s.len() - 1) =~= s1);
        vstd::seq_lib::to_multiset_remove(s, s.len() - 1);
        vstd::seq_lib::to_multiset_remove(t, k);
        lemma_oids_permuted(s1, t1);
        assert(oids_of(s) =~= oids_of(s1).push(x.oid));
        assert(oids_of(t) =~= oids_of(t1).insert(k, x.oid));
        vstd::seq_lib::to_multiset_build(oids_of(s1), x.oid);
        vstd::seq_lib::to_multiset_insert(oids_of(t1), k, x.oid);
    }
}

/// When the commit `oid` was made, as far as the graph tells: the time of
/// the node that stands for it, if there is one for a commit that the store
/// holds.
pub open spec fn graph_time(nodes: Seq<Node>, oid: NonZeroOid) -> Option<Time> {
    let m = position(graph_oids(nodes), oid);
    if m < nodes.len() {
        nodes[m].object.time()
    } else {
        None
    }
}

/// Whether the identifiers ascend in the order of children, as the graph
/// tells the times: none stands before a smaller one.
pub open spec fn graph_sorted(nodes: Seq<Node>, children: Seq<NonZeroOid>) -> bool {
    forall|i: int, j: int|
        0 <= i < j < children.len() ==> !key_lt(
            (graph_time(nodes, #[trigger] children[j]), children[j]),
            (graph_time(nodes, #[trigger] children[i]), children[i]),
        )
}

/// The children in order.
fn sorted_children(nodes: &Vec<Node>, i: usize) -> (r: Vec<NonZeroOid>)
    requires
        i < nodes@.len(),
    ensures
        graph_sorted(nodes@, r@),
        r@.to_multiset() == nodes@[i as int].children@.to_multiset(),
{
    let children = &nodes[i].children;
    let mut keys: Vec<SortKey> = Vec::new();
    let mut k: usize = 0;
    while k < children.len()
        invariant
            k <= children@.len(),
            keys@.len() == k,
            forall|j: int|
                0 <= j < k ==> (#[trigger] keys@[j])@ == (
                    graph_time(nodes@, children@[j]),
                    children@[j],
                ),
        decreases children@.len() - k,
    {
        let oid = children[k];
        let time = match find_node(nodes, oid) {
            Some(m) => nodes[m].object.get_time(),
            None => None,
        };
        keys.push(SortKey { time, oid });
        k += 1;
    }
    let sorted = sort_keys(&keys);
    let mut out: Vec<NonZeroOid> = Vec::new();
    let mut s: usize = 0;
    while s < sorted.len()
        invariant
            s <= sorted@.len(),
            out@.len() == s,
            forall|j: int| 0 <= j < s ==> out@[j] == (#[trigger] sorted@[j]).oid,
        decreases sorted@.len() - s,
    {
        out.push(sorted[s].oid);
        s += 1;
    }
    proof {
        assert(out@ =~= oids_of(sorted@));
        assert(children@ =~= oids_of(keys@));
        lemma_oids_permuted(sorted@, keys@);
        // Each sorted key is the key of its child.
        assert forall|j: int| 0 <= j < sorted@.len() implies (#[trigger] sorted@[j]).time
            == graph_time(nodes@, sorted@[j].oid) by {
            let x = sorted@[j];
            assert(sorted@.contains(x));
            vstd::seq_lib::to_multiset_contains(sorted@, x);
            vstd::seq_lib::to_multiset_contains(keys@, x);
            let w = choose|w: int| 0 <= w < keys@.len() && keys@[w] == x;
            assert(keys@[w]@ == (graph_time(nodes@, children@[w]), children@[w]));
        }
        assert forall|a: int, b: int| 0 <= a < b < out@.len() implies !key_lt(
            (graph_time(nodes@, #[trigger] out@[b]), out@[b]),
            (graph_time(nodes@, #[trigger] out@[a]), out@[a]),
        ) by {
            assert(!key_lt(sorted@[b]@, sorted@[a]@));
        }
    }
    out
}

/// Sorts the children of every node in a standard order: by the time at
/// which the commit was made, then by identifier; a child that the store no
/// longer holds comes first. Every node keeps the children that it has,
/// each as often as it is named.
pub fn sort_children(graph: &mut SmartlogGraph)
    requires
        old(graph).wf(),
    ensures
        final(graph).wf(),
        final(graph).nodes@.len() == old(graph).nodes@.len(),
        forall|i: int|
            0 <= i < old(graph).nodes@.len() ==> {
                let before = old(graph).nodes@[i];
                let after = #[trigger] final(graph).nodes@[i];
                &&& same_but_links(after, before)
                &&& after.parent == before.parent
                &&& graph_sorted(old(graph).nodes@, after.children@)
                &&& after.children@.to_multiset() == before.children@.to_multiset()
            },
{
    let ghost start = graph.nodes@;
    let mut i: usize = 0;
    while i < graph.nodes.len()
        invariant
            i <= graph.nodes@.len(),
            graph.nodes@.len() == start.len(),
            graph_oids(graph.nodes@) == graph_oids(start),
            forall|m: int|
                0 <= m < start.len() ==> same_but_links(#[trigger] graph.nodes@[m], start[m])
                    && graph.nodes@[m].parent == start[m].parent,
            forall|m: int| i <= m < start.len() ==> (#[trigger] graph.nodes@[m]).children == start[m].children,
            forall|m: int|
                0 <= m < i ==> graph_sorted(start, (#[trigger] graph.nodes@[m]).children@)
                    && graph.nodes@[m].children@.to_multiset() == start[m].children@.to_multiset(),
        decreases graph.nodes@.len() - i,
    {
        let ghost before = graph.nodes@;
        let sorted = sorted_children(&graph.nodes, i);
        proof {
            assert forall|c: NonZeroOid| graph_time(before, c) == graph_time(start, c) by {
                let m = position(graph_oids(before), c);
                lemma_position(graph_oids(before), c);
                if m < before.len() {
                    assert(same_but_links(before[m], start[m]));
                }
            }
        }
        graph.nodes[i].children = sorted;
        proof {
            assert(graph_oids(graph.nodes@) =~= graph_oids(start));
        }
        i += 1;
    }
}

/// Children that ascend and of which none is named twice ascend strictly.
pub proof fn lemma_distinct_children_ascend_strictly(
    nodes: Seq<Node>,
    vertices: Seq<Vertex>,
    children: Seq<NonZeroOid>,
)
    requires
        graph_oids(nodes) == distinct_oids(vertices),
        forall|i: int| 0 <= i < nodes.len() ==> node_matches(#[trigger] nodes[i], vertices),
        graph_sorted(nodes, children),
        children.no_duplicates(),
    ensures
        children_sorted(vertices, children),
{
    assert forall|i: int, j: int| 0 <= i < j < children.len() implies child_lt(
        vertices,
        #[trigger] children[i],
        #[trigger] children[j],
    ) by {
        lemma_graph_time(nodes, vertices, children[i]);
        lemma_graph_time(nodes, vertices, children[j]);
        lemma_key_lt_total(
            (time_of(vertices, children[i]), children[i]),
            (time_of(vertices, children[j]), children[j]),
        );
    }
}

/// The smartlog graph of the active heads: the commits on their paths to
/// the main branch, linked, with the children of every node in order.
pub fn make_smartlog_graph(heads: &Vec<ActiveHead>) -> (graph: SmartlogGraph)
    ensures
        is_smartlog_of(graph.nodes@, all_vertices(heads@)),
        graph.wf(),
{
    let mut graph = walk_from_active_heads(heads);
    let ghost vertices = all_vertices(heads@);
    let ghost unsorted = graph.nodes@;
    sort_children(&mut graph);
    proof {
        assert(graph_oids(graph.nodes@) =~= graph_oids(unsorted));
        assert forall|i: int| 0 <= i < graph.nodes@.len() implies node_matches(
            #[trigger] graph.nodes@[i],
            vertices,
        ) && node_linked(graph.nodes@[i], vertices) && children_sorted(
            vertices,
            graph.nodes@[i].children@,
        ) by {
            let node = graph.nodes@[i];
            let old_children = unsorted[i].children@;
            assert(same_but_links(node, unsorted[i]));
            assert(node_matches(unsorted[i], vertices) && node_linked(unsorted[i], vertices));
            assert(graph_sorted(unsorted, node.children@));
            assert forall|c: NonZeroOid| #[trigger]
                node.children@.contains(c) <==> is_child(vertices, c, node.object.oid()) by {
                vstd::seq_lib::to_multiset_contains(node.children@, c);
                vstd::seq_lib::to_multiset_contains(old_children, c);
                assert(old_children.contains(c) <==> is_child(vertices, c, node.object.oid()));
            }
            old_children.lemma_multiset_has_no_duplicates();
            node.children@.lemma_multiset_has_no_duplicates_conv();
            assert forall|m: int| 0 <= m < unsorted.len() implies node_matches(
                #[trigger] unsorted[m],
                vertices,
            ) by {}
            lemma_distinct_children_ascend_strictly(unsorted, vertices, node.children@);
        }
    }
    graph
}

/// The graph tells the times that the vertices tell.
pub proof fn lemma_graph_time(nodes: Seq<Node>, vertices: Seq<Vertex>, oid: NonZeroOid)
    requires
        graph_oids(nodes) == distinct_oids(vertices),
        forall|i: int| 0 <= i < nodes.len() ==> node_matches(#[trigger] nodes[i], vertices),
    ensures
        graph_time(nodes, oid) == time_of(vertices, oid),
{
    let oids = graph_oids(nodes);
    lemma_position(oids, oid);
    lemma_distinct_oids(vertices, oid);
    let m = position(oids, oid);
    if m < nodes.len() {
        assert(node_matches(nodes[m], vertices));
        assert(oids[m] == nodes[m].object.oid());
    }
}


/// The commits of the nodes that the store holds, as keys, in the order of
/// the nodes.
pub open spec fn commit_keys(nodes: Seq<Node>) -> Seq<SortKey>
    decreases nodes.len(),
{
    if nodes.len() == 0 {
        seq![]
    } else {
        let before = commit_keys(nodes.drop_last());
        match nodes.last().object {
            NodeObject::Commit { oid, time } => before.push(SortKey { time: Some(time), oid }),
            NodeObject::GarbageCollected { .. } => before,
        }
    }
}

impl SmartlogGraph {
    /// The commits of the graph that the store holds, the one made last
    /// first; commits of one time stand in descending order of their
    /// identifiers. Each commit stands as often as nodes stand for it.
    pub fn get_commits(&self) -> (r: Vec<SortKey>)
        requires
            self.wf(),
        ensures
            forall|i: int, j: int|
                0 <= i < j < r@.len() ==> !key_lt(#[trigger] r@[i]@, #[trigger] r@[j]@),
            r@.to_multiset() == commit_keys(self.nodes@).to_multiset(),
    {
        let mut keys: Vec<SortKey> = Vec::new();
        let mut i: usize = 0;
        assert(self.nodes@.take(0) =~= Seq::<Node>::empty());
        while i < self.nodes.len()
            invariant
                i <= self.nodes@.len(),
                keys@ == commit_keys(self.nodes@.take(i as int)),
            decreases self.nodes@.len() - i,
        {
            proof {
                let next = self.nodes@.take(i + 1);
                assert(next.drop_last() =~= self.nodes@.take(i as int));
                assert(next.last() == self.nodes@[i as int]);
            }
            match self.nodes[i].object {
                NodeObject::Commit { oid, time } => {
                    keys.push(SortKey { time: Some(time), oid });
                },
                NodeObject::GarbageCollected { .. } => {},
            }
            i += 1;
        }
        assert(self.nodes@.take(i as int) =~= self.nodes@);
        let sorted = sort_keys(&keys);
        let mut out: Vec<SortKey> = Vec::new();
        let mut k: usize = sorted.len();
        while k > 0
            invariant
                k <= sorted@.len(),
                out@.len() == sorted@.len() - k,
                forall|j: int| 0 <= j < out@.len() ==> out@[j] == sorted@[sorted@.len() - 1 - j],
            decreases k,
        {
            k -= 1;
            out.push(sorted[k]);
        }
        proof {
            assert(out@ =~= sorted@.reverse());
            sorted@.lemma_reverse_to_multiset();
            assert forall|a: int, b: int| 0 <= a < b < out@.len() implies !key_lt(
                #[trigger] out@[a]@,
                #[trigger] out@[b]@,
            ) by {
                assert(!key_lt(
                    sorted@[sorted@.len() - 1 - a]@,
                    sorted@[sorted@.len() - 1 - b]@,
                ));
            }
        }
        out
    }
}

/// A commit that was observed, and whether it is obsolete.
#[derive(Clone, Copy, Debug)]
pub struct ObservedCommit {
    /// The identifier of the commit.
    pub oid: NonZeroOid,
    /// Whether the commit is obsolete.
    pub is_obsolete: bool,
}

/// The observed commits from which the active heads are taken: all of them,
/// or, where obsolete commits are to be left out, those that are not
/// obsolete.
pub open spec fn visible_commits(observed: Seq<ObservedCommit>, remove_obsolete: bool) -> Seq<
    NonZeroOid,
>
    decreases observed.len(),
{
    if observed.len() == 0 {
        seq![]
    } else {
        let before = visible_commits(observed.drop_last(), remove_obsolete);
        if remove_obsolete && observed.last().is_obsolete {
            before
        } else {
            before.push(observed.last().oid)
        }
    }
}

/// The observed commits from which the active heads are taken.
pub fn get_visible_commits(observed: &Vec<ObservedCommit>, remove_obsolete: bool) -> (r: Vec<
    NonZeroOid,
>)
    ensures
        r@ == visible_commits(observed@, remove_obsolete),
{
    let mut out: Vec<NonZeroOid> = Vec::new();
    let mut i: usize = 0;
    while i < observed.len()
        invariant
            i <= observed@.len(),
            out@ == visible_commits(observed@.take(i as int), remove_obsolete),
        decreases observed@.len() - i,
    {
        let commit = observed[i];
        proof {
            let next = observed@.take(i + 1);
            assert(next.drop_last() =~= observed@.take(i as int));
            assert(next.last() == commit);
        }
        if !(remove_obsolete && commit.is_obsolete) {
            out.push(commit.oid);
        }
        i += 1;
    }
    assert(observed@.take(i as int) =~= observed@);
    out
}

} // verus!
