//! What holds of every smartlog graph.

use vstd::prelude::*;
use crate::oid::NonZeroOid;
use crate::smartlog::graph::{
    graph_sorted, graph_time, key_lt, lemma_key_lt_transitive, position,
};
use crate::smartlog::render::{children_output, node_output, shown_children, Scene};
use crate::smartlog::graph::{
    child_lt, children_sorted, graph_oids, is_child, is_graph_of, is_smartlog_of,
    last_known, last_vertex, lemma_distinct_oids, lemma_key_lt_total, time_of, Node, Vertex,
};

verus! {

/// The last known parent is one of the parents and is among the vertices;
/// there is one exactly if one of the parents is among the vertices.
pub proof fn lemma_last_known(vertices: Seq<Vertex>, parents: Seq<NonZeroOid>)
    ensures
        match last_known(vertices, parents) {
            Some(p) => parents.contains(p) && last_vertex(vertices, p) is Some,
            None => forall|i: int|
                0 <= i < parents.len() ==> last_vertex(vertices, #[trigger] parents[i]) is None,
        },
    decreases parents.len(),
{
    if parents.len() > 0 {
        let init = parents.drop_last();
        lemma_last_known(vertices, init);
        if last_vertex(vertices, parents.last()) is Some {
            assert(parents[parents.len() - 1] == parents.last());
        } else {
            match last_known(vertices, init) {
                Some(p) => {
                    let k = choose|k: int| 0 <= k < init.len() && init[k] == p;
                    assert(parents[k] == p);
                },
                None => {
                    assert forall|i: int| 0 <= i < parents.len() implies last_vertex(
                        vertices,
                        #[trigger] parents[i],
                    ) is None by {
                        if i < init.len() {
                            assert(init[i] == parents[i]);
                        }
                    }
                },
            }
        }
    }
}

/// The node that stands for an identifier of the graph.
pub proof fn lemma_node_of(nodes: Seq<Node>, oid: NonZeroOid) -> (j: int)
    requires
        graph_oids(nodes).contains(oid),
    ensures
        0 <= j < nodes.len(),
        nodes[j].object.oid() == oid,
{
    let j = choose|j: int| 0 <= j < graph_oids(nodes).len() && graph_oids(nodes)[j] == oid;
    j
}

/// The parent of a node is a node of the graph, and has the node among its
/// children.
pub proof fn lemma_parent_has_child(nodes: Seq<Node>, vertices: Seq<Vertex>, i: int) -> (j: int)
    requires
        is_graph_of(nodes, vertices),
        0 <= i < nodes.len(),
        nodes[i].parent is Some,
    ensures
        0 <= j < nodes.len(),
        nodes[j].object.oid() == nodes[i].parent->0,
        nodes[j].children@.contains(nodes[i].object.oid()),
{
    let me = nodes[i].object.oid();
    let vertex = last_vertex(vertices, me)->0;
    let parent = nodes[i].parent->0;
    lemma_last_known(vertices, vertex.parents@);
    lemma_distinct_oids(vertices, parent);
    let j = lemma_node_of(nodes, parent);
    assert(is_child(vertices, me, parent));
    j
}

/// A child of a node is a node of the graph that is not on the main branch;
/// and where the node is the only one of the child's own parents in the
/// graph, the node is the child's parent in the graph.
pub proof fn lemma_child_has_parent(
    nodes: Seq<Node>,
    vertices: Seq<Vertex>,
    j: int,
    child: NonZeroOid,
) -> (i: int)
    requires
        is_graph_of(nodes, vertices),
        0 <= j < nodes.len(),
        nodes[j].children@.contains(child),
    ensures
        0 <= i < nodes.len(),
        nodes[i].object.oid() == child,
        !nodes[i].is_main,
        nodes[i].parent is Some,
        (forall|p: NonZeroOid|
            is_child(vertices, child, p) && graph_oids(nodes).contains(p) ==> p
                == nodes[j].object.oid()) ==> nodes[i].parent == Some(nodes[j].object.oid()),
{
    let parent = nodes[j].object.oid();
    assert(is_child(vertices, child, parent));
    lemma_distinct_oids(vertices, child);
    let i = lemma_node_of(nodes, child);
    let vertex = last_vertex(vertices, child)->0;
    lemma_last_known(vertices, vertex.parents@);
    assert(graph_oids(nodes)[j] == parent);
    lemma_distinct_oids(vertices, parent);
    if last_known(vertices, vertex.parents@) is None {
        let k = choose|k: int| 0 <= k < vertex.parents@.len() && vertex.parents@[k] == parent;
        assert(last_vertex(vertices, vertex.parents@[k]) is None);
    }
    let found = last_known(vertices, vertex.parents@)->0;
    lemma_distinct_oids(vertices, found);
    i
}

/// A node is marked as on the main branch exactly if its commit is public,
/// and as obsolete exactly if its commit is.
pub proof fn lemma_flags(nodes: Seq<Node>, vertices: Seq<Vertex>, i: int)
    requires
        is_graph_of(nodes, vertices),
        0 <= i < nodes.len(),
    ensures
        last_vertex(vertices, nodes[i].object.oid()) matches Some(vertex) && nodes[i].is_main
            == vertex.is_public && nodes[i].is_obsolete == vertex.is_obsolete,
{
}

/// No two nodes of a graph stand for the same commit.
pub proof fn lemma_nodes_distinct(nodes: Seq<Node>, vertices: Seq<Vertex>)
    requires
        is_graph_of(nodes, vertices),
    ensures
        graph_oids(nodes).no_duplicates(),
{
    if nodes.len() > 0 {
        lemma_distinct_oids(vertices, nodes[0].object.oid());
    } else {
        assert(graph_oids(nodes) =~= Seq::<NonZeroOid>::empty());
    }
}

/// Two sequences that ascend strictly in the order of children and hold
/// the same identifiers are the same sequence.
pub proof fn lemma_sorted_children_unique(
    vertices: Seq<Vertex>,
    x: Seq<NonZeroOid>,
    y: Seq<NonZeroOid>,
)
    requires
        children_sorted(vertices, x),
        children_sorted(vertices, y),
        forall|c: NonZeroOid| x.contains(c) <==> y.contains(c),
    ensures
        x == y,
    decreases x.len(),
{
    if x.len() == 0 {
        if y.len() > 0 {
            assert(y.contains(y[0]));
        }
        assert(x =~= y);
    } else {
        assert(x.contains(x[0]));
        let k = choose|k: int| 0 <= k < y.len() && y[k] == x[0];
        assert(y.contains(y[0]));
        let m = choose|m: int| 0 <= m < x.len() && x[m] == y[0];
        let kx = (time_of(vertices, x[0]), x[0]);
        let ky = (time_of(vertices, y[0]), y[0]);
        lemma_key_lt_total(kx, ky);
        if x[0] != y[0] {
            assert(child_lt(vertices, y[0], y[k]));
            assert(child_lt(vertices, x[0], x[m]));
        }
        let xs = x.drop_first();
        let ys = y.drop_first();
        assert forall|c: NonZeroOid| xs.contains(c) <==> ys.contains(c) by {
            let kc = (time_of(vertices, c), c);
            lemma_key_lt_total(kc, kc);
            if xs.contains(c) {
                let a = choose|a: int| 0 <= a < xs.len() && xs[a] == c;
                assert(x[a + 1] == c);
                assert(child_lt(vertices, x[0], x[a + 1]));
                assert(x.contains(c));
                let b = choose|b: int| 0 <= b < y.len() && y[b] == c;
                assert(ys[b - 1] == c);
            }
            if ys.contains(c) {
                let a = choose|a: int| 0 <= a < ys.len() && ys[a] == c;
                assert(y[a + 1] == c);
                assert(child_lt(vertices, y[0], y[a + 1]));
                assert(y.contains(c));
                let b = choose|b: int| 0 <= b < x.len() && x[b] == c;
                assert(xs[b - 1] == c);
            }
        }
        assert(children_sorted(vertices, xs)) by {
            assert forall|i: int, j: int| 0 <= i < j < xs.len() implies child_lt(
                vertices,
                #[trigger] xs[i],
                #[trigger] xs[j],
            ) by {
                assert(child_lt(vertices, x[i + 1], x[j + 1]));
            }
        }
        assert(children_sorted(vertices, ys)) by {
            assert forall|i: int, j: int| 0 <= i < j < ys.len() implies child_lt(
                vertices,
                #[trigger] ys[i],
                #[trigger] ys[j],
            ) by {
                assert(child_lt(vertices, y[i + 1], y[j + 1]));
            }
        }
        lemma_sorted_children_unique(vertices, xs, ys);
        assert(x =~= seq![x[0]] + xs);
        assert(y =~= seq![y[0]] + ys);
    }
}

/// Two smartlog graphs of the same vertices have the same nodes in the same
/// order, each with the same parent and the same children in the same order.
pub proof fn lemma_graph_deterministic(a: Seq<Node>, b: Seq<Node>, vertices: Seq<Vertex>, i: int)
    requires
        is_smartlog_of(a, vertices),
        is_smartlog_of(b, vertices),
        0 <= i < a.len(),
    ensures
        a.len() == b.len(),
        a[i].object == b[i].object,
        a[i].is_main == b[i].is_main,
        a[i].is_obsolete == b[i].is_obsolete,
        a[i].parent == b[i].parent,
        a[i].children@ == b[i].children@,
{
    assert(graph_oids(a).len() == graph_oids(b).len());
    assert(graph_oids(a)[i] == graph_oids(b)[i]);
    let me = a[i].object.oid();
    assert forall|c: NonZeroOid| a[i].children@.contains(c) <==> b[i].children@.contains(c) by {
        assert(a[i].children@.contains(c) <==> is_child(vertices, c, me));
        assert(b[i].children@.contains(c) <==> is_child(vertices, c, me));
    }
    lemma_sorted_children_unique(vertices, a[i].children@, b[i].children@);
}


/// Whether the ranks descend along the children that are drawn below a
/// node: each child of a node of the scene that is in the graph and is no
/// root has a smaller rank than the node.
pub open spec fn ranks_descend(scene: Scene, rank: spec_fn(NonZeroOid) -> nat) -> bool {
    forall|oid: NonZeroOid, k: int|
        position(graph_oids(scene.nodes), oid) < scene.nodes.len() && 0 <= k < shown_children(
            scene.nodes,
            scene.nodes[position(graph_oids(scene.nodes), oid)].children@,
        ).len() && !scene.roots.contains(
            #[trigger] shown_children(
                scene.nodes,
                scene.nodes[position(graph_oids(scene.nodes), oid)].children@,
            )[k],
        ) ==> rank(
            shown_children(
                scene.nodes,
                scene.nodes[position(graph_oids(scene.nodes), oid)].children@,
            )[k],
        ) < #[trigger] rank(oid)
}

/// The depth to which a commit is drawn makes no difference once it is
/// greater than the rank of the commit: in a graph without cycles, the
/// limit of the renderer cuts nothing off.
pub proof fn lemma_depth_suffices(
    scene: Scene,
    rank: spec_fn(NonZeroOid) -> nat,
    oid: NonZeroOid,
    last_child_line_char: Option<Seq<char>>,
    fuel: nat,
    more: nat,
)
    requires
        ranks_descend(scene, rank),
        fuel > rank(oid),
        more > rank(oid),
    ensures
        node_output(scene, oid, last_child_line_char, fuel) == node_output(
            scene,
            oid,
            last_child_line_char,
            more,
        ),
    decreases rank(oid), 1nat, 0nat,
{
    let m = position(graph_oids(scene.nodes), oid);
    if m < scene.nodes.len() {
        let children = shown_children(scene.nodes, scene.nodes[m].children@);
        lemma_children_depth(
            scene,
            rank,
            oid,
            children,
            0,
            last_child_line_char,
            (fuel - 1) as nat,
            (more - 1) as nat,
        );
    }
}

proof fn lemma_children_depth(
    scene: Scene,
    rank: spec_fn(NonZeroOid) -> nat,
    parent: NonZeroOid,
    children: Seq<NonZeroOid>,
    idx: int,
    last_child_line_char: Option<Seq<char>>,
    fuel: nat,
    more: nat,
)
    requires
        ranks_descend(scene, rank),
        position(graph_oids(scene.nodes), parent) < scene.nodes.len(),
        children == shown_children(
            scene.nodes,
            scene.nodes[position(graph_oids(scene.nodes), parent)].children@,
        ),
        0 <= idx,
        fuel + 1 > rank(parent),
        more + 1 > rank(parent),
    ensures
        children_output(scene, children, idx, last_child_line_char, fuel) == children_output(
            scene,
            children,
            idx,
            last_child_line_char,
            more,
        ),
    decreases rank(parent), 0nat, children.len() - idx + 1,
{
    if idx < children.len() {
        lemma_children_depth(scene, rank, parent, children, idx + 1, last_child_line_char, fuel, more);
        let child = children[idx];
        if !scene.roots.contains(child) {
            assert(rank(child) < rank(parent));
            lemma_depth_suffices(scene, rank, child, None, fuel, more);
        }
    }
}


/// Sorting fixes the order: two runs of children that ascend and hold the
/// same children as often are the same run. So the children of a node are
/// what sorting makes of them however they stood before, and sorting what is
/// sorted changes nothing.
pub proof fn lemma_sorted_children_determined(
    nodes: Seq<Node>,
    x: Seq<NonZeroOid>,
    y: Seq<NonZeroOid>,
)
    requires
        graph_sorted(nodes, x),
        graph_sorted(nodes, y),
        x.to_multiset() == y.to_multiset(),
    ensures
        x == y,
{
    let key = |c: NonZeroOid| (graph_time(nodes, c), c);
    let leq = |a: NonZeroOid, b: NonZeroOid| !key_lt(key(b), key(a));
    assert(vstd::relations::total_ordering(leq)) by {
        assert forall|a: NonZeroOid| #[trigger] leq(a, a) by {
            lemma_key_lt_total(key(a), key(a));
        }
        assert forall|a: NonZeroOid, b: NonZeroOid| #[trigger] leq(a, b) && #[trigger] leq(b, a) implies a
            == b by {
            lemma_key_lt_total(key(a), key(b));
        }
        assert forall|a: NonZeroOid, b: NonZeroOid, c: NonZeroOid| #[trigger]
            leq(a, b) && #[trigger] leq(b, c) implies leq(a, c) by {
            lemma_key_lt_total(key(a), key(b));
            if key_lt(key(c), key(a)) && key_lt(key(a), key(b)) {
                lemma_key_lt_transitive(key(c), key(a), key(b));
            }
        }
        assert forall|a: NonZeroOid, b: NonZeroOid| #[trigger] leq(a, b) || #[trigger] leq(b, a) by {
            lemma_key_lt_total(key(a), key(b));
        }
    }
    assert(vstd::relations::sorted_by(x, leq)) by {
        assert forall|i: int, j: int| 0 <= i < j < x.len() implies #[trigger] leq(x[i], x[j]) by {}
    }
    assert(vstd::relations::sorted_by(y, leq)) by {
        assert forall|i: int, j: int| 0 <= i < j < y.len() implies #[trigger] leq(y[i], y[j]) by {}
    }
    vstd::seq_lib::lemma_sorted_unique(x, y, leq);
}

} // verus!
