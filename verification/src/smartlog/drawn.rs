//! The commits that are drawn, in the order of drawing: the commits whose
//! texts the renderer reads.

use vstd::prelude::*;
use crate::oid::NonZeroOid;
use crate::smartlog::graph::{graph_oids, position, Node, SmartlogGraph};
use crate::smartlog::render::{
    children_output, filter_children, is_among, node_output, roots_output, shown_children, text_of,
    CommitParents, NodeText, Scene,
};

verus! {

/// The commits that are drawn for `oid` and for what hangs on it, down to
/// `fuel` levels: the commit, then those of its children.
pub open spec fn drawn_from(
    nodes: Seq<Node>,
    roots: Seq<NonZeroOid>,
    oid: NonZeroOid,
    fuel: nat,
) -> Seq<NonZeroOid>
    decreases fuel, 0nat,
{
    let m = position(graph_oids(nodes), oid);
    if m >= nodes.len() {
        seq![]
    } else if fuel == 0 {
        seq![oid]
    } else {
        seq![oid] + drawn_children(
            nodes,
            roots,
            shown_children(nodes, nodes[m].children@),
            0,
            (fuel - 1) as nat,
        )
    }
}

/// The commits that are drawn for the children from number `idx` on. A
/// child that is a root is not drawn here.
pub open spec fn drawn_children(
    nodes: Seq<Node>,
    roots: Seq<NonZeroOid>,
    children: Seq<NonZeroOid>,
    idx: int,
    fuel: nat,
) -> Seq<NonZeroOid>
    decreases fuel, children.len() - idx + 1,
{
    if idx < 0 || idx >= children.len() {
        seq![]
    } else {
        let rest = drawn_children(nodes, roots, children, idx + 1, fuel);
        if roots.contains(children[idx]) {
            rest
        } else {
            drawn_from(nodes, roots, children[idx], fuel) + rest
        }
    }
}

/// The commits that are drawn for the roots from number `idx` on.
pub open spec fn drawn_roots(nodes: Seq<Node>, roots: Seq<NonZeroOid>, idx: int, fuel: nat) -> Seq<
    NonZeroOid,
>
    decreases roots.len() - idx,
{
    if idx < 0 || idx >= roots.len() {
        seq![]
    } else {
        drawn_from(nodes, roots, roots[idx], fuel) + drawn_roots(nodes, roots, idx + 1, fuel)
    }
}

/// Adds to `out` the commits that are drawn for `current_oid`.
fn add_drawn(
    graph: &SmartlogGraph,
    root_oids: &Vec<NonZeroOid>,
    current_oid: NonZeroOid,
    fuel: usize,
    out: &mut Vec<NonZeroOid>,
)
    requires
        graph.wf(),
    ensures
        final(out)@ == old(out)@ + drawn_from(graph.nodes@, root_oids@, current_oid, fuel as nat),
    decreases fuel,
{
    let ghost start = out@;
    let ghost nodes = graph.nodes@;
    let current_node = match graph.find(current_oid) {
        Some(m) => &graph.nodes[m],
        None => {
            assert(out@ =~= start + Seq::<NonZeroOid>::empty());
            return ;
        },
    };
    out.push(current_oid);
    if fuel == 0 {
        assert(out@ =~= start + seq![current_oid]);
        return ;
    }
    let children = filter_children(graph, &current_node.children);
    let mut idx: usize = 0;
    assert(out@ + drawn_children(nodes, root_oids@, children@, 0, (fuel - 1) as nat) =~= start
        + (seq![current_oid] + drawn_children(nodes, root_oids@, children@, 0, (fuel - 1) as nat)));
    while idx < children.len()
        invariant
            idx <= children@.len(),
            fuel > 0,
            graph.wf(),
            nodes == graph.nodes@,
            out@ + drawn_children(nodes, root_oids@, children@, idx as int, (fuel - 1) as nat)
                == start + (seq![current_oid] + drawn_children(
                nodes,
                root_oids@,
                children@,
                0,
                (fuel - 1) as nat,
            )),
        decreases children@.len() - idx,
    {
        let child_oid = children[idx];
        let ghost before = out@;
        let ghost rest = drawn_children(nodes, root_oids@, children@, idx + 1, (fuel - 1) as nat);
        if !is_among(root_oids, child_oid) {
            add_drawn(graph, root_oids, child_oid, fuel - 1, out);
            assert(out@ + rest =~= before + (drawn_from(
                nodes,
                root_oids@,
                child_oid,
                (fuel - 1) as nat,
            ) + rest));
        }
        idx += 1;
    }
    assert(out@ + Seq::<NonZeroOid>::empty() =~= out@);
}

/// The commits that are drawn when the graph is drawn from the given
/// roots, in the order of drawing; a commit that is drawn more than once
/// stands as often. These are the commits whose texts the lines hold: see
/// [`lemma_texts_of_drawn_commits_decide`].
pub fn get_drawn_commits(graph: &SmartlogGraph, root_oids: &Vec<NonZeroOid>) -> (r: Vec<NonZeroOid>)
    requires
        graph.wf(),
    ensures
        r@ == drawn_roots(graph.nodes@, root_oids@, 0, graph.nodes@.len()),
{
    let ghost nodes = graph.nodes@;
    let fuel = graph.nodes.len();
    let mut out: Vec<NonZeroOid> = Vec::new();
    let mut idx: usize = 0;
    assert(out@ + drawn_roots(nodes, root_oids@, 0, fuel as nat) =~= drawn_roots(
        nodes,
        root_oids@,
        0,
        fuel as nat,
    ));
    while idx < root_oids.len()
        invariant
            idx <= root_oids@.len(),
            graph.wf(),
            nodes == graph.nodes@,
            fuel == nodes.len(),
            out@ + drawn_roots(nodes, root_oids@, idx as int, fuel as nat) == drawn_roots(
                nodes,
                root_oids@,
                0,
                fuel as nat,
            ),
        decreases root_oids@.len() - idx,
    {
        let ghost before = out@;
        let ghost rest = drawn_roots(nodes, root_oids@, idx + 1, fuel as nat);
        add_drawn(graph, root_oids, root_oids[idx], fuel, &mut out);
        assert(out@ + rest =~= before + (drawn_from(nodes, root_oids@, root_oids@[idx as int], fuel as nat)
            + rest));
        idx += 1;
    }
    assert(out@ + Seq::<NonZeroOid>::empty() =~= out@);
    out
}

/// Whether two runs of texts give the same text for each of the commits.
pub open spec fn agree_on(first: Seq<NodeText>, second: Seq<NodeText>, oids: Seq<NonZeroOid>) -> bool {
    forall|i: int| 0 <= i < oids.len() ==> text_of(first, #[trigger] oids[i]) == text_of(second, oids[i])
}

/// Whether two scenes are the same but for their texts.
pub open spec fn same_but_texts(first: Scene, second: Scene) -> bool {
    &&& first.glyphs == second.glyphs
    &&& first.nodes == second.nodes
    &&& first.roots == second.roots
    &&& first.head == second.head
}

/// Texts that agree on all of some commits agree on the first and on the
/// last of them.
proof fn lemma_agree_on_parts(
    first: Seq<NodeText>,
    second: Seq<NodeText>,
    a: Seq<NonZeroOid>,
    b: Seq<NonZeroOid>,
)
    requires
        agree_on(first, second, a + b),
    ensures
        agree_on(first, second, a),
        agree_on(first, second, b),
{
    assert forall|i: int| 0 <= i < a.len() implies text_of(first, #[trigger] a[i]) == text_of(
        second,
        a[i],
    ) by {
        assert((a + b)[i] == a[i]);
    }
    assert forall|i: int| 0 <= i < b.len() implies text_of(first, #[trigger] b[i]) == text_of(
        second,
        b[i],
    ) by {
        assert((a + b)[a.len() + i] == b[i]);
    }
}

/// The lines of a commit hold the texts of the commits that are drawn for
/// it, and of no other.
proof fn lemma_node_texts(first: Scene, second: Scene, oid: NonZeroOid, last: Option<Seq<char>>, fuel: nat)
    requires
        same_but_texts(first, second),
        agree_on(first.texts, second.texts, drawn_from(first.nodes, first.roots, oid, fuel)),
    ensures
        node_output(first, oid, last, fuel) == node_output(second, oid, last, fuel),
    decreases fuel, 0nat,
{
    let m = position(graph_oids(first.nodes), oid);
    if m < first.nodes.len() {
        let drawn = drawn_from(first.nodes, first.roots, oid, fuel);
        assert(drawn[0] == oid);
        if fuel > 0 {
            let children = shown_children(first.nodes, first.nodes[m].children@);
            lemma_agree_on_parts(
                first.texts,
                second.texts,
                seq![oid],
                drawn_children(first.nodes, first.roots, children, 0, (fuel - 1) as nat),
            );
            lemma_children_texts(first, second, children, 0, last, (fuel - 1) as nat);
        }
    }
}

/// The lines of the children hold the texts of the commits that are drawn
/// for them, and of no other.
proof fn lemma_children_texts(
    first: Scene,
    second: Scene,
    children: Seq<NonZeroOid>,
    idx: int,
    last: Option<Seq<char>>,
    fuel: nat,
)
    requires
        same_but_texts(first, second),
        agree_on(
            first.texts,
            second.texts,
            drawn_children(first.nodes, first.roots, children, idx, fuel),
        ),
    ensures
        children_output(first, children, idx, last, fuel) == children_output(
            second,
            children,
            idx,
            last,
            fuel,
        ),
    decreases fuel, children.len() - idx + 1,
{
    if 0 <= idx < children.len() {
        let rest = drawn_children(first.nodes, first.roots, children, idx + 1, fuel);
        if first.roots.contains(children[idx]) {
            lemma_children_texts(first, second, children, idx + 1, last, fuel);
        } else {
            lemma_agree_on_parts(
                first.texts,
                second.texts,
                drawn_from(first.nodes, first.roots, children[idx], fuel),
                rest,
            );
            lemma_node_texts(first, second, children[idx], None, fuel);
            lemma_children_texts(first, second, children, idx + 1, last, fuel);
        }
    }
}

/// The lines of the roots hold the texts of the commits that are drawn for
/// them, and of no other.
proof fn lemma_roots_texts(
    first: Scene,
    second: Scene,
    parents: Seq<CommitParents>,
    idx: int,
    fuel: nat,
)
    requires
        same_but_texts(first, second),
        agree_on(first.texts, second.texts, drawn_roots(first.nodes, first.roots, idx, fuel)),
    ensures
        roots_output(first, parents, idx, fuel) == roots_output(second, parents, idx, fuel),
    decreases first.roots.len() - idx,
{
    if 0 <= idx < first.roots.len() {
        lemma_agree_on_parts(
            first.texts,
            second.texts,
            drawn_from(first.nodes, first.roots, first.roots[idx], fuel),
            drawn_roots(first.nodes, first.roots, idx + 1, fuel),
        );
        lemma_node_texts(
            first,
            second,
            first.roots[idx],
            crate::smartlog::render::root_line_char(first, parents, idx),
            fuel,
        );
        lemma_roots_texts(first, second, parents, idx + 1, fuel);
    }
}

/// The lines of a graph hold the texts of the commits that are drawn, and
/// of no other: scenes that differ only in their texts, and give the same
/// text for each commit that is drawn, give the same lines.
pub proof fn lemma_texts_of_drawn_commits_decide(
    first: Scene,
    second: Scene,
    parents: Seq<CommitParents>,
    fuel: nat,
)
    requires
        same_but_texts(first, second),
        agree_on(first.texts, second.texts, drawn_roots(first.nodes, first.roots, 0, fuel)),
    ensures
        roots_output(first, parents, 0, fuel) == roots_output(second, parents, 0, fuel),
{
    lemma_roots_texts(first, second, parents, 0, fuel);
}

} // verus!
