//! The roots of the smartlog graph, in the order in which they are drawn.

use vstd::prelude::*;
use crate::commit::time_lt;
use crate::oid::{bytes_lt, lemma_bytes_lt_total, NonZeroOid};
use crate::smartlog::graph::{
    graph_oids, lemma_position, lemma_position_first, position, Node, NodeObject, SmartlogGraph,
};

verus! {

/// What the commit graph answered when asked for the merge base of two
/// commits.
#[derive(Clone, Copy, Debug, PartialEq, Eq, Hash)]
pub enum MergeBaseResult {
    /// The merge base.
    Found {
        /// The identifier of the merge base.
        oid: NonZeroOid,
    },
    /// The two commits have no common ancestor.
    NotFound,
    /// The question could not be answered.
    Failed,
}

/// The merge base of two commits, as the commit graph gave it.
#[derive(Clone, Copy, Debug)]
pub struct MergeBase {
    /// One of the two commits.
    pub lhs: NonZeroOid,
    /// The other.
    pub rhs: NonZeroOid,
    /// The answer.
    pub result: MergeBaseResult,
}

/// How one root stands to another.
#[derive(Clone, Copy, Debug, PartialEq, Eq, Structural, Hash)]
pub enum RootOrder {
    /// It is drawn first: lower down.
    Less,
    /// The two are the same.
    Equal,
    /// It is drawn later.
    Greater,
}

/// The answer that the table holds for the two commits, in either order:
/// that of the first record for them. Without a record the question counts
/// as not answered.
pub open spec fn merge_base_of(table: Seq<MergeBase>, a: NonZeroOid, b: NonZeroOid) -> MergeBaseResult
    decreases table.len(),
{
    if table.len() == 0 {
        MergeBaseResult::Failed
    } else if (table[0].lhs == a && table[0].rhs == b) || (table[0].lhs == b && table[0].rhs == a) {
        table[0].result
    } else {
        merge_base_of(table.drop_first(), a, b)
    }
}

/// The order of two identifiers.
pub open spec fn oid_order(a: NonZeroOid, b: NonZeroOid) -> RootOrder {
    if a == b {
        RootOrder::Equal
    } else if bytes_lt(a@, b@) {
        RootOrder::Less
    } else {
        RootOrder::Greater
    }
}

/// The order of two roots.
///
/// Where one of the two commits is no longer held by the store, or the
/// merge base could not be had, the identifiers decide. A commit that is
/// the merge base of the two comes first. Otherwise the commit that was
/// made first comes first, and of two commits of one time the one with the
/// smaller identifier.
pub open spec fn root_order(table: Seq<MergeBase>, a: NodeObject, b: NodeObject) -> RootOrder {
    match (a, b) {
        (NodeObject::Commit { oid: x, time: tx }, NodeObject::Commit { oid: y, time: ty }) => {
            match merge_base_of(table, x, y) {
                MergeBaseResult::Failed => oid_order(x, y),
                MergeBaseResult::Found { oid } if oid == x => RootOrder::Less,
                MergeBaseResult::Found { oid } if oid == y => RootOrder::Greater,
                _ => if time_lt(tx, ty) {
                    RootOrder::Less
                } else if time_lt(ty, tx) {
                    RootOrder::Greater
                } else {
                    oid_order(x, y)
                },
            }
        },
        _ => oid_order(a.oid(), b.oid()),
    }
}

/// The table answers the same for two commits in either order.
pub proof fn lemma_merge_base_symmetric(table: Seq<MergeBase>, a: NonZeroOid, b: NonZeroOid)
    ensures
        merge_base_of(table, a, b) == merge_base_of(table, b, a),
    decreases table.len(),
{
    if table.len() > 0 {
        lemma_merge_base_symmetric(table.drop_first(), a, b);
    }
}

/// The order of roots leaves no two different commits unordered: one of
/// them comes first, and then the other comes later.
pub proof fn lemma_root_order_total(table: Seq<MergeBase>, a: NodeObject, b: NodeObject)
    requires
        a.oid() != b.oid(),
    ensures
        root_order(table, a, b) != RootOrder::Equal,
        root_order(table, a, b) == RootOrder::Less <==> root_order(table, b, a)
            == RootOrder::Greater,
        root_order(table, a, b) == RootOrder::Greater <==> root_order(table, b, a)
            == RootOrder::Less,
{
    lemma_merge_base_symmetric(table, a.oid(), b.oid());
    lemma_bytes_lt_total(a.oid()@, b.oid()@);
    a.oid().lemma_view(b.oid());
}

/// The answer that the table holds for the two commits.
fn find_merge_base(table: &Vec<MergeBase>, a: NonZeroOid, b: NonZeroOid) -> (r: MergeBaseResult)
    ensures
        r == merge_base_of(table@, a, b),
{
    let mut i: usize = 0;
    assert(table@.skip(0) =~= table@);
    while i < table.len()
        invariant
            i <= table@.len(),
            merge_base_of(table@, a, b) == merge_base_of(table@.skip(i as int), a, b),
        decreases table@.len() - i,
    {
        let record = table[i];
        proof {
            assert(table@.skip(i as int)[0] == record);
            assert(table@.skip(i as int).drop_first() =~= table@.skip(i + 1));
            record.lhs.lemma_view(a);
            record.lhs.lemma_view(b);
            record.rhs.lemma_view(a);
            record.rhs.lemma_view(b);
        }
        if (record.lhs == a && record.rhs == b) || (record.lhs == b && record.rhs == a) {
            return record.result;
        }
        i += 1;
    }
    MergeBaseResult::Failed
}

/// The order of two identifiers.
fn order_oids(a: NonZeroOid, b: NonZeroOid) -> (r: RootOrder)
    ensures
        r == oid_order(a, b),
{
    proof {
        a.lemma_view(b);
        lemma_bytes_lt_total(a@, b@);
    }
    if a == b {
        RootOrder::Equal
    } else if a.is_before(&b) {
        RootOrder::Less
    } else {
        RootOrder::Greater
    }
}

/// The order of two roots.
pub fn order_roots(table: &Vec<MergeBase>, a: &NodeObject, b: &NodeObject) -> (r: RootOrder)
    ensures
        r == root_order(table@, *a, *b),
{
    match (a, b) {
        (NodeObject::Commit { oid: x, time: tx }, NodeObject::Commit { oid: y, time: ty }) => {
            match find_merge_base(table, *x, *y) {
                MergeBaseResult::Failed => order_oids(*x, *y),
                MergeBaseResult::Found { oid } => {
                    proof {
                        oid.lemma_view(*x);
                        oid.lemma_view(*y);
                    }
                    if oid == *x {
                        RootOrder::Less
                    } else if oid == *y {
                        RootOrder::Greater
                    } else if tx.is_before(ty) {
                        RootOrder::Less
                    } else if ty.is_before(tx) {
                        RootOrder::Greater
                    } else {
                        order_oids(*x, *y)
                    }
                },
                MergeBaseResult::NotFound => {
                    if tx.is_before(ty) {
                        RootOrder::Less
                    } else if ty.is_before(tx) {
                        RootOrder::Greater
                    } else {
                        order_oids(*x, *y)
                    }
                },
            }
        },
        _ => order_oids(a.get_oid(), b.get_oid()),
    }
}

/// Whether `oid` is a root of the graph: the node that stands for it has no
/// parent.
pub open spec fn is_root(nodes: Seq<Node>, oid: NonZeroOid) -> bool {
    let m = position(graph_oids(nodes), oid);
    m < nodes.len() && nodes[m].parent is None
}

/// The commit for which the node of `oid` stands.
pub open spec fn object_of(nodes: Seq<Node>, oid: NonZeroOid) -> NodeObject {
    nodes[position(graph_oids(nodes), oid)].object
}

/// Whether the root `a` comes before the root `b`.
#[verifier::opaque]
pub open spec fn comes_before(table: Seq<MergeBase>, a: NodeObject, b: NodeObject) -> bool {
    root_order(table, a, b) == RootOrder::Less
}

/// Whether each root comes before the one that follows it.
pub open spec fn neighbours_ordered(table: Seq<MergeBase>, roots: Seq<NodeObject>) -> bool {
    forall|i: int|
        0 <= i < roots.len() - 1 ==> comes_before(table, #[trigger] roots[i], roots[i + 1])
}

/// Whether each root comes before every one that follows it.
pub open spec fn roots_ordered(table: Seq<MergeBase>, roots: Seq<NodeObject>) -> bool {
    forall|i: int, j: int|
        0 <= i < j < roots.len() ==> comes_before(table, #[trigger] roots[i], #[trigger] roots[j])
}

/// Whether the order is transitive.
pub open spec fn order_transitive(table: Seq<MergeBase>) -> bool {
    forall|a: NodeObject, b: NodeObject, c: NodeObject|
        #[trigger] comes_before(table, a, b) && #[trigger] comes_before(table, b, c)
            ==> comes_before(table, a, c)
}

/// Where the order is transitive and each root comes before its neighbour,
/// each comes before every one that follows it.
pub proof fn lemma_neighbours_suffice(table: Seq<MergeBase>, roots: Seq<NodeObject>)
    requires
        neighbours_ordered(table, roots),
        order_transitive(table),
    ensures
        roots_ordered(table, roots),
{
    assert forall|i: int, j: int| 0 <= i < j < roots.len() implies comes_before(
        table,
        #[trigger] roots[i],
        #[trigger] roots[j],
    ) by {
        lemma_reach(table, roots, i, j);
    }
}

proof fn lemma_reach(table: Seq<MergeBase>, roots: Seq<NodeObject>, i: int, j: int)
    requires
        neighbours_ordered(table, roots),
        order_transitive(table),
        0 <= i < j < roots.len(),
    ensures
        comes_before(table, roots[i], roots[j]),
    decreases j - i,
{
    if j == i + 1 {
        assert(comes_before(table, roots[i], roots[i + 1]));
    } else {
        lemma_reach(table, roots, i, j - 1);
        assert(comes_before(table, roots[j - 1], roots[j - 1 + 1]));
    }
}

/// Of two roots that stand for different commits, the one that does not
/// come before the other comes after it.
proof fn lemma_comes_after(table: Seq<MergeBase>, a: NodeObject, b: NodeObject)
    requires
        a.oid() != b.oid(),
        !comes_before(table, a, b),
    ensures
        comes_before(table, b, a),
{
    reveal(comes_before);
    lemma_root_order_total(table, a, b);
}

/// The objects of the identifiers.
pub open spec fn objects_of(nodes: Seq<Node>, oids: Seq<NonZeroOid>) -> Seq<NodeObject> {
    Seq::new(oids.len(), |i: int| object_of(nodes, oids[i]))
}

/// Whether no two of the objects stand for the same commit.
pub open spec fn distinct_commits(objects: Seq<NodeObject>) -> bool {
    forall|i: int, j: int|
        0 <= i < objects.len() && 0 <= j < objects.len() && i != j ==> (#[trigger] objects[i]).oid()
            != (#[trigger] objects[j]).oid()
}

/// Where each root comes before every one that follows it, the order of the
/// roots is the only one: two such runs of the same roots are the same run.
pub proof fn lemma_roots_unique(table: Seq<MergeBase>, x: Seq<NodeObject>, y: Seq<NodeObject>)
    requires
        roots_ordered(table, x),
        roots_ordered(table, y),
        distinct_commits(x),
        distinct_commits(y),
        forall|o: NodeObject| x.contains(o) <==> y.contains(o),
    ensures
        x == y,
    decreases x.len(),
{
    if x.len() == 0 {
        if y.len() > 0 {
            assert(y.contains(y[0]));
        }
        assert(x =~= y);
    } else {
        assert(x.contains(x[0]));
        let k = choose|k: int| 0 <= k < y.len() && y[k] == x[0];
        assert(y.contains(y[0]));
        let m = choose|m: int| 0 <= m < x.len() && x[m] == y[0];
        if x[0] != y[0] {
            assert(comes_before(table, y[0], y[k]));
            assert(comes_before(table, x[0], x[m]));
            assert(x[0].oid() != x[m].oid());
            reveal(comes_before);
            lemma_root_order_total(table, x[0], y[0]);
        }
        let xs = x.drop_first();
        let ys = y.drop_first();
        assert forall|o: NodeObject| xs.contains(o) <==> ys.contains(o) by {
            if xs.contains(o) {
                let a = choose|a: int| 0 <= a < xs.len() && xs[a] == o;
                assert(x[a + 1] == o);
                assert(x[0].oid() != x[a + 1].oid());
                assert(x.contains(o));
                let b = choose|b: int| 0 <= b < y.len() && y[b] == o;
                assert(ys[b - 1] == o);
            }
            if ys.contains(o) {
                let a = choose|a: int| 0 <= a < ys.len() && ys[a] == o;
                assert(y[a + 1] == o);
                assert(y[0].oid() != y[a + 1].oid());
                assert(y.contains(o));
                let b = choose|b: int| 0 <= b < x.len() && x[b] == o;
                assert(xs[b - 1] == o);
            }
        }
        assert(roots_ordered(table, xs)) by {
            assert forall|i: int, j: int| 0 <= i < j < xs.len() implies comes_before(
                table,
                #[trigger] xs[i],
                #[trigger] xs[j],
            ) by {
                assert(comes_before(table, x[i + 1], x[j + 1]));
            }
        }
        assert(roots_ordered(table, ys)) by {
            assert forall|i: int, j: int| 0 <= i < j < ys.len() implies comes_before(
                table,
                #[trigger] ys[i],
                #[trigger] ys[j],
            ) by {
                assert(comes_before(table, y[i + 1], y[j + 1]));
            }
        }
        assert(distinct_commits(xs)) by {
            assert forall|i: int, j: int|
                0 <= i < xs.len() && 0 <= j < xs.len() && i != j implies (#[trigger] xs[i]).oid() != (
            #[trigger] xs[j]).oid() by {
                assert(x[i + 1].oid() != x[j + 1].oid());
            }
        }
        assert(distinct_commits(ys)) by {
            assert forall|i: int, j: int|
                0 <= i < ys.len() && 0 <= j < ys.len() && i != j implies (#[trigger] ys[i]).oid() != (
            #[trigger] ys[j]).oid() by {
                assert(y[i + 1].oid() != y[j + 1].oid());
            }
        }
        lemma_roots_unique(table, xs, ys);
        assert(x =~= seq![x[0]] + xs);
        assert(y =~= seq![y[0]] + ys);
    }
}

/// Whether `x` comes before the root at `pos`.
fn before_root(table: &Vec<MergeBase>, sorted: &Vec<NodeObject>, pos: usize, x: &NodeObject) -> (r:
    bool)
    requires
        pos < sorted@.len(),
    ensures
        r == comes_before(table@, sorted@[pos as int], *x),
{
    reveal(comes_before);
    order_roots(table, &sorted[pos], x) == RootOrder::Less
}

/// Puts `x` among the roots, behind those that come before it.
fn insert_root(sorted: &mut Vec<NodeObject>, x: NodeObject, table: &Vec<MergeBase>)
    requires
        neighbours_ordered(table@, old(sorted)@),
        forall|i: int| 0 <= i < old(sorted)@.len() ==> (#[trigger] old(sorted)@[i]).oid() != x.oid(),
    ensures
        neighbours_ordered(table@, final(sorted)@),
        exists|pos: int|
            0 <= pos <= old(sorted)@.len() && final(sorted)@ == #[trigger] old(sorted)@.insert(pos, x),
{
    let ghost before = sorted@;
    let mut pos: usize = 0;
    while pos < sorted.len() && before_root(table, sorted, pos, &x)
        invariant
            pos <= sorted@.len(),
            sorted@ == before,
            forall|i: int| 0 <= i < pos ==> comes_before(table@, #[trigger] sorted@[i], x),
        decreases sorted@.len() - pos,
    {
        pos += 1;
    }
    proof {
        if pos < sorted@.len() {
            lemma_comes_after(table@, sorted@[pos as int], x);
        }
    }
    sorted.insert(pos, x);
    proof {
        assert(sorted@ =~= before.insert(pos as int, x));
        assert forall|i: int| 0 <= i < sorted@.len() - 1 implies comes_before(
            table@,
            #[trigger] sorted@[i],
            sorted@[i + 1],
        ) by {
            if i + 1 < pos {
                assert(sorted@[i] == before[i] && sorted@[i + 1] == before[i + 1]);
                assert(comes_before(table@, before[i], before[i + 1]));
            } else if i + 1 == pos {
                assert(sorted@[i] == before[i]);
            } else if i == pos {
                assert(sorted@[i + 1] == before[pos as int]);
            } else {
                assert(sorted@[i] == before[i - 1] && sorted@[i + 1] == before[i - 1 + 1]);
                assert(comes_before(table@, before[i - 1], before[i - 1 + 1]));
            }
        }
    }
}

/// The roots in order: each comes before its neighbour.
fn sort_roots(roots: &Vec<NodeObject>, table: &Vec<MergeBase>) -> (r: Vec<NodeObject>)
    requires
        distinct_commits(roots@),
    ensures
        neighbours_ordered(table@, r@),
        distinct_commits(r@),
        forall|x: NodeObject| r@.contains(x) <==> roots@.contains(x),
{
    let mut sorted: Vec<NodeObject> = Vec::new();
    let mut n: usize = 0;
    while n < roots.len()
        invariant
            n <= roots@.len(),
            distinct_commits(roots@),
            neighbours_ordered(table@, sorted@),
            distinct_commits(sorted@),
            forall|x: NodeObject| sorted@.contains(x) <==> roots@.take(n as int).contains(x),
        decreases roots@.len() - n,
    {
        let x = roots[n];
        let ghost before = sorted@;
        let ghost done = roots@.take(n as int);
        proof {
            assert forall|i: int| 0 <= i < before.len() implies (#[trigger] before[i]).oid()
                != x.oid() by {
                assert(before.contains(before[i]));
                let j = choose|j: int| 0 <= j < done.len() && done[j] == before[i];
                assert(roots@[j] == before[i]);
            }
        }
        insert_root(&mut sorted, x, table);
        proof {
            let pos = choose|pos: int|
                0 <= pos <= before.len() && sorted@ == #[trigger] before.insert(pos, x);
            let next = roots@.take(n + 1);
            assert(next =~= done.push(x));
            assert forall|y: NodeObject| sorted@.contains(y) <==> next.contains(y) by {
                if sorted@.contains(y) {
                    let i = choose|i: int| 0 <= i < sorted@.len() && sorted@[i] == y;
                    if i < pos {
                        assert(before[i] == y);
                        assert(before.contains(y));
                    } else if i > pos {
                        assert(before[i - 1] == y);
                        assert(before.contains(y));
                    } else {
                        assert(next[n as int] == y);
                    }
                    if before.contains(y) {
                        let j = choose|j: int| 0 <= j < done.len() && done[j] == y;
                        assert(next[j] == y);
                    }
                }
                if next.contains(y) {
                    let j = choose|j: int| 0 <= j < next.len() && next[j] == y;
                    if j < n {
                        assert(done[j] == y);
                        assert(done.contains(y));
                        assert(before.contains(y));
                        let i = choose|i: int| 0 <= i < before.len() && before[i] == y;
                        if i < pos {
                            assert(sorted@[i] == y);
                        } else {
                            assert(sorted@[i + 1] == y);
                        }
                    } else {
                        assert(sorted@[pos] == y);
                    }
                }
            }
            assert forall|i: int, j: int|
                0 <= i < sorted@.len() && 0 <= j < sorted@.len() && i != j implies (
            #[trigger] sorted@[i]).oid() != (#[trigger] sorted@[j]).oid() by {
                let bi = if i < pos { i } else { i - 1 };
                let bj = if j < pos { j } else { j - 1 };
                if i != pos {
                    assert(sorted@[i] == before[bi]);
                }
                if j != pos {
                    assert(sorted@[j] == before[bj]);
                }
            }
        }
        n += 1;
    }
    assert(roots@.take(n as int) =~= roots@);
    sorted
}

/// The commits of the roots of the graph, each once, in the order of the
/// nodes.
fn collect_roots(graph: &SmartlogGraph) -> (r: Vec<NodeObject>)
    ensures
        distinct_commits(r@),
        forall|i: int|
            0 <= i < r@.len() ==> is_root(graph.nodes@, (#[trigger] r@[i]).oid()) && r@[i]
                == object_of(graph.nodes@, r@[i].oid()),
        forall|oid: NonZeroOid|
            is_root(graph.nodes@, oid) ==> r@.contains(object_of(graph.nodes@, oid)),
{
    let ghost nodes = graph.nodes@;
    let ghost oids = graph_oids(nodes);
    let mut out: Vec<NodeObject> = Vec::new();
    let mut n: usize = 0;
    proof {
        assert forall|oid: NonZeroOid| position(oids, oid) >= 0 by {
            lemma_position(oids, oid);
        }
    }
    while n < graph.nodes.len()
        invariant
            n <= graph.nodes@.len(),
            nodes == graph.nodes@,
            oids == graph_oids(nodes),
            forall|i: int|
                0 <= i < out@.len() ==> is_root(nodes, (#[trigger] out@[i]).oid()) && out@[i]
                    == object_of(nodes, out@[i].oid()) && position(oids, out@[i].oid()) < n,
            distinct_commits(out@),
            forall|oid: NonZeroOid|
                is_root(nodes, oid) && position(oids, oid) < n ==> out@.contains(
                    object_of(nodes, oid),
                ),
        decreases graph.nodes@.len() - n,
    {
        let node = &graph.nodes[n];
        let x = node.object;
        let first = x.get_oid();
        let ghost before = out@;
        proof {
            assert(oids[n as int] == first);
        }
        let at = first_index(graph, first, n);
        if at == n && node.parent.is_none() {
            out.push(x);
            proof {
                assert forall|oid: NonZeroOid|
                    is_root(nodes, oid) && position(oids, oid) < n + 1 implies out@.contains(
                    object_of(nodes, oid),
                ) by {
                    if position(oids, oid) < n {
                        let w = choose|w: int| 0 <= w < before.len() && before[w] == object_of(nodes, oid);
                        assert(out@[w] == before[w]);
                    } else {
                        assert(out@[out@.len() - 1] == x);
                    }
                }
                assert forall|i: int, j: int|
                    0 <= i < out@.len() && 0 <= j < out@.len() && i != j implies (
                #[trigger] out@[i]).oid() != (#[trigger] out@[j]).oid() by {
                    if i < before.len() {
                        assert(out@[i] == before[i]);
                    }
                    if j < before.len() {
                        assert(out@[j] == before[j]);
                    }
                }
            }
        } else {
            proof {
                assert forall|oid: NonZeroOid|
                    is_root(nodes, oid) && position(oids, oid) < n + 1 implies out@.contains(
                    object_of(nodes, oid),
                ) by {
                    lemma_position(oids, oid);
                }
            }
        }
        n += 1;
    }
    out
}

/// The position of the identifier of the node `n`.
fn first_index(graph: &SmartlogGraph, oid: NonZeroOid, n: usize) -> (r: usize)
    requires
        n < graph.nodes@.len(),
        graph_oids(graph.nodes@)[n as int] == oid,
    ensures
        r == position(graph_oids(graph.nodes@), oid),
        r <= n,
{
    let ghost oids = graph_oids(graph.nodes@);
    let mut m: usize = 0;
    while m < n
        invariant
            m <= n,
            n < graph.nodes@.len(),
            oids == graph_oids(graph.nodes@),
            oids[n as int] == oid,
            forall|j: int| 0 <= j < m ==> oids[j] != oid,
        decreases n - m,
    {
        proof {
            graph.nodes@[m as int].object.oid().lemma_view(oid);
        }
        if graph.nodes[m].object.get_oid() == oid {
            proof {
                lemma_position_first(oids, oid, m as int);
            }
            return m;
        }
        m += 1;
    }
    proof {
        lemma_position_first(oids, oid, n as int);
    }
    n
}

/// The roots of the graph, each once, in the order of the nodes: the
/// commits whose nodes have no parent.
pub fn get_roots(graph: &SmartlogGraph) -> (r: Vec<NonZeroOid>)
    requires
        graph.wf(),
    ensures
        r@.no_duplicates(),
        forall|oid: NonZeroOid| r@.contains(oid) <==> is_root(graph.nodes@, oid),
{
    let ghost nodes = graph.nodes@;
    let roots = collect_roots(graph);
    let mut out: Vec<NonZeroOid> = Vec::new();
    let mut k: usize = 0;
    while k < roots.len()
        invariant
            k <= roots@.len(),
            out@.len() == k,
            forall|i: int| 0 <= i < k ==> out@[i] == (#[trigger] roots@[i]).oid(),
        decreases roots@.len() - k,
    {
        out.push(roots[k].get_oid());
        k += 1;
    }
    proof {
        assert forall|oid: NonZeroOid| out@.contains(oid) <==> is_root(nodes, oid) by {
            if out@.contains(oid) {
                let i = choose|i: int| 0 <= i < out@.len() && out@[i] == oid;
                assert(roots@[i].oid() == oid);
            }
            if is_root(nodes, oid) {
                assert(roots@.contains(object_of(nodes, oid)));
                let i = choose|i: int| 0 <= i < roots@.len() && roots@[i] == object_of(nodes, oid);
                lemma_position(graph_oids(nodes), oid);
                assert(out@[i] == oid);
            }
        }
        assert forall|i: int, j: int|
            0 <= i < out@.len() && 0 <= j < out@.len() && i != j implies out@[i] != out@[j] by {
            assert(roots@[i].oid() != roots@[j].oid());
        }
    }
    out
}

/// The roots of the graph, the one to be drawn first (lowest) first.
///
/// Each root stands once in the result, and each comes before its
/// neighbour in the order of roots.
pub fn split_commit_graph_by_roots(graph: &SmartlogGraph, merge_bases: &Vec<MergeBase>) -> (r: Vec<
    NonZeroOid,
>)
    requires
        graph.wf(),
    ensures
        r@.no_duplicates(),
        forall|oid: NonZeroOid| r@.contains(oid) <==> is_root(graph.nodes@, oid),
        neighbours_ordered(merge_bases@, objects_of(graph.nodes@, r@)),
{
    let ghost nodes = graph.nodes@;
    let roots = collect_roots(graph);
    let sorted = sort_roots(&roots, merge_bases);
    let mut out: Vec<NonZeroOid> = Vec::new();
    let mut k: usize = 0;
    while k < sorted.len()
        invariant
            k <= sorted@.len(),
            out@.len() == k,
            forall|i: int| 0 <= i < k ==> out@[i] == (#[trigger] sorted@[i]).oid(),
        decreases sorted@.len() - k,
    {
        out.push(sorted[k].get_oid());
        k += 1;
    }
    proof {
        assert forall|i: int| 0 <= i < sorted@.len() implies is_root(
            nodes,
            (#[trigger] sorted@[i]).oid(),
        ) && sorted@[i] == object_of(nodes, sorted@[i].oid()) by {
            assert(sorted@.contains(sorted@[i]));
            let j = choose|j: int| 0 <= j < roots@.len() && roots@[j] == sorted@[i];
        }
        assert(objects_of(nodes, out@) =~= sorted@);
        assert forall|oid: NonZeroOid| out@.contains(oid) <==> is_root(nodes, oid) by {
            if out@.contains(oid) {
                let i = choose|i: int| 0 <= i < out@.len() && out@[i] == oid;
                assert(sorted@[i].oid() == oid);
            }
            if is_root(nodes, oid) {
                assert(roots@.contains(object_of(nodes, oid)));
                assert(sorted@.contains(object_of(nodes, oid)));
                let i = choose|i: int| 0 <= i < sorted@.len() && sorted@[i] == object_of(nodes, oid);
                lemma_position(graph_oids(nodes), oid);
                assert(out@[i] == oid);
            }
        }
        assert forall|i: int, j: int|
            0 <= i < out@.len() && 0 <= j < out@.len() && i != j implies out@[i] != out@[j] by {
            assert(sorted@[i].oid() != sorted@[j].oid());
        }
    }
    out
}

} // verus!
