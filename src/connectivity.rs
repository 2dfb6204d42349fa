use vstd::prelude::*;
use vstd::set_lib::*;

use crate::graph::Edge;

verus! {

/// `e` joins `a` and `b`, in either direction.
pub open spec fn links(e: Edge, a: int, b: int) -> bool {
    (e.u.0 == a && e.v.0 == b) || (e.u.0 == b && e.v.0 == a)
}

/// Some edge of `es` joins `a` and `b`.
pub open spec fn adjacent(es: Seq<Edge>, a: int, b: int) -> bool {
    exists|i: int| 0 <= i < es.len() && links(#[trigger] es[i], a, b)
}

/// `p` is a walk along the edges of `es`: each node is joined to the next one.
pub open spec fn is_walk(es: Seq<Edge>, p: Seq<int>) -> bool {
    &&& p.len() > 0
    &&& forall|i: int| 0 <= i < p.len() - 1 ==> #[trigger] adjacent(es, p[i], p[i + 1])
}

/// A walk along the edges of `es` leads from `a` to `b`.
pub open spec fn connected(es: Seq<Edge>, a: int, b: int) -> bool {
    exists|p: Seq<int>| #[trigger] is_walk(es, p) && p[0] == a && p.last() == b
}

/// The nodes of `[0, n)` that the edges connect to `x`.
pub open spec fn component(es: Seq<Edge>, n: nat, x: int) -> Set<int> {
    Set::new(|y: int| 0 <= y < n && connected(es, x, y))
}

/// The connected components of the graph on nodes `[0, n)` with edges `es`.
pub open spec fn components(es: Seq<Edge>, n: nat) -> Set<Set<int>> {
    set_int_range(0, n as int).map(|x: int| component(es, n, x))
}

/// Each edge joins two nodes that the edges before it leave unconnected: the edges
/// close no cycle.
pub open spec fn is_forest(es: Seq<Edge>) -> bool {
    forall|i: int|
        0 <= i < es.len() ==> !connected(es.take(i), #[trigger] es[i].u.0 as int, es[i].v.0 as int)
}

/// Every edge of `es` is also an edge of `big`.
pub open spec fn edges_within(es: Seq<Edge>, big: Seq<Edge>) -> bool {
    forall|i: int| 0 <= i < es.len() ==> big.contains(#[trigger] es[i])
}

pub proof fn lemma_connected_refl(es: Seq<Edge>, a: int)
    ensures
        connected(es, a, a),
{
    let p = seq![a];
    assert(is_walk(es, p));
}

pub proof fn lemma_connected_edge(es: Seq<Edge>, i: int)
    requires
        0 <= i < es.len(),
    ensures
        connected(es, es[i].u.0 as int, es[i].v.0 as int),
{
    let p = seq![es[i].u.0 as int, es[i].v.0 as int];
    assert(adjacent(es, p[0], p[1]));
    assert(is_walk(es, p));
}

pub proof fn lemma_connected_symm(es: Seq<Edge>, a: int, b: int)
    requires
        connected(es, a, b),
    ensures
        connected(es, b, a),
{
    let p = choose|p: Seq<int>| is_walk(es, p) && p[0] == a && p.last() == b;
    let q = p.reverse();
    assert forall|i: int| 0 <= i < q.len() - 1 implies #[trigger] adjacent(es, q[i], q[i + 1]) by {
        let j = p.len() - 2 - i;
        assert(adjacent(es, p[j], p[j + 1]));
        let k = choose|k: int| 0 <= k < es.len() && links(#[trigger] es[k], p[j], p[j + 1]);
        assert(links(es[k], q[i], q[i + 1]));
    }
    assert(is_walk(es, q));
}

pub proof fn lemma_connected_trans(es: Seq<Edge>, a: int, b: int, c: int)
    requires
        connected(es, a, b),
        connected(es, b, c),
    ensures
        connected(es, a, c),
{
    let p = choose|p: Seq<int>| is_walk(es, p) && p[0] == a && p.last() == b;
    let q = choose|q: Seq<int>| is_walk(es, q) && q[0] == b && q.last() == c;
    let w = p + q.drop_first();
    assert forall|i: int| 0 <= i < w.len() - 1 implies #[trigger] adjacent(es, w[i], w[i + 1]) by {
        if i < p.len() - 1 {
            assert(adjacent(es, p[i], p[i + 1]));
        } else {
            let j = i - (p.len() - 1);
            assert(adjacent(es, q[j], q[j + 1]));
        }
    }
    assert(is_walk(es, w));
}

/// Connections survive when the edges are kept within a larger set.
pub proof fn lemma_connected_within(es: Seq<Edge>, big: Seq<Edge>, a: int, b: int)
    requires
        connected(es, a, b),
        edges_within(es, big),
    ensures
        connected(big, a, b),
{
    let p = choose|p: Seq<int>| is_walk(es, p) && p[0] == a && p.last() == b;
    assert forall|i: int| 0 <= i < p.len() - 1 implies #[trigger] adjacent(big, p[i], p[i + 1]) by {
        assert(adjacent(es, p[i], p[i + 1]));
        let k = choose|k: int| 0 <= k < es.len() && links(#[trigger] es[k], p[i], p[i + 1]);
        assert(big.contains(es[k]));
        let j = choose|j: int| 0 <= j < big.len() && big[j] == es[k];
        assert(links(big[j], p[i], p[i + 1]));
    }
    assert(is_walk(big, p));
}

/// Along a walk whose every edge has ends of one label, the label never changes.
proof fn lemma_walk_same_label(es: Seq<Edge>, label: Seq<int>, p: Seq<int>, k: int)
    requires
        is_walk(es, p),
        0 <= k < p.len(),
        forall|i: int|
            0 <= i < es.len() ==> label[#[trigger] es[i].u.0 as int] == label[es[i].v.0 as int],
    ensures
        label[p[0]] == label[p[k]],
    decreases k,
{
    if k > 0 {
        let i = k - 1;
        lemma_walk_same_label(es, label, p, i);
        assert(adjacent(es, p[i], p[i + 1]));
        let j = choose|j: int| 0 <= j < es.len() && links(#[trigger] es[j], p[i], p[i + 1]);
        assert(label[es[j].u.0 as int] == label[es[j].v.0 as int]);
    }
}

/// A labelling that gives both ends of every edge the same label gives the same label
/// to any two connected nodes.
pub proof fn lemma_connected_same_label(es: Seq<Edge>, label: Seq<int>, a: int, b: int)
    requires
        connected(es, a, b),
        forall|i: int|
            0 <= i < es.len() ==> label[#[trigger] es[i].u.0 as int] == label[es[i].v.0 as int],
    ensures
        label[a] == label[b],
{
    let p = choose|p: Seq<int>| is_walk(es, p) && p[0] == a && p.last() == b;
    lemma_walk_same_label(es, label, p, p.len() - 1);
}

/// Along a walk in `es`, where the ends of every edge of `es` are connected in `big`,
/// the start is connected in `big` to every node of the walk.
proof fn lemma_walk_transfer(es: Seq<Edge>, big: Seq<Edge>, p: Seq<int>, k: int)
    requires
        is_walk(es, p),
        0 <= k < p.len(),
        forall|i: int|
            0 <= i < es.len() ==> connected(big, (#[trigger] es[i]).u.0 as int, es[i].v.0 as int),
    ensures
        connected(big, p[0], p[k]),
    decreases k,
{
    if k == 0 {
        lemma_connected_refl(big, p[0]);
    } else {
        let i = k - 1;
        lemma_walk_transfer(es, big, p, i);
        assert(adjacent(es, p[i], p[i + 1]));
        let j = choose|j: int| 0 <= j < es.len() && links(#[trigger] es[j], p[i], p[i + 1]);
        assert(connected(big, es[j].u.0 as int, es[j].v.0 as int));
        if es[j].u.0 as int != p[i] {
            lemma_connected_symm(big, es[j].u.0 as int, es[j].v.0 as int);
        }
        lemma_connected_trans(big, p[0], p[i], p[k]);
    }
}

/// Connections carry over to a set of edges that connects the ends of every edge.
pub proof fn lemma_connected_transfer(es: Seq<Edge>, big: Seq<Edge>, a: int, b: int)
    requires
        connected(es, a, b),
        forall|i: int|
            0 <= i < es.len() ==> connected(big, (#[trigger] es[i]).u.0 as int, es[i].v.0 as int),
    ensures
        connected(big, a, b),
{
    let p = choose|p: Seq<int>| is_walk(es, p) && p[0] == a && p.last() == b;
    lemma_walk_transfer(es, big, p, p.len() - 1);
}

} // verus!
