use vstd::prelude::*;

use crate::connectivity::{
    links,
    components, component, connected, edges_within, is_forest, lemma_connected_edge, lemma_connected_refl,
    lemma_connected_same_label, lemma_connected_symm, lemma_connected_trans, lemma_connected_transfer,
    lemma_connected_within,
};
use crate::union_find::{is_partition, merged, roots, UnionFind};

verus! {

/// A node identifier: an index into the dense id space `[0, num_nodes)`.
#[derive(Clone, Copy, Debug, PartialEq, Eq, Structural, Hash)]
pub struct Node(pub usize);

/// An undirected weighted edge between `u` and `v`.
#[derive(Clone, Copy, Debug)]
pub struct Edge {
    pub u: Node,
    pub v: Node,
    pub weight: i64,
}

/// Edge `i` of `es` joins two nodes that the edges before it do not connect.
pub open spec fn kept(es: Seq<Edge>, i: int) -> bool {
    !connected(es.take(i), es[i].u.0 as int, es[i].v.0 as int)
}

/// The edges that Kruskal's scan keeps, in order: each edge whose ends the edges
/// before it leave unconnected.
pub open spec fn greedy_forest(es: Seq<Edge>) -> Seq<Edge>
    decreases es.len(),
{
    if es.len() == 0 {
        Seq::empty()
    } else {
        let prev = greedy_forest(es.drop_last());
        if kept(es, es.len() - 1) {
            prev.push(es.last())
        } else {
            prev
        }
    }
}

/// The sum of the weights of `es`.
pub open spec fn sum_weights(es: Seq<Edge>) -> int
    decreases es.len(),
{
    if es.len() == 0 {
        0
    } else {
        sum_weights(es.drop_last()) + es.last().weight
    }
}

/// The edges are in ascending order of weight.
pub open spec fn sorted_by_weight(es: Seq<Edge>) -> bool {
    forall|i: int, j: int| 0 <= i < j < es.len() ==> (#[trigger] es[i]).weight <= (#[trigger] es[j]).weight
}

/// Every endpoint lies in `[0, n)`.
pub open spec fn endpoints_below(es: Seq<Edge>, n: nat) -> bool {
    forall|i: int| 0 <= i < es.len() ==> (#[trigger] es[i]).u.0 < n && es[i].v.0 < n
}

/// The total weight of Kruskal's forest over `es` fits in an `i64`.
pub open spec fn total_fits(es: Seq<Edge>) -> bool {
    i64::MIN <= sum_weights(greedy_forest(es)) <= i64::MAX
}

/// Scanning more edges only appends to the forest.
proof fn lemma_greedy_prefix(es: Seq<Edge>)
    requires
        es.len() > 0,
    ensures
        greedy_forest(es.drop_last()).is_prefix_of(greedy_forest(es)),
        edges_within(greedy_forest(es.drop_last()), greedy_forest(es)),
{
    let prev = greedy_forest(es.drop_last());
    let cur = greedy_forest(es);
    assert forall|i: int| 0 <= i < prev.len() implies cur.contains(#[trigger] prev[i]) by {
        assert(cur[i] == prev[i]);
    }
}

/// The forest takes its edges from the scanned ones.
pub proof fn lemma_greedy_within(es: Seq<Edge>)
    ensures
        edges_within(greedy_forest(es), es),
    decreases es.len(),
{
    if es.len() > 0 {
        let prev = es.drop_last();
        lemma_greedy_within(prev);
        let f = greedy_forest(es);
        assert forall|i: int| 0 <= i < f.len() implies es.contains(#[trigger] f[i]) by {
            if i < greedy_forest(prev).len() {
                assert(prev.contains(f[i]));
                let j = choose|j: int| 0 <= j < prev.len() && prev[j] == f[i];
                assert(es[j] == prev[j]);
            } else {
                assert(es[es.len() - 1] == f[i]);
            }
        }
    }
}

/// The forest connects exactly the nodes that the scanned edges connect.
pub proof fn lemma_greedy_connected(es: Seq<Edge>, a: int, b: int)
    ensures
        connected(greedy_forest(es), a, b) <==> connected(es, a, b),
    decreases es.len(),
{
    let f = greedy_forest(es);
    lemma_greedy_within(es);
    if es.len() == 0 {
        assert(f =~= es);
    }
    if connected(f, a, b) {
        lemma_connected_within(f, es, a, b);
    }
    if es.len() > 0 && connected(es, a, b) {
        let prev = es.drop_last();
        lemma_greedy_prefix(es);
        assert forall|i: int| 0 <= i < es.len() implies connected(
            f,
            (#[trigger] es[i]).u.0 as int,
            es[i].v.0 as int,
        ) by {
            let (x, y) = (es[i].u.0 as int, es[i].v.0 as int);
            if i < es.len() - 1 {
                assert(prev[i] == es[i]);
                lemma_connected_edge(prev, i);
                lemma_greedy_connected(prev, x, y);
                lemma_connected_within(greedy_forest(prev), f, x, y);
            } else if kept(es, i) {
                assert(f[f.len() - 1] == es[i]);
                lemma_connected_edge(f, f.len() - 1);
            } else {
                assert(es.take(i) =~= prev);
                lemma_greedy_connected(prev, x, y);
            }
        }
        lemma_connected_transfer(es, f, a, b);
    }
}

/// The forest closes no cycle.
pub proof fn lemma_greedy_is_forest(es: Seq<Edge>)
    ensures
        is_forest(greedy_forest(es)),
    decreases es.len(),
{
    if es.len() > 0 {
        let prev = es.drop_last();
        lemma_greedy_is_forest(prev);
        let f = greedy_forest(es);
        let pf = greedy_forest(prev);
        assert forall|i: int| 0 <= i < f.len() implies !connected(
            f.take(i),
            #[trigger] f[i].u.0 as int,
            f[i].v.0 as int,
        ) by {
            if i < pf.len() {
                assert(f.take(i) =~= pf.take(i));
                assert(f[i] == pf[i]);
            } else {
                assert(f.take(i) =~= pf);
                assert(es.take(es.len() - 1) =~= prev);
                lemma_greedy_connected(prev, f[i].u.0 as int, f[i].v.0 as int);
            }
        }
    }
}

/// Once a prefix of the edges connects every node, the rest add nothing to the forest.
proof fn lemma_greedy_saturated(es: Seq<Edge>, m: int, n: nat)
    requires
        0 <= m <= es.len(),
        endpoints_below(es, n),
        forall|a: int, b: int| 0 <= a < n && 0 <= b < n ==> #[trigger] connected(es.take(m), a, b),
    ensures
        greedy_forest(es) == greedy_forest(es.take(m)),
    decreases es.len(),
{
    if es.len() == m {
        assert(es.take(m) =~= es);
    } else {
        let prev = es.drop_last();
        assert(prev.take(m) =~= es.take(m));
        lemma_greedy_saturated(prev, m, n);
        let k = es.len() - 1;
        let (x, y) = (es[k].u.0 as int, es[k].v.0 as int);
        assert(connected(es.take(m), x, y));
        assert(edges_within(es.take(m), es.take(k))) by {
            assert forall|i: int| 0 <= i < m implies es.take(k).contains(#[trigger] es.take(m)[i]) by {
                assert(es.take(k)[i] == es.take(m)[i]);
            }
        }
        lemma_connected_within(es.take(m), es.take(k), x, y);
    }
}

/// When a partition groups exactly the connected nodes, it has one set per component.
proof fn lemma_components_count(es: Seq<Edge>, rep: Seq<int>)
    requires
        is_partition(rep),
        forall|a: int, b: int|
            0 <= a < rep.len() && 0 <= b < rep.len() ==> (rep[a] == rep[b] <==> #[trigger] connected(es, a, b)),
    ensures
        components(es, rep.len()).len() == roots(rep).len(),
{
    let n = rep.len();
    let f = |x: int| component(es, n, x);
    crate::union_find::lemma_roots_finite(rep);
    assert forall|x: int| 0 <= x < n implies #[trigger] component(es, n, x) == component(es, n, rep[x]) by {
        assert forall|y: int| 0 <= y < n implies (connected(es, x, y) <==> connected(es, rep[x], y)) by {
            assert(rep[x] == rep[rep[x]]);
            assert(connected(es, x, y) <==> rep[x] == rep[y]);
            assert(connected(es, rep[x], y) <==> rep[rep[x]] == rep[y]);
        }
        assert(component(es, n, x) =~= component(es, n, rep[x]));
    }
    assert(roots(rep).map(f) =~= components(es, n)) by {
        assert forall|c: Set<int>| components(es, n).contains(c) implies roots(rep).map(f).contains(c) by {
            let x = choose|x: int| vstd::set_lib::set_int_range(0, n as int).contains(x) && f(x) == c;
            assert(roots(rep).contains(rep[x]));
            assert(f(rep[x]) == c);
        }
        assert forall|c: Set<int>| roots(rep).map(f).contains(c) implies components(es, n).contains(c) by {
            let x = choose|x: int| roots(rep).contains(x) && f(x) == c;
            assert(vstd::set_lib::set_int_range(0, n as int).contains(x));
        }
    }
    assert(vstd::relations::injective_on(f, roots(rep))) by {
        assert forall|x: int, y: int| roots(rep).contains(x) && roots(rep).contains(y) && #[trigger] f(x) == #[trigger] f(y) implies x == y by {
            lemma_connected_refl(es, x);
            assert(component(es, n, x).contains(x));
            assert(component(es, n, y).contains(x));
        }
    }
    vstd::set_lib::lemma_map_size(roots(rep), components(es, n), f);
}

/// One step of the scan: when the partition groups exactly the nodes that `prev`
/// connects, uniting the ends of `e` groups exactly the nodes that `prev` and `e` connect.
pub proof fn lemma_scan_step(prev: Seq<Edge>, e: Edge, before: Seq<int>, after: Seq<int>)
    requires
        is_partition(before),
        endpoints_below(prev.push(e), before.len()),
        forall|a: int, b: int|
            0 <= a < before.len() && 0 <= b < before.len() ==> (before[a] == before[b]
                <==> #[trigger] connected(prev, a, b)),
        before[e.u.0 as int] == before[e.v.0 as int] ==> after == before,
        before[e.u.0 as int] != before[e.v.0 as int] ==> (after == merged(
            before,
            before[e.u.0 as int],
            before[e.v.0 as int],
        ) || after == merged(before, before[e.v.0 as int], before[e.u.0 as int])),
    ensures
        is_partition(after),
        after.len() == before.len(),
        forall|a: int, b: int|
            0 <= a < before.len() && 0 <= b < before.len() ==> (after[a] == after[b]
                <==> #[trigger] connected(prev.push(e), a, b)),
{
    let n = before.len();
    let all = prev.push(e);
    let (x, y) = (e.u.0 as int, e.v.0 as int);
    assert(all[prev.len() as int] == e);
    assert(edges_within(prev, all)) by {
        assert forall|i: int| 0 <= i < prev.len() implies all.contains(#[trigger] prev[i]) by {
            assert(all[i] == prev[i]);
        }
    }
    assert forall|i: int| 0 <= i < prev.len() implies before[(#[trigger] prev[i]).u.0 as int]
        == before[prev[i].v.0 as int] by {
        assert(all[i] == prev[i]);
        lemma_connected_edge(prev, i);
    }
    if before[x] != before[y] {
        let (kx, ky) = (before[x], before[y]);
        assert(roots(before).contains(kx));
        assert(roots(before).contains(ky));
        crate::union_find::lemma_merged_roots(before, kx, ky);
        crate::union_find::lemma_merged_roots(before, ky, kx);
    }
    assert forall|i: int| 0 <= i < all.len() implies after[(#[trigger] all[i]).u.0 as int]
        == after[all[i].v.0 as int] by {
        if i < prev.len() {
            assert(all[i] == prev[i]);
        }
    }
    lemma_connected_edge(all, prev.len() as int);
    assert forall|a: int, b: int| 0 <= a < n && 0 <= b < n implies (after[a] == after[b]
        <==> #[trigger] connected(all, a, b)) by {
        if connected(all, a, b) {
            lemma_connected_same_label(all, after, a, b);
        }
        if after[a] == after[b] {
            if before[a] == before[b] {
                lemma_connected_within(prev, all, a, b);
            } else {
                // a and b lie on the two sides of the new edge
                if before[a] == before[x] {
                    assert(before[b] == before[y]);
                    lemma_connected_within(prev, all, a, x);
                    lemma_connected_within(prev, all, y, b);
                    lemma_connected_trans(all, a, x, y);
                    lemma_connected_trans(all, a, y, b);
                } else {
                    assert(before[a] == before[y] && before[b] == before[x]);
                    lemma_connected_within(prev, all, a, y);
                    lemma_connected_within(prev, all, x, b);
                    lemma_connected_symm(all, x, y);
                    lemma_connected_trans(all, a, y, x);
                    lemma_connected_trans(all, a, x, b);
                }
            }
        }
    }
}

/// Two orderings of the same edges connect the same nodes and have the same components.
pub proof fn lemma_reordered_edges(es: Seq<Edge>, other: Seq<Edge>, n: nat)
    requires
        es.to_multiset() == other.to_multiset(),
    ensures
        forall|a: int, b: int| #[trigger] connected(es, a, b) <==> connected(other, a, b),
        components(es, n) == components(other, n),
{
    broadcast use vstd::seq_lib::group_to_multiset_ensures;

    assert(edges_within(es, other)) by {
        assert forall|i: int| 0 <= i < es.len() implies other.contains(#[trigger] es[i]) by {
            assert(es.contains(es[i]));
            assert(es.to_multiset().count(es[i]) > 0);
            assert(other.to_multiset().count(es[i]) > 0);
        }
    }
    assert(edges_within(other, es)) by {
        assert forall|i: int| 0 <= i < other.len() implies es.contains(#[trigger] other[i]) by {
            assert(other.contains(other[i]));
            assert(other.to_multiset().count(other[i]) > 0);
            assert(es.to_multiset().count(other[i]) > 0);
        }
    }
    assert forall|a: int, b: int| #[trigger] connected(es, a, b) <==> connected(other, a, b) by {
        if connected(es, a, b) {
            lemma_connected_within(es, other, a, b);
        }
        if connected(other, a, b) {
            lemma_connected_within(other, es, a, b);
        }
    }
    assert forall|x: int| #[trigger] component(es, n, x) == component(other, n, x) by {
        assert(component(es, n, x) =~= component(other, n, x));
    }
    assert(components(es, n) =~= components(other, n));
}

/// Relies on `slice::sort_by_key`: it reorders the edges, losing and adding none, into
/// ascending order of weight.
#[verifier::external_body]
fn sort_by_weight(edges: &mut Vec<Edge>)
    ensures
        final(edges)@.to_multiset() == old(edges)@.to_multiset(),
        sorted_by_weight(final(edges)@),
{
    edges.sort_by_key(|e| e.weight);
}

/// The weights of `es`, in order.
pub open spec fn weights(es: Seq<Edge>) -> Seq<int> {
    es.map_values(|e: Edge| e.weight as int)
}

/// Two weight-sorted orderings of the same edges carry equal weights at every position.
proof fn lemma_sorted_same_weights(a: Seq<Edge>, b: Seq<Edge>)
    requires
        sorted_by_weight(a),
        sorted_by_weight(b),
        a.to_multiset() == b.to_multiset(),
    ensures
        a.len() == b.len(),
        forall|t: int| 0 <= t < a.len() ==> #[trigger] a[t].weight == b[t].weight,
    decreases a.len(),
{
    broadcast use vstd::seq_lib::group_to_multiset_ensures;

    if a.len() > 0 {
        assert(a.to_multiset().count(a[0]) > 0);
        assert(b.contains(a[0]));
        let j = choose|j: int| 0 <= j < b.len() && b[j] == a[0];
        assert(b.to_multiset().count(b[0]) > 0);
        assert(a.contains(b[0]));
        let i = choose|i: int| 0 <= i < a.len() && a[i] == b[0];
        let w = a[0].weight;
        assert(b[0].weight <= b[j].weight);
        assert(a[0].weight <= a[i].weight);
        let a2 = a.drop_first();
        let b2 = b.remove(j);
        assert(a.remove(0) =~= a2);
        assert(a2.to_multiset() =~= a.to_multiset().remove(a[0]));
        assert(b2.to_multiset() =~= b.to_multiset().remove(b[j]));
        assert(sorted_by_weight(b2)) by {
            assert forall|p: int, q: int| 0 <= p < q < b2.len() implies (#[trigger] b2[p]).weight
                <= (#[trigger] b2[q]).weight by {
                let pp = if p < j { p } else { p + 1 };
                let qq = if q < j { q } else { q + 1 };
                assert(b2[p] == b[pp]);
                assert(b2[q] == b[qq]);
                assert(b[pp].weight <= b[qq].weight);
            }
        }
        assert(sorted_by_weight(a2)) by {
            assert forall|p: int, q: int| 0 <= p < q < a2.len() implies (#[trigger] a2[p]).weight
                <= (#[trigger] a2[q]).weight by {
                assert(a[p + 1].weight <= a[q + 1].weight);
            }
        }
        lemma_sorted_same_weights(a2, b2);
        assert forall|t: int| 0 <= t < a.len() implies #[trigger] a[t].weight == b[t].weight by {
            if t == 0 {
            } else if t <= j {
                assert(b[0].weight <= b[t].weight);
                assert(b[t].weight <= b[j].weight);
                assert(a2[t - 1].weight == b2[t - 1].weight);
                assert(b2[t - 1] == b[t - 1]);
                assert(b[0].weight <= b[t - 1].weight);
                assert(b[t - 1].weight <= b[j].weight);
            } else {
                assert(a2[t - 1].weight == b2[t - 1].weight);
                assert(b2[t - 1] == b[t]);
            }
        }
    } else {
        assert(a.to_multiset().len() == 0);
        assert(b.to_multiset().len() == b.len());
    }
}

/// Sorting the edges twice in a row gives the same sequence of weights both times.
pub proof fn lemma_sort_edges_twice(es: Seq<Edge>, first: Seq<Edge>, second: Seq<Edge>)
    requires
        sorted_by_weight(first),
        first.to_multiset() == es.to_multiset(),
        sorted_by_weight(second),
        second.to_multiset() == first.to_multiset(),
    ensures
        weights(first) == weights(second),
{
    lemma_sorted_same_weights(first, second);
    assert(weights(first) =~= weights(second));
}

/// The scan of a prefix of the edges keeps a prefix of the forest.
proof fn lemma_greedy_take(es: Seq<Edge>, j: int)
    requires
        0 <= j <= es.len(),
    ensures
        greedy_forest(es.take(j)).is_prefix_of(greedy_forest(es)),
    decreases es.len(),
{
    if j == es.len() {
        assert(es.take(j) =~= es);
    } else {
        let prev = es.drop_last();
        assert(prev.take(j) =~= es.take(j));
        lemma_greedy_take(prev, j);
        lemma_greedy_prefix(es);
    }
}

/// The forest has no self-loop and no two edges joining the same pair of nodes.
pub proof fn lemma_greedy_simple(es: Seq<Edge>)
    ensures
        forall|k: int|
            0 <= k < greedy_forest(es).len() ==> (#[trigger] greedy_forest(es)[k]).u != greedy_forest(es)[k].v,
        forall|p: int, q: int|
            0 <= p < q < greedy_forest(es).len() ==> !links(
                #[trigger] greedy_forest(es)[q],
                (#[trigger] greedy_forest(es)[p]).u.0 as int,
                greedy_forest(es)[p].v.0 as int,
            ),
{
    let f = greedy_forest(es);
    lemma_greedy_is_forest(es);
    assert forall|k: int| 0 <= k < f.len() implies (#[trigger] f[k]).u != f[k].v by {
        lemma_connected_refl(f.take(k), f[k].u.0 as int);
    }
    assert forall|p: int, q: int| 0 <= p < q < f.len() implies !links(
        #[trigger] f[q],
        (#[trigger] f[p]).u.0 as int,
        f[p].v.0 as int,
    ) by {
        if links(f[q], f[p].u.0 as int, f[p].v.0 as int) {
            assert(f.take(q)[p] == f[p]);
            lemma_connected_edge(f.take(q), p);
            if f[q].u.0 != f[p].u.0 {
                lemma_connected_symm(f.take(q), f[p].u.0 as int, f[p].v.0 as int);
            }
        }
    }
}

/// A self-loop is never kept, whatever its weight.
pub proof fn lemma_self_loop_never_kept(es: Seq<Edge>, i: int)
    requires
        0 <= i < es.len(),
        es[i].u == es[i].v,
    ensures
        !kept(es, i),
{
    lemma_connected_refl(es.take(i), es[i].u.0 as int);
}

/// Among weight-sorted parallel edges, a kept one is a lightest one.
pub proof fn lemma_kept_parallel_edge_is_lightest(es: Seq<Edge>, i: int, j: int)
    requires
        sorted_by_weight(es),
        0 <= i < es.len(),
        0 <= j < es.len(),
        kept(es, j),
        links(es[i], es[j].u.0 as int, es[j].v.0 as int),
    ensures
        es[j].weight <= es[i].weight,
{
    if i < j {
        assert(es.take(j)[i] == es[i]);
        lemma_connected_edge(es.take(j), i);
        if es[i].u.0 != es[j].u.0 {
            lemma_connected_symm(es.take(j), es[i].u.0 as int, es[i].v.0 as int);
        }
    }
}

/// The cycle property behind optimality: over weight-sorted edges, every edge that the
/// scan leaves out has its ends connected by kept edges that are no heavier than it.
pub proof fn lemma_rejected_edge_closes_light_cycle(es: Seq<Edge>, j: int)
    requires
        sorted_by_weight(es),
        0 <= j < es.len(),
        !kept(es, j),
    ensures
        exists|m: int|
            0 <= m <= greedy_forest(es).len() && #[trigger] connected(
                greedy_forest(es).take(m),
                es[j].u.0 as int,
                es[j].v.0 as int,
            ) && forall|t: int| 0 <= t < m ==> (#[trigger] greedy_forest(es)[t]).weight <= es[j].weight,
{
    let f = greedy_forest(es);
    let g = greedy_forest(es.take(j));
    let m = g.len() as int;
    lemma_greedy_take(es, j);
    assert(f.take(m) =~= g);
    lemma_greedy_connected(es.take(j), es[j].u.0 as int, es[j].v.0 as int);
    lemma_greedy_within(es.take(j));
    assert forall|t: int| 0 <= t < m implies (#[trigger] f[t]).weight <= es[j].weight by {
        assert(g[t] == f[t]);
        assert(es.take(j).contains(g[t]));
        let k = choose|k: int| 0 <= k < j && es.take(j)[k] == g[t];
        assert(es[k] == f[t]);
    }
    assert(connected(f.take(m), es[j].u.0 as int, es[j].v.0 as int));
}

/// A weighted undirected multigraph on the nodes `[0, num_nodes)`.
///
/// The node count is inferred: it is the smallest dense range `[0, num_nodes)` that
/// holds every endpoint added so far, or the count given to `with_nodes` if that is
/// larger. Ids in the range that no edge names are isolated nodes of the graph.
#[derive(Debug)]
pub struct Graph {
    pub edges: Vec<Edge>,
    num_nodes: usize,
}

impl View for Graph {
    type V = Seq<Edge>;

    /// The edges, in their stored order.
    closed spec fn view(&self) -> Seq<Edge> {
        self.edges@
    }
}

impl Graph {
    /// The number of nodes.
    pub closed spec fn node_count(&self) -> nat {
        self.num_nodes as nat
    }

    /// Every edge names nodes of the graph.
    pub closed spec fn wf(&self) -> bool {
        endpoints_below(self@, self.node_count())
    }

    /// A graph with no nodes and no edges.
    pub fn new() -> (r: Self)
        ensures
            r@ == Seq::<Edge>::empty(),
            r.node_count() == 0,
            r.wf(),
    {
        Graph { edges: Vec::new(), num_nodes: 0 }
    }

    /// A graph on the nodes `[0, n)` with no edges yet; `add_edge` still grows the range
    /// to hold an endpoint beyond it.
    pub fn with_nodes(n: usize) -> (r: Self)
        ensures
            r@ == Seq::<Edge>::empty(),
            r.node_count() == n,
            r.wf(),
    {
        Graph { edges: Vec::new(), num_nodes: n }
    }

    /// The number of nodes.
    pub fn num_nodes(&self) -> (r: usize)
        ensures
            r == self.node_count(),
    {
        self.num_nodes
    }

    /// Appends the edge `(u, v, weight)`, growing the node range to hold `u` and `v`.
    pub fn add_edge(&mut self, u: usize, v: usize, weight: i64)
        requires
            u < usize::MAX,
            v < usize::MAX,
        ensures
            final(self)@ == old(self)@.push(Edge { u: Node(u), v: Node(v), weight }),
            final(self).node_count() == vstd::math::max(
                old(self).node_count() as int,
                vstd::math::max(u + 1, v + 1),
            ),
            old(self).wf() ==> final(self).wf(),
    {
        self.edges.push(Edge { u: Node(u), v: Node(v), weight });
        if u >= self.num_nodes {
            self.num_nodes = u + 1;
        }
        if v >= self.num_nodes {
            self.num_nodes = v + 1;
        }
    }

    /// Scans the edges in their current order and keeps each one whose ends the edges
    /// kept before it do not connect; returns the kept edges and their total weight.
    pub fn kruskal_from_sorted_edges(&self) -> (r: (Vec<Edge>, i64))
        requires
            self.wf(),
            total_fits(self@),
        ensures
            r.0@ == greedy_forest(self@),
            r.1 == sum_weights(r.0@),
            is_forest(r.0@),
            forall|a: int, b: int| #[trigger] connected(r.0@, a, b) <==> connected(self@, a, b),
            r.0@.len() + components(self@, self.node_count()).len() == self.node_count(),
    {
        let ghost es = self@;
        let n = self.num_nodes;
        let mut uf = UnionFind::new(n);
        let mut mst_edges: Vec<Edge> = Vec::new();
        let mut total: i128 = 0;
        let mut k: usize = 0;
        proof {
            uf.lemma_wf();
            assert(roots(uf@) =~= vstd::set_lib::set_int_range(0, n as int));
            vstd::set_lib::lemma_int_range(0, n as int);
            assert(es.take(0) =~= Seq::<Edge>::empty());
            assert(greedy_forest(es.take(0)) =~= Seq::<Edge>::empty());
            assert forall|a: int, b: int| 0 <= a < n && 0 <= b < n implies (uf@[a] == uf@[b]
                <==> #[trigger] connected(es.take(0), a, b)) by {
                if connected(es.take(0), a, b) {
                    lemma_connected_same_label(es.take(0), uf@, a, b);
                }
                if a == b {
                    lemma_connected_refl(es.take(0), a);
                }
            }
        }
        while k < self.edges.len()
            invariant
                self.wf(),
                es == self.edges@,
                n == self.node_count(),
                k <= es.len(),
                uf.wf(),
                uf.len() == n,
                uf@.len() == n,
                is_partition(uf@),
                mst_edges@ == greedy_forest(es.take(k as int)),
                total == sum_weights(mst_edges@),
                -(mst_edges@.len() * 0x8000_0000_0000_0000) <= total <= mst_edges@.len() * 0x8000_0000_0000_0000,
                roots(uf@).len() + mst_edges@.len() == n,
                forall|a: int, b: int|
                    0 <= a < n && 0 <= b < n ==> (uf@[a] == uf@[b] <==> #[trigger] connected(
                        es.take(k as int),
                        a,
                        b,
                    )),
            ensures
                k == es.len() || mst_edges@.len() + 1 == n,
            decreases es.len() - k,
        {
            let edge = self.edges[k];
            let ghost before = uf@;
            let ghost prefix = es.take(k as int);
            let accepted = uf.union(edge.u.0, edge.v.0);
            proof {
                assert(es.take(k + 1) =~= prefix.push(edge));
                assert(es.take(k + 1).drop_last() =~= prefix);
                assert(es.take(k + 1).take(k as int) =~= prefix);
                lemma_scan_step(prefix, edge, before, uf@);
                uf.lemma_wf();
                if accepted {
                    crate::union_find::lemma_merged_roots(before, before[edge.u.0 as int], before[edge.v.0 as int]);
                    crate::union_find::lemma_merged_roots(before, before[edge.v.0 as int], before[edge.u.0 as int]);
                }
            }
            k = k + 1;
            if accepted {
                total = total + edge.weight as i128;
                mst_edges.push(edge);
                assert(mst_edges@.drop_last() =~= greedy_forest(prefix));
                if mst_edges.len() == n - 1 {
                    break;
                }
            }
        }
        proof {
            let m = k as int;
            if m < es.len() {
                // every node lies in the one set that is left
                assert forall|a: int, b: int| 0 <= a < n && 0 <= b < n implies #[trigger] connected(es.take(m), a, b) by {
                    crate::union_find::lemma_roots_finite(uf@);
                    assert(roots(uf@).contains(uf@[a]));
                    assert(roots(uf@).contains(uf@[b]));
                    if uf@[a] != uf@[b] {
                        vstd::set_lib::lemma_len_subset(set![uf@[a], uf@[b]], roots(uf@));
                    }
                }
                lemma_greedy_saturated(es, m, n as nat);
            } else {
                assert(es.take(m) =~= es);
            }
            lemma_greedy_is_forest(es);
            assert forall|a: int, b: int| #[trigger] connected(mst_edges@, a, b) <==> connected(es, a, b) by {
                lemma_greedy_connected(es, a, b);
                lemma_greedy_connected(es.take(m), a, b);
            }
            assert forall|a: int, b: int| 0 <= a < n && 0 <= b < n implies (uf@[a] == uf@[b] <==> #[trigger] connected(es, a, b)) by {
                lemma_greedy_connected(es, a, b);
                lemma_greedy_connected(es.take(m), a, b);
            }
            lemma_components_count(es, uf@);
        }
        (mst_edges, total as i64)
    }

    /// Reorders the edges into ascending order of weight; equal weights come in no
    /// promised order.
    pub fn sort_edges(&mut self)
        ensures
            final(self)@.to_multiset() == old(self)@.to_multiset(),
            sorted_by_weight(final(self)@),
            final(self).node_count() == old(self).node_count(),
            old(self).wf() ==> final(self).wf(),
    {
        sort_by_weight(&mut self.edges);
        proof {
            broadcast use vstd::seq_lib::group_to_multiset_ensures;

            if old(self).wf() {
                assert forall|i: int| 0 <= i < self@.len() implies (#[trigger] self@[i]).u.0
                    < self.node_count() && self@[i].v.0 < self.node_count() by {
                    assert(self@.contains(self@[i]));
                    assert(old(self)@.to_multiset().count(self@[i]) > 0);
                    assert(old(self)@.contains(self@[i]));
                }
            }
        }
    }

    /// The minimum spanning forest: sorts the edges by weight, then scans them.
    pub fn kruskal_mst(&mut self) -> (r: (Vec<Edge>, i64))
        requires
            old(self).wf(),
            forall|s: Seq<Edge>|
                sorted_by_weight(s) && s.to_multiset() == old(self)@.to_multiset() ==> #[trigger] total_fits(s),
        ensures
            final(self)@.to_multiset() == old(self)@.to_multiset(),
            sorted_by_weight(final(self)@),
            final(self).node_count() == old(self).node_count(),
            final(self).wf(),
            r.0@ == greedy_forest(final(self)@),
            r.1 == sum_weights(r.0@),
            is_forest(r.0@),
            forall|a: int, b: int| #[trigger] connected(r.0@, a, b) <==> connected(old(self)@, a, b),
            r.0@.len() + components(old(self)@, old(self).node_count()).len() == old(self).node_count(),
    {
        self.sort_edges();
        proof {
            assert(total_fits(self@));
            lemma_reordered_edges(old(self)@, self@, self.node_count());
        }
        self.kruskal_from_sorted_edges()
    }
}

} // verus!
