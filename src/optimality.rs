use vstd::prelude::*;

use crate::connectivity::{connected, edges_within, is_forest, lemma_connected_refl, lemma_connected_same_label, lemma_connected_within};
use crate::graph::{endpoints_below, greedy_forest, kept, lemma_scan_step, sorted_by_weight, sum_weights, Edge};
use crate::union_find::{is_partition, lemma_merged_roots, lemma_roots_finite, merged, roots};

verus! {

/// The partition of `[0, n)` that a scan of `es` builds: each edge whose ends lie in two
/// sets merges them.
pub open spec fn partition_of(es: Seq<Edge>, n: nat) -> Seq<int>
    decreases es.len(),
{
    if es.len() == 0 {
        Seq::new(n, |x: int| x)
    } else {
        let r = partition_of(es.drop_last(), n);
        let e = es.last();
        if r[e.u.0 as int] == r[e.v.0 as int] {
            r
        } else {
            merged(r, r[e.u.0 as int], r[e.v.0 as int])
        }
    }
}

/// The scan's partition groups exactly the connected nodes, and each kept edge removes
/// one of its sets.
proof fn lemma_partition_of(es: Seq<Edge>, n: nat)
    requires
        endpoints_below(es, n),
    ensures
        is_partition(partition_of(es, n)),
        partition_of(es, n).len() == n,
        forall|a: int, b: int|
            0 <= a < n && 0 <= b < n ==> (partition_of(es, n)[a] == partition_of(es, n)[b]
                <==> #[trigger] connected(es, a, b)),
        roots(partition_of(es, n)).len() + greedy_forest(es).len() == n,
    decreases es.len(),
{
    let p = partition_of(es, n);
    if es.len() == 0 {
        assert(roots(p) =~= vstd::set_lib::set_int_range(0, n as int));
        vstd::set_lib::lemma_int_range(0, n as int);
        assert forall|a: int, b: int| 0 <= a < n && 0 <= b < n implies (p[a] == p[b]
            <==> #[trigger] connected(es, a, b)) by {
            if connected(es, a, b) {
                lemma_connected_same_label(es, p, a, b);
            }
            if a == b {
                lemma_connected_refl(es, a);
            }
        }
    } else {
        let prev = es.drop_last();
        let e = es.last();
        assert(endpoints_below(prev, n)) by {
            assert forall|i: int| 0 <= i < prev.len() implies (#[trigger] prev[i]).u.0 < n && prev[i].v.0 < n by {
                assert(prev[i] == es[i]);
            }
        }
        lemma_partition_of(prev, n);
        let r = partition_of(prev, n);
        assert(prev.push(e) =~= es);
        assert(es.take(es.len() - 1) =~= prev);
        lemma_scan_step(prev, e, r, p);
        if r[e.u.0 as int] != r[e.v.0 as int] {
            assert(roots(r).contains(r[e.u.0 as int]));
            assert(roots(r).contains(r[e.v.0 as int]));
            lemma_merged_roots(r, r[e.u.0 as int], r[e.v.0 as int]);
        }
    }
}

/// A graph whose connections are all connections of another keeps no more forest edges.
proof fn lemma_refined_forest_smaller(fine: Seq<Edge>, coarse: Seq<Edge>, n: nat)
    requires
        endpoints_below(fine, n),
        endpoints_below(coarse, n),
        forall|a: int, b: int|
            0 <= a < n && 0 <= b < n && #[trigger] connected(fine, a, b) ==> connected(coarse, a, b),
    ensures
        greedy_forest(fine).len() <= greedy_forest(coarse).len(),
{
    lemma_partition_of(fine, n);
    lemma_partition_of(coarse, n);
    let pf = partition_of(fine, n);
    let pc = partition_of(coarse, n);
    lemma_roots_finite(pf);
    let f = |r: int| pc[r];
    assert(roots(pf).map(f) =~= roots(pc)) by {
        assert forall|s: int| roots(pc).contains(s) implies roots(pf).map(f).contains(s) by {
            let r = pf[s];
            assert(pf[r] == pf[s]);
            assert(connected(fine, r, s));
            assert(connected(coarse, r, s));
            assert(roots(pf).contains(r) && f(r) == s);
        }
        assert forall|s: int| roots(pf).map(f).contains(s) implies roots(pc).contains(s) by {
            let r = choose|r: int| roots(pf).contains(r) && f(r) == s;
            assert(pc[pc[r]] == pc[r]);
        }
    }
    vstd::set_lib::lemma_map_size_bound(roots(pf), roots(pc), f);
}

/// A forest is kept whole by the scan.
proof fn lemma_forest_kept_whole(es: Seq<Edge>)
    requires
        is_forest(es),
    ensures
        greedy_forest(es) == es,
    decreases es.len(),
{
    if es.len() > 0 {
        let prev = es.drop_last();
        assert(is_forest(prev)) by {
            assert forall|i: int| 0 <= i < prev.len() implies !connected(
                prev.take(i),
                #[trigger] prev[i].u.0 as int,
                prev[i].v.0 as int,
            ) by {
                assert(prev.take(i) =~= es.take(i));
                assert(prev[i] == es[i]);
            }
        }
        lemma_forest_kept_whole(prev);
        assert(kept(es, es.len() - 1));
        assert(prev.push(es.last()) =~= es);
    }
}

/// The edges of `es` that weigh at most `w`, in order.
pub open spec fn light(es: Seq<Edge>, w: int) -> Seq<Edge>
    decreases es.len(),
{
    if es.len() == 0 {
        Seq::empty()
    } else if es.last().weight <= w {
        light(es.drop_last(), w).push(es.last())
    } else {
        light(es.drop_last(), w)
    }
}

proof fn lemma_light_facts(es: Seq<Edge>, w: int)
    ensures
        light(es, w).len() <= es.len(),
        edges_within(light(es, w), es),
        forall|i: int| 0 <= i < light(es, w).len() ==> (#[trigger] light(es, w)[i]).weight <= w,
        (forall|i: int| 0 <= i < es.len() ==> (#[trigger] es[i]).weight <= w) ==> light(es, w) == es,
        (exists|i: int| 0 <= i < es.len() && (#[trigger] es[i]).weight > w) ==> light(es, w).len() < es.len(),
    decreases es.len(),
{
    if es.len() > 0 {
        let prev = es.drop_last();
        lemma_light_facts(prev, w);
        let l = light(es, w);
        assert forall|i: int| 0 <= i < l.len() implies es.contains(#[trigger] l[i]) by {
            if i < light(prev, w).len() {
                assert(l[i] == light(prev, w)[i]);
                assert(prev.contains(l[i]));
                let j = choose|j: int| 0 <= j < prev.len() && prev[j] == l[i];
                assert(es[j] == prev[j]);
            } else {
                assert(es[es.len() - 1] == l[i]);
            }
        }
        if forall|i: int| 0 <= i < es.len() ==> (#[trigger] es[i]).weight <= w {
            assert forall|i: int| 0 <= i < prev.len() implies (#[trigger] prev[i]).weight <= w by {
                assert(prev[i] == es[i]);
            }
            assert(prev.push(es.last()) =~= es);
        }
        if exists|i: int| 0 <= i < es.len() && (#[trigger] es[i]).weight > w {
            let i = choose|i: int| 0 <= i < es.len() && (#[trigger] es[i]).weight > w;
            if i < es.len() - 1 {
                assert(prev[i] == es[i]);
            }
        }
    }
}

/// A part of a forest is a forest.
proof fn lemma_light_forest(es: Seq<Edge>, w: int)
    requires
        is_forest(es),
    ensures
        is_forest(light(es, w)),
    decreases es.len(),
{
    if es.len() > 0 {
        let prev = es.drop_last();
        assert(is_forest(prev)) by {
            assert forall|i: int| 0 <= i < prev.len() implies !connected(
                prev.take(i),
                #[trigger] prev[i].u.0 as int,
                prev[i].v.0 as int,
            ) by {
                assert(prev.take(i) =~= es.take(i));
                assert(prev[i] == es[i]);
            }
        }
        lemma_light_forest(prev, w);
        let l = light(es, w);
        let lp = light(prev, w);
        if es.last().weight <= w {
            assert forall|i: int| 0 <= i < l.len() implies !connected(
                l.take(i),
                #[trigger] l[i].u.0 as int,
                l[i].v.0 as int,
            ) by {
                if i < lp.len() {
                    assert(l.take(i) =~= lp.take(i));
                    assert(l[i] == lp[i]);
                } else {
                    assert(l.take(i) =~= lp);
                    lemma_light_facts(prev, w);
                    assert(es.take(es.len() - 1) =~= prev);
                    if connected(lp, l[i].u.0 as int, l[i].v.0 as int) {
                        lemma_connected_within(lp, prev, l[i].u.0 as int, l[i].v.0 as int);
                    }
                }
            }
        }
    }
}

/// Over weight-sorted edges, the light part of the forest is the forest of the light prefix.
proof fn lemma_light_of_greedy(es: Seq<Edge>, w: int, k: int)
    requires
        sorted_by_weight(es),
        0 <= k <= es.len(),
        forall|j: int| 0 <= j < k ==> (#[trigger] es[j]).weight <= w,
        forall|j: int| k <= j < es.len() ==> (#[trigger] es[j]).weight > w,
    ensures
        light(greedy_forest(es), w) == greedy_forest(es.take(k)),
    decreases es.len(),
{
    if es.len() == k {
        assert(es.take(k) =~= es);
        crate::graph::lemma_greedy_within(es);
        let g = greedy_forest(es);
        assert forall|i: int| 0 <= i < g.len() implies (#[trigger] g[i]).weight <= w by {
            assert(es.contains(g[i]));
        }
        lemma_light_facts(g, w);
    } else {
        let prev = es.drop_last();
        assert(prev.take(k) =~= es.take(k));
        assert forall|j: int| 0 <= j < k implies (#[trigger] prev[j]).weight <= w by {
            assert(prev[j] == es[j]);
        }
        assert forall|j: int| k <= j < prev.len() implies (#[trigger] prev[j]).weight > w by {
            assert(prev[j] == es[j]);
        }
        assert(sorted_by_weight(prev)) by {
            assert forall|i: int, j: int| 0 <= i < j < prev.len() implies (#[trigger] prev[i]).weight
                <= (#[trigger] prev[j]).weight by {
                assert(prev[i] == es[i] && prev[j] == es[j]);
            }
        }
        lemma_light_of_greedy(prev, w, k);
        let last = es[es.len() - 1];
        assert(last.weight > w);
        if kept(es, es.len() - 1) {
            assert(greedy_forest(es).drop_last() =~= greedy_forest(prev));
        }
    }
}

/// Taking one edge out lowers the total by its weight and the light count by one when
/// it is light.
proof fn lemma_remove_counts(x: Seq<Edge>, i: int, w: int)
    requires
        0 <= i < x.len(),
    ensures
        sum_weights(x.remove(i)) + x[i].weight == sum_weights(x),
        light(x.remove(i), w).len() + (if x[i].weight <= w { 1int } else { 0 }) == light(x, w).len(),
    decreases x.len(),
{
    if i == x.len() - 1 {
        assert(x.remove(i) =~= x.drop_last());
    } else {
        let prev = x.drop_last();
        lemma_remove_counts(prev, i, w);
        assert(x.remove(i).drop_last() =~= prev.remove(i));
        assert(x.remove(i).last() == x.last());
    }
}

/// The position of a heaviest edge.
proof fn lemma_heaviest(x: Seq<Edge>) -> (i: int)
    requires
        x.len() > 0,
    ensures
        0 <= i < x.len(),
        forall|j: int| 0 <= j < x.len() ==> (#[trigger] x[j]).weight <= x[i].weight,
    decreases x.len(),
{
    if x.len() == 1 {
        0
    } else {
        let prev = x.drop_last();
        let k = lemma_heaviest(prev);
        assert forall|j: int| 0 <= j < prev.len() implies (#[trigger] x[j]).weight <= x[k].weight by {
            assert(x[j] == prev[j]);
        }
        if x[k].weight >= x.last().weight {
            k
        } else {
            x.len() - 1
        }
    }
}

/// Of two equally long edge sequences, the one with at least as many edges at or under
/// every weight has the smaller or equal total.
proof fn lemma_dominated_sum(g: Seq<Edge>, f: Seq<Edge>)
    requires
        g.len() == f.len(),
        forall|w: int| #[trigger] light(f, w).len() <= light(g, w).len(),
    ensures
        sum_weights(g) <= sum_weights(f),
    decreases g.len(),
{
    if g.len() > 0 {
        let ig = lemma_heaviest(g);
        let jf = lemma_heaviest(f);
        let top = g[ig].weight as int;
        if g[ig].weight > f[jf].weight {
            let w0 = top - 1;
            lemma_light_facts(f, w0);
            lemma_light_facts(g, w0);
            assert(light(f, w0).len() <= light(g, w0).len());
        }
        let g2 = g.remove(ig);
        let f2 = f.remove(jf);
        assert forall|w: int| #[trigger] light(f2, w).len() <= light(g2, w).len() by {
            lemma_remove_counts(g, ig, w);
            lemma_remove_counts(f, jf, w);
            lemma_light_facts(f2, w);
            lemma_light_facts(g, w);
            assert(light(f, w).len() <= light(g, w).len());
        }
        lemma_dominated_sum(g2, f2);
        lemma_remove_counts(g, ig, 0);
        lemma_remove_counts(f, jf, 0);
    }
}

/// Kruskal's forest is minimal: over weight-sorted edges, no forest drawn from the same
/// edges that connects the same nodes weighs less.
pub proof fn lemma_kruskal_is_minimal(es: Seq<Edge>, other: Seq<Edge>, n: nat)
    requires
        sorted_by_weight(es),
        endpoints_below(es, n),
        is_forest(other),
        edges_within(other, es),
        forall|a: int, b: int|
            0 <= a < n && 0 <= b < n ==> (#[trigger] connected(other, a, b) <==> connected(es, a, b)),
    ensures
        sum_weights(greedy_forest(es)) <= sum_weights(other),
{
    let g = greedy_forest(es);
    assert(endpoints_below(other, n)) by {
        assert forall|i: int| 0 <= i < other.len() implies (#[trigger] other[i]).u.0 < n && other[i].v.0 < n by {
            assert(es.contains(other[i]));
        }
    }
    lemma_forest_kept_whole(other);
    lemma_refined_forest_smaller(other, es, n);
    lemma_refined_forest_smaller(es, other, n);
    assert forall|w: int| #[trigger] light(other, w).len() <= light(g, w).len() by {
        let k = count_light_prefix(es, w);
        lemma_light_of_greedy(es, w, k);
        let lo = light(other, w);
        lemma_light_facts(other, w);
        lemma_light_forest(other, w);
        lemma_forest_kept_whole(lo);
        assert(endpoints_below(lo, n)) by {
            assert forall|i: int| 0 <= i < lo.len() implies (#[trigger] lo[i]).u.0 < n && lo[i].v.0 < n by {
                assert(other.contains(lo[i]));
                let j = choose|j: int| 0 <= j < other.len() && other[j] == lo[i];
            }
        }
        let pre = es.take(k);
        assert(endpoints_below(pre, n)) by {
            assert forall|i: int| 0 <= i < pre.len() implies (#[trigger] pre[i]).u.0 < n && pre[i].v.0 < n by {
                assert(pre[i] == es[i]);
            }
        }
        assert(edges_within(lo, pre)) by {
            assert forall|i: int| 0 <= i < lo.len() implies pre.contains(#[trigger] lo[i]) by {
                assert(other.contains(lo[i]));
                assert(es.contains(lo[i]));
                let j = choose|j: int| 0 <= j < es.len() && es[j] == lo[i];
                assert(j < k);
                assert(pre[j] == lo[i]);
            }
        }
        assert forall|a: int, b: int| 0 <= a < n && 0 <= b < n && #[trigger] connected(lo, a, b) implies connected(pre, a, b) by {
            lemma_connected_within(lo, pre, a, b);
        }
        lemma_refined_forest_smaller(lo, pre, n);
    }
    lemma_dominated_sum(g, other);
}

/// The number of leading edges that weigh at most `w`; over weight-sorted edges these are
/// exactly the light ones.
proof fn count_light_prefix(es: Seq<Edge>, w: int) -> (k: int)
    requires
        sorted_by_weight(es),
    ensures
        0 <= k <= es.len(),
        forall|j: int| 0 <= j < k ==> (#[trigger] es[j]).weight <= w,
        forall|j: int| k <= j < es.len() ==> (#[trigger] es[j]).weight > w,
    decreases es.len(),
{
    if es.len() == 0 {
        0
    } else if es.last().weight <= w {
        es.len() as int
    } else {
        let prev = es.drop_last();
        assert(sorted_by_weight(prev)) by {
            assert forall|i: int, j: int| 0 <= i < j < prev.len() implies (#[trigger] prev[i]).weight
                <= (#[trigger] prev[j]).weight by {
                assert(prev[i] == es[i] && prev[j] == es[j]);
            }
        }
        let k = count_light_prefix(prev, w);
        assert forall|j: int| 0 <= j < k implies (#[trigger] es[j]).weight <= w by {
            assert(prev[j] == es[j]);
        }
        assert forall|j: int| k <= j < es.len() implies (#[trigger] es[j]).weight > w by {
            if j < prev.len() {
                assert(prev[j] == es[j]);
            }
        }
        k
    }
}

} // verus!
