use vstd::prelude::*;
use vstd::set_lib::*;

verus! {

/// `rep` assigns each element of `[0, rep.len())` a representative in the same range,
/// and every representative represents itself.
pub open spec fn is_partition(rep: Seq<int>) -> bool {
    forall|x: int|
        0 <= x < rep.len() ==> 0 <= #[trigger] rep[x] < rep.len() && rep[rep[x]] == rep[x]
}

/// The representatives of a partition: the elements that stand for their own set.
pub open spec fn roots(rep: Seq<int>) -> Set<int> {
    Set::new(|x: int| 0 <= x < rep.len() && rep[x] == x)
}

/// The partition after the set represented by `gone` is merged into the set
/// represented by `keep`.
pub open spec fn merged(rep: Seq<int>, keep: int, gone: int) -> Seq<int> {
    Seq::new(rep.len(), |z: int| if rep[z] == gone { keep } else { rep[z] })
}

/// The roots of a partition are finite and no more than its elements.
pub proof fn lemma_roots_finite(rep: Seq<int>)
    ensures
        roots(rep).finite(),
        roots(rep).len() <= rep.len(),
{
    lemma_int_range(0, rep.len() as int);
    assert(roots(rep).subset_of(set_int_range(0, rep.len() as int)));
    lemma_len_subset(roots(rep), set_int_range(0, rep.len() as int));
}

/// Merging two distinct sets removes exactly one representative.
pub proof fn lemma_merged_roots(rep: Seq<int>, keep: int, gone: int)
    requires
        is_partition(rep),
        roots(rep).contains(keep),
        roots(rep).contains(gone),
        keep != gone,
    ensures
        is_partition(merged(rep, keep, gone)),
        roots(merged(rep, keep, gone)) == roots(rep).remove(gone),
        roots(merged(rep, keep, gone)).len() + 1 == roots(rep).len(),
        roots(rep).len() >= 2,
{
    let m = merged(rep, keep, gone);
    assert(roots(m) =~= roots(rep).remove(gone));
    lemma_roots_finite(rep);
    lemma_len_subset(set![keep, gone], roots(rep));
}

/// The parent pointers form trees whose roots are the representatives of `rep`, ranks
/// strictly grow towards a root, and no rank exceeds the number of merges made so far.
spec fn forest_inv(parent: Seq<usize>, rank: Seq<usize>, rep: Seq<int>) -> bool {
    let n = parent.len();
    &&& rank.len() == n
    &&& rep.len() == n
    &&& is_partition(rep)
    &&& forall|x: int| 0 <= x < n ==> (#[trigger] parent[x] as int) < n
    &&& forall|x: int| 0 <= x < n ==> rep[parent[x] as int] == #[trigger] rep[x]
    &&& forall|x: int| 0 <= x < n ==> parent[#[trigger] rep[x]] as int == rep[x]
    &&& forall|x: int| 0 <= x < n && #[trigger] parent[x] as int == x ==> rep[x] == x
    &&& forall|x: int|
        0 <= x < n && #[trigger] parent[x] as int != x ==> rank[x] < rank[parent[x] as int]
    &&& forall|x: int| 0 <= x < n ==> #[trigger] rank[x] + roots(rep).len() <= n
}

/// Hanging the root `gone` under the root `keep` keeps the forest well formed, when
/// `keep` has the larger rank or, on equal ranks, its rank grows by one.
proof fn lemma_link(parent: Seq<usize>, rank: Seq<usize>, rep: Seq<int>, keep: usize, gone: usize, new_rank: usize)
    requires
        forest_inv(parent, rank, rep),
        keep < parent.len(),
        gone < parent.len(),
        rep[keep as int] == keep,
        rep[gone as int] == gone,
        keep != gone,
        rank[gone as int] < new_rank,
        new_rank == rank[keep as int] || new_rank == rank[keep as int] + 1,
        new_rank + roots(rep).len() <= parent.len() + 1,
    ensures
        forest_inv(
            parent.update(gone as int, keep),
            rank.update(keep as int, new_rank),
            merged(rep, keep as int, gone as int),
        ),
{
    let n = parent.len();
    let linked = parent.update(gone as int, keep);
    let ranked = rank.update(keep as int, new_rank);
    let m = merged(rep, keep as int, gone as int);
    assert(roots(rep).contains(keep as int));
    assert(roots(rep).contains(gone as int));
    lemma_merged_roots(rep, keep as int, gone as int);
    assert forall|x: int| 0 <= x < n && #[trigger] linked[x] as int != x implies ranked[x] < ranked[linked[x] as int] by {
        if x != gone as int {
            assert(parent[x] as int != x);
            assert(x != keep as int);
        }
    }
    assert forall|x: int| 0 <= x < n implies #[trigger] ranked[x] + roots(m).len() <= n by {
    }
    assert forall|x: int| 0 <= x < n implies m[linked[x] as int] == #[trigger] m[x] by {
        if x != gone as int {
            assert(rep[parent[x] as int] == rep[x]);
        }
    }
    assert forall|x: int| 0 <= x < n implies linked[#[trigger] m[x]] as int == m[x] by {
        assert(parent[rep[x]] as int == rep[x]);
    }
    assert forall|x: int| 0 <= x < n && #[trigger] linked[x] as int == x implies m[x] == x by {
        if x != gone as int {
            assert(parent[x] as int == x);
        }
    }
}

/// A disjoint-set forest over the elements `[0, n)`, with union by rank and path halving.
pub struct UnionFind {
    parent: Vec<usize>,
    rank: Vec<usize>,
    rep: Ghost<Seq<int>>,
}

impl View for UnionFind {
    type V = Seq<int>;

    /// The representative of each element's set.
    closed spec fn view(&self) -> Seq<int> {
        self.rep@
    }
}

impl UnionFind {
    /// The number of elements.
    pub closed spec fn len(&self) -> nat {
        self.parent@.len()
    }

    pub closed spec fn wf(&self) -> bool {
        forest_inv(self.parent@, self.rank@, self.rep@)
    }

    /// Facts about a well-formed structure that its users rely on.
    pub proof fn lemma_wf(&self)
        requires
            self.wf(),
        ensures
            self@.len() == self.len(),
            is_partition(self@),
            roots(self@).finite(),
            roots(self@).len() <= self.len(),
    {
        lemma_roots_finite(self@);
    }

    /// `n` singleton sets.
    pub fn new(n: usize) -> (r: Self)
        ensures
            r.wf(),
            r.len() == n,
            r@ == Seq::new(n as nat, |x: int| x),
    {
        let ghost rep = Seq::new(n as nat, |x: int| x);
        let mut parent: Vec<usize> = Vec::new();
        let mut rank: Vec<usize> = Vec::new();
        let mut i: usize = 0;
        while i < n
            invariant
                i <= n,
                parent@.len() == i,
                rank@.len() == i,
                forall|x: int| 0 <= x < i ==> parent@[x] as int == x,
                forall|x: int| 0 <= x < i ==> rank@[x] == 0,
            decreases n - i,
        {
            parent.push(i);
            rank.push(0);
            i = i + 1;
        }
        let r = UnionFind { parent, rank, rep: Ghost(rep) };
        proof {
            assert(roots(rep) =~= set_int_range(0, n as int));
            lemma_int_range(0, n as int);
        }
        r
    }

    /// The representative of the set that holds `x`; halves the path it walks.
    pub fn find(&mut self, x: usize) -> (r: usize)
        requires
            old(self).wf(),
            x < old(self).len(),
        ensures
            final(self).wf(),
            final(self).len() == old(self).len(),
            final(self)@ == old(self)@,
            r as int == old(self)@[x as int],
    {
        let n = self.parent.len();
        let mut y = x;
        let mut p = self.parent[y];
        while y != p
            invariant
                self.wf(),
                self.parent@.len() == n,
                self@ == old(self)@,
                y < n,
                p == self.parent@[y as int],
                self@[y as int] == self@[x as int],
            decreases usize::MAX - self.rank@[y as int],
        {
            let gp = self.parent[p];
            assert(self.rank@[y as int] < self.rank@[p as int]);
            self.parent.set(y, gp);
            assert(self.rank@[p as int] <= self.rank@[gp as int]);
            y = p;
            p = gp;
        }
        y
    }

    /// Merges the sets of `x` and `y`; `false` when they were one set already.
    pub fn union(&mut self, x: usize, y: usize) -> (r: bool)
        requires
            old(self).wf(),
            x < old(self).len(),
            y < old(self).len(),
        ensures
            final(self).wf(),
            final(self).len() == old(self).len(),
            r == (old(self)@[x as int] != old(self)@[y as int]),
            !r ==> final(self)@ == old(self)@,
            r ==> (final(self)@ == merged(old(self)@, old(self)@[x as int], old(self)@[y as int])
                || final(self)@ == merged(old(self)@, old(self)@[y as int], old(self)@[x as int])),
    {
        let root_x = self.find(x);
        let root_y = self.find(y);
        if root_x == root_y {
            return false;
        }
        let ghost rep = self.rep@;
        proof {
            assert(roots(rep).contains(root_x as int));
            assert(roots(rep).contains(root_y as int));
            lemma_merged_roots(rep, root_x as int, root_y as int);
        }
        let rx = self.rank[root_x];
        let ry = self.rank[root_y];
        if rx < ry {
            proof {
                lemma_link(self.parent@, self.rank@, rep, root_y, root_x, ry);
            }
            self.parent.set(root_x, root_y);
            self.rep = Ghost(merged(rep, root_y as int, root_x as int));
            proof {
                assert(self.rank@ == self.rank@.update(root_y as int, ry));
            }
        } else if rx > ry {
            proof {
                lemma_link(self.parent@, self.rank@, rep, root_x, root_y, rx);
            }
            self.parent.set(root_y, root_x);
            self.rep = Ghost(merged(rep, root_x as int, root_y as int));
            proof {
                assert(self.rank@ == self.rank@.update(root_x as int, rx));
            }
        } else {
            assert(rx + roots(rep).len() <= self.parent@.len());
            assert(roots(rep).len() >= 2);
            let n = self.parent.len();
            assert(rx + 1 < n);
            let bumped = rx + 1;
            proof {
                assert(self.rank@[root_y as int] == rx);
                lemma_link(self.parent@, self.rank@, rep, root_x, root_y, bumped);
            }
            self.parent.set(root_y, root_x);
            self.rank.set(root_x, bumped);
            self.rep = Ghost(merged(rep, root_x as int, root_y as int));
        }
        true
    }
}

} // verus!
