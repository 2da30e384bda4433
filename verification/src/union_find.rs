//! Disjoint sets with path halving and union by rank.

use vstd::prelude::*;

verus! {

/// Union-Find (Disjoint Set Union) data structure with path compression and union by rank.
pub struct UnionFind {
    parent: Vec<usize>,
    rank: Vec<u8>,
}

/// The representative that the parent links of `x` lead to.
///
/// Ranks grow strictly along the links of a well-formed forest, so following
/// them ends after at most 256 steps.
spec fn root_in(parent: Seq<usize>, rank: Seq<u8>, x: int) -> int
    decreases 256 - rank[x],
{
    if 0 <= x < parent.len() && parent[x] != x && rank[x] < rank[parent[x] as int] {
        root_in(parent, rank, parent[x] as int)
    } else {
        x
    }
}

/// Every link stays in bounds and climbs in rank.
spec fn forest(parent: Seq<usize>, rank: Seq<u8>) -> bool {
    &&& parent.len() == rank.len()
    &&& forall|x: int| 0 <= x < parent.len() ==> 0 <= #[trigger] parent[x] < parent.len()
    &&& forall|x: int|
        0 <= x < parent.len() && #[trigger] parent[x] != x ==> rank[x] < rank[parent[x] as int]
}

/// The sum of two to the rank over the roots among the first `k` elements.
spec fn root_weight(parent: Seq<usize>, rank: Seq<u8>, k: int) -> nat
    decreases k,
{
    if k <= 0 {
        0
    } else {
        root_weight(parent, rank, k - 1) + (if parent[k - 1] == k - 1 {
            vstd::arithmetic::power2::pow2(rank[k - 1] as nat)
        } else {
            0
        })
    }
}

proof fn lemma_root_in_is_root(parent: Seq<usize>, rank: Seq<u8>, x: int)
    requires
        forest(parent, rank),
        0 <= x < parent.len(),
    ensures
        0 <= root_in(parent, rank, x) < parent.len(),
        parent[root_in(parent, rank, x)] == root_in(parent, rank, x),
        rank[x] <= rank[root_in(parent, rank, x)],
    decreases 256 - rank[x],
{
    if parent[x] != x {
        lemma_root_in_is_root(parent, rank, parent[x] as int);
    }
}

/// Pointing a node at its grandparent changes no representative.
proof fn lemma_halving_keeps_roots(parent: Seq<usize>, rank: Seq<u8>, x: int, y: int)
    requires
        forest(parent, rank),
        0 <= x < parent.len(),
        0 <= y < parent.len(),
    ensures
        ({
            let halved = parent.update(x, parent[parent[x] as int]);
            root_in(halved, rank, y) == root_in(parent, rank, y)
        }),
    decreases 256 - rank[y],
{
    let halved = parent.update(x, parent[parent[x] as int]);
    if parent[y] == y {
    } else {
        let p = parent[y] as int;
        if y == x {
            let g = parent[p] as int;
            if g != p {
                lemma_halving_keeps_roots(parent, rank, x, g);
                assert(root_in(parent, rank, y) == root_in(parent, rank, p));
                assert(root_in(parent, rank, p) == root_in(parent, rank, g));
            } else {
                lemma_halving_keeps_roots(parent, rank, x, p);
            }
        } else {
            lemma_halving_keeps_roots(parent, rank, x, p);
        }
    }
}

proof fn lemma_halving_keeps_weight(parent: Seq<usize>, rank: Seq<u8>, x: int, k: int)
    requires
        forest(parent, rank),
        0 <= x < parent.len(),
        0 <= k <= parent.len(),
    ensures
        root_weight(parent.update(x, parent[parent[x] as int]), rank, k) == root_weight(
            parent,
            rank,
            k,
        ),
    decreases k,
{
    if k > 0 {
        lemma_halving_keeps_weight(parent, rank, x, k - 1);
        if k - 1 == x && parent[x] != x {
            let p = parent[x] as int;
            assert(rank[x] < rank[p]);
            assert(parent[p] != p ==> rank[p] < rank[parent[p] as int]);
        }
    }
}

proof fn lemma_initial_weight(parent: Seq<usize>, rank: Seq<u8>, k: int)
    requires
        0 <= k <= parent.len(),
        parent.len() == rank.len(),
        forall|x: int| 0 <= x < parent.len() ==> #[trigger] parent[x] == x,
        forall|x: int| 0 <= x < parent.len() ==> #[trigger] rank[x] == 0,
    ensures
        root_weight(parent, rank, k) == k,
    decreases k,
{
    if k > 0 {
        lemma_initial_weight(parent, rank, k - 1);
        vstd::arithmetic::power2::lemma2_to64();
    }
}

/// A root's own weight is part of the whole.
proof fn lemma_weight_contains(parent: Seq<usize>, rank: Seq<u8>, r: int, k: int)
    requires
        0 <= r < k <= parent.len(),
        parent[r] == r,
    ensures
        vstd::arithmetic::power2::pow2(rank[r] as nat) <= root_weight(parent, rank, k),
    decreases k,
{
    if k - 1 != r {
        lemma_weight_contains(parent, rank, r, k - 1);
    }
}

/// A tree of rank `rank` needs two to the rank elements, so ranks stay below the word size.
proof fn lemma_rank_is_small(rank: nat, n: nat)
    requires
        vstd::arithmetic::power2::pow2(rank) <= n,
        n <= usize::MAX,
    ensures
        rank < 64,
{
    if rank >= 64 {
        if rank > 64 {
            vstd::arithmetic::power2::lemma_pow2_strictly_increases(64, rank);
        }
        vstd::arithmetic::power2::lemma2_to64();
        assert(vstd::arithmetic::power2::pow2(64) == 0x10000000000000000);
    }
}

/// Hanging root `a` below root `b`, with `b` raised by `bump`, moves the weight of
/// `a` out and raises that of `b`.
proof fn lemma_link_weight(
    parent: Seq<usize>,
    rank: Seq<u8>,
    parent2: Seq<usize>,
    rank2: Seq<u8>,
    a: int,
    b: int,
    k: int,
)
    requires
        0 <= a < parent.len(),
        0 <= b < parent.len(),
        a != b,
        parent.len() == rank.len(),
        parent.len() <= usize::MAX,
        parent[a] == a,
        parent[b] == b,
        parent2 == parent.update(a, b as usize),
        rank2 == rank.update(b, rank2[b]),
        0 <= k <= parent.len(),
    ensures
        root_weight(parent2, rank2, k) + (if a < k {
            vstd::arithmetic::power2::pow2(rank[a] as nat)
        } else {
            0
        }) + (if b < k {
            vstd::arithmetic::power2::pow2(rank[b] as nat)
        } else {
            0
        }) == root_weight(parent, rank, k) + (if b < k {
            vstd::arithmetic::power2::pow2(rank2[b] as nat)
        } else {
            0
        }),
    decreases k,
{
    if k > 0 {
        lemma_link_weight(parent, rank, parent2, rank2, a, b, k - 1);
        if k - 1 == a {
            assert(parent2[a] == b as usize);
        } else if k - 1 == b {
            assert(parent2[b] == b as usize);
        } else {
            assert(parent2[k - 1] == parent[k - 1]);
            assert(rank2[k - 1] == rank[k - 1]);
        }
    }
}

proof fn lemma_link_roots(
    parent: Seq<usize>,
    rank: Seq<u8>,
    parent2: Seq<usize>,
    rank2: Seq<u8>,
    a: int,
    b: int,
    y: int,
)
    requires
        forest(parent, rank),
        forest(parent2, rank2),
        0 <= a < parent.len(),
        0 <= b < parent.len(),
        a != b,
        parent[a] == a,
        parent[b] == b,
        parent.len() <= usize::MAX,
        parent2 == parent.update(a, b as usize),
        0 <= y < parent.len(),
    ensures
        root_in(parent2, rank2, y) == (if root_in(parent, rank, y) == a {
            b
        } else {
            root_in(parent, rank, y)
        }),
    decreases 256 - rank[y],
{
    if y == a {
        assert(parent2[a] == b as usize);
        assert(root_in(parent2, rank2, b) == b);
    } else if parent[y] == y {
    } else {
        assert(parent2[y] == parent[y]);
        lemma_link_roots(parent, rank, parent2, rank2, a, b, parent[y] as int);
    }
}

impl UnionFind {
    /// The number of elements.
    pub closed spec fn spec_len(&self) -> nat {
        self.parent@.len()
    }

    /// The representative of the set that holds `x`.
    pub closed spec fn root(&self, x: int) -> int {
        root_in(self.parent@, self.rank@, x)
    }

    /// The height bound of the tree below `x`.
    pub closed spec fn height(&self, x: int) -> int {
        self.rank@[x] as int
    }

    /// `x` and `y` lie in the same set.
    pub open spec fn same(&self, x: int, y: int) -> bool {
        self.root(x) == self.root(y)
    }

    /// The representative of `z` once the sets of `x` and `y` are merged: the root
    /// of smaller rank goes below the other, and at equal ranks that of `y` below that of `x`.
    pub open spec fn root_after_union(&self, x: int, y: int, z: int) -> int {
        let rx = self.root(x);
        let ry = self.root(y);
        let rz = self.root(z);
        if self.height(rx) < self.height(ry) {
            if rz == rx {
                ry
            } else {
                rz
            }
        } else if rz == ry {
            rx
        } else {
            rz
        }
    }

    /// The height bound of `z` once the sets of `x` and `y` are merged: only two
    /// different roots of equal rank raise it, at the root that stays.
    pub open spec fn height_after_union(&self, x: int, y: int, z: int) -> int {
        let rx = self.root(x);
        let ry = self.root(y);
        if rx != ry && self.height(rx) == self.height(ry) && z == rx {
            self.height(z) + 1
        } else {
            self.height(z)
        }
    }

    /// Links stay in bounds, climb in rank, and the trees are as full as their ranks say.
    pub closed spec fn wf(&self) -> bool {
        &&& forest(self.parent@, self.rank@)
        &&& self.parent@.len() <= usize::MAX
        &&& root_weight(self.parent@, self.rank@, self.parent@.len() as int)
            <= self.parent@.len()
    }

    /// Create a new Union-Find structure with `n` disjoint elements.
    pub fn new(n: usize) -> (r: Self)
        ensures
            r.wf(),
            r.spec_len() == n,
            forall|x: int| 0 <= x < n ==> #[trigger] r.root(x) == x,
            forall|x: int| 0 <= x < n ==> #[trigger] r.height(x) == 0,
    {
        let mut parent: Vec<usize> = Vec::with_capacity(n);
        let mut rank: Vec<u8> = Vec::with_capacity(n);
        let mut i: usize = 0;
        while i < n
            invariant
                i <= n,
                parent@.len() == i,
                rank@.len() == i,
                forall|x: int| 0 <= x < i ==> #[trigger] parent@[x] == x,
                forall|x: int| 0 <= x < i ==> #[trigger] rank@[x] == 0,
            decreases n - i,
        {
            parent.push(i);
            rank.push(0);
            i = i + 1;
        }
        proof {
            lemma_initial_weight(parent@, rank@, n as int);
        }
        UnionFind { parent, rank }
    }

    /// Find with path compression (halving).
    pub fn find(&mut self, x: usize) -> (r: usize)
        requires
            old(self).wf(),
            x < old(self).spec_len(),
        ensures
            final(self).wf(),
            final(self).spec_len() == old(self).spec_len(),
            r == old(self).root(x as int),
            r < old(self).spec_len(),
            old(self).root(r as int) == r,
            forall|y: int|
                0 <= y < old(self).spec_len() ==> #[trigger] final(self).root(y) == old(self).root(y),
            forall|y: int| #[trigger] final(self).height(y) == old(self).height(y),
    {
        let mut x: usize = x;
        let ghost start = x as int;
        let ghost before = *self;
        proof {
            lemma_root_in_is_root(self.parent@, self.rank@, start);
        }
        while self.parent[x] != x
            invariant
                self.wf(),
                x < self.parent@.len(),
                0 <= start < before.parent@.len(),
                self.parent@.len() == before.parent@.len(),
                self.rank@ == before.rank@,
                root_in(self.parent@, self.rank@, x as int) == root_in(
                    before.parent@,
                    before.rank@,
                    start,
                ),
                forall|y: int|
                    0 <= y < before.parent@.len() ==> #[trigger] root_in(
                        self.parent@,
                        self.rank@,
                        y,
                    ) == root_in(before.parent@, before.rank@, y),
            decreases 256 - self.rank@[x as int],
        {
            let p: usize = self.parent[x];
            let g: usize = self.parent[p];
            let ghost parent0 = self.parent@;
            proof {
                assert(self.rank@[x as int] < self.rank@[p as int]);
                assert(parent0[p as int] != p ==> self.rank@[p as int] < self.rank@[g as int]);
                lemma_halving_keeps_weight(parent0, self.rank@, x as int, parent0.len() as int);
                assert forall|y: int| 0 <= y < parent0.len() implies #[trigger] root_in(
                    parent0.update(x as int, g),
                    self.rank@,
                    y,
                ) == root_in(parent0, self.rank@, y) by {
                    lemma_halving_keeps_roots(parent0, self.rank@, x as int, y);
                }
            }
            self.parent[x] = g;
            proof {
                assert(self.parent@ == parent0.update(x as int, g));
                assert(root_in(parent0, self.rank@, x as int) == root_in(
                    parent0,
                    self.rank@,
                    p as int,
                ));
                assert(root_in(parent0, self.rank@, p as int) == root_in(
                    parent0,
                    self.rank@,
                    g as int,
                ));
            }
            x = g;
        }
        proof {
            assert(root_in(self.parent@, self.rank@, x as int) == x);
            assert(root_in(before.parent@, before.rank@, start) == x);
            lemma_root_in_is_root(before.parent@, before.rank@, start);
        }
        x
    }

    /// Merge the sets containing `x` and `y` (union by rank).
    pub fn union(&mut self, x: usize, y: usize)
        requires
            old(self).wf(),
            x < old(self).spec_len(),
            y < old(self).spec_len(),
        ensures
            final(self).wf(),
            final(self).spec_len() == old(self).spec_len(),
            forall|z: int|
                0 <= z < old(self).spec_len() ==> #[trigger] final(self).root(z)
                    == old(self).root_after_union(x as int, y as int, z),
            forall|z: int|
                0 <= z < old(self).spec_len() ==> #[trigger] final(self).height(z)
                    == old(self).height_after_union(x as int, y as int, z),
    {
        let rx: usize = self.find(x);
        let ghost halfway = *self;
        let ry: usize = self.find(y);
        let ghost found = *self;
        proof {
            assert forall|z: int| 0 <= z < old(self).spec_len() implies #[trigger] found.root(z)
                == old(self).root(z) by {
                assert(halfway.root(z) == old(self).root(z));
            }
            assert forall|z: int| #[trigger] found.height(z) == old(self).height(z) by {
                assert(halfway.height(z) == old(self).height(z));
            }
        }
        if rx == ry {
            return;
        }
        let ghost parent0 = self.parent@;
        let ghost rank0 = self.rank@;
        let ghost n = parent0.len() as int;
        proof {
            assert(self.root(rx as int) == rx);
            assert(self.root(ry as int) == ry);
            lemma_root_in_is_root(parent0, rank0, rx as int);
            lemma_root_in_is_root(parent0, rank0, ry as int);
        }
        let rank_x: u8 = self.rank[rx];
        let rank_y: u8 = self.rank[ry];
        if rank_x < rank_y {
            self.parent[rx] = ry;
            proof {
                assert(self.rank@ =~= rank0.update(ry as int, self.rank@[ry as int]));
                lemma_link_weight(parent0, rank0, self.parent@, self.rank@, rx as int, ry as int, n);
                assert forall|z: int| 0 <= z < n implies #[trigger] self.root(z) == old(
                    self,
                ).root_after_union(x as int, y as int, z) by {
                    lemma_link_roots(
                        parent0,
                        rank0,
                        self.parent@,
                        self.rank@,
                        rx as int,
                        ry as int,
                        z,
                    );
                    assert(found.root(z) == old(self).root(z));
                    assert(found.height(rx as int) == old(self).height(rx as int));
                    assert(found.height(ry as int) == old(self).height(ry as int));
                }
            }
        } else if rank_x > rank_y {
            self.parent[ry] = rx;
            proof {
                assert(self.rank@ =~= rank0.update(rx as int, self.rank@[rx as int]));
                lemma_link_weight(parent0, rank0, self.parent@, self.rank@, ry as int, rx as int, n);
                assert forall|z: int| 0 <= z < n implies #[trigger] self.root(z) == old(
                    self,
                ).root_after_union(x as int, y as int, z) by {
                    lemma_link_roots(
                        parent0,
                        rank0,
                        self.parent@,
                        self.rank@,
                        ry as int,
                        rx as int,
                        z,
                    );
                    assert(found.root(z) == old(self).root(z));
                    assert(found.height(rx as int) == old(self).height(rx as int));
                    assert(found.height(ry as int) == old(self).height(ry as int));
                }
            }
        } else {
            proof {
                lemma_weight_contains(parent0, rank0, rx as int, n);
                lemma_rank_is_small(rank_x as nat, n as nat);
            }
            self.parent[ry] = rx;
            self.rank[rx] = rank_x + 1;
            proof {
                assert(self.rank@ =~= rank0.update(rx as int, self.rank@[rx as int]));
                vstd::arithmetic::power2::lemma_pow2_unfold((rank_x + 1) as nat);
                lemma_link_weight(parent0, rank0, self.parent@, self.rank@, ry as int, rx as int, n);
                assert(forest(self.parent@, self.rank@)) by {
                    assert forall|z: int|
                        0 <= z < n && #[trigger] self.parent@[z] != z implies self.rank@[z]
                        < self.rank@[self.parent@[z] as int] by {
                        if z != ry {
                            assert(parent0[z] != z);
                        }
                    }
                }
                assert forall|z: int| 0 <= z < n implies #[trigger] self.root(z) == old(
                    self,
                ).root_after_union(x as int, y as int, z) by {
                    lemma_link_roots(
                        parent0,
                        rank0,
                        self.parent@,
                        self.rank@,
                        ry as int,
                        rx as int,
                        z,
                    );
                    assert(found.root(z) == old(self).root(z));
                    assert(found.height(rx as int) == old(self).height(rx as int));
                    assert(found.height(ry as int) == old(self).height(ry as int));
                }
            }
        }
        proof {
            assert forall|z: int| 0 <= z < n implies #[trigger] self.height(z) == old(
                self,
            ).height_after_union(x as int, y as int, z) by {
                assert(found.height(z) == old(self).height(z));
                assert(found.height(rx as int) == old(self).height(rx as int));
                assert(found.height(ry as int) == old(self).height(ry as int));
            }
        }
    }

    /// Return `true` if `x` and `y` are in the same set.
    pub fn connected(&mut self, x: usize, y: usize) -> (r: bool)
        requires
            old(self).wf(),
            x < old(self).spec_len(),
            y < old(self).spec_len(),
        ensures
            final(self).wf(),
            final(self).spec_len() == old(self).spec_len(),
            r == old(self).same(x as int, y as int),
            forall|z: int|
                0 <= z < old(self).spec_len() ==> #[trigger] final(self).root(z) == old(self).root(z),
            forall|z: int| #[trigger] final(self).height(z) == old(self).height(z),
    {
        let rx: usize = self.find(x);
        let ghost halfway = *self;
        let ry: usize = self.find(y);
        proof {
            assert(halfway.root(y as int) == old(self).root(y as int));
            assert forall|z: int| 0 <= z < old(self).spec_len() implies #[trigger] self.root(z)
                == old(self).root(z) by {
                assert(halfway.root(z) == old(self).root(z));
            }
            assert forall|z: int| #[trigger] self.height(z) == old(self).height(z) by {
                assert(halfway.height(z) == old(self).height(z));
            }
        }
        rx == ry
    }
}

/// Merging `x` with `y` connects exactly what was connected before, or what a
/// path through `x` and `y` now connects.
pub proof fn law_union_joins_two_sets(before: UnionFind, after: UnionFind, x: int, y: int)
    requires
        0 <= x < before.spec_len(),
        0 <= y < before.spec_len(),
        forall|z: int|
            0 <= z < before.spec_len() ==> #[trigger] after.root(z) == before.root_after_union(
                x,
                y,
                z,
            ),
    ensures
        forall|a: int, b: int|
            0 <= a < before.spec_len() && 0 <= b < before.spec_len() ==> (#[trigger] after.same(a, b)
                <==> before.same(a, b) || (before.same(a, x) && before.same(y, b)) || (before.same(
                a,
                y,
            ) && before.same(x, b))),
{
}

/// Being connected is reflexive, symmetric and transitive.
pub proof fn law_same_is_an_equivalence(uf: UnionFind, a: int, b: int, c: int)
    ensures
        uf.same(a, a),
        uf.same(a, b) == uf.same(b, a),
        uf.same(a, b) && uf.same(b, c) ==> uf.same(a, c),
{
}

/// The representative of an element is an element, and represents itself.
pub proof fn law_root_represents_itself(uf: UnionFind, x: int)
    requires
        uf.wf(),
        0 <= x < uf.spec_len(),
    ensures
        0 <= uf.root(x) < uf.spec_len(),
        uf.root(uf.root(x)) == uf.root(x),
{
    lemma_root_in_is_root(uf.parent@, uf.rank@, x);
}

/// Merging keeps the representative of the tree that is at least as high, for both sets, and
/// leaves every other set alone; at equal heights it is that of the first element.
pub proof fn law_the_higher_tree_keeps_its_representative(uf: UnionFind, x: int, y: int, z: int)
    ensures
        uf.height(uf.root(x)) >= uf.height(uf.root(y)) && (uf.same(z, x) || uf.same(z, y))
            ==> uf.root_after_union(x, y, z) == uf.root(x),
        uf.height(uf.root(x)) < uf.height(uf.root(y)) && (uf.same(z, x) || uf.same(z, y))
            ==> uf.root_after_union(x, y, z) == uf.root(y),
        !uf.same(z, x) && !uf.same(z, y) ==> uf.root_after_union(x, y, z) == uf.root(z),
        uf.height_after_union(x, y, z) >= uf.height(z),
        uf.height_after_union(x, y, z) > uf.height(z) <==> z == uf.root(x) && !uf.same(x, y)
            && uf.height(uf.root(x)) == uf.height(uf.root(y)),
        uf.height_after_union(x, y, z) <= uf.height(z) + 1,
{
}

} // verus!
