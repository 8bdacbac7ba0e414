//! Disjoint sets of figures: an arena of parent and rank entries.

use vstd::prelude::*;

verus! {

/// Every parent lies in the arena, and following a parent link leads to an
/// entry of smaller depth.
pub open spec fn links_ok(parent: Seq<usize>, depth: Seq<nat>) -> bool {
    &&& depth.len() == parent.len()
    &&& forall|i: int|
        0 <= i < parent.len() ==> (#[trigger] parent[i]) < parent.len() && (parent[i] != i
            ==> depth[parent[i] as int] < depth[i])
}

/// The representative of the set of `i`: where the parent links end.
pub open spec fn root(parent: Seq<usize>, depth: Seq<nat>, i: int) -> int
    decreases depth[i],
    when links_ok(parent, depth) && 0 <= i < parent.len()
{
    if parent[i] == i {
        i
    } else {
        root(parent, depth, parent[i] as int)
    }
}

/// A representative lies in the arena, is its own parent, and is no deeper
/// than the entries it represents.
pub proof fn lemma_root(parent: Seq<usize>, depth: Seq<nat>, i: int)
    requires
        links_ok(parent, depth),
        0 <= i < parent.len(),
    ensures
        0 <= root(parent, depth, i) < parent.len(),
        parent[root(parent, depth, i)] == root(parent, depth, i),
        depth[root(parent, depth, i)] <= depth[i],
        root(parent, depth, i) != i ==> depth[root(parent, depth, i)] < depth[i],
        root(parent, depth, root(parent, depth, i)) == root(parent, depth, i),
    decreases depth[i],
{
    if parent[i] != i {
        lemma_root(parent, depth, parent[i] as int);
    }
}

/// The depths after the representative `child` has been linked below the
/// representative `top`: the whole set of `child` moves below `top`.
pub open spec fn linked_depth(parent: Seq<usize>, depth: Seq<nat>, child: int, top: int) -> Seq<nat> {
    Seq::new(
        parent.len(),
        |i: int|
            if root(parent, depth, i) == child {
                depth[i] + depth[top] + 1
            } else {
                depth[i]
            },
    )
}

/// Linking one representative below another keeps the links in order, and
/// moves exactly the set of the first to the second.
pub proof fn lemma_link(parent: Seq<usize>, depth: Seq<nat>, child: int, top: int)
    requires
        links_ok(parent, depth),
        0 <= child < parent.len(),
        0 <= top < parent.len(),
        parent[child] == child,
        parent[top] == top,
        child != top,
    ensures
        links_ok(parent.update(child, top as usize), linked_depth(parent, depth, child, top)),
        forall|i: int|
            0 <= i < parent.len() ==> #[trigger] root(
                parent.update(child, top as usize),
                linked_depth(parent, depth, child, top),
                i,
            ) == if root(parent, depth, i) == child {
                top
            } else {
                root(parent, depth, i)
            },
{
    let p2 = parent.update(child, top as usize);
    let d2 = linked_depth(parent, depth, child, top);
    assert(links_ok(p2, d2)) by {
        assert forall|i: int| 0 <= i < p2.len() implies (#[trigger] p2[i]) < p2.len() && (p2[i] != i
            ==> d2[p2[i] as int] < d2[i]) by {
            assert(parent[i] < parent.len());
            if i == child {
            } else if parent[i] != i {
                assert(root(parent, depth, i) == root(parent, depth, parent[i] as int));
            }
        }
    }
    assert forall|i: int| 0 <= i < parent.len() implies #[trigger] root(p2, d2, i) == if root(
        parent,
        depth,
        i,
    ) == child {
        top
    } else {
        root(parent, depth, i)
    } by {
        lemma_link_root(parent, depth, child, top, i);
    }
}

proof fn lemma_link_root(parent: Seq<usize>, depth: Seq<nat>, child: int, top: int, i: int)
    requires
        links_ok(parent, depth),
        links_ok(parent.update(child, top as usize), linked_depth(parent, depth, child, top)),
        0 <= child < parent.len(),
        0 <= top < parent.len(),
        parent[child] == child,
        parent[top] == top,
        child != top,
        0 <= i < parent.len(),
    ensures
        root(parent.update(child, top as usize), linked_depth(parent, depth, child, top), i) == if root(
            parent,
            depth,
            i,
        ) == child {
            top
        } else {
            root(parent, depth, i)
        },
    decreases depth[i],
{
    let p2 = parent.update(child, top as usize);
    let d2 = linked_depth(parent, depth, child, top);
    assert(parent[i] < parent.len());
    if i == child {
        assert(root(p2, d2, top) == top);
    } else if parent[i] == i {
    } else {
        lemma_link_root(parent, depth, child, top, parent[i] as int);
    }
}

/// Pointing an entry straight at its representative changes no
/// representative.
pub proof fn lemma_compress(parent: Seq<usize>, depth: Seq<nat>, x: int)
    requires
        links_ok(parent, depth),
        0 <= x < parent.len(),
    ensures
        links_ok(parent.update(x, root(parent, depth, x) as usize), depth),
        forall|i: int|
            0 <= i < parent.len() ==> #[trigger] root(
                parent.update(x, root(parent, depth, x) as usize),
                depth,
                i,
            ) == root(parent, depth, i),
{
    let r = root(parent, depth, x);
    lemma_root(parent, depth, x);
    let p2 = parent.update(x, r as usize);
    assert(links_ok(p2, depth)) by {
        assert forall|i: int| 0 <= i < p2.len() implies (#[trigger] p2[i]) < p2.len() && (p2[i] != i
            ==> depth[p2[i] as int] < depth[i]) by {
            assert(parent[i] < parent.len());
        }
    }
    assert forall|i: int| 0 <= i < parent.len() implies #[trigger] root(p2, depth, i) == root(
        parent,
        depth,
        i,
    ) by {
        lemma_compress_root(parent, depth, x, i);
    }
}

proof fn lemma_compress_root(parent: Seq<usize>, depth: Seq<nat>, x: int, i: int)
    requires
        links_ok(parent, depth),
        links_ok(parent.update(x, root(parent, depth, x) as usize), depth),
        0 <= x < parent.len(),
        0 <= i < parent.len(),
    ensures
        root(parent.update(x, root(parent, depth, x) as usize), depth, i) == root(parent, depth, i),
    decreases depth[i],
{
    let r = root(parent, depth, x);
    lemma_root(parent, depth, x);
    let p2 = parent.update(x, r as usize);
    assert(parent[i] < parent.len());
    if i == x {
        if r != x {
            lemma_compress_root(parent, depth, x, r);
        }
    } else if parent[i] != i {
        lemma_compress_root(parent, depth, x, parent[i] as int);
    }
}

/// Disjoint sets over the figures `0..n`, with union by rank and path
/// compression.
pub struct Dsu {
    parent: Vec<usize>,
    rank: Vec<usize>,
    depth: Ghost<Seq<nat>>,
}

impl Dsu {
    /// The number of figures.
    pub closed spec fn n(&self) -> int {
        self.parent@.len() as int
    }

    /// The parent links are in order, and every entry has a rank.
    pub closed spec fn wf(&self) -> bool {
        &&& links_ok(self.parent@, self.depth@)
        &&& self.rank@.len() == self.parent@.len()
    }

    /// The representative of the set of `i`.
    pub closed spec fn root_of(&self, i: int) -> int {
        root(self.parent@, self.depth@, i)
    }

    /// Whether `a` and `b` are in one set.
    pub open spec fn same(&self, a: int, b: int) -> bool {
        self.root_of(a) == self.root_of(b)
    }

    /// `n` sets of one figure each.
    pub fn new(n: usize) -> (r: Dsu)
        ensures
            r.wf(),
            r.n() == n,
            forall|a: int, b: int| 0 <= a < n && 0 <= b < n ==> (#[trigger] r.same(a, b) <==> a == b),
    {
        let mut parent: Vec<usize> = Vec::new();
        let mut rank: Vec<usize> = Vec::new();
        let mut i: usize = 0;
        while i < n
            invariant
                i <= n,
                parent@.len() == i,
                rank@.len() == i,
                forall|j: int| 0 <= j < i ==> (#[trigger] parent@[j]) == j,
            decreases n - i,
        {
            parent.push(i);
            rank.push(0);
            i = i + 1;
        }
        let ghost depth = Seq::new(n as nat, |j: int| 0nat);
        Dsu { parent, rank, depth: Ghost(depth) }
    }

    /// The representative of the set of `x`. The entries on the way are
    /// pointed straight at it; no set changes.
    pub fn find(&mut self, x: usize) -> (r: usize)
        requires
            old(self).wf(),
            x < old(self).n(),
        ensures
            final(self).wf(),
            final(self).n() == old(self).n(),
            r == old(self).root_of(x as int),
            r < old(self).n(),
            forall|i: int|
                0 <= i < old(self).n() ==> #[trigger] final(self).root_of(i) == old(self).root_of(i),
    {
        let mut top = x;
        proof {
            lemma_root(self.parent@, self.depth@, x as int);
        }
        while self.parent[top] != top
            invariant
                self.wf(),
                *self == *old(self),
                top < self.parent@.len(),
                root(self.parent@, self.depth@, top as int) == root(
                    self.parent@,
                    self.depth@,
                    x as int,
                ),
            decreases self.depth@[top as int],
        {
            top = self.parent[top];
        }
        let mut cur = x;
        while cur != top
            invariant
                self.wf(),
                self.parent@.len() == old(self).parent@.len(),
                self.depth@ == old(self).depth@,
                cur < self.parent@.len(),
                top < self.parent@.len(),
                top == old(self).root_of(x as int),
                root(self.parent@, self.depth@, cur as int) == top,
                forall|i: int|
                    0 <= i < self.parent@.len() ==> #[trigger] root(self.parent@, self.depth@, i)
                        == old(self).root_of(i),
            decreases self.depth@[cur as int],
        {
            let next = self.parent[cur];
            proof {
                lemma_compress(self.parent@, self.depth@, cur as int);
                lemma_root(self.parent@, self.depth@, cur as int);
                assert(self.parent@[cur as int] != cur);
            }
            self.parent.set(cur, top);
            cur = next;
        }
        top
    }

    /// Tells whether `a` and `b` are in one set.
    pub fn is_joined(&mut self, a: usize, b: usize) -> (r: bool)
        requires
            old(self).wf(),
            a < old(self).n(),
            b < old(self).n(),
        ensures
            final(self).wf(),
            final(self).n() == old(self).n(),
            r == old(self).same(a as int, b as int),
            forall|i: int|
                0 <= i < old(self).n() ==> #[trigger] final(self).root_of(i) == old(self).root_of(i),
    {
        let ra = self.find(a);
        let rb = self.find(b);
        ra == rb
    }

    /// Unites the sets of `a` and `b`, and tells whether they were two.
    /// Afterwards two figures are in one set exactly if they were before,
    /// or one was with `a` and the other with `b`.
    pub fn unite(&mut self, a: usize, b: usize) -> (united: bool)
        requires
            old(self).wf(),
            a < old(self).n(),
            b < old(self).n(),
        ensures
            final(self).wf(),
            final(self).n() == old(self).n(),
            united == !old(self).same(a as int, b as int),
            forall|x: int, y: int|
                0 <= x < old(self).n() && 0 <= y < old(self).n() ==> (#[trigger] final(self).same(
                    x,
                    y,
                ) <==> old(self).same(x, y) || (old(self).same(x, a as int) && old(self).same(
                    y,
                    b as int,
                )) || (old(self).same(x, b as int) && old(self).same(y, a as int))),
    {
        let ra = self.find(a);
        let ghost mid = *self;
        let rb = self.find(b);
        proof {
            assert forall|i: int| 0 <= i < self.n() implies #[trigger] root(
                self.parent@,
                self.depth@,
                i,
            ) == old(self).root_of(i) by {
                assert(self.root_of(i) == mid.root_of(i));
                assert(mid.root_of(i) == old(self).root_of(i));
            }
        }
        if ra == rb {
            return false;
        }
        let (child, top) = if self.rank[ra] < self.rank[rb] {
            (ra, rb)
        } else {
            (rb, ra)
        };
        let ghost before_parent = self.parent@;
        let ghost before_depth = self.depth@;
        proof {
            lemma_root(before_parent, before_depth, a as int);
            lemma_root(before_parent, before_depth, b as int);
            assert(root(before_parent, before_depth, a as int) == ra);
            assert(root(before_parent, before_depth, b as int) == rb);
            lemma_link(before_parent, before_depth, child as int, top as int);
        }
        let ghost new_depth = linked_depth(before_parent, before_depth, child as int, top as int);
        if self.rank[child] == self.rank[top] && self.rank[top] < usize::MAX {
            let bumped = self.rank[top] + 1;
            self.rank.set(top, bumped);
        }
        self.parent.set(child, top);
        self.depth = Ghost(new_depth);
        proof {
            assert(self.parent@ == before_parent.update(child as int, top));
            assert forall|x: int, y: int|
                0 <= x < old(self).n() && 0 <= y < old(self).n() implies (#[trigger] self.same(x, y)
                <==> old(self).same(x, y) || (old(self).same(x, a as int) && old(self).same(
                y,
                b as int,
            )) || (old(self).same(x, b as int) && old(self).same(y, a as int))) by {
                let rx = root(before_parent, before_depth, x);
                let ry = root(before_parent, before_depth, y);
                assert(rx == old(self).root_of(x));
                assert(ry == old(self).root_of(y));
                assert(root(self.parent@, self.depth@, x) == if rx == child {
                    top as int
                } else {
                    rx
                });
                assert(root(self.parent@, self.depth@, y) == if ry == child {
                    top as int
                } else {
                    ry
                });
            }
        }
        true
    }
}

} // verus!
