//! Spanning forests over the figures, picked from weighted joins.

use vstd::prelude::*;
use crate::dsu::Dsu;
use crate::placement::side_in_range;
use crate::surface_placer::links;
use crate::utils::Side;

verus! {

/// Whether the figures `a` and `b` are connected by the first `k` pairs of
/// `pairs`, read as links between the figures of their two sides.
pub open spec fn connected_upto(pairs: Seq<(Side, Side)>, k: int, a: int, b: int) -> bool
    decreases k,
{
    if k <= 0 {
        a == b
    } else {
        let u = pairs[k - 1].0.fig as int;
        let v = pairs[k - 1].1.fig as int;
        connected_upto(pairs, k - 1, a, b) || (connected_upto(pairs, k - 1, a, u) && connected_upto(
            pairs,
            k - 1,
            b,
            v,
        )) || (connected_upto(pairs, k - 1, a, v) && connected_upto(pairs, k - 1, b, u))
    }
}

/// The pairs among the first `k` that link two figures which the pairs
/// before them do not connect: the edges of a spanning forest, as Kruskal's
/// algorithm picks them from pairs sorted by weight.
pub open spec fn forest_upto(pairs: Seq<(Side, Side)>, k: int) -> Seq<(Side, Side)>
    decreases k,
{
    if k <= 0 {
        Seq::empty()
    } else if connected_upto(pairs, k - 1, pairs[k - 1].0.fig as int, pairs[k - 1].1.fig as int) {
        forest_upto(pairs, k - 1)
    } else {
        forest_upto(pairs, k - 1).push(pairs[k - 1])
    }
}

/// Every pair names sides of two of `n` figures.
pub open spec fn pairs_in_range(pairs: Seq<(Side, Side)>, n: int) -> bool {
    forall|i: int|
        0 <= i < pairs.len() ==> side_in_range((#[trigger] pairs[i]).0, n) && side_in_range(
            pairs[i].1,
            n,
        )
}

/// Picks the edges of a spanning forest from pairs sorted by weight: a pair
/// is taken if the pairs before it do not yet connect its two figures.
pub fn spanning_forest(n: usize, pairs: &Vec<(Side, Side)>) -> (r: Vec<(Side, Side)>)
    requires
        pairs_in_range(pairs@, n as int),
    ensures
        r@ == forest_upto(pairs@, pairs@.len() as int),
        forall|i: int| 0 <= i < r@.len() ==> pairs@.contains(#[trigger] r@[i]),
        forall|j: int|
            0 <= j < pairs@.len() && (#[trigger] pairs@[j]).0.fig != pairs@[j].1.fig ==> has_tree_edge(
                r@,
                pairs@[j].0.fig,
            ) && has_tree_edge(r@, pairs@[j].1.fig),
{
    let m = pairs.len();
    let mut dsu = Dsu::new(n);
    let mut tree: Vec<(Side, Side)> = Vec::new();
    let mut k: usize = 0;
    while k < m
        invariant
            k <= m,
            m == pairs@.len(),
            pairs_in_range(pairs@, n as int),
            dsu.wf(),
            dsu.n() == n,
            forall|a: int, b: int|
                0 <= a < n && 0 <= b < n ==> (#[trigger] dsu.same(a, b) <==> connected_upto(
                    pairs@,
                    k as int,
                    a,
                    b,
                )),
            tree@ == forest_upto(pairs@, k as int),
            forall|i: int| 0 <= i < tree@.len() ==> pairs@.contains(#[trigger] tree@[i]),
            forall|a: int, b: int|
                0 <= a < n && 0 <= b < n && a != b && #[trigger] dsu.same(a, b) ==> has_tree_edge(
                    tree@,
                    a as usize,
                ),
            forall|j: int|
                0 <= j < k && (#[trigger] pairs@[j]).0.fig != pairs@[j].1.fig ==> has_tree_edge(
                    tree@,
                    pairs@[j].0.fig,
                ) && has_tree_edge(tree@, pairs@[j].1.fig),
        decreases m - k,
    {
        let (s1, s2) = pairs[k];
        assert(side_in_range(pairs@[k as int].0, n as int));
        let ghost before = dsu;
        let ghost tree_before = tree@;
        if dsu.unite(s1.fig, s2.fig) {
            tree.push((s1, s2));
            proof {
                assert(touches(tree@, tree_before.len() as int, s1.fig));
                assert(touches(tree@, tree_before.len() as int, s2.fig));
                assert forall|v: usize| has_tree_edge(tree_before, v) implies has_tree_edge(
                    tree@,
                    v,
                ) by {
                    let t = choose|t: int| #[trigger] touches(tree_before, t, v);
                    assert(touches(tree@, t, v));
                }
                assert forall|i: int| 0 <= i < tree@.len() implies pairs@.contains(
                    #[trigger] tree@[i],
                ) by {
                    if i < tree_before.len() {
                        assert(tree@[i] == tree_before[i]);
                    } else {
                        assert(pairs@[k as int] == tree@[i]);
                    }
                }
            }
        }
        proof {
            assert forall|a: int, b: int| 0 <= a < n && 0 <= b < n implies (#[trigger] dsu.same(a, b)
                <==> connected_upto(pairs@, k as int + 1, a, b)) by {
                assert(before.same(a, b) <==> connected_upto(pairs@, k as int, a, b));
                assert(before.same(a, s1.fig as int) <==> connected_upto(
                    pairs@,
                    k as int,
                    a,
                    s1.fig as int,
                ));
                assert(before.same(b, s2.fig as int) <==> connected_upto(
                    pairs@,
                    k as int,
                    b,
                    s2.fig as int,
                ));
                assert(before.same(a, s2.fig as int) <==> connected_upto(
                    pairs@,
                    k as int,
                    a,
                    s2.fig as int,
                ));
                assert(before.same(b, s1.fig as int) <==> connected_upto(
                    pairs@,
                    k as int,
                    b,
                    s1.fig as int,
                ));
            }
            assert(before.same(s1.fig as int, s2.fig as int) <==> connected_upto(
                pairs@,
                k as int,
                s1.fig as int,
                s2.fig as int,
            ));
            assert forall|a: int, b: int|
                0 <= a < n && 0 <= b < n && a != b && #[trigger] dsu.same(a, b) implies has_tree_edge(
                tree@,
                a as usize,
            ) by {
                if before.same(a, b) {
                } else if a != s1.fig && a != s2.fig {
                    assert(before.same(a, s1.fig as int) || before.same(a, s2.fig as int));
                }
            }
            assert forall|j: int|
                0 <= j < k + 1 && (#[trigger] pairs@[j]).0.fig != pairs@[j].1.fig implies has_tree_edge(
                tree@,
                pairs@[j].0.fig,
            ) && has_tree_edge(tree@, pairs@[j].1.fig) by {
                if j == k {
                    assert(dsu.same(s1.fig as int, s2.fig as int));
                    assert(dsu.same(s2.fig as int, s1.fig as int));
                }
            }
        }
        k = k + 1;
    }
    tree
}

/// Whether the pair at index `t` of `tree` has a side on figure `v`.
pub open spec fn touches(tree: Seq<(Side, Side)>, t: int, v: usize) -> bool {
    0 <= t < tree.len() && (tree[t].0.fig == v || tree[t].1.fig == v)
}

/// Whether some pair of `tree` has a side on figure `v`.
pub open spec fn has_tree_edge(tree: Seq<(Side, Side)>, v: usize) -> bool {
    exists|t: int| #[trigger] touches(tree, t, v)
}

} // verus!
