//! Seeding: which sides to join before the pieces are placed.

use vstd::prelude::*;
use crate::borders_graph::{
    adj_score, Edge, Graph, is_graph_of, lemma_perfect_mates_have_edge, perfect_mates,
};
use crate::parsed_puzzles::ParsedPuzzles;
use crate::graph_solver::{fmax4, Four, max4};
use crate::placement::{Placement, side_in_range};
use crate::score_table::{SideTable, table_fits};
use crate::sorting::{is_stable_order, key_before, lemma_stable_order_covers, stable_order};
use crate::utils::Side;

verus! {

/// Greedy seeding joins no edge with a score above this: 2 square pixels.
pub const GREEDY_MAX_SCORE: u64 = 2_000_000;

/// The scores of a sequence of edges.
pub open spec fn edge_scores(edges: Seq<Edge>) -> Seq<u64> {
    Seq::new(edges.len(), |i: int| edges[i].score)
}

/// Whether greedy seeding joins the two sides of the edge that has the
/// `k`-th turn (counted from 1): its score is within the limit, its sides
/// belong to two of the `n` figures, and both are still free.
pub open spec fn greedy_joins(edges: Seq<Edge>, order: Seq<usize>, n: int, k: int) -> bool
    decreases k, 0int,
{
    let e = edges[order[k - 1] as int];
    &&& k >= 1
    &&& e.score <= GREEDY_MAX_SCORE
    &&& side_in_range(e.sides_spec().0, n)
    &&& side_in_range(e.sides_spec().1, n)
    &&& e.fig1 != e.fig2
    &&& greedy_partner(edges, order, n, k - 1, e.sides_spec().0) is None
    &&& greedy_partner(edges, order, n, k - 1, e.sides_spec().1) is None
}

/// What the side `s` is joined to after the first `k` edges, taken in the
/// order `order`, have had their turn.
pub open spec fn greedy_partner(edges: Seq<Edge>, order: Seq<usize>, n: int, k: int, s: Side) -> Option<
    Side,
>
    decreases k, 1int,
{
    if k <= 0 {
        None
    } else if greedy_joins(edges, order, n, k) && s == edges[order[k - 1] as int].sides_spec().0 {
        Some(edges[order[k - 1] as int].sides_spec().1)
    } else if greedy_joins(edges, order, n, k) && s == edges[order[k - 1] as int].sides_spec().1 {
        Some(edges[order[k - 1] as int].sides_spec().0)
    } else {
        greedy_partner(edges, order, n, k - 1, s)
    }
}

/// `p` is the placement that greedy seeding gives for the edges `edges`
/// among `n` figures: the edges take their turns in the order of a stable
/// sort by score.
pub open spec fn is_greedy_placement(edges: Seq<Edge>, n: int, p: Placement) -> bool {
    exists|order: Seq<usize>| #[trigger]
        is_stable_order(edge_scores(edges), order) && forall|s: Side| #[trigger]
            p.partner(s) == greedy_partner(edges, order, n, order.len() as int, s)
}

/// Whether two edges have a side in common.
pub open spec fn shares_side(a: Edge, b: Edge) -> bool {
    a.sides_spec().0 == b.sides_spec().0 || a.sides_spec().0 == b.sides_spec().1 || a.sides_spec().1
        == b.sides_spec().0 || a.sides_spec().1 == b.sides_spec().1
}

/// Whether two edges connect the same two sides, in either order.
pub open spec fn same_pair(a: Edge, b: Edge) -> bool {
    (a.sides_spec().0 == b.sides_spec().0 && a.sides_spec().1 == b.sides_spec().1) || (a.sides_spec().0
        == b.sides_spec().1 && a.sides_spec().1 == b.sides_spec().0)
}

/// The edge at index `i` comes first among its rivals: every edge that has
/// a side in common with it, but does not connect the same two sides, has
/// its turn after it when the edges are sorted by score, edges of equal
/// score in their order.
pub open spec fn first_among_rivals(edges: Seq<Edge>, i: int) -> bool {
    forall|j: int|
        0 <= j < edges.len() && shares_side(#[trigger] edges[j], edges[i]) && !same_pair(
            edges[j],
            edges[i],
        ) ==> key_before(edge_scores(edges), i, j)
}

/// While the edges take their turns, the two sides of an edge that comes
/// first among its rivals are both free or joined to each other, and they
/// are joined once the edge has had its turn, which is turn `pos + 1`.
proof fn lemma_greedy_pair(edges: Seq<Edge>, order: Seq<usize>, n: int, i: int, pos: int, k: int)
    requires
        is_stable_order(edge_scores(edges), order),
        0 <= i < edges.len(),
        0 <= pos < order.len(),
        order[pos] == i,
        0 <= k <= order.len(),
        edges[i].score <= GREEDY_MAX_SCORE,
        edges[i].wf(n),
        edges[i].fig1 != edges[i].fig2,
        first_among_rivals(edges, i),
    ensures
        ({
            let a = greedy_partner(edges, order, n, k, edges[i].sides_spec().0);
            let b = greedy_partner(edges, order, n, k, edges[i].sides_spec().1);
            &&& (a is None && b is None) || (a == Some(edges[i].sides_spec().1) && b == Some(
                edges[i].sides_spec().0,
            ))
            &&& k > pos ==> a is Some
        }),
    decreases k,
{
    if k > 0 {
        lemma_greedy_pair(edges, order, n, i, pos, k - 1);
        let e = edges[i];
        let j = order[k - 1] as int;
        let f = edges[j];
        assert(order[k - 1] < edges.len());
        if greedy_joins(edges, order, n, k) && shares_side(f, e) && !same_pair(f, e) {
            assert(key_before(edge_scores(edges), i, j));
            if k - 1 < pos {
                assert(key_before(edge_scores(edges), order[k - 1] as int, order[pos] as int));
            }
        }
    }
}

/// Greedy seeding joins the two sides of an edge between two figures whose
/// score is within the limit and which comes first among its rivals: no
/// edge that has a side in common with it has a lower score, or the same
/// score and an earlier place among the edges.
pub proof fn lemma_greedy_joins_the_best(edges: Seq<Edge>, n: int, p: Placement, i: usize)
    requires
        is_greedy_placement(edges, n, p),
        i < edges.len(),
        edges[i as int].score <= GREEDY_MAX_SCORE,
        edges[i as int].wf(n),
        edges[i as int].fig1 != edges[i as int].fig2,
        first_among_rivals(edges, i as int),
    ensures
        p.partner(edges[i as int].sides_spec().0) == Some(edges[i as int].sides_spec().1),
        p.partner(edges[i as int].sides_spec().1) == Some(edges[i as int].sides_spec().0),
{
    let order = choose|order: Seq<usize>| #[trigger]
        is_stable_order(edge_scores(edges), order) && forall|s: Side| #[trigger]
            p.partner(s) == greedy_partner(edges, order, n, order.len() as int, s);
    lemma_stable_order_covers(edge_scores(edges), order, i as int);
    let pos = choose|pos: int| 0 <= pos < order.len() && order[pos] == i;
    lemma_greedy_pair(edges, order, n, i as int, pos, order.len() as int);
}

/// Whether the edge `e` is a rival of the pair of `s1` and `s2`: it has one
/// of the two sides, but does not connect them.
pub open spec fn rival_of(e: Edge, s1: Side, s2: Side) -> bool {
    &&& e.sides_spec().0 == s1 || e.sides_spec().0 == s2 || e.sides_spec().1 == s1 || e.sides_spec().1
        == s2
    &&& e.sides_spec() != (s1, s2)
    &&& e.sides_spec() != (s2, s1)
}

/// Greedy seeding joins the two sides of an edge with the score zero
/// between two figures, where every rival of the pair has a score above
/// zero.
pub proof fn lemma_greedy_joins_a_perfect_edge(
    edges: Seq<Edge>,
    n: int,
    p: Placement,
    i: usize,
    s1: Side,
    s2: Side,
)
    requires
        is_greedy_placement(edges, n, p),
        i < edges.len(),
        edges[i as int].sides_spec() == (s1, s2),
        edges[i as int].score == 0,
        side_in_range(s1, n),
        side_in_range(s2, n),
        s1.fig != s2.fig,
        forall|j: int| 0 <= j < edges.len() && rival_of(#[trigger] edges[j], s1, s2) ==> edges[j].score > 0,
    ensures
        p.partner(s1) == Some(s2),
        p.partner(s2) == Some(s1),
{
    assert forall|j: int|
        0 <= j < edges.len() && shares_side(#[trigger] edges[j], edges[i as int]) && !same_pair(
            edges[j],
            edges[i as int],
        ) implies key_before(edge_scores(edges), i as int, j) by {
        assert(rival_of(edges[j], s1, s2));
    }
    lemma_greedy_joins_the_best(edges, n, p, i);
}

/// Greedy seeding joins two sides that mate perfectly: the graph of all
/// sides holds an edge with the score zero for them, and seeding joins
/// them, provided that every rival of the pair has a score above zero.
pub proof fn lemma_greedy_joins_perfect_mates(
    puzzles: ParsedPuzzles,
    g: Graph,
    p: Placement,
    s1: Side,
    s2: Side,
)
    requires
        is_graph_of(puzzles, false, g),
        is_greedy_placement(g.all_edges@, g.n as int, p),
        perfect_mates(puzzles, s1, s2),
        forall|j: int|
            0 <= j < g.all_edges@.len() && rival_of(#[trigger] g.all_edges@[j], s1, s2)
                ==> g.all_edges@[j].score > 0,
    ensures
        p.partner(s1) == Some(s2),
        p.partner(s2) == Some(s1),
{
    let edges = g.all_edges@;
    lemma_perfect_mates_have_edge(puzzles, g, s1, s2);
    let i = choose|i: int| 0 <= i < edges.len() && (#[trigger] edges[i]).sides_spec() == (s1, s2) && edges[i].score == 0;
    assert(edges.len() == g.all_edges.len());
    let at = i as usize;
    assert(at as int == i);
    lemma_greedy_joins_a_perfect_edge(edges, g.n as int, p, at, s1, s2);
}

/// Once the scores exceed the limit, no later edge is joined.
proof fn lemma_greedy_rest(edges: Seq<Edge>, order: Seq<usize>, n: int, k: int, m: int, s: Side)
    requires
        is_stable_order(edge_scores(edges), order),
        0 <= k <= m <= order.len(),
        k < order.len() ==> edges[order[k] as int].score > GREEDY_MAX_SCORE,
    ensures
        greedy_partner(edges, order, n, m, s) == greedy_partner(edges, order, n, k, s),
    decreases m,
{
    if m > k {
        lemma_greedy_rest(edges, order, n, k, m - 1, s);
        if m - 1 > k {
            assert(key_before(edge_scores(edges), order[k] as int, order[m - 1] as int));
        }
        assert(order[m - 1] < edges.len() && order[k] < edges.len());
        assert(edge_scores(edges)[order[m - 1] as int] == edges[order[m - 1] as int].score);
        assert(edge_scores(edges)[order[k] as int] == edges[order[k] as int].score);
        assert(edges[order[m - 1] as int].score > GREEDY_MAX_SCORE);
        assert(!greedy_joins(edges, order, n, m));
    }
}

/// Greedy seeding: the edges are taken in the order of their scores, the
/// best first, and the two sides of an edge are joined if both are still
/// free; the first edge with a score above `GREEDY_MAX_SCORE` ends it.
pub fn greedy_placement(graph: &Graph) -> (r: Placement)
    ensures
        r.wf(),
        r.n() == graph.n,
        is_greedy_placement(graph.all_edges@, graph.n as int, r),
{
    let m = graph.all_edges.len();
    let mut keys: Vec<u64> = Vec::new();
    let mut i: usize = 0;
    while i < m
        invariant
            i <= m,
            m == graph.all_edges@.len(),
            keys@.len() == i,
            forall|j: int| 0 <= j < i ==> (#[trigger] keys@[j]) == graph.all_edges@[j].score,
        decreases m - i,
    {
        keys.push(graph.all_edges[i].score);
        i = i + 1;
    }
    assert(keys@ =~= edge_scores(graph.all_edges@));
    let order = stable_order(&keys);
    let mut placement = Placement::new(graph.n);
    let mut k: usize = 0;
    while k < m
        invariant_except_break
            k <= m,
            forall|s: Side| #[trigger]
                placement.partner(s) == greedy_partner(
                    graph.all_edges@,
                    order@,
                    graph.n as int,
                    k as int,
                    s,
                ),
        invariant
            m == graph.all_edges@.len(),
            is_stable_order(edge_scores(graph.all_edges@), order@),
            placement.wf(),
            placement.n() == graph.n,
        ensures
            forall|s: Side| #[trigger]
                placement.partner(s) == greedy_partner(
                    graph.all_edges@,
                    order@,
                    graph.n as int,
                    m as int,
                    s,
                ),
        decreases m - k,
    {
        let e = graph.all_edges[order[k]];
        if e.score > GREEDY_MAX_SCORE {
            proof {
                assert forall|s: Side| #[trigger]
                    placement.partner(s) == greedy_partner(
                        graph.all_edges@,
                        order@,
                        graph.n as int,
                        m as int,
                        s,
                    ) by {
                    lemma_greedy_rest(
                        graph.all_edges@,
                        order@,
                        graph.n as int,
                        k as int,
                        m as int,
                        s,
                    );
                }
            }
            break;
        }
        let (s1, s2) = e.sides();
        let ghost before = placement;
        let joined = placement.join_sides(s1, s2);
        proof {
            assert(joined == greedy_joins(graph.all_edges@, order@, graph.n as int, k as int + 1));
            assert forall|s: Side| #[trigger]
                placement.partner(s) == greedy_partner(
                    graph.all_edges@,
                    order@,
                    graph.n as int,
                    k as int + 1,
                    s,
                ) by {
                assert(before.partner(s) == greedy_partner(
                    graph.all_edges@,
                    order@,
                    graph.n as int,
                    k as int,
                    s,
                ));
            }
        }
        k = k + 1;
    }
    placement
}

/// Every joint of a seed block must score below this: 3 square pixels.
pub const FOUR_MAX_SCORE: u64 = 3_000_000;

/// The scores that `score` gives to the four joints of a block.
pub open spec fn four_scores(score: spec_fn(Side, Side) -> u64, f: Four) -> Seq<u64> {
    seq![
        score(f.s0, f.s1.opposite_spec()),
        score(f.s0.next_spec(), f.s2.prev_spec()),
        score(f.s1.next_spec(), f.s3.prev_spec()),
        score(f.s2, f.s3.opposite_spec()),
    ]
}

/// The scores of a table as a function of two sides.
pub open spec fn table_scores(t: SideTable) -> spec_fn(Side, Side) -> u64 {
    |a: Side, b: Side| t.value(a, b)
}

/// The scores of a sequence of edges as a function of two sides.
pub open spec fn graph_scores(edges: Seq<Edge>) -> spec_fn(Side, Side) -> u64 {
    |a: Side, b: Side| adj_score(edges, a, b)
}

/// `f` is a seed block among `n` figures with the scores `score`: its sides
/// are sides of these figures, the first and the last on different figures,
/// each of its joints scores below `FOUR_MAX_SCORE`, and its `max_dist` is
/// the worst of these scores.
pub open spec fn is_four(score: spec_fn(Side, Side) -> u64, n: int, f: Four) -> bool {
    let d = four_scores(score, f);
    &&& side_in_range(f.s0, n)
    &&& side_in_range(f.s1, n)
    &&& side_in_range(f.s2, n)
    &&& side_in_range(f.s3, n)
    &&& f.s0.fig != f.s3.fig
    &&& d[0] < FOUR_MAX_SCORE
    &&& d[1] < FOUR_MAX_SCORE
    &&& d[2] < FOUR_MAX_SCORE
    &&& d[3] < FOUR_MAX_SCORE
    &&& f.max_dist == max4(d)
}

/// The positions of the four sides of a block in the enumeration of all
/// sides.
pub open spec fn four_key(f: Four) -> (int, int, int, int) {
    (f.s0.index_spec(), f.s1.index_spec(), f.s2.index_spec(), f.s3.index_spec())
}

/// The order of quadruples: by the first component, then the second, the
/// third, the fourth.
pub open spec fn key_lt(a: (int, int, int, int), b: (int, int, int, int)) -> bool {
    a.0 < b.0 || (a.0 == b.0 && (a.1 < b.1 || (a.1 == b.1 && (a.2 < b.2 || (a.2 == b.2 && a.3
        < b.3)))))
}

/// The blocks are in strictly increasing order of their sides.
pub open spec fn fours_sorted(fs: Seq<Four>) -> bool {
    forall|i: int, j: int|
        0 <= i < j < fs.len() ==> key_lt(four_key(#[trigger] fs[i]), four_key(#[trigger] fs[j]))
}

/// `fs` holds, in order, exactly the seed blocks whose sides come before
/// `cursor`.
pub open spec fn fours_upto(
    score: spec_fn(Side, Side) -> u64,
    n: int,
    fs: Seq<Four>,
    cursor: (int, int, int, int),
) -> bool {
    &&& fours_sorted(fs)
    &&& forall|i: int|
        0 <= i < fs.len() ==> is_four(score, n, #[trigger] fs[i]) && key_lt(four_key(fs[i]), cursor)
    &&& forall|f: Four| #[trigger]
        is_four(score, n, f) && key_lt(four_key(f), cursor) ==> fs.contains(f)
}

/// `fs` holds, in the order of their sides, exactly the seed blocks among
/// `n` figures with the scores `score`.
pub open spec fn is_all_fours(score: spec_fn(Side, Side) -> u64, n: int, fs: Seq<Four>) -> bool {
    &&& fours_sorted(fs)
    &&& forall|i: int| 0 <= i < fs.len() ==> is_four(score, n, #[trigger] fs[i])
    &&& forall|f: Four| #[trigger] is_four(score, n, f) ==> fs.contains(f)
}

proof fn lemma_fours_skip(
    score: spec_fn(Side, Side) -> u64,
    n: int,
    fs: Seq<Four>,
    from: (int, int, int, int),
    to: (int, int, int, int),
)
    requires
        fours_upto(score, n, fs, from),
        key_lt(from, to) || from == to,
        forall|f: Four| #[trigger]
            is_four(score, n, f) && key_lt(four_key(f), to) ==> key_lt(four_key(f), from),
    ensures
        fours_upto(score, n, fs, to),
{
}

proof fn lemma_fours_push(
    score: spec_fn(Side, Side) -> u64,
    n: int,
    fs: Seq<Four>,
    f: Four,
    from: (int, int, int, int),
    to: (int, int, int, int),
)
    requires
        fours_upto(score, n, fs, from),
        is_four(score, n, f),
        four_key(f) == from,
        key_lt(from, to),
        forall|g: Four| #[trigger]
            is_four(score, n, g) && key_lt(four_key(g), to) ==> key_lt(four_key(g), from) || g == f,
    ensures
        fours_upto(score, n, fs.push(f), to),
{
    let fs2 = fs.push(f);
    assert forall|i: int, j: int| 0 <= i < j < fs2.len() implies key_lt(
        four_key(#[trigger] fs2[i]),
        four_key(#[trigger] fs2[j]),
    ) by {
        if j < fs.len() {
            assert(fs2[i] == fs[i] && fs2[j] == fs[j]);
        } else {
            assert(fs2[i] == fs[i]);
        }
    }
    assert forall|i: int| 0 <= i < fs2.len() implies is_four(score, n, #[trigger] fs2[i]) && key_lt(
        four_key(fs2[i]),
        to,
    ) by {
        if i < fs.len() {
            assert(fs2[i] == fs[i]);
        }
    }
    assert forall|g: Four| #[trigger]
        is_four(score, n, g) && key_lt(four_key(g), to) implies fs2.contains(g) by {
        if g == f {
            assert(fs2[fs.len() as int] == g);
        } else {
            assert(fs.contains(g));
            let i = choose|i: int| 0 <= i < fs.len() && fs[i] == g;
            assert(fs2[i] == g);
        }
    }
}

/// All sides of `n` figures, four per figure, in order.
fn list_sides(n: usize) -> (r: Vec<Side>)
    requires
        table_fits(n),
    ensures
        r@.len() == 4 * n,
        forall|k: int|
            0 <= k < r@.len() ==> (#[trigger] r@[k]).index_spec() == k && side_in_range(r@[k], n as int),
{
    assert(4 * n <= n * n * 128) by (nonlinear_arith);
    let mut sides: Vec<Side> = Vec::new();
    let mut fig: usize = 0;
    while fig < n
        invariant
            fig <= n,
            4 * n <= usize::MAX,
            sides@.len() == 4 * fig,
            forall|k: int|
                0 <= k < sides@.len() ==> (#[trigger] sides@[k]).index_spec() == k && side_in_range(
                    sides@[k],
                    n as int,
                ),
        decreases n - fig,
    {
        sides.push(Side { fig, side: 0 });
        sides.push(Side { fig, side: 1 });
        sides.push(Side { fig, side: 2 });
        sides.push(Side { fig, side: 3 });
        fig = fig + 1;
    }
    sides
}

/// A side in range is fixed by its position in the enumeration of sides.
proof fn lemma_index_fixes_side(a: Side, b: Side, n: int)
    requires
        side_in_range(a, n),
        side_in_range(b, n),
        a.index_spec() == b.index_spec(),
    ensures
        a == b,
{
}

/// One step of the enumeration: the blocks before the cursor, with the
/// block at the cursor added if there is one, are the blocks before the
/// next cursor.
proof fn lemma_four_step(
    score: spec_fn(Side, Side) -> u64,
    n: int,
    fs: Seq<Four>,
    found: Option<Four>,
    s0: Side,
    s1: Side,
    s2: Side,
    s3: Side,
)
    requires
        fours_upto(score, n, fs, (s0.index_spec(), s1.index_spec(), s2.index_spec(), s3.index_spec())),
        side_in_range(s0, n),
        side_in_range(s1, n),
        side_in_range(s2, n),
        side_in_range(s3, n),
        found matches Some(f) ==> is_four(score, n, f) && f.s0 == s0 && f.s1 == s1 && f.s2 == s2
            && f.s3 == s3,
        found is None ==> forall|g: Four|
            g.s0 == s0 && g.s1 == s1 && g.s2 == s2 && g.s3 == s3 ==> !#[trigger] is_four(score, n, g),
    ensures
        fours_upto(
            score,
            n,
            match found {
                Some(f) => fs.push(f),
                None => fs,
            },
            (s0.index_spec(), s1.index_spec(), s2.index_spec(), s3.index_spec() + 1),
        ),
{
    let from = (s0.index_spec(), s1.index_spec(), s2.index_spec(), s3.index_spec());
    let to = (s0.index_spec(), s1.index_spec(), s2.index_spec(), s3.index_spec() + 1);
    assert forall|g: Four| #[trigger] is_four(score, n, g) && key_lt(four_key(g), to) && !key_lt(
        four_key(g),
        from,
    ) implies g.s0 == s0 && g.s1 == s1 && g.s2 == s2 && g.s3 == s3 by {
        lemma_index_fixes_side(g.s0, s0, n);
        lemma_index_fixes_side(g.s1, s1, n);
        lemma_index_fixes_side(g.s2, s2, n);
        lemma_index_fixes_side(g.s3, s3, n);
    }
    match found {
        Some(f) => {
            assert forall|g: Four| #[trigger]
                is_four(score, n, g) && key_lt(four_key(g), to) implies key_lt(four_key(g), from)
                || g == f by {
                if !key_lt(four_key(g), from) {
                    assert(four_scores(score, g) =~= four_scores(score, f));
                }
            }
            lemma_fours_push(score, n, fs, f, from, to);
        },
        None => {
            lemma_fours_skip(score, n, fs, from, to);
        },
    }
}

/// Where the joint of the first two sides scores too high, no block starts
/// with these two sides.
proof fn lemma_four_prune2(
    score: spec_fn(Side, Side) -> u64,
    n: int,
    fs: Seq<Four>,
    s0: Side,
    s1: Side,
)
    requires
        fours_upto(score, n, fs, (s0.index_spec(), s1.index_spec(), 0, 0)),
        side_in_range(s0, n),
        side_in_range(s1, n),
        score(s0, s1.opposite_spec()) >= FOUR_MAX_SCORE,
    ensures
        fours_upto(score, n, fs, (s0.index_spec(), s1.index_spec() + 1, 0, 0)),
{
    let from = (s0.index_spec(), s1.index_spec(), 0int, 0int);
    let to = (s0.index_spec(), s1.index_spec() + 1, 0int, 0int);
    assert forall|g: Four| #[trigger] is_four(score, n, g) && key_lt(four_key(g), to) implies key_lt(
        four_key(g),
        from,
    ) by {
        if !key_lt(four_key(g), from) {
            lemma_index_fixes_side(g.s0, s0, n);
            lemma_index_fixes_side(g.s1, s1, n);
        }
    }
    lemma_fours_skip(score, n, fs, from, to);
}

/// Where the joint of the first and the third side scores too high, no
/// block starts with these three sides.
proof fn lemma_four_prune3(
    score: spec_fn(Side, Side) -> u64,
    n: int,
    fs: Seq<Four>,
    s0: Side,
    s1: Side,
    s2: Side,
)
    requires
        fours_upto(score, n, fs, (s0.index_spec(), s1.index_spec(), s2.index_spec(), 0)),
        side_in_range(s0, n),
        side_in_range(s1, n),
        side_in_range(s2, n),
        score(s0.next_spec(), s2.prev_spec()) >= FOUR_MAX_SCORE,
    ensures
        fours_upto(score, n, fs, (s0.index_spec(), s1.index_spec(), s2.index_spec() + 1, 0)),
{
    let from = (s0.index_spec(), s1.index_spec(), s2.index_spec(), 0int);
    let to = (s0.index_spec(), s1.index_spec(), s2.index_spec() + 1, 0int);
    assert forall|g: Four| #[trigger] is_four(score, n, g) && key_lt(four_key(g), to) implies key_lt(
        four_key(g),
        from,
    ) by {
        if !key_lt(four_key(g), from) {
            lemma_index_fixes_side(g.s0, s0, n);
            lemma_index_fixes_side(g.s2, s2, n);
        }
    }
    lemma_fours_skip(score, n, fs, from, to);
}

/// No side has a position at or beyond the number of sides: a cursor whose
/// last moving component has reached that number stands for the next value
/// of the component before it.
proof fn lemma_four_carry(
    score: spec_fn(Side, Side) -> u64,
    n: int,
    fs: Seq<Four>,
    from: (int, int, int, int),
    to: (int, int, int, int),
)
    requires
        fours_upto(score, n, fs, from),
        (from.3 == 4 * n && to == (from.0, from.1, from.2 + 1, 0int)) || (from.2 == 4 * n && from.3
            == 0 && to == (from.0, from.1 + 1, 0int, 0int)) || (from.1 == 4 * n && from.2 == 0
            && from.3 == 0 && to == (from.0 + 1, 0int, 0int, 0int)),
    ensures
        fours_upto(score, n, fs, to),
{
    lemma_fours_skip(score, n, fs, from, to);
}

/// The block of the four sides, if they form one.
fn probe_four(dist: &SideTable, s0: Side, s1: Side, s2: Side, s3: Side, d0: u64, d1: u64) -> (r:
    Option<Four>)
    requires
        dist.wf(),
        side_in_range(s0, dist.n()),
        side_in_range(s1, dist.n()),
        side_in_range(s2, dist.n()),
        side_in_range(s3, dist.n()),
        d0 == dist.value(s0, s1.opposite_spec()),
        d1 == dist.value(s0.next_spec(), s2.prev_spec()),
        d0 < FOUR_MAX_SCORE,
        d1 < FOUR_MAX_SCORE,
    ensures
        r matches Some(f) ==> is_four(table_scores(*dist), dist.n(), f) && f.s0 == s0 && f.s1 == s1
            && f.s2 == s2 && f.s3 == s3,
        r is None ==> forall|g: Four|
            g.s0 == s0 && g.s1 == s1 && g.s2 == s2 && g.s3 == s3 ==> !#[trigger] is_four(
                table_scores(*dist),
                dist.n(),
                g,
            ),
{
    if s0.fig == s3.fig {
        return None;
    }
    let d2 = dist.get(s1.next(), s3.prev());
    let d3 = dist.get(s2, s3.opposite());
    if d2 >= FOUR_MAX_SCORE || d3 >= FOUR_MAX_SCORE {
        return None;
    }
    let four = Four { s0, s1, s2, s3, max_dist: fmax4([d0, d1, d2, d3]) };
    proof {
        assert(four_scores(table_scores(*dist), four) =~= seq![d0, d1, d2, d3]);
        assert([d0, d1, d2, d3]@ =~= seq![d0, d1, d2, d3]);
    }
    Some(four)
}

/// Finds all seed blocks of a score table, ordered by their sides.
pub fn find_fours(dist: &SideTable) -> (r: Vec<Four>)
    requires
        dist.wf(),
    ensures
        is_all_fours(table_scores(*dist), dist.n(), r@),
{
    let n = dist.len();
    let ghost score = table_scores(*dist);
    let sides = list_sides(n);
    let len = sides.len();
    let mut fours: Vec<Four> = Vec::new();
    let mut k0: usize = 0;
    while k0 < len
        invariant
            k0 <= len,
            len == 4 * n,
            len == sides@.len(),
            n == dist.n(),
            dist.wf(),
            score == table_scores(*dist),
            forall|k: int|
                0 <= k < sides@.len() ==> (#[trigger] sides@[k]).index_spec() == k && side_in_range(
                    sides@[k],
                    n as int,
                ),
            fours_upto(score, n as int, fours@, (k0 as int, 0, 0, 0)),
        decreases len - k0,
    {
        let s0 = sides[k0];
        let mut k1: usize = 0;
        while k1 < len
            invariant
                k0 < len,
                k1 <= len,
                len == 4 * n,
                len == sides@.len(),
                n == dist.n(),
                dist.wf(),
                score == table_scores(*dist),
                s0 == sides@[k0 as int],
                forall|k: int|
                    0 <= k < sides@.len() ==> (#[trigger] sides@[k]).index_spec() == k
                        && side_in_range(sides@[k], n as int),
                fours_upto(score, n as int, fours@, (k0 as int, k1 as int, 0, 0)),
            decreases len - k1,
        {
            let s1 = sides[k1];
            let d0 = dist.get(s0, s1.opposite());
            if d0 < FOUR_MAX_SCORE {
                let mut k2: usize = 0;
                while k2 < len
                    invariant
                        k0 < len,
                        k1 < len,
                        k2 <= len,
                        len == 4 * n,
                        len == sides@.len(),
                        n == dist.n(),
                        dist.wf(),
                        score == table_scores(*dist),
                        s0 == sides@[k0 as int],
                        s1 == sides@[k1 as int],
                        d0 == dist.value(s0, s1.opposite_spec()),
                        d0 < FOUR_MAX_SCORE,
                        forall|k: int|
                            0 <= k < sides@.len() ==> (#[trigger] sides@[k]).index_spec() == k
                                && side_in_range(sides@[k], n as int),
                        fours_upto(score, n as int, fours@, (k0 as int, k1 as int, k2 as int, 0)),
                    decreases len - k2,
                {
                    let s2 = sides[k2];
                    let d1 = dist.get(s0.next(), s2.prev());
                    if d1 < FOUR_MAX_SCORE {
                        let mut k3: usize = 0;
                        while k3 < len
                            invariant
                                k0 < len,
                                k1 < len,
                                k2 < len,
                                k3 <= len,
                                len == 4 * n,
                                len == sides@.len(),
                                n == dist.n(),
                                dist.wf(),
                                score == table_scores(*dist),
                                s0 == sides@[k0 as int],
                                s1 == sides@[k1 as int],
                                s2 == sides@[k2 as int],
                                d0 == dist.value(s0, s1.opposite_spec()),
                                d1 == dist.value(s0.next_spec(), s2.prev_spec()),
                                d0 < FOUR_MAX_SCORE,
                                d1 < FOUR_MAX_SCORE,
                                forall|k: int|
                                    0 <= k < sides@.len() ==> (#[trigger] sides@[k]).index_spec()
                                        == k && side_in_range(sides@[k], n as int),
                                fours_upto(
                                    score,
                                    n as int,
                                    fours@,
                                    (k0 as int, k1 as int, k2 as int, k3 as int),
                                ),
                            decreases len - k3,
                        {
                            let s3 = sides[k3];
                            let found = probe_four(dist, s0, s1, s2, s3, d0, d1);
                            proof {
                                lemma_four_step(score, n as int, fours@, found, s0, s1, s2, s3);
                            }
                            match found {
                                Some(four) => {
                                    fours.push(four);
                                },
                                None => {},
                            }
                            k3 = k3 + 1;
                        }
                        proof {
                            lemma_four_carry(
                                score,
                                n as int,
                                fours@,
                                (k0 as int, k1 as int, k2 as int, len as int),
                                (k0 as int, k1 as int, k2 as int + 1, 0),
                            );
                        }
                    } else {
                        proof {
                            lemma_four_prune3(score, n as int, fours@, s0, s1, s2);
                        }
                    }
                    k2 = k2 + 1;
                }
                proof {
                    lemma_four_carry(
                        score,
                        n as int,
                        fours@,
                        (k0 as int, k1 as int, len as int, 0),
                        (k0 as int, k1 as int + 1, 0, 0),
                    );
                }
            } else {
                proof {
                    lemma_four_prune2(score, n as int, fours@, s0, s1);
                }
            }
            k1 = k1 + 1;
        }
        proof {
            lemma_four_carry(
                score,
                n as int,
                fours@,
                (k0 as int, len as int, 0, 0),
                (k0 as int + 1, 0, 0, 0),
            );
        }
        k0 = k0 + 1;
    }
    fours
}

/// Whether `v` is one of the four figures of the block.
pub open spec fn has_fig(f: Four, v: usize) -> bool {
    f.s0.fig == v || f.s1.fig == v || f.s2.fig == v || f.s3.fig == v
}

/// The four sides of the block lie on four different figures.
pub open spec fn distinct_figs(f: Four) -> bool {
    &&& f.s0.fig != f.s1.fig
    &&& f.s0.fig != f.s2.fig
    &&& f.s0.fig != f.s3.fig
    &&& f.s1.fig != f.s2.fig
    &&& f.s1.fig != f.s3.fig
    &&& f.s2.fig != f.s3.fig
}

/// Whether the two blocks have a figure in common.
pub open spec fn share_fig(a: Four, b: Four) -> bool {
    has_fig(b, a.s0.fig) || has_fig(b, a.s1.fig) || has_fig(b, a.s2.fig) || has_fig(b, a.s3.fig)
}

/// Whether one of the blocks of `sel` holds the figure `v`.
pub open spec fn fig_used(sel: Seq<Four>, v: usize) -> bool {
    exists|i: int| 0 <= i < sel.len() && has_fig(#[trigger] sel[i], v)
}

/// Whether the block `f` can be selected after the blocks `sel`: its sides
/// lie on four different ones of the `n` figures, none of which is in a
/// block of `sel`.
pub open spec fn acceptable(sel: Seq<Four>, f: Four, n: int) -> bool {
    &&& side_in_range(f.s0, n)
    &&& side_in_range(f.s1, n)
    &&& side_in_range(f.s2, n)
    &&& side_in_range(f.s3, n)
    &&& distinct_figs(f)
    &&& !fig_used(sel, f.s0.fig)
    &&& !fig_used(sel, f.s1.fig)
    &&& !fig_used(sel, f.s2.fig)
    &&& !fig_used(sel, f.s3.fig)
}

/// The blocks selected when the first `k` blocks, taken in the order
/// `order`, have had their turn: each is selected if it is acceptable after
/// those selected before it.
pub open spec fn selected_upto(fours: Seq<Four>, order: Seq<usize>, n: int, k: int) -> Seq<Four>
    decreases k,
{
    if k <= 0 {
        Seq::empty()
    } else {
        let prev = selected_upto(fours, order, n, k - 1);
        if acceptable(prev, fours[order[k - 1] as int], n) {
            prev.push(fours[order[k - 1] as int])
        } else {
            prev
        }
    }
}

/// The worst joint scores of a sequence of blocks.
pub open spec fn max_dists(fours: Seq<Four>) -> Seq<u64> {
    Seq::new(fours.len(), |i: int| fours[i].max_dist)
}

/// `sel` is the selection that seeding makes among the blocks `fours`: the
/// blocks take their turns in the order of a stable sort by their worst
/// joint score.
pub open spec fn is_selection(fours: Seq<Four>, n: int, sel: Seq<Four>) -> bool {
    exists|order: Seq<usize>| #[trigger]
        is_stable_order(max_dists(fours), order) && sel == selected_upto(
            fours,
            order,
            n,
            order.len() as int,
        )
}

/// No two blocks of `sel` have a figure in common.
pub open spec fn no_shared_figure(sel: Seq<Four>) -> bool {
    forall|i: int, j: int| 0 <= i < j < sel.len() ==> !share_fig(#[trigger] sel[i], #[trigger] sel[j])
}

proof fn lemma_fig_used_push(sel: Seq<Four>, f: Four, v: usize)
    ensures
        fig_used(sel.push(f), v) <==> fig_used(sel, v) || has_fig(f, v),
{
    let sel2 = sel.push(f);
    if fig_used(sel, v) {
        let i = choose|i: int| 0 <= i < sel.len() && has_fig(#[trigger] sel[i], v);
        assert(sel2[i] == sel[i]);
    }
    if has_fig(f, v) {
        assert(sel2[sel.len() as int] == f);
    }
    if fig_used(sel2, v) {
        let i = choose|i: int| 0 <= i < sel2.len() && has_fig(#[trigger] sel2[i], v);
        if i < sel.len() {
            assert(sel2[i] == sel[i]);
        }
    }
}

/// Selects seed blocks: the blocks are taken in the order of their worst
/// joint score, the best first, and a block is selected if its four sides
/// lie on four different figures of which none is in a block selected
/// before. No two selected blocks share a figure.
pub fn select_fours(fours: &Vec<Four>, n: usize) -> (r: Vec<Four>)
    ensures
        is_selection(fours@, n as int, r@),
        no_shared_figure(r@),
        forall|i: int| 0 <= i < r@.len() ==> acceptable(Seq::empty(), #[trigger] r@[i], n as int),
{
    let m = fours.len();
    let mut keys: Vec<u64> = Vec::new();
    let mut i: usize = 0;
    while i < m
        invariant
            i <= m,
            m == fours@.len(),
            keys@.len() == i,
            forall|j: int| 0 <= j < i ==> (#[trigger] keys@[j]) == fours@[j].max_dist,
        decreases m - i,
    {
        keys.push(fours[i].max_dist);
        i = i + 1;
    }
    assert(keys@ =~= max_dists(fours@));
    let order = stable_order(&keys);
    let mut used: Vec<bool> = Vec::new();
    let mut v: usize = 0;
    while v < n
        invariant
            v <= n,
            used@.len() == v,
            forall|j: int| 0 <= j < v ==> !(#[trigger] used@[j]),
        decreases n - v,
    {
        used.push(false);
        v = v + 1;
    }
    let mut sel: Vec<Four> = Vec::new();
    let mut k: usize = 0;
    while k < m
        invariant
            k <= m,
            m == fours@.len(),
            is_stable_order(max_dists(fours@), order@),
            used@.len() == n,
            sel@ == selected_upto(fours@, order@, n as int, k as int),
            forall|w: usize| w < n ==> (#[trigger] used@[w as int] <==> fig_used(sel@, w)),
            no_shared_figure(sel@),
            forall|i: int|
                0 <= i < sel@.len() ==> acceptable(Seq::empty(), #[trigger] sel@[i], n as int),
        decreases m - k,
    {
        let four = fours[order[k]];
        let ghost before = sel@;
        let in_range = four.s0.fig < n && four.s1.fig < n && four.s2.fig < n && four.s3.fig < n
            && four.s0.side < 4 && four.s1.side < 4 && four.s2.side < 4 && four.s3.side < 4;
        let distinct = four.s0.fig != four.s1.fig && four.s0.fig != four.s2.fig && four.s0.fig
            != four.s3.fig && four.s1.fig != four.s2.fig && four.s1.fig != four.s3.fig
            && four.s2.fig != four.s3.fig;
        if in_range && distinct && !used[four.s0.fig] && !used[four.s1.fig] && !used[four.s2.fig]
            && !used[four.s3.fig] {
            assert(acceptable(before, four, n as int));
            used.set(four.s0.fig, true);
            used.set(four.s1.fig, true);
            used.set(four.s2.fig, true);
            used.set(four.s3.fig, true);
            sel.push(four);
            proof {
                assert forall|w: usize| w < n implies (#[trigger] used@[w as int] <==> fig_used(
                    sel@,
                    w,
                )) by {
                    lemma_fig_used_push(before, four, w);
                }
                assert forall|i: int, j: int| 0 <= i < j < sel@.len() implies !share_fig(
                    #[trigger] sel@[i],
                    #[trigger] sel@[j],
                ) by {
                    if j < before.len() {
                        assert(sel@[i] == before[i] && sel@[j] == before[j]);
                    } else {
                        assert(sel@[i] == before[i]);
                        assert(sel@[j] == four);
                        if share_fig(before[i], four) {
                            assert(has_fig(before[i], four.s0.fig) || has_fig(before[i], four.s1.fig)
                                || has_fig(before[i], four.s2.fig) || has_fig(
                                before[i],
                                four.s3.fig,
                            ));
                        }
                    }
                }
                assert forall|i: int| 0 <= i < sel@.len() implies acceptable(
                    Seq::empty(),
                    #[trigger] sel@[i],
                    n as int,
                ) by {
                    if i < before.len() {
                        assert(sel@[i] == before[i]);
                    }
                }
            }
        } else {
            assert(!acceptable(before, four, n as int));
        }
        k = k + 1;
    }
    sel
}

/// What the side `s` is joined to by the joints of the block `f`, if it is
/// one of their eight sides.
pub open spec fn joint_partner(f: Four, s: Side) -> Option<Side> {
    if s == f.s0 {
        Some(f.s1.opposite_spec())
    } else if s == f.s1.opposite_spec() {
        Some(f.s0)
    } else if s == f.s0.next_spec() {
        Some(f.s2.prev_spec())
    } else if s == f.s2.prev_spec() {
        Some(f.s0.next_spec())
    } else if s == f.s1.next_spec() {
        Some(f.s3.prev_spec())
    } else if s == f.s3.prev_spec() {
        Some(f.s1.next_spec())
    } else if s == f.s2 {
        Some(f.s3.opposite_spec())
    } else if s == f.s3.opposite_spec() {
        Some(f.s2)
    } else {
        None
    }
}

/// What the side `s` is joined to by the joints of the first `k` blocks of
/// `sel`.
pub open spec fn four_partner(sel: Seq<Four>, k: int, s: Side) -> Option<Side>
    decreases k,
{
    if k <= 0 {
        None
    } else if joint_partner(sel[k - 1], s) is Some {
        joint_partner(sel[k - 1], s)
    } else {
        four_partner(sel, k - 1, s)
    }
}

/// Every side of the figure `v` is free in the placement.
pub open spec fn figure_free(p: Placement, v: usize) -> bool {
    forall|side: usize| #[trigger] p.partner(Side { fig: v, side }) is None
}

/// Joins the four joints of a block whose figures are all free.
fn join_four(placement: &mut Placement, f: Four)
    requires
        old(placement).wf(),
        acceptable(Seq::empty(), f, old(placement).n()),
        figure_free(*old(placement), f.s0.fig),
        figure_free(*old(placement), f.s1.fig),
        figure_free(*old(placement), f.s2.fig),
        figure_free(*old(placement), f.s3.fig),
    ensures
        final(placement).wf(),
        final(placement).n() == old(placement).n(),
        forall|s: Side| #[trigger]
            final(placement).partner(s) == if joint_partner(f, s) is Some {
                joint_partner(f, s)
            } else {
                old(placement).partner(s)
            },
{
    let joints = f.neighbours();
    let ghost p0 = *placement;
    assert(p0.partner(Side { fig: f.s0.fig, side: f.s0.side }) is None);
    assert(p0.partner(Side { fig: f.s1.fig, side: f.s1.opposite_spec().side }) is None);
    let j0 = placement.join_sides(joints[0].0, joints[0].1);
    assert(j0);
    let ghost p1 = *placement;
    assert(p0.partner(Side { fig: f.s0.fig, side: f.s0.next_spec().side }) is None);
    assert(p0.partner(Side { fig: f.s2.fig, side: f.s2.prev_spec().side }) is None);
    let j1 = placement.join_sides(joints[1].0, joints[1].1);
    assert(j1);
    let ghost p2 = *placement;
    assert(p0.partner(Side { fig: f.s1.fig, side: f.s1.next_spec().side }) is None);
    assert(p0.partner(Side { fig: f.s3.fig, side: f.s3.prev_spec().side }) is None);
    let j2 = placement.join_sides(joints[2].0, joints[2].1);
    assert(j2);
    let ghost p3 = *placement;
    assert(p0.partner(Side { fig: f.s2.fig, side: f.s2.side }) is None);
    assert(p0.partner(Side { fig: f.s3.fig, side: f.s3.opposite_spec().side }) is None);
    let j3 = placement.join_sides(joints[3].0, joints[3].1);
    assert(j3);
    proof {
        assert forall|s: Side| #[trigger]
            placement.partner(s) == if joint_partner(f, s) is Some {
                joint_partner(f, s)
            } else {
                p0.partner(s)
            } by {
            assert(p1.partner(s) == if s == joints@[0].0 {
                Some(joints@[0].1)
            } else if s == joints@[0].1 {
                Some(joints@[0].0)
            } else {
                p0.partner(s)
            });
            assert(p2.partner(s) == if s == joints@[1].0 {
                Some(joints@[1].1)
            } else if s == joints@[1].1 {
                Some(joints@[1].0)
            } else {
                p1.partner(s)
            });
            assert(p3.partner(s) == if s == joints@[2].0 {
                Some(joints@[2].1)
            } else if s == joints@[2].1 {
                Some(joints@[2].0)
            } else {
                p2.partner(s)
            });
        }
    }
}

/// `p` is the placement that seeding by blocks gives for the edges `edges`
/// among `n` figures: of all seed blocks of the graph a selection is made,
/// and exactly the joints of the selected blocks are joined.
pub open spec fn is_four_block_placement(edges: Seq<Edge>, n: int, p: Placement) -> bool {
    exists|fours: Seq<Four>, sel: Seq<Four>| #[trigger]
        is_all_fours(graph_scores(edges), n, fours) && #[trigger] is_selection(fours, n, sel)
            && forall|s: Side| #[trigger] p.partner(s) == four_partner(sel, sel.len() as int, s)
}

/// Seeding by blocks: all quadruples of sides that form a block of four
/// pieces meeting in a point, with every joint scoring below
/// `FOUR_MAX_SCORE`, are ranked by their worst joint; the best are selected
/// as long as no figure is used twice, and the four joints of every selected
/// block are joined.
pub fn four_block_placement(graph: &Graph) -> (r: Placement)
    requires
        graph.wf(),
        table_fits(graph.n),
    ensures
        r.wf(),
        r.n() == graph.n,
        is_four_block_placement(graph.all_edges@, graph.n as int, r),
{
    let dist = graph.gen_adj_matrix();
    let fours = find_fours(&dist);
    let sel = select_fours(&fours, graph.n);
    proof {
        let n = graph.n as int;
        let a = table_scores(dist);
        let b = graph_scores(graph.all_edges@);
        assert forall|f: Four| is_four(a, n, f) == is_four(b, n, f) by {
            if side_in_range(f.s0, n) && side_in_range(f.s1, n) && side_in_range(f.s2, n)
                && side_in_range(f.s3, n) {
                assert(four_scores(a, f) =~= four_scores(b, f));
            }
        }
        assert(is_all_fours(b, n, fours@)) by {
            assert forall|f: Four| #[trigger] is_four(b, n, f) implies fours@.contains(f) by {
                assert(is_four(a, n, f));
            }
            assert forall|i: int| 0 <= i < fours@.len() implies is_four(b, n, #[trigger] fours@[i]) by {
                assert(is_four(a, n, fours@[i]));
            }
        }
    }
    let mut placement = Placement::new(graph.n);
    let count = sel.len();
    let mut k: usize = 0;
    while k < count
        invariant
            k <= count,
            count == sel@.len(),
            placement.wf(),
            placement.n() == graph.n,
            no_shared_figure(sel@),
            forall|i: int|
                0 <= i < sel@.len() ==> acceptable(Seq::empty(), #[trigger] sel@[i], graph.n as int),
            forall|s: Side| #[trigger] placement.partner(s) == four_partner(sel@, k as int, s),
            forall|s: Side|
                (#[trigger] placement.partner(s)) is Some ==> fig_used(sel@.take(k as int), s.fig),
        decreases count - k,
    {
        let four = sel[k];
        let ghost before = placement;
        proof {
            assert(acceptable(Seq::empty(), sel@[k as int], graph.n as int));
            assert forall|v: usize| has_fig(four, v) implies figure_free(before, v) by {
                assert forall|side: usize| #[trigger]
                    before.partner(Side { fig: v, side }) is None by {
                    let s = Side { fig: v, side };
                    if before.partner(s) is Some {
                        let i = choose|i: int|
                            0 <= i < sel@.take(k as int).len() && has_fig(
                                #[trigger] sel@.take(k as int)[i],
                                v,
                            );
                        assert(sel@.take(k as int)[i] == sel@[i]);
                        assert(!share_fig(sel@[i], sel@[k as int]));
                    }
                }
            }
            assert(has_fig(four, four.s0.fig) && has_fig(four, four.s1.fig) && has_fig(
                four,
                four.s2.fig,
            ) && has_fig(four, four.s3.fig));
        }
        join_four(&mut placement, four);
        proof {
            assert forall|s: Side| (#[trigger] placement.partner(s)) is Some implies fig_used(
                sel@.take(k as int + 1),
                s.fig,
            ) by {
                assert(sel@.take(k as int + 1) =~= sel@.take(k as int).push(four));
                lemma_fig_used_push(sel@.take(k as int), four, s.fig);
                if joint_partner(four, s) is None {
                    assert(before.partner(s) is Some);
                }
            }
        }
        k = k + 1;
    }
    placement
}

} // verus!
