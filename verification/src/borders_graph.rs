//! The candidate graph: one edge for every pair of sides that can be aligned.

use std::collections::BTreeSet;
use vstd::prelude::*;
use crate::border_matcher::{
    lemma_copy_aligns_exactly, picture_border_spec, reproduces,
    alignable, alignment_frame, estimate_spec, EXISTING_MAX_SCORE, existing_score, match_borders,
    match_borders_without_move, move_point, placed_score, side_points,
};
use crate::parsed_puzzles::ParsedPuzzles;
use crate::placement::{Placement, side_in_range};
use crate::point::PointF;
use crate::score_table::{SideTable, table_fits};
use crate::utils::Side;

verus! {

/// The score that the score table holds for two sides without an edge.
pub const NO_EDGE_SCORE: u64 = 0xffff_ffff_ffff_ffff;

/// The outcome of comparing side `side1` of figure `fig1` with side `side2`
/// of figure `fig2`.
#[derive(Clone, Copy, Debug)]
pub struct Edge {
    pub fig1: usize,
    pub fig2: usize,
    pub side1: usize,
    pub side2: usize,
    /// The similarity after alignment; smaller is better.
    pub score: u64,
    /// Whether the two sides were neighbours in the photograph already.
    pub existing_edge: bool,
    /// Where the alignment puts the first outline point of `fig2`.
    pub base_p1: PointF,
    /// Where the alignment puts the outline point of `fig2` half way round.
    pub base_p2: PointF,
}

impl Edge {
    /// The two sides that the edge connects.
    pub open spec fn sides_spec(self) -> (Side, Side) {
        (Side { fig: self.fig1, side: self.side1 }, Side { fig: self.fig2, side: self.side2 })
    }

    /// The edge connects sides of figures among `n`.
    pub open spec fn wf(self, n: int) -> bool {
        &&& side_in_range(self.sides_spec().0, n)
        &&& side_in_range(self.sides_spec().1, n)
    }

    /// The two sides that the edge connects.
    pub fn sides(&self) -> (r: (Side, Side))
        ensures
            r == self.sides_spec(),
    {
        (Side { fig: self.fig1, side: self.side1 }, Side { fig: self.fig2, side: self.side2 })
    }
}

/// All edges found for a set of `n` pieces, with the hash of that set.
#[derive(Clone, Debug)]
pub struct Graph {
    pub n: usize,
    pub all_edges: Vec<Edge>,
    pub parsed_puzzles_hash: u64,
}

/// Whether the placement has joined the two sides of the edge, in the
/// edge's direction.
pub open spec fn joined_in(placement: Placement, e: Edge) -> bool {
    placement.partner(e.sides_spec().0) == Some(e.sides_spec().1)
}

/// The score of the last of the first `k` edges that connects `s1` and `s2`,
/// in either direction; `NO_EDGE_SCORE` if there is none.
pub open spec fn adj_score_upto(edges: Seq<Edge>, k: int, s1: Side, s2: Side) -> u64
    decreases k,
{
    if k <= 0 {
        NO_EDGE_SCORE
    } else if edges[k - 1].sides_spec() == (s1, s2) || edges[k - 1].sides_spec() == (s2, s1) {
        edges[k - 1].score
    } else {
        adj_score_upto(edges, k - 1, s1, s2)
    }
}

/// The score that the graph gives to the sides `s1` and `s2`.
pub open spec fn adj_score(edges: Seq<Edge>, s1: Side, s2: Side) -> u64 {
    adj_score_upto(edges, edges.len() as int, s1, s2)
}

/// The anchor points of the last of the first `k` edges that leads from `s1`
/// to `s2`; twice the origin if there is none.
pub open spec fn base_points_upto(edges: Seq<Edge>, k: int, s1: Side, s2: Side) -> (PointF, PointF)
    decreases k,
{
    if k <= 0 {
        (PointF { x: 0, y: 0 }, PointF { x: 0, y: 0 })
    } else if edges[k - 1].sides_spec() == (s1, s2) {
        (edges[k - 1].base_p1, edges[k - 1].base_p2)
    } else {
        base_points_upto(edges, k - 1, s1, s2)
    }
}

/// The anchor points that the graph holds for the edge from `s1` to `s2`.
pub open spec fn base_points(edges: Seq<Edge>, s1: Side, s2: Side) -> (PointF, PointF) {
    base_points_upto(edges, edges.len() as int, s1, s2)
}

/// The index of the last of the first `k` edges that leads from `s1` to
/// `s2`, if there is one.
pub open spec fn edge_index_upto(edges: Seq<Edge>, k: int, s1: Side, s2: Side) -> Option<int>
    decreases k,
{
    if k <= 0 {
        None
    } else if edges[k - 1].sides_spec() == (s1, s2) {
        Some(k - 1)
    } else {
        edge_index_upto(edges, k - 1, s1, s2)
    }
}

proof fn lemma_edge_index(edges: Seq<Edge>, k: int, s1: Side, s2: Side)
    requires
        k <= edges.len(),
    ensures
        match edge_index_upto(edges, k, s1, s2) {
            Some(i) => 0 <= i < k && base_points_upto(edges, k, s1, s2) == (
                edges[i].base_p1,
                edges[i].base_p2,
            ),
            None => base_points_upto(edges, k, s1, s2) == (
                PointF { x: 0, y: 0 },
                PointF { x: 0, y: 0 },
            ),
        },
    decreases k,
{
    if k > 0 && edges[k - 1].sides_spec() != (s1, s2) {
        lemma_edge_index(edges, k - 1, s1, s2);
    }
}

/// The figures that the first `k` edges touch.
pub open spec fn vertices_upto(edges: Seq<Edge>, k: int) -> Set<usize>
    decreases k,
{
    if k <= 0 {
        Set::empty()
    } else {
        vertices_upto(edges, k - 1).insert(edges[k - 1].fig1).insert(edges[k - 1].fig2)
    }
}

/// The anchor points of a graph in a dense table.
pub struct AnchorTable {
    index: SideTable,
    edges: Vec<Edge>,
}

impl AnchorTable {
    /// The number of figures.
    pub closed spec fn n(&self) -> int {
        self.index.n()
    }

    /// The table has a cell for every pair of sides.
    pub closed spec fn wf(&self) -> bool {
        self.index.wf()
    }

    /// The anchor points stored for the edge from `s1` to `s2`.
    pub closed spec fn value(&self, s1: Side, s2: Side) -> (PointF, PointF) {
        let k = self.index.value(s1, s2);
        if k < self.edges@.len() {
            (self.edges@[k as int].base_p1, self.edges@[k as int].base_p2)
        } else {
            (PointF { x: 0, y: 0 }, PointF { x: 0, y: 0 })
        }
    }

    /// The anchor points stored for the edge from `s1` to `s2`.
    pub fn get(&self, s1: Side, s2: Side) -> (r: (PointF, PointF))
        requires
            self.wf(),
            side_in_range(s1, self.n()),
            side_in_range(s2, self.n()),
        ensures
            r == self.value(s1, s2),
    {
        let k = self.index.get(s1, s2);
        if k < self.edges.len() as u64 {
            let e = self.edges[k as usize];
            (e.base_p1, e.base_p2)
        } else {
            (PointF { x: 0, y: 0 }, PointF { x: 0, y: 0 })
        }
    }
}

/// Whether the side `s` of one of the pieces takes part in the comparison:
/// every side does, unless only the sides along the frame are wanted.
pub open spec fn side_allowed(puzzles: ParsedPuzzles, only_borders: bool, s: Side) -> bool {
    &&& side_in_range(s, puzzles.figures@.len() as int)
    &&& only_borders ==> exists|i: int|
        0 <= i < puzzles.figures_on_border@.len() && ((
        #[trigger] puzzles.figures_on_border@[i]).left_side == s
            || puzzles.figures_on_border@[i].right_side == s)
}

/// Whether the sides `s1` and `s2` are compared at all: they belong to two
/// different good pieces and both take part.
pub open spec fn comparable(puzzles: ParsedPuzzles, only_borders: bool, s1: Side, s2: Side) -> bool {
    &&& side_allowed(puzzles, only_borders, s1)
    &&& side_allowed(puzzles, only_borders, s2)
    &&& s1.fig != s2.fig
    &&& puzzles.figures@[s1.fig as int].good_spec()
    &&& puzzles.figures@[s2.fig as int].good_spec()
}

/// The candidate side `s2`, reversed, can be aligned with the reference
/// side `s1`.
pub open spec fn sides_alignable(puzzles: ParsedPuzzles, s1: Side, s2: Side) -> bool {
    alignable(
        side_points(puzzles.figures@[s1.fig as int], s1.side as int),
        side_points(puzzles.figures@[s2.fig as int], s2.side as int).reverse(),
    )
}

/// The reference side of a comparison.
pub open spec fn reference_side(puzzles: ParsedPuzzles, s1: Side) -> Seq<PointF> {
    side_points(puzzles.figures@[s1.fig as int], s1.side as int)
}

/// The candidate side of a comparison, reversed.
pub open spec fn candidate_side(puzzles: ParsedPuzzles, s2: Side) -> Seq<PointF> {
    side_points(puzzles.figures@[s2.fig as int], s2.side as int).reverse()
}

/// Where the alignment of `s2` with `s1` puts the outline point `i` of the
/// figure of `s2`.
pub open spec fn aligned_point(puzzles: ParsedPuzzles, s1: Side, s2: Side, i: int) -> PointF {
    move_point(
        estimate_spec(reference_side(puzzles, s1))->Some_0,
        alignment_frame(reference_side(puzzles, s1), candidate_side(puzzles, s2)),
        puzzles.figures@[s2.fig as int].basic_position()[i],
    )
}

/// The edge that comparing the candidate side `s2` with the reference side
/// `s1` gives: the score of their alignment, whether they were neighbours
/// in the photograph, and as anchors the places to which the alignment
/// takes the first outline point of the candidate and the one half way
/// round.
pub open spec fn edge_spec(puzzles: ParsedPuzzles, s1: Side, s2: Side) -> Edge {
    Edge {
        fig1: s1.fig,
        fig2: s2.fig,
        side1: s1.side,
        side2: s2.side,
        score: placed_score(
            reference_side(puzzles, s1),
            candidate_side(puzzles, s2),
            alignment_frame(reference_side(puzzles, s1), candidate_side(puzzles, s2)),
        ) as u64,
        existing_edge: existing_score(
            puzzles.figures@[s1.fig as int],
            s1.side as int,
            puzzles.figures@[s2.fig as int],
            s2.side as int,
        ) <= EXISTING_MAX_SCORE,
        base_p1: aligned_point(puzzles, s1, s2, 0),
        base_p2: aligned_point(
            puzzles,
            s1,
            s2,
            puzzles.figures@[s2.fig as int].border@.len() as int / 2,
        ),
    }
}

/// The edge `e` is what comparing its two sides gives: the sides can be
/// aligned, and the edge records the alignment.
pub open spec fn is_edge(puzzles: ParsedPuzzles, e: Edge) -> bool {
    &&& sides_alignable(puzzles, e.sides_spec().0, e.sides_spec().1)
    &&& e == edge_spec(puzzles, e.sides_spec().0, e.sides_spec().1)
}

/// Some edge of `edges` leads from `s1` to `s2`.
pub open spec fn has_edge(edges: Seq<Edge>, s1: Side, s2: Side) -> bool {
    exists|i: int| 0 <= i < edges.len() && (#[trigger] edges[i]).sides_spec() == (s1, s2)
}

/// If `s1` and `s2` are compared and can be aligned, `edges` holds an edge
/// for them.
pub open spec fn covered(
    puzzles: ParsedPuzzles,
    only_borders: bool,
    edges: Seq<Edge>,
    s1: Side,
    s2: Side,
) -> bool {
    comparable(puzzles, only_borders, s1, s2) && sides_alignable(puzzles, s1, s2) ==> has_edge(
        edges,
        s1,
        s2,
    )
}

/// The order of the edges in a graph: by first figure, second figure, first
/// side, second side.
pub open spec fn edge_before(a: Edge, b: Edge) -> bool {
    a.fig1 < b.fig1 || (a.fig1 == b.fig1 && (a.fig2 < b.fig2 || (a.fig2 == b.fig2 && (a.side1
        < b.side1 || (a.side1 == b.side1 && a.side2 < b.side2)))))
}

/// The edges are in strictly increasing order.
pub open spec fn edges_sorted(edges: Seq<Edge>) -> bool {
    forall|i: int, j: int| 0 <= i < j < edges.len() ==> edge_before(#[trigger] edges[i], #[trigger] edges[j])
}

/// Every edge of `edges` is what comparing its sides gives, and its sides
/// are compared.
pub open spec fn edges_sound(puzzles: ParsedPuzzles, only_borders: bool, edges: Seq<Edge>) -> bool {
    forall|i: int|
        0 <= i < edges.len() ==> {
            &&& comparable(
                puzzles,
                only_borders,
                (#[trigger] edges[i]).sides_spec().0,
                edges[i].sides_spec().1,
            )
            &&& is_edge(puzzles, edges[i])
        }
}

/// `g` is the graph of the pieces: it holds, in order, exactly the edges
/// of the pairs of sides that are compared and can be aligned.
pub open spec fn is_graph_of(puzzles: ParsedPuzzles, only_borders: bool, g: Graph) -> bool {
    &&& g.n == puzzles.figures@.len()
    &&& g.parsed_puzzles_hash == puzzles.hash_spec()
    &&& edges_sorted(g.all_edges@)
    &&& edges_sound(puzzles, only_borders, g.all_edges@)
    &&& forall|s1: Side, s2: Side| #[trigger] covered(puzzles, only_borders, g.all_edges@, s1, s2)
}

/// Two sides of two different good pieces that are the same point sequence
/// traced in opposite senses, no picture border and long enough to have a
/// coarse frame, have an edge in the graph of all sides, and that edge is
/// the one that their alignment gives.
pub proof fn lemma_mating_sides_have_edge(puzzles: ParsedPuzzles, g: Graph, s1: Side, s2: Side)
    requires
        is_graph_of(puzzles, false, g),
        side_in_range(s1, puzzles.figures@.len() as int),
        side_in_range(s2, puzzles.figures@.len() as int),
        s1.fig != s2.fig,
        puzzles.figures@[s1.fig as int].good_spec(),
        puzzles.figures@[s2.fig as int].good_spec(),
        reference_side(puzzles, s1) == candidate_side(puzzles, s2),
        !picture_border_spec(reference_side(puzzles, s1)),
        estimate_spec(reference_side(puzzles, s1)) is Some,
    ensures
        exists|i: int|
            0 <= i < g.all_edges@.len() && (#[trigger] g.all_edges@[i]) == edge_spec(puzzles, s1, s2)
                && g.all_edges@[i].sides_spec() == (s1, s2),
{
    assert(covered(puzzles, false, g.all_edges@, s1, s2));
    assert(has_edge(g.all_edges@, s1, s2));
    let i = choose|i: int|
        0 <= i < g.all_edges@.len() && (#[trigger] g.all_edges@[i]).sides_spec() == (s1, s2);
    assert(is_edge(puzzles, g.all_edges@[i]));
}

/// The sides `s1` and `s2` mate perfectly: they are sides of two different
/// good pieces and the same sequence of distinct points traced in opposite
/// senses, which is no picture border and which its coarse frame
/// reproduces.
#[verifier::opaque]
pub open spec fn perfect_mates(puzzles: ParsedPuzzles, s1: Side, s2: Side) -> bool {
    &&& side_in_range(s1, puzzles.figures@.len() as int)
    &&& side_in_range(s2, puzzles.figures@.len() as int)
    &&& s1.fig != s2.fig
    &&& puzzles.figures@[s1.fig as int].good_spec()
    &&& puzzles.figures@[s2.fig as int].good_spec()
    &&& reference_side(puzzles, s1) == candidate_side(puzzles, s2)
    &&& !picture_border_spec(reference_side(puzzles, s1))
    &&& estimate_spec(reference_side(puzzles, s1)) is Some
    &&& forall|i: int, j: int|
        0 <= i < j < reference_side(puzzles, s1).len() ==> reference_side(puzzles, s1)[i]
            != reference_side(puzzles, s1)[j]
    &&& reproduces(estimate_spec(reference_side(puzzles, s1))->Some_0, reference_side(puzzles, s1))
}

/// The graph of all sides holds an edge with the score zero for two sides
/// that mate perfectly.
pub proof fn lemma_perfect_mates_have_edge(puzzles: ParsedPuzzles, g: Graph, s1: Side, s2: Side)
    requires
        is_graph_of(puzzles, false, g),
        perfect_mates(puzzles, s1, s2),
    ensures
        exists|i: int|
            0 <= i < g.all_edges@.len() && (#[trigger] g.all_edges@[i]).sides_spec() == (s1, s2)
                && g.all_edges@[i].score == 0,
        side_in_range(s1, g.n as int),
        side_in_range(s2, g.n as int),
        s1.fig != s2.fig,
{
    reveal(perfect_mates);
    lemma_mating_sides_have_edge(puzzles, g, s1, s2);
    lemma_mating_sides_score_zero(puzzles, s1, s2);
    let i = choose|i: int|
        0 <= i < g.all_edges@.len() && (#[trigger] g.all_edges@[i]) == edge_spec(puzzles, s1, s2)
            && g.all_edges@[i].sides_spec() == (s1, s2);
    assert(g.all_edges@[i].score == 0);
}

/// The edge of two sides that are the same sequence of distinct points
/// traced in opposite senses has the score zero, where the coarse frame of
/// the side reproduces its points.
pub proof fn lemma_mating_sides_score_zero(puzzles: ParsedPuzzles, s1: Side, s2: Side)
    requires
        reference_side(puzzles, s1) == candidate_side(puzzles, s2),
        estimate_spec(reference_side(puzzles, s1)) is Some,
        forall|i: int, j: int|
            0 <= i < j < reference_side(puzzles, s1).len() ==> reference_side(puzzles, s1)[i]
                != reference_side(puzzles, s1)[j],
        reproduces(estimate_spec(reference_side(puzzles, s1))->Some_0, reference_side(puzzles, s1)),
    ensures
        edge_spec(puzzles, s1, s2).score == 0,
{
    lemma_copy_aligns_exactly(reference_side(puzzles, s1));
}

fn is_allowed(puzzles: &ParsedPuzzles, only_borders: bool, s: Side) -> (r: bool)
    requires
        side_in_range(s, puzzles.figures@.len() as int),
    ensures
        r == side_allowed(*puzzles, only_borders, s),
{
    if !only_borders {
        return true;
    }
    let n = puzzles.figures_on_border.len();
    let mut i: usize = 0;
    while i < n
        invariant
            i <= n,
            n == puzzles.figures_on_border@.len(),
            only_borders,
            side_in_range(s, puzzles.figures@.len() as int),
            forall|j: int|
                0 <= j < i ==> !((#[trigger] puzzles.figures_on_border@[j]).left_side == s
                    || puzzles.figures_on_border@[j].right_side == s),
        decreases n - i,
    {
        let f = puzzles.figures_on_border[i];
        if f.left_side == s || f.right_side == s {
            return true;
        }
        i = i + 1;
    }
    false
}

/// Compares the candidate side `s2` with the reference side `s1`.
fn compare_sides(puzzles: &ParsedPuzzles, s1: Side, s2: Side) -> (r: Option<Edge>)
    requires
        side_in_range(s1, puzzles.figures@.len() as int),
        side_in_range(s2, puzzles.figures@.len() as int),
        puzzles.figures@[s1.fig as int].good_spec(),
        puzzles.figures@[s2.fig as int].good_spec(),
    ensures
        r matches Some(e) ==> e.sides_spec() == (s1, s2) && is_edge(*puzzles, e),
        r is None ==> !sides_alignable(*puzzles, s1, s2),
{
    let f1 = &puzzles.figures[s1.fig];
    let f2 = &puzzles.figures[s2.fig];
    let existing_edge = match_borders_without_move(f1, s1.side, f2, s2.side, s1.fig, s2.fig).is_some();
    match match_borders(f1, s1.side, f2, s2.side, s1.fig, s2.fig) {
        None => None,
        Some(res) => {
            let half = res.rhs.len() / 2;
            Some(
                Edge {
                    fig1: s1.fig,
                    fig2: s2.fig,
                    side1: s1.side,
                    side2: s2.side,
                    score: res.score,
                    existing_edge,
                    base_p1: res.rhs[0],
                    base_p2: res.rhs[half],
                },
            )
        },
    }
}

impl Graph {
    /// Every edge connects sides of figures of the graph.
    pub open spec fn wf(&self) -> bool {
        forall|i: int| 0 <= i < self.all_edges@.len() ==> (#[trigger] self.all_edges@[i]).wf(self.n as int)
    }

    /// The two anchor points of every edge differ.
    pub open spec fn anchors_wf(&self) -> bool {
        forall|i: int|
            0 <= i < self.all_edges@.len() ==> (#[trigger] self.all_edges@[i]).base_p1
                != self.all_edges@[i].base_p2
    }

    /// Tells whether the two anchor points of every edge differ: the anchors
    /// of a graph are checked with this before they are asked for.
    pub fn check_anchors(&self) -> (r: bool)
        ensures
            r == self.anchors_wf(),
    {
        let m = self.all_edges.len();
        let mut i: usize = 0;
        while i < m
            invariant
                i <= m,
                m == self.all_edges@.len(),
                forall|j: int|
                    0 <= j < i ==> (#[trigger] self.all_edges@[j]).base_p1 != self.all_edges@[j].base_p2,
            decreases m - i,
        {
            let e = self.all_edges[i];
            if e.base_p1 == e.base_p2 {
                assert(self.all_edges@[i as int].base_p1 == self.all_edges@[i as int].base_p2);
                return false;
            }
            i = i + 1;
        }
        true
    }

    /// Tells whether every edge connects sides of figures of the graph: a
    /// graph from elsewhere is checked with this before it is used.
    pub fn check_wf(&self) -> (r: bool)
        ensures
            r == self.wf(),
    {
        let m = self.all_edges.len();
        let mut i: usize = 0;
        while i < m
            invariant
                i <= m,
                m == self.all_edges@.len(),
                forall|j: int| 0 <= j < i ==> (#[trigger] self.all_edges@[j]).wf(self.n as int),
            decreases m - i,
        {
            let e = self.all_edges[i];
            if e.fig1 >= self.n || e.fig2 >= self.n || e.side1 >= 4 || e.side2 >= 4 {
                assert(!self.all_edges@[i as int].wf(self.n as int));
                return false;
            }
            i = i + 1;
        }
        true
    }

    /// The figures that some edge touches.
    pub open spec fn vertices(&self) -> Set<usize> {
        vertices_upto(self.all_edges@, self.all_edges@.len() as int)
    }

    /// The edges whose two sides the placement has joined, in their order,
    /// as a graph of their own.
    pub fn get_subgraph(&self, placement: &Placement) -> (r: Graph)
        ensures
            r.n == self.n,
            r.parsed_puzzles_hash == self.parsed_puzzles_hash,
            r.all_edges@ == self.all_edges@.filter(|e: Edge| joined_in(*placement, e)),
            self.wf() ==> r.wf(),
    {
        let n = self.all_edges.len();
        let mut all_edges: Vec<Edge> = Vec::new();
        let ghost pred = |e: Edge| joined_in(*placement, e);
        let mut i: usize = 0;
        proof {
            reveal(Seq::filter);
            assert(self.all_edges@.take(0).filter(pred) =~= Seq::<Edge>::empty());
        }
        while i < n
            invariant
                i <= n,
                n == self.all_edges@.len(),
                pred == (|e: Edge| joined_in(*placement, e)),
                all_edges@ == self.all_edges@.take(i as int).filter(pred),
                self.wf() ==> forall|j: int|
                    0 <= j < all_edges@.len() ==> (#[trigger] all_edges@[j]).wf(self.n as int),
            decreases n - i,
        {
            let e = self.all_edges[i];
            let (s1, s2) = e.sides();
            let keep = match placement.get_neighbour(s1) {
                Some(t) => t == s2,
                None => false,
            };
            proof {
                reveal(Seq::filter);
                assert(self.all_edges@.take(i as int + 1).drop_last() == self.all_edges@.take(
                    i as int,
                ));
                assert(keep == pred(e));
            }
            if keep {
                all_edges.push(e);
            }
            i = i + 1;
        }
        proof {
            assert(self.all_edges@.take(n as int) == self.all_edges@);
        }
        Graph { n: self.n, parsed_puzzles_hash: self.parsed_puzzles_hash, all_edges }
    }

    /// The edges that comparing every side of figure `fig2` with every side
    /// of figure `fig1` gives, ordered by the side of `fig1`, then by that of
    /// `fig2`. There are none unless both are good pieces and differ.
    ///
    /// The comparisons of one pair of figures depend on no other pair: this
    /// is the unit of work to hand out where a graph is built in parallel.
    pub fn edges_between(puzzles: &ParsedPuzzles, only_borders: bool, fig1: usize, fig2: usize) -> (r:
        Vec<Edge>)
        requires
            fig1 < puzzles.figures@.len(),
            fig2 < puzzles.figures@.len(),
        ensures
            edges_sorted(r@),
            edges_sound(*puzzles, only_borders, r@),
            forall|i: int| 0 <= i < r@.len() ==> (#[trigger] r@[i]).fig1 == fig1 && r@[i].fig2 == fig2,
            forall|a: usize, b: usize|
                a < 4 && b < 4 ==> #[trigger] covered(
                    *puzzles,
                    only_borders,
                    r@,
                    Side { fig: fig1, side: a },
                    Side { fig: fig2, side: b },
                ),
    {
        let mut new_edges: Vec<Edge> = Vec::new();
        if fig1 == fig2 || !puzzles.figures[fig1].is_good_puzzle()
            || !puzzles.figures[fig2].is_good_puzzle() {
            return new_edges;
        }
        let mut side1: usize = 0;
        while side1 < 4
            invariant
                side1 <= 4,
                fig1 < puzzles.figures@.len(),
                fig2 < puzzles.figures@.len(),
                fig1 != fig2,
                puzzles.figures@[fig1 as int].good_spec(),
                puzzles.figures@[fig2 as int].good_spec(),
                edges_sorted(new_edges@),
                edges_sound(*puzzles, only_borders, new_edges@),
                forall|i: int|
                    0 <= i < new_edges@.len() ==> (#[trigger] new_edges@[i]).fig1 == fig1
                        && new_edges@[i].fig2 == fig2 && new_edges@[i].side1 < side1,
                forall|a: usize, b: usize|
                    a < side1 && b < 4 ==> #[trigger] covered(
                        *puzzles,
                        only_borders,
                        new_edges@,
                        Side { fig: fig1, side: a },
                        Side { fig: fig2, side: b },
                    ),
            decreases 4 - side1,
        {
            let s1 = Side { fig: fig1, side: side1 };
            let ok1 = is_allowed(puzzles, only_borders, s1);
            let mut side2: usize = 0;
            while side2 < 4
                invariant
                    side1 < 4,
                    side2 <= 4,
                    s1 == (Side { fig: fig1, side: side1 }),
                    ok1 == side_allowed(*puzzles, only_borders, s1),
                    fig1 < puzzles.figures@.len(),
                    fig2 < puzzles.figures@.len(),
                    fig1 != fig2,
                    puzzles.figures@[fig1 as int].good_spec(),
                    puzzles.figures@[fig2 as int].good_spec(),
                    edges_sorted(new_edges@),
                    edges_sound(*puzzles, only_borders, new_edges@),
                    forall|i: int|
                        0 <= i < new_edges@.len() ==> (#[trigger] new_edges@[i]).fig1 == fig1
                            && new_edges@[i].fig2 == fig2 && (new_edges@[i].side1 < side1 || (
                        new_edges@[i].side1 == side1 && new_edges@[i].side2 < side2)),
                    forall|a: usize, b: usize|
                        (a < side1 && b < 4) || (a == side1 && b < side2) ==> #[trigger] covered(
                            *puzzles,
                            only_borders,
                            new_edges@,
                            Side { fig: fig1, side: a },
                            Side { fig: fig2, side: b },
                        ),
                decreases 4 - side2,
            {
                let s2 = Side { fig: fig2, side: side2 };
                let ghost before = new_edges@;
                let mut found = false;
                if ok1 && is_allowed(puzzles, only_borders, s2) {
                    match compare_sides(puzzles, s1, s2) {
                        Some(e) => {
                            new_edges.push(e);
                            found = true;
                            assert(new_edges@[before.len() as int].sides_spec() == (s1, s2));
                        },
                        None => {},
                    }
                }
                proof {
                    assert forall|a: usize, b: usize|
                        (a < side1 && b < 4) || (a == side1 && b < side2 + 1) implies #[trigger] covered(
                        *puzzles,
                        only_borders,
                        new_edges@,
                        Side { fig: fig1, side: a },
                        Side { fig: fig2, side: b },
                    ) by {
                        let t1 = Side { fig: fig1, side: a };
                        let t2 = Side { fig: fig2, side: b };
                        if a == side1 && b == side2 {
                            if found {
                                assert(has_edge(new_edges@, t1, t2));
                            }
                        } else {
                            assert(covered(*puzzles, only_borders, before, t1, t2));
                            if has_edge(before, t1, t2) {
                                let i = choose|i: int|
                                    0 <= i < before.len() && (#[trigger] before[i]).sides_spec() == (
                                        t1,
                                        t2,
                                    );
                                assert(new_edges@[i] == before[i]);
                                assert(has_edge(new_edges@, t1, t2));
                            }
                        }
                    }
                }
                side2 = side2 + 1;
            }
            side1 = side1 + 1;
        }
        new_edges
    }

    /// Builds the graph of a set of pieces.
    ///
    /// Every side of every good piece is compared with every side of every
    /// other good piece, the second as the candidate and the first as the
    /// reference; with `only_borders`, only the sides along the frame are
    /// compared. A pair gives an edge exactly if it can be aligned. The
    /// edges come ordered by first figure, second figure, first side, second
    /// side: the graph holds exactly the edges `edge_spec` of the pairs that
    /// can be aligned, in this order.
    pub fn new(parsed_puzzles: &ParsedPuzzles, only_borders: bool) -> (r: Graph)
        ensures
            is_graph_of(*parsed_puzzles, only_borders, r),
            r.wf(),
    {
        let n = parsed_puzzles.figures.len();
        let mut all_edges: Vec<Edge> = Vec::new();
        let mut fig1: usize = 0;
        while fig1 < n
            invariant
                fig1 <= n,
                n == parsed_puzzles.figures@.len(),
                edges_sorted(all_edges@),
                edges_sound(*parsed_puzzles, only_borders, all_edges@),
                forall|i: int| 0 <= i < all_edges@.len() ==> (#[trigger] all_edges@[i]).fig1 < fig1,
                forall|s1: Side, s2: Side|
                    s1.fig < fig1 ==> #[trigger] covered(
                        *parsed_puzzles,
                        only_borders,
                        all_edges@,
                        s1,
                        s2,
                    ),
            decreases n - fig1,
        {
            let mut fig2: usize = 0;
            while fig2 < n
                invariant
                    fig1 < n,
                    fig2 <= n,
                    n == parsed_puzzles.figures@.len(),
                    edges_sorted(all_edges@),
                    edges_sound(*parsed_puzzles, only_borders, all_edges@),
                    forall|i: int|
                        0 <= i < all_edges@.len() ==> (#[trigger] all_edges@[i]).fig1 < fig1 || (
                        all_edges@[i].fig1 == fig1 && all_edges@[i].fig2 < fig2),
                    forall|s1: Side, s2: Side|
                        s1.fig < fig1 || (s1.fig == fig1 && s2.fig < fig2) ==> #[trigger] covered(
                            *parsed_puzzles,
                            only_borders,
                            all_edges@,
                            s1,
                            s2,
                        ),
                decreases n - fig2,
            {
                let mut more = Self::edges_between(parsed_puzzles, only_borders, fig1, fig2);
                let ghost before = all_edges@;
                let ghost chunk = more@;
                all_edges.append(&mut more);
                proof {
                    lemma_append_chunk(*parsed_puzzles, only_borders, before, chunk, fig1, fig2);
                }
                fig2 = fig2 + 1;
            }
            fig1 = fig1 + 1;
        }
        proof {
            assert forall|s1: Side, s2: Side| #[trigger]
                covered(*parsed_puzzles, only_borders, all_edges@, s1, s2) by {
                if s1.fig < n {
                }
            }
            assert forall|i: int| 0 <= i < all_edges@.len() implies (#[trigger] all_edges@[i]).wf(
                n as int,
            ) by {
                let e = all_edges@[i];
                assert(comparable(*parsed_puzzles, only_borders, e.sides_spec().0, e.sides_spec().1));
                assert(is_edge(*parsed_puzzles, e));
            }
        }
        Graph { n, all_edges, parsed_puzzles_hash: parsed_puzzles.calc_hash() }
    }

    /// The scores of the graph as a dense table: for every pair of sides the
    /// score of the last edge that connects them, in either direction, and
    /// `NO_EDGE_SCORE` where there is none.
    pub fn gen_adj_matrix(&self) -> (r: SideTable)
        requires
            self.wf(),
            table_fits(self.n),
        ensures
            r.wf(),
            r.n() == self.n,
            forall|s1: Side, s2: Side|
                side_in_range(s1, self.n as int) && side_in_range(s2, self.n as int)
                    ==> #[trigger] r.value(s1, s2) == adj_score(self.all_edges@, s1, s2),
    {
        let mut dist = SideTable::new(self.n, NO_EDGE_SCORE);
        let m = self.all_edges.len();
        let mut i: usize = 0;
        while i < m
            invariant
                i <= m,
                m == self.all_edges@.len(),
                self.wf(),
                dist.wf(),
                dist.n() == self.n,
                forall|s1: Side, s2: Side|
                    side_in_range(s1, self.n as int) && side_in_range(s2, self.n as int)
                        ==> #[trigger] dist.value(s1, s2) == adj_score_upto(
                        self.all_edges@,
                        i as int,
                        s1,
                        s2,
                    ),
            decreases m - i,
        {
            let e = self.all_edges[i];
            assert(e.wf(self.n as int));
            let (s1, s2) = e.sides();
            dist.set(s1, s2, e.score);
            dist.set(s2, s1, e.score);
            i = i + 1;
        }
        dist
    }

    /// The anchor points of the graph as a dense table: for every ordered
    /// pair of sides the anchors of the last edge that leads from the first
    /// to the second, and twice the origin where there is none. No edge may
    /// have two anchors that coincide.
    pub fn get_base_points_matrix(&self) -> (r: AnchorTable)
        requires
            self.wf(),
            self.anchors_wf(),
            table_fits(self.n),
        ensures
            r.wf(),
            r.n() == self.n,
            forall|s1: Side, s2: Side|
                side_in_range(s1, self.n as int) && side_in_range(s2, self.n as int)
                    ==> #[trigger] r.value(s1, s2) == base_points(self.all_edges@, s1, s2),
    {
        let mut index = SideTable::new(self.n, NO_EDGE_SCORE);
        let mut edges: Vec<Edge> = Vec::new();
        let m = self.all_edges.len();
        let mut i: usize = 0;
        while i < m
            invariant
                i <= m,
                m == self.all_edges@.len(),
                self.wf(),
                index.wf(),
                index.n() == self.n,
                edges@ == self.all_edges@.take(i as int),
                forall|s1: Side, s2: Side|
                    side_in_range(s1, self.n as int) && side_in_range(s2, self.n as int)
                        ==> #[trigger] index.value(s1, s2) as int == match edge_index_upto(
                        self.all_edges@,
                        i as int,
                        s1,
                        s2,
                    ) {
                        Some(k) => k,
                        None => NO_EDGE_SCORE as int,
                    },
            decreases m - i,
        {
            let e = self.all_edges[i];
            assert(e.wf(self.n as int));
            let (s1, s2) = e.sides();
            index.set(s1, s2, i as u64);
            edges.push(e);
            assert(edges@ =~= self.all_edges@.take(i as int + 1));
            i = i + 1;
        }
        let r = AnchorTable { index, edges };
        proof {
            assert(self.all_edges@.take(m as int) == self.all_edges@);
            assert forall|s1: Side, s2: Side|
                side_in_range(s1, self.n as int) && side_in_range(
                    s2,
                    self.n as int,
                ) implies #[trigger] r.value(s1, s2) == base_points(self.all_edges@, s1, s2) by {
                lemma_edge_index(self.all_edges@, m as int, s1, s2);
            }
        }
        r
    }

    /// The number of figures that some edge touches.
    pub fn num_vertices(&self) -> (r: usize)
        ensures
            r == self.vertices().len(),
            self.vertices().finite(),
    {
        broadcast use vstd::std_specs::btree::group_btree_axioms;

        let mut seen: BTreeSet<usize> = BTreeSet::new();
        let m = self.all_edges.len();
        let mut i: usize = 0;
        while i < m
            invariant
                i <= m,
                m == self.all_edges@.len(),
                seen@ == vertices_upto(self.all_edges@, i as int),
                seen@.finite(),
            decreases m - i,
        {
            let e = self.all_edges[i];
            seen.insert(e.fig1);
            seen.insert(e.fig2);
            i = i + 1;
        }
        seen.len()
    }
}

/// The edges of one more pair of figures, appended to those of all pairs
/// before it, keep the order, the soundness and the coverage.
proof fn lemma_append_chunk(
    puzzles: ParsedPuzzles,
    only_borders: bool,
    before: Seq<Edge>,
    chunk: Seq<Edge>,
    fig1: usize,
    fig2: usize,
)
    requires
        edges_sorted(before),
        edges_sound(puzzles, only_borders, before),
        forall|i: int|
            0 <= i < before.len() ==> (#[trigger] before[i]).fig1 < fig1 || (before[i].fig1 == fig1
                && before[i].fig2 < fig2),
        forall|s1: Side, s2: Side|
            s1.fig < fig1 || (s1.fig == fig1 && s2.fig < fig2) ==> #[trigger] covered(
                puzzles,
                only_borders,
                before,
                s1,
                s2,
            ),
        edges_sorted(chunk),
        edges_sound(puzzles, only_borders, chunk),
        forall|i: int| 0 <= i < chunk.len() ==> (#[trigger] chunk[i]).fig1 == fig1 && chunk[i].fig2 == fig2,
        forall|a: usize, b: usize|
            a < 4 && b < 4 ==> #[trigger] covered(
                puzzles,
                only_borders,
                chunk,
                Side { fig: fig1, side: a },
                Side { fig: fig2, side: b },
            ),
    ensures
        edges_sorted(before + chunk),
        edges_sound(puzzles, only_borders, before + chunk),
        forall|i: int|
            0 <= i < (before + chunk).len() ==> (#[trigger] (before + chunk)[i]).fig1 < fig1 || ((
            before + chunk)[i].fig1 == fig1 && (before + chunk)[i].fig2 < fig2 + 1),
        forall|s1: Side, s2: Side|
            s1.fig < fig1 || (s1.fig == fig1 && s2.fig < fig2 + 1) ==> #[trigger] covered(
                puzzles,
                only_borders,
                before + chunk,
                s1,
                s2,
            ),
{
    let all = before + chunk;
    assert forall|i: int, j: int| 0 <= i < j < all.len() implies edge_before(
        #[trigger] all[i],
        #[trigger] all[j],
    ) by {
        if j < before.len() {
            assert(all[i] == before[i] && all[j] == before[j]);
        } else if i < before.len() {
            assert(all[i] == before[i] && all[j] == chunk[j - before.len()]);
        } else {
            assert(all[i] == chunk[i - before.len()] && all[j] == chunk[j - before.len()]);
        }
    }
    assert forall|i: int| 0 <= i < all.len() implies {
        &&& comparable(puzzles, only_borders, (#[trigger] all[i]).sides_spec().0, all[i].sides_spec().1)
        &&& is_edge(puzzles, all[i])
    } by {
        if i < before.len() {
            assert(all[i] == before[i]);
        } else {
            assert(all[i] == chunk[i - before.len()]);
        }
    }
    assert forall|i: int| 0 <= i < all.len() implies (#[trigger] all[i]).fig1 < fig1 || (all[i].fig1
        == fig1 && all[i].fig2 < fig2 + 1) by {
        if i < before.len() {
            assert(all[i] == before[i]);
        } else {
            assert(all[i] == chunk[i - before.len()]);
        }
    }
    assert forall|s1: Side, s2: Side|
        s1.fig < fig1 || (s1.fig == fig1 && s2.fig < fig2 + 1) implies #[trigger] covered(
        puzzles,
        only_borders,
        all,
        s1,
        s2,
    ) by {
        if comparable(puzzles, only_borders, s1, s2) && sides_alignable(puzzles, s1, s2) {
            if s1.fig == fig1 && s2.fig == fig2 {
                assert(covered(
                    puzzles,
                    only_borders,
                    chunk,
                    Side { fig: fig1, side: s1.side },
                    Side { fig: fig2, side: s2.side },
                ));
                let i = choose|i: int|
                    0 <= i < chunk.len() && (#[trigger] chunk[i]).sides_spec() == (s1, s2);
                assert(all[before.len() + i] == chunk[i]);
            } else {
                assert(covered(puzzles, only_borders, before, s1, s2));
                let i = choose|i: int|
                    0 <= i < before.len() && (#[trigger] before[i]).sides_spec() == (s1, s2);
                assert(all[i] == before[i]);
            }
            assert(has_edge(all, s1, s2));
        }
    }
}

} // verus!
