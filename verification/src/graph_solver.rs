//! Assembly: from a candidate graph to positions of the pieces on a canvas.

use vstd::prelude::*;
use crate::border_matcher::{
    conv_all, conv_seq, cyclic_run, cyclic_run_spec, match_placed_borders, move_point, reversed,
    similarity,
};
use crate::borders_graph::Graph;
use crate::coordinate_system::CoordinateSystem;
use crate::figure::Figure;
use crate::math::saturate_score;
use crate::parsed_puzzles::ParsedPuzzles;
use crate::placement::Placement;
use crate::point::PointF;
use crate::score_table::table_fits;
use crate::seeding::{
    four_block_placement, greedy_placement, is_four_block_placement, is_greedy_placement,
};
use crate::surface_placer::{is_surface, place_on_surface};
use crate::utils::Side;

verus! {

/// Four sides, one of each of four pieces that meet in a point: `s0` and
/// `s1` lie side by side, `s2` and `s3` below them.
#[derive(Clone, Copy, Debug)]
pub struct Four {
    pub s0: Side,
    pub s1: Side,
    pub s2: Side,
    pub s3: Side,
    /// The worst of the scores of the four joints of the block.
    pub max_dist: u64,
}

impl Four {
    /// The four joints of the block: the pairs of sides that face each other.
    pub open spec fn neighbours_spec(self) -> Seq<(Side, Side)> {
        seq![
            (self.s0, self.s1.opposite_spec()),
            (self.s0.next_spec(), self.s2.prev_spec()),
            (self.s1.next_spec(), self.s3.prev_spec()),
            (self.s2, self.s3.opposite_spec()),
        ]
    }

    /// The four sides of the block.
    pub fn all(&self) -> (r: [Side; 4])
        ensures
            r@ == seq![self.s0, self.s1, self.s2, self.s3],
    {
        let r = [self.s0, self.s1, self.s2, self.s3];
        assert(r@ =~= seq![self.s0, self.s1, self.s2, self.s3]);
        r
    }

    /// The four joints of the block.
    pub fn neighbours(&self) -> (r: [(Side, Side); 4])
        ensures
            r@ == self.neighbours_spec(),
    {
        let r = [
            (self.s0, self.s1.opposite()),
            (self.s0.next(), self.s2.prev()),
            (self.s1.next(), self.s3.prev()),
            (self.s2, self.s3.opposite()),
        ];
        assert(r@ =~= self.neighbours_spec());
        r
    }
}

/// The largest of four scores.
pub open spec fn max4(a: Seq<u64>) -> u64 {
    let m01 = if a[0] >= a[1] {
        a[0]
    } else {
        a[1]
    };
    let m23 = if a[2] >= a[3] {
        a[2]
    } else {
        a[3]
    };
    if m01 >= m23 {
        m01
    } else {
        m23
    }
}

/// The largest of four scores.
pub fn fmax4(a: [u64; 4]) -> (r: u64)
    ensures
        r == max4(a@),
        r >= a@[0] && r >= a@[1] && r >= a@[2] && r >= a@[3],
{
    let mut res = a[0];
    let mut i: usize = 1;
    while i < 4
        invariant
            1 <= i <= 4,
            forall|j: int| 0 <= j < i ==> res >= a@[j],
            exists|j: int| 0 <= j < i && res == a@[j],
        decreases 4 - i,
    {
        if a[i] > res {
            res = a[i];
        }
        i = i + 1;
    }
    res
}

/// The position of a figure before anything has moved it: its own outline.
pub fn gen_basic_position(figure: &Figure) -> (r: Vec<PointF>)
    ensures
        r@ == figure.basic_position(),
{
    let r = conv_all(figure.border.as_slice());
    assert(figure.basic_position() =~= conv_seq(figure.border@));
    r
}

/// The move that takes a figure from where it was traced to where it has
/// been placed: both frames run from the first outline point to the one half
/// way round, `from_cs` in the photograph and `to_cs` on the canvas.
#[derive(Clone, Copy, Debug)]
pub struct MoveCS {
    pub from_cs: CoordinateSystem,
    pub to_cs: CoordinateSystem,
}

impl MoveCS {
    /// Whether the two frames of the move exist: the outline and the
    /// positions have the same length, and in each the first point differs
    /// from the one half way round.
    pub open spec fn defined(figure: Figure, positions: Seq<PointF>) -> bool {
        let n = figure.border@.len() as int / 2;
        &&& figure.border@.len() > 0
        &&& positions.len() == figure.border@.len()
        &&& figure.border@[0].conv_spec() != figure.border@[n].conv_spec()
        &&& positions[0] != positions[n]
    }

    /// The move of `figure` to `positions`.
    pub open spec fn new_spec(figure: Figure, positions: Seq<PointF>) -> MoveCS {
        let n = figure.border@.len() as int / 2;
        MoveCS {
            from_cs: CoordinateSystem::between_spec(
                figure.border@[0].conv_spec(),
                figure.border@[n].conv_spec(),
            ),
            to_cs: CoordinateSystem::between_spec(positions[0], positions[n]),
        }
    }

    /// Where the move takes the point `p` of the photograph.
    pub open spec fn conv_point_spec(self, p: PointF) -> PointF {
        move_point(self.to_cs, self.from_cs, p)
    }

    /// The move of `figure` to `positions`.
    pub fn new(figure: &Figure, positions: &[PointF]) -> (r: Self)
        requires
            Self::defined(*figure, positions@),
        ensures
            r == Self::new_spec(*figure, positions@),
            r.from_cs.wf(),
            r.to_cs.wf(),
    {
        let n = figure.border.len() / 2;
        MoveCS {
            from_cs: CoordinateSystem::between(
                figure.border[0].conv_fixed(),
                figure.border[n].conv_fixed(),
            ),
            to_cs: CoordinateSystem::between(positions[0], positions[n]),
        }
    }

    /// The move of `figure` to `positions`, if its two frames exist.
    pub fn try_new(figure: &Figure, positions: &[PointF]) -> (r: Option<Self>)
        ensures
            r is Some <==> Self::defined(*figure, positions@),
            r matches Some(m) ==> m == Self::new_spec(*figure, positions@) && m.from_cs.wf()
                && m.to_cs.wf(),
    {
        let len = figure.border.len();
        if len == 0 || positions.len() != len {
            return None;
        }
        let n = len / 2;
        let a = figure.border[0].conv_fixed();
        let b = figure.border[n].conv_fixed();
        if a == b || positions[0] == positions[n] {
            return None;
        }
        Some(Self::new(figure, positions))
    }

    /// Takes a point of the photograph to its place on the canvas.
    pub fn conv_point(&self, p: PointF) -> (r: PointF)
        ensures
            r == self.conv_point_spec(p),
    {
        self.to_cs.to_real(self.from_cs.create(p))
    }
}

/// The positions `pos` of a whole outline cut down to the side `side`.
pub open spec fn border_spec(pos: Seq<PointF>, figure: Figure, side: int) -> Seq<PointF> {
    cyclic_run_spec(pos, figure.side_start(side), figure.side_end(side))
}

/// Whether the positions `pos` cover the two corners of side `side`.
pub open spec fn covers_side(pos: Seq<PointF>, figure: Figure, side: int) -> bool {
    &&& 0 <= side < 4
    &&& figure.corner_positions@.len() == 4
    &&& figure.side_start(side) < pos.len()
    &&& figure.side_end(side) < pos.len()
}

/// The placed points of one side of a figure, from corner to corner, out of
/// the placed points `pos` of its whole outline.
pub fn get_border(pos: &[PointF], parsed_puzzles: &ParsedPuzzles, side: Side) -> (r: Vec<PointF>)
    requires
        side.fig < parsed_puzzles.figures@.len(),
        covers_side(pos@, parsed_puzzles.figures@[side.fig as int], side.side as int),
    ensures
        r@ == border_spec(pos@, parsed_puzzles.figures@[side.fig as int], side.side as int),
        r@.len() > 0,
{
    let figure = &parsed_puzzles.figures[side.fig];
    let cur = figure.corner_positions[side.side];
    let end = figure.corner_positions[(side.side + 1) % 4];
    cyclic_run(pos, cur, end)
}

/// The similarity of side `s1` as placed by `pos1` and side `s2`, reversed,
/// as placed by `pos2`.
pub open spec fn borders_dist_spec(
    pos1: Seq<PointF>,
    pos2: Seq<PointF>,
    puzzles: ParsedPuzzles,
    s1: Side,
    s2: Side,
) -> int {
    similarity(
        border_spec(pos1, puzzles.figures@[s1.fig as int], s1.side as int),
        border_spec(pos2, puzzles.figures@[s2.fig as int], s2.side as int).reverse(),
    )
}

/// How well two placed sides fit: the similarity of the first and the
/// reverse of the second.
pub fn get_borders_dist(
    pos1: &[PointF],
    pos2: &[PointF],
    parsed_puzzles: &ParsedPuzzles,
    s1: Side,
    s2: Side,
) -> (r: u64)
    requires
        s1.fig < parsed_puzzles.figures@.len(),
        s2.fig < parsed_puzzles.figures@.len(),
        covers_side(pos1@, parsed_puzzles.figures@[s1.fig as int], s1.side as int),
        covers_side(pos2@, parsed_puzzles.figures@[s2.fig as int], s2.side as int),
    ensures
        r as int == borders_dist_spec(pos1@, pos2@, *parsed_puzzles, s1, s2),
{
    let border1 = get_border(pos1, parsed_puzzles, s1);
    let border2_forward = get_border(pos2, parsed_puzzles, s2);
    let border2 = reversed(border2_forward.as_slice());
    match_placed_borders(border1.as_slice(), border2.as_slice())
}

/// The sum of a sequence of scores.
pub open spec fn total_score(scores: Seq<u64>) -> int
    decreases scores.len(),
{
    if scores.len() == 0 {
        0
    } else {
        total_score(scores.drop_last()) + scores.last()
    }
}

/// The scores of the joints of a component, collected one by one.
#[derive(Debug)]
pub struct EdgesScores {
    pub all_scores: Vec<u64>,
}

impl EdgesScores {
    /// No scores yet.
    pub fn new() -> (r: Self)
        ensures
            r.all_scores@ == Seq::<u64>::empty(),
    {
        Self { all_scores: Vec::new() }
    }

    /// Adds the score of one more joint.
    pub fn add_score(&mut self, score: u64)
        ensures
            final(self).all_scores@ == old(self).all_scores@.push(score),
    {
        self.all_scores.push(score);
    }

    /// The sum of all scores, limited to the score range.
    pub fn get_final_score(&self) -> (r: u64)
        ensures
            r as int == saturate_score(total_score(self.all_scores@)),
    {
        let n = self.all_scores.len();
        let mut sum: u64 = 0;
        let mut i: usize = 0;
        while i < n
            invariant
                i <= n,
                n == self.all_scores@.len(),
                sum as int == saturate_score(total_score(self.all_scores@.take(i as int))),
                total_score(self.all_scores@.take(i as int)) >= 0,
            decreases n - i,
        {
            proof {
                assert(self.all_scores@.take(i as int + 1).drop_last() == self.all_scores@.take(
                    i as int,
                ));
            }
            sum = sum.saturating_add(self.all_scores[i]);
            i = i + 1;
        }
        proof {
            assert(self.all_scores@.take(n as int) == self.all_scores@);
        }
        sum
    }
}

/// Solves the puzzle with greedy seeding: the best edges of the graph are
/// joined one by one, and the figures are placed along the joins.
pub fn solve_graph_simple(graph: &Graph, parsed_puzzles: &ParsedPuzzles) -> (r: Vec<
    Option<Vec<PointF>>,
>)
    requires
        graph.parsed_puzzles_hash == parsed_puzzles.hash_spec(),
        graph.n == parsed_puzzles.figures@.len(),
        graph.wf(),
        table_fits(graph.n),
    ensures
        r@.len() == graph.n,
        exists|p: Placement| #[trigger]
            is_greedy_placement(graph.all_edges@, graph.n as int, p) && is_surface(
                graph.all_edges@,
                p,
                *parsed_puzzles,
                r@,
            ),
{
    let placement = greedy_placement(graph);
    place_on_surface(graph, &placement, parsed_puzzles)
}

/// Solves the puzzle with seeding by blocks: blocks of four pieces that
/// meet in a point are joined first, and the figures are placed along the
/// joins.
pub fn solve_graph(graph: &Graph, parsed_puzzles: &ParsedPuzzles) -> (r: Vec<Option<Vec<PointF>>>)
    requires
        graph.parsed_puzzles_hash == parsed_puzzles.hash_spec(),
        graph.n == parsed_puzzles.figures@.len(),
        graph.wf(),
        table_fits(graph.n),
    ensures
        r@.len() == graph.n,
        exists|p: Placement| #[trigger]
            is_four_block_placement(graph.all_edges@, graph.n as int, p) && is_surface(
                graph.all_edges@,
                p,
                *parsed_puzzles,
                r@,
            ),
{
    let placement = four_block_placement(graph);
    place_on_surface(graph, &placement, parsed_puzzles)
}

} // verus!
