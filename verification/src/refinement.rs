//! Joint refinement of the positions of a component.

use vstd::prelude::*;
use crate::border_matcher::{
    accepts_frames, agrees, all_wf, local_optimize_coordinate_systems, move_points, move_seq,
    optimize_spec,
};
use crate::coordinate_system::CoordinateSystem;
use crate::figure::Figure;
use crate::graph_solver::{
    borders_dist_spec, covers_side, EdgesScores, gen_basic_position, get_borders_dist, MoveCS,
    total_score,
};
use crate::math::saturate_score;
use crate::parsed_puzzles::ParsedPuzzles;
use crate::placement::side_in_range;
use crate::point::PointF;
use crate::spanning_forest::pairs_in_range;
use crate::utils::Side;

verus! {

/// Joint refinement takes at most this many rounds.
pub const MAX_REFINE_ROUNDS: usize = 1000;

/// The scores of the joints `edges` when figure `f` lies at `pos_of(f)`.
pub open spec fn edge_dists(
    puzzles: ParsedPuzzles,
    edges: Seq<(Side, Side)>,
    pos_of: spec_fn(usize) -> Seq<PointF>,
) -> Seq<u64> {
    Seq::new(
        edges.len(),
        |i: int|
            borders_dist_spec(
                pos_of(edges[i].0.fig),
                pos_of(edges[i].1.fig),
                puzzles,
                edges[i].0,
                edges[i].1,
            ) as u64,
    )
}

/// The joint score of a set of joints: the sum of their scores, limited to
/// the score range.
pub open spec fn joint_score(
    puzzles: ParsedPuzzles,
    edges: Seq<(Side, Side)>,
    pos_of: spec_fn(usize) -> Seq<PointF>,
) -> int {
    saturate_score(total_score(edge_dists(puzzles, edges, pos_of)))
}

/// Whether a pair is a joint inside the component, counted once: both its
/// figures are in the component, and the first has the smaller index.
pub open spec fn is_component_edge(component: Seq<usize>, e: (Side, Side)) -> bool {
    component.contains(e.0.fig) && component.contains(e.1.fig) && e.0.fig < e.1.fig
}

/// The joints inside a component, each counted once.
pub open spec fn component_edges(all_edges: Seq<(Side, Side)>, component: Seq<usize>) -> Seq<
    (Side, Side),
> {
    all_edges.filter(|e: (Side, Side)| is_component_edge(component, e))
}

/// The placed points of each figure; nothing for a figure that is not placed.
pub open spec fn placed_of(positions: Seq<Option<Vec<PointF>>>) -> spec_fn(usize) -> Seq<PointF> {
    |f: usize|
        if f < positions.len() && positions[f as int] is Some {
            positions[f as int]->Some_0@
        } else {
            Seq::empty()
        }
}

/// The joint score of a component: the sum, over the joints inside it, of
/// the similarity of the two joined sides as they are placed.
pub open spec fn component_score(
    puzzles: ParsedPuzzles,
    all_edges: Seq<(Side, Side)>,
    component: Seq<usize>,
    positions: Seq<Option<Vec<PointF>>>,
) -> int {
    joint_score(puzzles, component_edges(all_edges, component), placed_of(positions))
}

/// Where a figure lies when its frame in the photograph is `from_cs` and
/// its frame on the canvas is `to_cs`.
pub open spec fn frame_position(figure: Figure, from_cs: CoordinateSystem, to_cs: CoordinateSystem) -> Seq<
    PointF,
> {
    move_seq(to_cs, from_cs, figure.basic_position())
}

/// Every figure of the component is one of the figures, is well formed, and
/// is placed with as many points as its outline has; no figure is listed
/// twice.
pub open spec fn component_placed(
    puzzles: ParsedPuzzles,
    component: Seq<usize>,
    positions: Seq<Option<Vec<PointF>>>,
) -> bool {
    &&& positions.len() == puzzles.figures@.len()
    &&& component.no_duplicates()
    &&& forall|i: int|
        0 <= i < component.len() ==> {
            &&& (#[trigger] component[i]) < positions.len()
            &&& puzzles.figures@[component[i] as int].wf()
            &&& positions[component[i] as int] matches Some(p) && p@.len()
                == puzzles.figures@[component[i] as int].border@.len()
        }
}

/// The joint score depends on the positions of the figures of the joints
/// only.
pub proof fn lemma_joint_score_agree(
    puzzles: ParsedPuzzles,
    edges: Seq<(Side, Side)>,
    p1: spec_fn(usize) -> Seq<PointF>,
    p2: spec_fn(usize) -> Seq<PointF>,
)
    requires
        forall|i: int|
            0 <= i < edges.len() ==> p1((#[trigger] edges[i]).0.fig) == p2(edges[i].0.fig) && p1(
                edges[i].1.fig,
            ) == p2(edges[i].1.fig),
    ensures
        joint_score(puzzles, edges, p1) == joint_score(puzzles, edges, p2),
{
    assert(edge_dists(puzzles, edges, p1) =~= edge_dists(puzzles, edges, p2));
}

fn copy_points(pts: &Vec<PointF>) -> (r: Vec<PointF>)
    ensures
        r@ == pts@,
{
    let n = pts.len();
    let mut res: Vec<PointF> = Vec::new();
    let mut i: usize = 0;
    while i < n
        invariant
            i <= n,
            n == pts@.len(),
            res@.len() == i,
            forall|j: int| 0 <= j < i ==> res@[j] == pts@[j],
        decreases n - i,
    {
        res.push(pts[i]);
        i = i + 1;
    }
    assert(res@ =~= pts@);
    res
}

/// The positions of the figures of a component by their place in the
/// component, given where each place maps to.
pub open spec fn local_pos_of(pos: Seq<Vec<PointF>>, local_of: Seq<usize>) -> spec_fn(usize) -> Seq<
    PointF,
> {
    |f: usize|
        if f < local_of.len() && local_of[f as int] < pos.len() {
            pos[local_of[f as int] as int]@
        } else {
            Seq::empty()
        }
}

/// The joints can be scored: each names sides of figures that have a place
/// in the component, and the points at that place cover the side.
pub open spec fn edges_scorable(
    puzzles: ParsedPuzzles,
    edges: Seq<(Side, Side)>,
    local_of: Seq<usize>,
    pos: Seq<Vec<PointF>>,
) -> bool {
    &&& local_of.len() == puzzles.figures@.len()
    &&& forall|i: int|
        0 <= i < edges.len() ==> {
            &&& (#[trigger] edges[i]).0.fig < local_of.len()
            &&& edges[i].1.fig < local_of.len()
            &&& local_of[edges[i].0.fig as int] < pos.len()
            &&& local_of[edges[i].1.fig as int] < pos.len()
            &&& covers_side(
                pos[local_of[edges[i].0.fig as int] as int]@,
                puzzles.figures@[edges[i].0.fig as int],
                edges[i].0.side as int,
            )
            &&& covers_side(
                pos[local_of[edges[i].1.fig as int] as int]@,
                puzzles.figures@[edges[i].1.fig as int],
                edges[i].1.side as int,
            )
        }
}

/// The joint score of the joints `edges` for the positions `pos`.
fn score_positions(
    pos: &Vec<Vec<PointF>>,
    edges: &Vec<(Side, Side)>,
    local_of: &Vec<usize>,
    parsed_puzzles: &ParsedPuzzles,
) -> (r: u64)
    requires
        edges_scorable(*parsed_puzzles, edges@, local_of@, pos@),
    ensures
        r as int == joint_score(*parsed_puzzles, edges@, local_pos_of(pos@, local_of@)),
{
    let m = edges.len();
    let mut res = EdgesScores::new();
    let ghost dists = edge_dists(*parsed_puzzles, edges@, local_pos_of(pos@, local_of@));
    let mut i: usize = 0;
    while i < m
        invariant
            i <= m,
            m == edges@.len(),
            edges_scorable(*parsed_puzzles, edges@, local_of@, pos@),
            dists == edge_dists(*parsed_puzzles, edges@, local_pos_of(pos@, local_of@)),
            res.all_scores@ == dists.take(i as int),
        decreases m - i,
    {
        let (s1, s2) = edges[i];
        let l1 = local_of[s1.fig];
        let l2 = local_of[s2.fig];
        let dist = get_borders_dist(
            pos[l1].as_slice(),
            pos[l2].as_slice(),
            parsed_puzzles,
            s1,
            s2,
        );
        res.add_score(dist);
        assert(res.all_scores@ =~= dists.take(i as int + 1));
        i = i + 1;
    }
    assert(dists.take(m as int) =~= dists);
    res.get_final_score()
}

/// The positions of the figures of a component for given frames.
fn calc_new_positions(
    to_cs: &Vec<CoordinateSystem>,
    from_cs: &Vec<CoordinateSystem>,
    parsed_puzzles: &ParsedPuzzles,
    cur_component: &Vec<usize>,
) -> (r: Vec<Vec<PointF>>)
    requires
        to_cs@.len() == cur_component@.len(),
        from_cs@.len() == cur_component@.len(),
        forall|i: int|
            0 <= i < cur_component@.len() ==> (#[trigger] cur_component@[i])
                < parsed_puzzles.figures@.len(),
    ensures
        r@.len() == cur_component@.len(),
        forall|i: int|
            0 <= i < r@.len() ==> (#[trigger] r@[i])@ == frame_position(
                parsed_puzzles.figures@[cur_component@[i] as int],
                from_cs@[i],
                to_cs@[i],
            ),
{
    let n = cur_component.len();
    let mut res: Vec<Vec<PointF>> = Vec::new();
    let mut i: usize = 0;
    while i < n
        invariant
            i <= n,
            n == cur_component@.len(),
            to_cs@.len() == n,
            from_cs@.len() == n,
            forall|j: int|
                0 <= j < n ==> (#[trigger] cur_component@[j]) < parsed_puzzles.figures@.len(),
            res@.len() == i,
            forall|j: int|
                0 <= j < i ==> (#[trigger] res@[j])@ == frame_position(
                    parsed_puzzles.figures@[cur_component@[j] as int],
                    from_cs@[j],
                    to_cs@[j],
                ),
        decreases n - i,
    {
        let figure = &parsed_puzzles.figures[cur_component[i]];
        let basic = gen_basic_position(figure);
        let moved = move_points(&to_cs[i], &from_cs[i], basic.as_slice());
        res.push(moved);
        i = i + 1;
    }
    res
}

/// The places of the figures in a component: `local_of[f]` is the place of
/// figure `f`, or the length of the component if `f` is not in it.
pub open spec fn is_local_index(component: Seq<usize>, local_of: Seq<usize>) -> bool {
    forall|f: int|
        0 <= f < local_of.len() ==> {
            &&& (#[trigger] local_of[f]) <= component.len()
            &&& local_of[f] < component.len() <==> component.contains(f as usize)
            &&& local_of[f] < component.len() ==> component[local_of[f] as int] == f
        }
}

fn index_component(n: usize, cur_component: &Vec<usize>) -> (r: Vec<usize>)
    requires
        cur_component@.no_duplicates(),
        forall|i: int| 0 <= i < cur_component@.len() ==> (#[trigger] cur_component@[i]) < n,
    ensures
        r@.len() == n,
        is_local_index(cur_component@, r@),
{
    let len = cur_component.len();
    let mut local_of: Vec<usize> = Vec::new();
    let mut f: usize = 0;
    while f < n
        invariant
            f <= n,
            local_of@.len() == f,
            forall|j: int| 0 <= j < f ==> (#[trigger] local_of@[j]) == len,
        decreases n - f,
    {
        local_of.push(len);
        f = f + 1;
    }
    let mut i: usize = 0;
    while i < len
        invariant
            i <= len,
            len == cur_component@.len(),
            local_of@.len() == n,
            cur_component@.no_duplicates(),
            forall|j: int| 0 <= j < len ==> (#[trigger] cur_component@[j]) < n,
            forall|f: int|
                0 <= f < n ==> {
                    &&& (#[trigger] local_of@[f]) <= len
                    &&& local_of@[f] < len <==> cur_component@.take(i as int).contains(f as usize)
                    &&& local_of@[f] < len ==> cur_component@[local_of@[f] as int] == f
                },
        decreases len - i,
    {
        let c = cur_component[i];
        let ghost before = local_of@;
        local_of.set(c, i);
        proof {
            let seen = cur_component@.take(i as int);
            let seen2 = cur_component@.take(i as int + 1);
            assert(seen2 =~= seen.push(c));
            assert forall|f: int| 0 <= f < n implies {
                &&& (#[trigger] local_of@[f]) <= len
                &&& local_of@[f] < len <==> seen2.contains(f as usize)
                &&& local_of@[f] < len ==> cur_component@[local_of@[f] as int] == f
            } by {
                if f == c {
                    assert(seen2[i as int] == c);
                } else {
                    assert(local_of@[f] == before[f]);
                    if seen2.contains(f as usize) {
                        let j = choose|j: int| 0 <= j < seen2.len() && seen2[j] == f as usize;
                        assert(j < i);
                        assert(seen[j] == f as usize);
                    }
                    if seen.contains(f as usize) {
                        let j = choose|j: int| 0 <= j < seen.len() && seen[j] == f as usize;
                        assert(seen2[j] == f as usize);
                    }
                }
            }
        }
        i = i + 1;
    }
    assert(cur_component@.take(len as int) =~= cur_component@);
    local_of
}

/// What scoring needs to know of the joints of a component, whatever the
/// positions: every joint names sides of figures of the component, which
/// are well formed.
pub open spec fn joints_ready(
    puzzles: ParsedPuzzles,
    edges: Seq<(Side, Side)>,
    local_of: Seq<usize>,
    component: Seq<usize>,
) -> bool {
    &&& local_of.len() == puzzles.figures@.len()
    &&& is_local_index(component, local_of)
    &&& forall|i: int|
        0 <= i < component.len() ==> (#[trigger] component[i]) < puzzles.figures@.len()
            && puzzles.figures@[component[i] as int].wf()
    &&& forall|i: int|
        0 <= i < edges.len() ==> {
            &&& side_in_range((#[trigger] edges[i]).0, puzzles.figures@.len() as int)
            &&& side_in_range(edges[i].1, puzzles.figures@.len() as int)
            &&& component.contains(edges[i].0.fig)
            &&& component.contains(edges[i].1.fig)
        }
}

/// With every figure of the component given as many points as its outline
/// has, its joints can be scored.
proof fn lemma_scorable(
    puzzles: ParsedPuzzles,
    edges: Seq<(Side, Side)>,
    local_of: Seq<usize>,
    component: Seq<usize>,
    pos: Seq<Vec<PointF>>,
)
    requires
        joints_ready(puzzles, edges, local_of, component),
        pos.len() == component.len(),
        forall|i: int|
            0 <= i < pos.len() ==> (#[trigger] pos[i])@.len()
                == puzzles.figures@[component[i] as int].border@.len(),
    ensures
        edges_scorable(puzzles, edges, local_of, pos),
{
    assert forall|i: int| 0 <= i < edges.len() implies {
        &&& (#[trigger] edges[i]).0.fig < local_of.len()
        &&& edges[i].1.fig < local_of.len()
        &&& local_of[edges[i].0.fig as int] < pos.len()
        &&& local_of[edges[i].1.fig as int] < pos.len()
        &&& covers_side(
            pos[local_of[edges[i].0.fig as int] as int]@,
            puzzles.figures@[edges[i].0.fig as int],
            edges[i].0.side as int,
        )
        &&& covers_side(
            pos[local_of[edges[i].1.fig as int] as int]@,
            puzzles.figures@[edges[i].1.fig as int],
            edges[i].1.side as int,
        )
    } by {
        let f0 = edges[i].0.fig;
        let f1 = edges[i].1.fig;
        let l0 = local_of[f0 as int];
        let l1 = local_of[f1 as int];
        assert(side_in_range(edges[i].0, puzzles.figures@.len() as int));
        assert(component[l0 as int] == f0);
        assert(component[l1 as int] == f1);
        assert(puzzles.figures@[f0 as int].wf());
        assert(puzzles.figures@[f1 as int].wf());
        assert(pos[l0 as int]@.len() == puzzles.figures@[f0 as int].border@.len());
        assert(pos[l1 as int]@.len() == puzzles.figures@[f1 as int].border@.len());
    }
}

/// The positions of the figures of a component, by their place in it.
pub open spec fn local_positions(positions: Seq<Option<Vec<PointF>>>, component: Seq<usize>) -> Seq<
    Seq<PointF>,
> {
    Seq::new(component.len(), |i: int| positions[component[i] as int]->Some_0@)
}

/// The contents of a vector of positions.
pub open spec fn deep(pos: Seq<Vec<PointF>>) -> Seq<Seq<PointF>> {
    Seq::new(pos.len(), |i: int| pos[i]@)
}

/// The place of the figure `f` in the component.
pub open spec fn place_of(component: Seq<usize>, f: usize) -> int {
    choose|i: int| 0 <= i < component.len() && component[i] == f
}

/// The position of each figure of a component, given the positions by
/// place.
pub open spec fn member_positions(component: Seq<usize>, pos: Seq<Seq<PointF>>) -> spec_fn(usize) -> Seq<
    PointF,
> {
    |f: usize|
        if component.contains(f) {
            pos[place_of(component, f)]
        } else {
            Seq::empty()
        }
}

/// The joint score of the joints `edges` of a component whose figures lie
/// at the positions `pos`, given by place.
pub open spec fn local_score(
    puzzles: ParsedPuzzles,
    edges: Seq<(Side, Side)>,
    component: Seq<usize>,
    pos: Seq<Seq<PointF>>,
) -> int {
    joint_score(puzzles, edges, member_positions(component, pos))
}

/// Whether every figure of the component lies so that it has a frame.
pub open spec fn frames_defined(puzzles: ParsedPuzzles, component: Seq<usize>, pos: Seq<Seq<PointF>>) -> bool {
    forall|i: int|
        0 <= i < component.len() ==> MoveCS::defined(
            puzzles.figures@[(#[trigger] component[i]) as int],
            pos[i],
        )
}

/// The frames of the figures of a component in the photograph.
pub open spec fn photo_frames(puzzles: ParsedPuzzles, component: Seq<usize>, pos: Seq<Seq<PointF>>) -> Seq<
    CoordinateSystem,
> {
    Seq::new(
        component.len(),
        |i: int| MoveCS::new_spec(puzzles.figures@[component[i] as int], pos[i]).from_cs,
    )
}

/// The frames of the figures of a component on the canvas.
pub open spec fn canvas_frames(puzzles: ParsedPuzzles, component: Seq<usize>, pos: Seq<Seq<PointF>>) -> Seq<
    CoordinateSystem,
> {
    Seq::new(
        component.len(),
        |i: int| MoveCS::new_spec(puzzles.figures@[component[i] as int], pos[i]).to_cs,
    )
}

/// Where the figures of a component lie for given frames.
pub open spec fn frames_positions(
    puzzles: ParsedPuzzles,
    component: Seq<usize>,
    from: Seq<CoordinateSystem>,
    to: Seq<CoordinateSystem>,
) -> Seq<Seq<PointF>> {
    Seq::new(
        component.len(),
        |i: int| frame_position(puzzles.figures@[component[i] as int], from[i], to[i]),
    )
}

/// The score that joint refinement gives to a list of canvas frames: the
/// joint score of the component when its figures lie as the frames say.
pub open spec fn round_scores(
    puzzles: ParsedPuzzles,
    edges: Seq<(Side, Side)>,
    component: Seq<usize>,
    from: Seq<CoordinateSystem>,
) -> spec_fn(Seq<CoordinateSystem>) -> u64 {
    |cs: Seq<CoordinateSystem>|
        local_score(puzzles, edges, component, frames_positions(puzzles, component, from, cs)) as u64
}

/// One round of joint refinement from the positions `pos`: the positions
/// that local search finds, if every figure has a frame and their joint
/// score is smaller than that of `pos`.
pub open spec fn refine_round(
    puzzles: ParsedPuzzles,
    edges: Seq<(Side, Side)>,
    component: Seq<usize>,
    pos: Seq<Seq<PointF>>,
) -> Option<Seq<Seq<PointF>>> {
    if !frames_defined(puzzles, component, pos) {
        None
    } else {
        let from = photo_frames(puzzles, component, pos);
        let found = optimize_spec(
            round_scores(puzzles, edges, component, from),
            canvas_frames(puzzles, component, pos),
        );
        let better = frames_positions(puzzles, component, from, found);
        if local_score(puzzles, edges, component, better) < local_score(
            puzzles,
            edges,
            component,
            pos,
        ) {
            Some(better)
        } else {
            None
        }
    }
}

/// The positions after at most `rounds` rounds of joint refinement from the
/// positions `pos`.
pub open spec fn refined(
    puzzles: ParsedPuzzles,
    edges: Seq<(Side, Side)>,
    component: Seq<usize>,
    pos: Seq<Seq<PointF>>,
    rounds: int,
) -> Seq<Seq<PointF>>
    decreases rounds,
{
    if rounds <= 0 {
        pos
    } else {
        match refine_round(puzzles, edges, component, pos) {
            Some(better) => refined(puzzles, edges, component, better, rounds - 1),
            None => pos,
        }
    }
}

/// The positions of the figures as sequences of points.
pub open spec fn views(positions: Seq<Option<Vec<PointF>>>) -> Seq<Option<Seq<PointF>>> {
    Seq::new(
        positions.len(),
        |f: int|
            match positions[f] {
                Some(p) => Some(p@),
                None => None,
            },
    )
}

/// The positions of the figures of a component, by their place in it, out
/// of the positions of all figures.
pub open spec fn local_views(vpos: Seq<Option<Seq<PointF>>>, component: Seq<usize>) -> Seq<
    Seq<PointF>,
> {
    Seq::new(component.len(), |i: int| vpos[component[i] as int]->Some_0)
}

/// The positions of all figures with those of the figures of a component
/// replaced by `locals`, given by place.
pub open spec fn with_locals(
    vpos: Seq<Option<Seq<PointF>>>,
    component: Seq<usize>,
    locals: Seq<Seq<PointF>>,
) -> Seq<Option<Seq<PointF>>> {
    Seq::new(
        vpos.len(),
        |f: int|
            if component.contains(f as usize) {
                Some(locals[place_of(component, f as usize)])
            } else {
                vpos[f]
            },
    )
}

/// The positions of all figures after the joint refinement of a component.
pub open spec fn refine_views(
    puzzles: ParsedPuzzles,
    all_edges: Seq<(Side, Side)>,
    vpos: Seq<Option<Seq<PointF>>>,
    component: Seq<usize>,
) -> Seq<Option<Seq<PointF>>> {
    with_locals(
        vpos,
        component,
        refined(
            puzzles,
            component_edges(all_edges, component),
            component,
            local_views(vpos, component),
            MAX_REFINE_ROUNDS as int,
        ),
    )
}

/// Positions that agree with the refined positions on the component and
/// with the old ones elsewhere are the old positions refined.
proof fn lemma_refine_views(
    puzzles: ParsedPuzzles,
    all_edges: Seq<(Side, Side)>,
    component: Seq<usize>,
    before: Seq<Option<Vec<PointF>>>,
    after: Seq<Option<Vec<PointF>>>,
)
    requires
        before.len() <= usize::MAX,
        component_placed(puzzles, component, before),
        component_placed(puzzles, component, after),
        forall|f: int|
            0 <= f < before.len() && !component.contains(f as usize) ==> (#[trigger] after[f])
                == before[f],
        local_positions(after, component) == refined(
            puzzles,
            component_edges(all_edges, component),
            component,
            local_positions(before, component),
            MAX_REFINE_ROUNDS as int,
        ),
    ensures
        views(after) == refine_views(puzzles, all_edges, views(before), component),
{
    assert(local_positions(before, component) =~~= local_views(views(before), component));
    let locals = local_positions(after, component);
    assert forall|f: int| 0 <= f < after.len() implies #[trigger] views(after)[f] == with_locals(
        views(before),
        component,
        locals,
    )[f] by {
        if component.contains(f as usize) {
            let i = place_of(component, f as usize);
            assert(component[i] == f as usize);
            assert(locals[i] == after[component[i] as int]->Some_0@);
        }
    }
    assert(views(after) =~= with_locals(views(before), component, locals));
}

/// The score of positions given by place is their joint score by figure.
proof fn lemma_local_score(
    puzzles: ParsedPuzzles,
    edges: Seq<(Side, Side)>,
    local_of: Seq<usize>,
    component: Seq<usize>,
    pos: Seq<Vec<PointF>>,
)
    requires
        joints_ready(puzzles, edges, local_of, component),
        component.no_duplicates(),
        pos.len() == component.len(),
    ensures
        joint_score(puzzles, edges, local_pos_of(pos, local_of)) == local_score(
            puzzles,
            edges,
            component,
            deep(pos),
        ),
{
    assert forall|i: int| 0 <= i < edges.len() implies local_pos_of(pos, local_of)(
        (#[trigger] edges[i]).0.fig,
    ) == member_positions(component, deep(pos))(edges[i].0.fig) && local_pos_of(pos, local_of)(
        edges[i].1.fig,
    ) == member_positions(component, deep(pos))(edges[i].1.fig) by {
        let f0 = edges[i].0.fig;
        let f1 = edges[i].1.fig;
        assert(side_in_range(edges[i].0, puzzles.figures@.len() as int));
        assert(component[local_of[f0 as int] as int] == f0);
        assert(component[local_of[f1 as int] as int] == f1);
        assert(place_of(component, f0) == local_of[f0 as int]);
        assert(place_of(component, f1) == local_of[f1 as int]);
    }
    lemma_joint_score_agree(
        puzzles,
        edges,
        local_pos_of(pos, local_of),
        member_positions(component, deep(pos)),
    );
}

/// The frames of the figures of a component in the photograph and on the
/// canvas, and a copy of their positions; nothing where a figure lies so
/// that it has no frame.
fn component_frames(
    parsed_puzzles: &ParsedPuzzles,
    positions: &Vec<Option<Vec<PointF>>>,
    cur_component: &Vec<usize>,
) -> (r: Option<(Vec<CoordinateSystem>, Vec<CoordinateSystem>, Vec<Vec<PointF>>)>)
    requires
        component_placed(*parsed_puzzles, cur_component@, positions@),
    ensures
        r is Some <==> frames_defined(
            *parsed_puzzles,
            cur_component@,
            local_positions(positions@, cur_component@),
        ),
        r matches Some((from_frames, to_frames, cur_pos)) ==> {
            &&& from_frames@ == photo_frames(
                *parsed_puzzles,
                cur_component@,
                local_positions(positions@, cur_component@),
            )
            &&& to_frames@ == canvas_frames(
                *parsed_puzzles,
                cur_component@,
                local_positions(positions@, cur_component@),
            )
            &&& deep(cur_pos@) == local_positions(positions@, cur_component@)
            &&& all_wf(to_frames@)
            &&& from_frames@.len() == cur_component@.len()
            &&& to_frames@.len() == cur_component@.len()
            &&& cur_pos@.len() == cur_component@.len()
            &&& forall|i: int|
                0 <= i < cur_pos@.len() ==> (#[trigger] cur_pos@[i])@.len()
                    == parsed_puzzles.figures@[cur_component@[i] as int].border@.len()
        },
{
    let len = cur_component.len();
    let mut from_frames: Vec<CoordinateSystem> = Vec::new();
    let mut to_frames: Vec<CoordinateSystem> = Vec::new();
    let mut cur_pos: Vec<Vec<PointF>> = Vec::new();
    let mut k: usize = 0;
    while k < len
        invariant
            k <= len,
            len == cur_component@.len(),
            component_placed(*parsed_puzzles, cur_component@, positions@),
            from_frames@.len() == k,
            to_frames@.len() == k,
            cur_pos@.len() == k,
            all_wf(to_frames@),
            forall|j: int|
                0 <= j < k ==> {
                    &&& (#[trigger] cur_pos@[j])@ == positions@[cur_component@[j] as int]->Some_0@
                    &&& MoveCS::defined(parsed_puzzles.figures@[cur_component@[j] as int], cur_pos@[j]@)
                    &&& from_frames@[j] == MoveCS::new_spec(
                        parsed_puzzles.figures@[cur_component@[j] as int],
                        cur_pos@[j]@,
                    ).from_cs
                    &&& to_frames@[j] == MoveCS::new_spec(
                        parsed_puzzles.figures@[cur_component@[j] as int],
                        cur_pos@[j]@,
                    ).to_cs
                },
        decreases len - k,
    {
        let c = cur_component[k];
        let figure = &parsed_puzzles.figures[c];
        let ghost places = local_positions(positions@, cur_component@);
        assert(places[k as int] == positions@[c as int]->Some_0@);
        match &positions[c] {
            Some(p) => {
                match MoveCS::try_new(figure, p.as_slice()) {
                    Some(move_cs) => {
                        from_frames.push(move_cs.from_cs);
                        to_frames.push(move_cs.to_cs);
                        cur_pos.push(copy_points(p));
                    },
                    None => {
                        assert(!MoveCS::defined(
                            parsed_puzzles.figures@[cur_component@[k as int] as int],
                            places[k as int],
                        ));
                        return None;
                    },
                }
            },
            None => {
                return None;
            },
        }
        k = k + 1;
    }
    proof {
        let places = local_positions(positions@, cur_component@);
        assert(deep(cur_pos@) =~~= places);
        assert(from_frames@ =~= photo_frames(*parsed_puzzles, cur_component@, places));
        assert(to_frames@ =~= canvas_frames(*parsed_puzzles, cur_component@, places));
        assert forall|i: int| 0 <= i < cur_component@.len() implies MoveCS::defined(
            parsed_puzzles.figures@[(#[trigger] cur_component@[i]) as int],
            places[i],
        ) by {
            assert(cur_pos@[i]@ == places[i]);
        }
    }
    Some((from_frames, to_frames, cur_pos))
}

/// The joint score of a component for given frames of its figures.
fn score_frames(
    to_cs: &Vec<CoordinateSystem>,
    from_cs: &Vec<CoordinateSystem>,
    parsed_puzzles: &ParsedPuzzles,
    cur_component: &Vec<usize>,
    comp_edges: &Vec<(Side, Side)>,
    local_of: &Vec<usize>,
) -> (r: u64)
    requires
        to_cs@.len() == cur_component@.len(),
        from_cs@.len() == cur_component@.len(),
        cur_component@.no_duplicates(),
        joints_ready(*parsed_puzzles, comp_edges@, local_of@, cur_component@),
    ensures
        r == round_scores(*parsed_puzzles, comp_edges@, cur_component@, from_cs@)(to_cs@),
{
    let pos = calc_new_positions(to_cs, from_cs, parsed_puzzles, cur_component);
    proof {
        lemma_scorable(*parsed_puzzles, comp_edges@, local_of@, cur_component@, pos@);
        lemma_local_score(*parsed_puzzles, comp_edges@, local_of@, cur_component@, pos@);
        assert(deep(pos@) =~~= frames_positions(
            *parsed_puzzles,
            cur_component@,
            from_cs@,
            to_cs@,
        ));
    }
    score_positions(&pos, comp_edges, local_of, parsed_puzzles)
}

/// The joints inside the component, each once, out of all joints.
fn select_component_edges(
    all_edges: &Vec<(Side, Side)>,
    parsed_puzzles: &ParsedPuzzles,
    cur_component: &Vec<usize>,
    local_of: &Vec<usize>,
) -> (r: Vec<(Side, Side)>)
    requires
        pairs_in_range(all_edges@, parsed_puzzles.figures@.len() as int),
        local_of@.len() == parsed_puzzles.figures@.len(),
        is_local_index(cur_component@, local_of@),
        forall|i: int|
            0 <= i < cur_component@.len() ==> (#[trigger] cur_component@[i])
                < parsed_puzzles.figures@.len()
                && parsed_puzzles.figures@[cur_component@[i] as int].wf(),
    ensures
        r@ == component_edges(all_edges@, cur_component@),
        joints_ready(*parsed_puzzles, r@, local_of@, cur_component@),
{
    let n = local_of.len();
    let len = cur_component.len();
    let ghost pred = |e: (Side, Side)| is_component_edge(cur_component@, e);
    let mut comp_edges: Vec<(Side, Side)> = Vec::new();
    let m = all_edges.len();
    let mut i: usize = 0;
    proof {
        reveal(Seq::filter);
        assert(all_edges@.take(0).filter(pred) =~= Seq::<(Side, Side)>::empty());
    }
    while i < m
        invariant
            i <= m,
            m == all_edges@.len(),
            n == parsed_puzzles.figures@.len(),
            local_of@.len() == n,
            len == cur_component@.len(),
            is_local_index(cur_component@, local_of@),
            pairs_in_range(all_edges@, n as int),
            pred == (|e: (Side, Side)| is_component_edge(cur_component@, e)),
            comp_edges@ == all_edges@.take(i as int).filter(pred),
            forall|j: int|
                0 <= j < comp_edges@.len() ==> {
                    &&& side_in_range((#[trigger] comp_edges@[j]).0, n as int)
                    &&& side_in_range(comp_edges@[j].1, n as int)
                    &&& cur_component@.contains(comp_edges@[j].0.fig)
                    &&& cur_component@.contains(comp_edges@[j].1.fig)
                },
        decreases m - i,
    {
        let (s1, s2) = all_edges[i];
        assert(side_in_range(all_edges@[i as int].0, n as int));
        let keep = local_of[s1.fig] < len && local_of[s2.fig] < len && s1.fig < s2.fig;
        proof {
            reveal(Seq::filter);
            assert(all_edges@.take(i as int + 1).drop_last() == all_edges@.take(i as int));
            assert(keep == pred(all_edges@[i as int]));
        }
        if keep {
            comp_edges.push((s1, s2));
        }
        i = i + 1;
    }
    proof {
        assert(all_edges@.take(m as int) == all_edges@);
    }
    comp_edges
}

/// Puts the figures of a component at new positions.
fn commit_positions(
    positions: &mut Vec<Option<Vec<PointF>>>,
    parsed_puzzles: &ParsedPuzzles,
    cur_component: &Vec<usize>,
    new_pos: &Vec<Vec<PointF>>,
)
    requires
        component_placed(*parsed_puzzles, cur_component@, old(positions)@),
        new_pos@.len() == cur_component@.len(),
        forall|t: int|
            0 <= t < new_pos@.len() ==> (#[trigger] new_pos@[t])@.len()
                == parsed_puzzles.figures@[cur_component@[t] as int].border@.len(),
    ensures
        component_placed(*parsed_puzzles, cur_component@, final(positions)@),
        local_positions(final(positions)@, cur_component@) == deep(new_pos@),
        forall|f: int|
            0 <= f < old(positions)@.len() && !cur_component@.contains(f as usize) ==> (
            #[trigger] final(positions)@[f]) == old(positions)@[f],
{
    let len = cur_component.len();
    let ghost before = positions@;
    let mut j: usize = 0;
    while j < len
        invariant
            j <= len,
            len == cur_component@.len(),
            new_pos@.len() == len,
            positions@.len() == before.len(),
            component_placed(*parsed_puzzles, cur_component@, before),
            forall|t: int|
                0 <= t < len ==> (#[trigger] new_pos@[t])@.len()
                    == parsed_puzzles.figures@[cur_component@[t] as int].border@.len(),
            forall|t: int|
                0 <= t < j ==> (#[trigger] positions@[cur_component@[t] as int]) is Some
                    && positions@[cur_component@[t] as int]->Some_0@ == new_pos@[t]@,
            forall|t: int|
                j <= t < len ==> positions@[#[trigger] cur_component@[t] as int]
                    == before[cur_component@[t] as int],
            forall|f: int|
                0 <= f < before.len() && !cur_component@.contains(f as usize) ==> (
                #[trigger] positions@[f]) == before[f],
        decreases len - j,
    {
        let c = cur_component[j];
        positions.set(c, Some(copy_points(&new_pos[j])));
        j = j + 1;
    }
    assert(local_positions(positions@, cur_component@) =~~= deep(new_pos@));
}

/// The joint score of a component is the score of its positions by place.
proof fn lemma_component_score(
    puzzles: ParsedPuzzles,
    all_edges: Seq<(Side, Side)>,
    local_of: Seq<usize>,
    component: Seq<usize>,
    positions: Seq<Option<Vec<PointF>>>,
)
    requires
        component_placed(puzzles, component, positions),
        joints_ready(puzzles, component_edges(all_edges, component), local_of, component),
    ensures
        component_score(puzzles, all_edges, component, positions) == local_score(
            puzzles,
            component_edges(all_edges, component),
            component,
            local_positions(positions, component),
        ),
{
    let edges = component_edges(all_edges, component);
    let places = local_positions(positions, component);
    assert forall|i: int| 0 <= i < edges.len() implies placed_of(positions)((#[trigger] edges[i]).0.fig)
        == member_positions(component, places)(edges[i].0.fig) && placed_of(positions)(edges[i].1.fig)
        == member_positions(component, places)(edges[i].1.fig) by {
        let f0 = edges[i].0.fig;
        let f1 = edges[i].1.fig;
        let i0 = place_of(component, f0);
        let i1 = place_of(component, f1);
        assert(component[i0] == f0);
        assert(component[i1] == f1);
    }
    lemma_joint_score_agree(puzzles, edges, placed_of(positions), member_positions(component, places));
}

/// One round of joint refinement. Tells whether it has found better
/// positions; if so, the figures of the component lie there now.
fn refine_once(
    positions: &mut Vec<Option<Vec<PointF>>>,
    parsed_puzzles: &ParsedPuzzles,
    cur_component: &Vec<usize>,
    comp_edges: &Vec<(Side, Side)>,
    local_of: &Vec<usize>,
) -> (improved: bool)
    requires
        component_placed(*parsed_puzzles, cur_component@, old(positions)@),
        joints_ready(*parsed_puzzles, comp_edges@, local_of@, cur_component@),
    ensures
        component_placed(*parsed_puzzles, cur_component@, final(positions)@),
        forall|f: int|
            0 <= f < old(positions)@.len() && !cur_component@.contains(f as usize) ==> (
            #[trigger] final(positions)@[f]) == old(positions)@[f],
        improved ==> refine_round(
            *parsed_puzzles,
            comp_edges@,
            cur_component@,
            local_positions(old(positions)@, cur_component@),
        ) == Some(local_positions(final(positions)@, cur_component@)),
        !improved ==> final(positions)@ == old(positions)@ && refine_round(
            *parsed_puzzles,
            comp_edges@,
            cur_component@,
            local_positions(old(positions)@, cur_component@),
        ) is None,
{
    let len = cur_component.len();
    let ghost places = local_positions(positions@, cur_component@);
    let (from_frames, to_frames, cur_pos) = match component_frames(
        parsed_puzzles,
        positions,
        cur_component,
    ) {
        Some(found) => found,
        None => {
            return false;
        },
    };
    proof {
        lemma_scorable(*parsed_puzzles, comp_edges@, local_of@, cur_component@, cur_pos@);
        lemma_local_score(*parsed_puzzles, comp_edges@, local_of@, cur_component@, cur_pos@);
    }
    let start_score = score_positions(&cur_pos, comp_edges, local_of, parsed_puzzles);
    let scores: Ghost<spec_fn(Seq<CoordinateSystem>) -> u64> = Ghost(
        round_scores(*parsed_puzzles, comp_edges@, cur_component@, from_frames@),
    );
    let scorer = |cs: &Vec<CoordinateSystem>| -> (s: u64)
        requires
            cs@.len() == len,
        ensures
            s == scores@(cs@),
        {
            score_frames(cs, &from_frames, parsed_puzzles, cur_component, comp_edges, local_of)
        };
    assert(accepts_frames(scorer, to_frames@.len()));
    let optimized = local_optimize_coordinate_systems(&to_frames, scorer);
    let new_pos = calc_new_positions(&optimized, &from_frames, parsed_puzzles, cur_component);
    proof {
        assert(agrees(scorer, scores@));
        lemma_scorable(*parsed_puzzles, comp_edges@, local_of@, cur_component@, new_pos@);
        lemma_local_score(*parsed_puzzles, comp_edges@, local_of@, cur_component@, new_pos@);
        assert(deep(new_pos@) =~~= frames_positions(
            *parsed_puzzles,
            cur_component@,
            from_frames@,
            optimized@,
        ));
    }
    let new_score = score_positions(&new_pos, comp_edges, local_of, parsed_puzzles);
    if new_score < start_score {
        commit_positions(positions, parsed_puzzles, cur_component, &new_pos);
        true
    } else {
        false
    }
}

/// Joint refinement of a component: every placed figure of the component
/// gets a frame from its current position, and local search moves all these
/// frames together to make the joint score of the component smaller. The
/// new positions are taken over only if their joint score is smaller than
/// that of the current ones; then the next round starts from them. It ends
/// with the first round that brings nothing, after `MAX_REFINE_ROUNDS`
/// rounds, or where a figure lies so that it has no frame.
///
/// Figures outside the component stay where they are, and the joint score
/// of the component never gets worse.
pub fn local_optimize_positions(
    all_edges: &Vec<(Side, Side)>,
    positions: &mut Vec<Option<Vec<PointF>>>,
    parsed_puzzles: &ParsedPuzzles,
    cur_component: &Vec<usize>,
)
    requires
        component_placed(*parsed_puzzles, cur_component@, old(positions)@),
        pairs_in_range(all_edges@, parsed_puzzles.figures@.len() as int),
    ensures
        component_placed(*parsed_puzzles, cur_component@, final(positions)@),
        forall|f: int|
            0 <= f < old(positions)@.len() && !cur_component@.contains(f as usize) ==> (
            #[trigger] final(positions)@[f]) == old(positions)@[f],
        component_score(*parsed_puzzles, all_edges@, cur_component@, final(positions)@)
            <= component_score(*parsed_puzzles, all_edges@, cur_component@, old(positions)@),
        local_positions(final(positions)@, cur_component@) == refined(
            *parsed_puzzles,
            component_edges(all_edges@, cur_component@),
            cur_component@,
            local_positions(old(positions)@, cur_component@),
            MAX_REFINE_ROUNDS as int,
        ),
        views(final(positions)@) == refine_views(
            *parsed_puzzles,
            all_edges@,
            views(old(positions)@),
            cur_component@,
        ),
{
    let n = positions.len();
    let local_of = index_component(n, cur_component);
    let comp_edges = select_component_edges(all_edges, parsed_puzzles, cur_component, &local_of);
    proof {
        lemma_component_score(
            *parsed_puzzles,
            all_edges@,
            local_of@,
            cur_component@,
            positions@,
        );
    }
    let mut round: usize = 0;
    while round < MAX_REFINE_ROUNDS
        invariant
            positions@.len() == old(positions)@.len(),
            component_placed(*parsed_puzzles, cur_component@, positions@),
            joints_ready(*parsed_puzzles, comp_edges@, local_of@, cur_component@),
            comp_edges@ == component_edges(all_edges@, cur_component@),
            forall|f: int|
                0 <= f < old(positions)@.len() && !cur_component@.contains(f as usize) ==> (
                #[trigger] positions@[f]) == old(positions)@[f],
            local_score(
                *parsed_puzzles,
                comp_edges@,
                cur_component@,
                local_positions(positions@, cur_component@),
            ) <= local_score(
                *parsed_puzzles,
                comp_edges@,
                cur_component@,
                local_positions(old(positions)@, cur_component@),
            ),
            round <= MAX_REFINE_ROUNDS,
            refined(
                *parsed_puzzles,
                comp_edges@,
                cur_component@,
                local_positions(positions@, cur_component@),
                MAX_REFINE_ROUNDS - round,
            ) == refined(
                *parsed_puzzles,
                comp_edges@,
                cur_component@,
                local_positions(old(positions)@, cur_component@),
                MAX_REFINE_ROUNDS as int,
            ),
        ensures
            local_positions(positions@, cur_component@) == refined(
                *parsed_puzzles,
                comp_edges@,
                cur_component@,
                local_positions(old(positions)@, cur_component@),
                MAX_REFINE_ROUNDS as int,
            ),
        decreases MAX_REFINE_ROUNDS - round,
    {
        if !refine_once(positions, parsed_puzzles, cur_component, &comp_edges, &local_of) {
            break ;
        }
        round = round + 1;
    }
    proof {
        lemma_component_score(
            *parsed_puzzles,
            all_edges@,
            local_of@,
            cur_component@,
            positions@,
        );
        lemma_refine_views(
            *parsed_puzzles,
            all_edges@,
            cur_component@,
            old(positions)@,
            positions@,
        );
    }
}

} // verus!
