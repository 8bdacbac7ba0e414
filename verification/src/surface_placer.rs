//! Placing: from joined sides to positions on the shared canvas.

use std::collections::VecDeque;
use vstd::prelude::*;
use crate::border_matcher::{
    alignable, alignment_frame, estimate_spec, match_borders, move_seq, side_points,
};
use crate::borders_graph::{adj_score, Edge, Graph};
use crate::graph_solver::{gen_basic_position, MoveCS};
use crate::packing::{is_packing, pack_all, packed_apart};
use crate::parsed_puzzles::ParsedPuzzles;
use crate::placement::{
    lemma_joined_is_neighbour, lemma_neighbours_are_joined, Placement, side_in_range,
};
use crate::point::PointF;
use crate::refinement::{component_placed, local_optimize_positions, refine_views, views};
use crate::score_table::{SideTable, table_fits};
use crate::sorting::{is_stable_order, lemma_stable_order_covers, stable_order};
use crate::spanning_forest::{forest_upto, has_tree_edge, pairs_in_range, spanning_forest, touches};
use crate::utils::Side;

verus! {

/// A set of figure indices below `n` has at most `n` members.
proof fn lemma_count_bound(s: Set<usize>, n: int)
    requires
        s.finite(),
        0 <= n <= usize::MAX,
        forall|v: usize| #[trigger] s.contains(v) ==> v < n,
    ensures
        s.len() <= n,
    decreases n,
{
    if n == 0 {
        assert(s =~= Set::empty());
    } else {
        let top = (n - 1) as usize;
        let rest = s.remove(top);
        lemma_count_bound(rest, n - 1);
    }
}

/// A sequence of distinct figure indices below `n` has at most `n` entries.
pub proof fn lemma_distinct_bounded(s: Seq<usize>, n: int)
    requires
        s.no_duplicates(),
        0 <= n <= usize::MAX,
        forall|i: int| 0 <= i < s.len() ==> (#[trigger] s[i]) < n,
    ensures
        s.len() <= n,
{
    broadcast use vstd::seq_lib::seq_to_set_is_finite;

    s.unique_seq_to_set();
    assert forall|v: usize| #[trigger] s.to_set().contains(v) implies v < n by {
        let i = choose|i: int| 0 <= i < s.len() && s[i] == v;
    }
    lemma_count_bound(s.to_set(), n);
}

/// Every figure that is placed has as many points as its outline.
pub open spec fn positions_ok(puzzles: ParsedPuzzles, positions: Seq<Option<Vec<PointF>>>) -> bool {
    &&& positions.len() == puzzles.figures@.len()
    &&& forall|f: int|
        0 <= f < positions.len() ==> ((#[trigger] positions[f]) matches Some(p) ==> p@.len()
            == puzzles.figures@[f].border@.len())
}

/// Whether the pair at index `t` of `tree` links the figures `a` and `b`.
pub open spec fn links(tree: Seq<(Side, Side)>, t: int, a: usize, b: usize) -> bool {
    0 <= t < tree.len() && ((tree[t].0.fig == a && tree[t].1.fig == b) || (tree[t].0.fig == b
        && tree[t].1.fig == a))
}

/// Whether a pair of `tree` links the figure at place `i` of the component
/// with a figure at an earlier place.
pub open spec fn hangs_on_tree(tree: Seq<(Side, Side)>, comp: Seq<usize>, i: int) -> bool {
    exists|j: int, t: int| 0 <= j < i && #[trigger] links(tree, t, comp[j], comp[i])
}

fn check_tree_edge(tree: &Vec<(Side, Side)>, v: usize) -> (r: bool)
    ensures
        r == has_tree_edge(tree@, v),
{
    let m = tree.len();
    let mut t: usize = 0;
    while t < m
        invariant
            t <= m,
            m == tree@.len(),
            forall|j: int| 0 <= j < t ==> !#[trigger] touches(tree@, j, v),
        decreases m - t,
    {
        if tree[t].0.fig == v || tree[t].1.fig == v {
            assert(touches(tree@, t as int, v));
            return true;
        }
        t = t + 1;
    }
    false
}

/// Where the figure of `s2` comes to lie when it is attached to the figure
/// of `s1`, which lies at `parent_pos`: the outline of the candidate as the
/// alignment of the two sides moves it, taken over into the frame in which
/// the figure of `s1` lies. Nothing if the candidate is no good piece, if
/// the sides cannot be aligned, or if the figure of `s1` has no frame.
pub open spec fn attach_spec(puzzles: ParsedPuzzles, parent_pos: Seq<PointF>, s1: Side, s2: Side) -> Option<
    Seq<PointF>,
> {
    let parent = puzzles.figures@[s1.fig as int];
    let child = puzzles.figures@[s2.fig as int];
    let lhs = side_points(parent, s1.side as int);
    let rhs = side_points(child, s2.side as int).reverse();
    if !child.good_spec() || !alignable(lhs, rhs) || !MoveCS::defined(parent, parent_pos) {
        None
    } else {
        let aligned = move_seq(
            estimate_spec(lhs)->Some_0,
            alignment_frame(lhs, rhs),
            child.basic_position(),
        );
        Some(
            Seq::new(
                aligned.len(),
                |i: int| MoveCS::new_spec(parent, parent_pos).conv_point_spec(aligned[i]),
            ),
        )
    }
}

/// Places the candidate figure of the tree edge from `s1` to `s2` beside
/// the figure of `s1`, which is placed: the two sides are aligned anew, and
/// the aligned outline is taken over into the frame in which the figure of
/// `s1` lies. There is no position if the candidate is no good piece, if
/// the sides cannot be aligned, or if the figure of `s1` has no frame.
fn attach(
    parsed_puzzles: &ParsedPuzzles,
    positions: &Vec<Option<Vec<PointF>>>,
    s1: Side,
    s2: Side,
) -> (r: Option<Vec<PointF>>)
    requires
        positions_ok(*parsed_puzzles, positions@),
        side_in_range(s1, parsed_puzzles.figures@.len() as int),
        side_in_range(s2, parsed_puzzles.figures@.len() as int),
        parsed_puzzles.figures@[s1.fig as int].wf(),
        positions@[s1.fig as int] is Some,
    ensures
        r matches Some(p) ==> p@.len() == parsed_puzzles.figures@[s2.fig as int].border@.len()
            && parsed_puzzles.figures@[s2.fig as int].good_spec(),
        match r {
            Some(p) => attach_spec(*parsed_puzzles, positions@[s1.fig as int]->Some_0@, s1, s2)
                == Some(p@),
            None => attach_spec(*parsed_puzzles, positions@[s1.fig as int]->Some_0@, s1, s2) is None,
        },
{
    let parent = &parsed_puzzles.figures[s1.fig];
    let child = &parsed_puzzles.figures[s2.fig];
    if !child.is_good_puzzle() {
        return None;
    }
    let match_res = match match_borders(parent, s1.side, child, s2.side, s1.fig, s2.fig) {
        Some(m) => m,
        None => {
            return None;
        },
    };
    let move_cs = match &positions[s1.fig] {
        Some(p) => match MoveCS::try_new(parent, p.as_slice()) {
            Some(m) => m,
            None => {
                return None;
            },
        },
        None => {
            return None;
        },
    };
    let n = match_res.rhs.len();
    let mut res: Vec<PointF> = Vec::new();
    let mut i: usize = 0;
    while i < n
        invariant
            i <= n,
            n == match_res.rhs@.len(),
            res@.len() == i,
            forall|j: int|
                0 <= j < i ==> (#[trigger] res@[j]) == move_cs.conv_point_spec(match_res.rhs@[j]),
        decreases n - i,
    {
        res.push(move_cs.conv_point(match_res.rhs[i]));
        i = i + 1;
    }
    assert(attach_spec(*parsed_puzzles, positions@[s1.fig as int]->Some_0@, s1, s2)->Some_0 =~= res@);
    Some(res)
}

/// The pair `e` as a step away from the figure `v`: its side on `v` first;
/// nothing if it has no side on `v`.
pub open spec fn oriented(e: (Side, Side), v: usize) -> Option<(Side, Side)> {
    if e.0.fig == v {
        Some(e)
    } else if e.1.fig == v {
        Some((e.1, e.0))
    } else {
        None
    }
}

/// The marks `failed` name figures of the positions, and no marked figure
/// is placed.
pub open spec fn failed_ok(positions: Seq<Option<Vec<PointF>>>, failed: Seq<bool>) -> bool {
    &&& failed.len() == positions.len()
    &&& forall|f: int| 0 <= f < failed.len() && #[trigger] failed[f] ==> positions[f] is None
}

/// Every figure that `before` marks is marked in `after`.
pub open spec fn marks_kept(before: Seq<bool>, after: Seq<bool>) -> bool {
    &&& after.len() == before.len()
    &&& forall|f: int| 0 <= f < before.len() && #[trigger] before[f] ==> after[f]
}

/// The positions, the component and the marks after the tree edge `e` has
/// been tried from the figure `v` of the component. If the edge leads from
/// `v` to a figure that is neither placed nor marked, that figure is
/// attached: where this gives a position, the figure joins the component
/// there and the component is refined; where it gives none, the figure is
/// marked as failed. Else nothing changes.
pub open spec fn grow_try(
    puzzles: ParsedPuzzles,
    all_edges: Seq<(Side, Side)>,
    vpos: Seq<Option<Seq<PointF>>>,
    comp: Seq<usize>,
    failed: Seq<bool>,
    v: usize,
    e: (Side, Side),
) -> (Seq<Option<Seq<PointF>>>, Seq<usize>, Seq<bool>) {
    match oriented(e, v) {
        Some((s1, s2)) => {
            if vpos[s2.fig as int] is None && !failed[s2.fig as int] {
                match attach_spec(puzzles, vpos[s1.fig as int]->Some_0, s1, s2) {
                    Some(p) => (
                        refine_views(
                            puzzles,
                            all_edges,
                            vpos.update(s2.fig as int, Some(p)),
                            comp.push(s2.fig),
                        ),
                        comp.push(s2.fig),
                        failed,
                    ),
                    None => (vpos, comp, failed.update(s2.fig as int, true)),
                }
            } else {
                (vpos, comp, failed)
            }
        },
        None => (vpos, comp, failed),
    }
}

/// The positions, the component and the marks that growing ends with when
/// it stands at the figure at place `head` of the component and at the tree
/// edge `t`, with `fuel` steps left: the tree edges are tried one after the
/// other from each figure of the component, in the order in which the
/// figures joined it.
pub open spec fn grow_spec(
    puzzles: ParsedPuzzles,
    tree: Seq<(Side, Side)>,
    all_edges: Seq<(Side, Side)>,
    vpos: Seq<Option<Seq<PointF>>>,
    comp: Seq<usize>,
    failed: Seq<bool>,
    head: int,
    t: int,
    fuel: nat,
) -> (Seq<Option<Seq<PointF>>>, Seq<usize>, Seq<bool>)
    decreases fuel,
{
    if fuel == 0 || head >= comp.len() {
        (vpos, comp, failed)
    } else if t >= tree.len() {
        grow_spec(puzzles, tree, all_edges, vpos, comp, failed, head + 1, 0, (fuel - 1) as nat)
    } else {
        let next = grow_try(puzzles, all_edges, vpos, comp, failed, comp[head], tree[t]);
        grow_spec(puzzles, tree, all_edges, next.0, next.1, next.2, head, t + 1, (fuel - 1) as nat)
    }
}

/// The steps that growing a component takes at most: every figure tries
/// every tree edge and then makes way for the next.
pub open spec fn grow_fuel(n: int, m: int) -> nat {
    (n * (m + 1)) as nat
}

/// The component that grows from the root, with the positions and the
/// marks after it.
pub open spec fn grown(
    puzzles: ParsedPuzzles,
    tree: Seq<(Side, Side)>,
    all_edges: Seq<(Side, Side)>,
    vpos: Seq<Option<Seq<PointF>>>,
    failed: Seq<bool>,
    root: usize,
) -> (Seq<Option<Seq<PointF>>>, Seq<usize>, Seq<bool>) {
    grow_spec(
        puzzles,
        tree,
        all_edges,
        vpos,
        seq![root],
        failed,
        0,
        0,
        grow_fuel(vpos.len() as int, tree.len() as int),
    )
}

/// The steps left when growing stands at place `head` and tree edge `t`.
pub open spec fn fuel_left(n: int, m: int, head: int, t: int) -> int {
    (n - head) * (m + 1) - t
}

proof fn lemma_fuel(n: int, m: int, head: int, t: int)
    requires
        0 <= head < n,
        0 <= t <= m,
    ensures
        fuel_left(n, m, head, t) > 0,
        fuel_left(n, m, head, m) - 1 == fuel_left(n, m, head + 1, 0),
        fuel_left(n, m, 0, 0) == grow_fuel(n, m),
        fuel_left(n, m, head + 1, 0) >= 0,
{
    assert((n - head) * (m + 1) == (n - head - 1) * (m + 1) + (m + 1)) by (nonlinear_arith);
    assert((n - head - 1) * (m + 1) >= 0) by (nonlinear_arith)
        requires
            n - head - 1 >= 0,
            m + 1 >= 0,
    ;
    assert(n * (m + 1) >= 0) by (nonlinear_arith)
        requires
            n >= 0,
            m + 1 >= 0,
    ;
}

/// A figure that was not placed joins a component: the component with it
/// is placed.
proof fn lemma_member_added(
    puzzles: ParsedPuzzles,
    members: Seq<usize>,
    before: Seq<Option<Vec<PointF>>>,
    after: Seq<Option<Vec<PointF>>>,
    x: usize,
)
    requires
        before.len() <= usize::MAX,
        positions_ok(puzzles, before),
        component_placed(puzzles, members, before),
        x < before.len(),
        before[x as int] is None,
        puzzles.figures@[x as int].good_spec(),
        after.len() == before.len(),
        after[x as int] is Some,
        after[x as int]->Some_0@.len() == puzzles.figures@[x as int].border@.len(),
        forall|f: int| 0 <= f < before.len() && f != x ==> (#[trigger] after[f]) == before[f],
    ensures
        positions_ok(puzzles, after),
        component_placed(puzzles, members.push(x), after),
        !members.contains(x),
        views(after) == views(before).update(x as int, Some(after[x as int]->Some_0@)),
{
    let now = members.push(x);
    assert(!members.contains(x)) by {
        if members.contains(x) {
            let i = choose|i: int| 0 <= i < members.len() && members[i] == x;
            assert(before[members[i] as int] is Some);
        }
    }
    assert(now.no_duplicates());
    assert forall|i: int| 0 <= i < now.len() implies {
        &&& (#[trigger] now[i]) < after.len()
        &&& puzzles.figures@[now[i] as int].wf()
        &&& after[now[i] as int] matches Some(p) && p@.len()
            == puzzles.figures@[now[i] as int].border@.len()
    } by {
        if i < members.len() {
            assert(now[i] == members[i]);
            assert(members.contains(members[i]));
        }
    }
    assert(views(after) =~= views(before).update(x as int, Some(after[x as int]->Some_0@)));
}

/// Positions that are in order on a component and were in order elsewhere
/// are in order.
proof fn lemma_positions_ok(
    puzzles: ParsedPuzzles,
    comp: Seq<usize>,
    before: Seq<Option<Vec<PointF>>>,
    after: Seq<Option<Vec<PointF>>>,
)
    requires
        before.len() <= usize::MAX,
        positions_ok(puzzles, before),
        component_placed(puzzles, comp, after),
        after.len() == before.len(),
        forall|f: int|
            0 <= f < before.len() && !comp.contains(f as usize) ==> (#[trigger] after[f]) == before[f],
    ensures
        positions_ok(puzzles, after),
{
    assert forall|f: int| 0 <= f < after.len() implies ((#[trigger] after[f]) matches Some(p) ==> p@.len()
        == puzzles.figures@[f].border@.len()) by {
        if comp.contains(f as usize) {
            let j = choose|j: int| 0 <= j < comp.len() && comp[j] == f as usize;
            assert(comp[j] as int == f);
        } else {
            assert(after[f] == before[f]);
        }
    }
}

/// Tries one tree edge from the figure `v` of the component.
fn try_tree_edge(
    v: usize,
    e: (Side, Side),
    all_edges: &Vec<(Side, Side)>,
    positions: &mut Vec<Option<Vec<PointF>>>,
    parsed_puzzles: &ParsedPuzzles,
    component: &mut Vec<usize>,
    queue: &mut VecDeque<usize>,
    failed: &mut Vec<bool>,
)
    requires
        positions_ok(*parsed_puzzles, old(positions)@),
        failed_ok(old(positions)@, old(failed)@),
        component_placed(*parsed_puzzles, old(component)@, old(positions)@),
        old(component)@.contains(v),
        pairs_in_range(all_edges@, parsed_puzzles.figures@.len() as int),
        side_in_range(e.0, parsed_puzzles.figures@.len() as int),
        side_in_range(e.1, parsed_puzzles.figures@.len() as int),
    ensures
        positions_ok(*parsed_puzzles, final(positions)@),
        failed_ok(final(positions)@, final(failed)@),
        marks_kept(old(failed)@, final(failed)@),
        component_placed(*parsed_puzzles, final(component)@, final(positions)@),
        (views(final(positions)@), final(component)@, final(failed)@) == grow_try(
            *parsed_puzzles,
            all_edges@,
            views(old(positions)@),
            old(component)@,
            old(failed)@,
            v,
            e,
        ),
        final(component)@ == old(component)@ || {
            let x = if e.0.fig == v {
                e.1.fig
            } else {
                e.0.fig
            };
            &&& final(component)@ == old(component)@.push(x)
            &&& oriented(e, v) is Some
            &&& x < old(positions)@.len()
            &&& old(positions)@[x as int] is None
            &&& parsed_puzzles.figures@[x as int].good_spec()
        },
        final(queue)@ == old(queue)@ + final(component)@.skip(old(component)@.len() as int),
        forall|f: int|
            0 <= f < old(positions)@.len() && !final(component)@.contains(f as usize) ==> (
            #[trigger] final(positions)@[f]) == old(positions)@[f],
{
    let n = positions.len();
    let ghost members = component@;
    let ghost waiting = queue@;
    let ghost before = positions@;
    proof {
        assert(queue@ =~= queue@ + component@.skip(component@.len() as int));
    }
    let (a, b) = e;
    let (s1, s2) = if a.fig == v {
        (a, b)
    } else if b.fig == v {
        (b, a)
    } else {
        return ;
    };
    proof {
        let j = choose|j: int| 0 <= j < members.len() && members[j] == v;
        assert(before[members[j] as int] is Some);
    }
    if positions[s2.fig].is_some() || failed[s2.fig] {
        return ;
    }
    let pos = match attach(parsed_puzzles, positions, s1, s2) {
        Some(pos) => pos,
        None => {
            failed.set(s2.fig, true);
            return ;
        },
    };
    positions.set(s2.fig, Some(pos));
    component.push(s2.fig);
    queue.push_back(s2.fig);
    let ghost placed = positions@;
    proof {
        lemma_member_added(*parsed_puzzles, members, before, placed, s2.fig);
        assert(queue@ =~= waiting + component@.skip(members.len() as int));
    }
    local_optimize_positions(all_edges, positions, parsed_puzzles, component);
    proof {
        lemma_positions_ok(*parsed_puzzles, component@, placed, positions@);
        assert forall|f: int|
            0 <= f < before.len() && !component@.contains(f as usize) implies (#[trigger] positions@[f])
            == before[f] by {
            assert(component@[members.len() as int] == s2.fig);
            assert(positions@[f] == placed[f]);
        }
        assert forall|f: int| 0 <= f < failed@.len() && #[trigger] failed@[f] implies positions@[f]
            is None by {
            assert(component@[members.len() as int] == s2.fig);
            if component@.contains(f as usize) {
                let i = choose|i: int| 0 <= i < component@.len() && component@[i] == f as usize;
                if i < members.len() {
                    assert(before[members[i] as int] is Some);
                }
            }
        }
    }
}

/// Grows a component from its root, which is placed: the spanning forest
/// is walked breadth first, every figure reached over a tree edge is placed
/// beside the figure it was reached from, and after each such placement the
/// component is refined jointly. Returns the figures of the component in
/// the order in which they were placed.
fn grow_component(
    root: usize,
    tree: &Vec<(Side, Side)>,
    all_edges: &Vec<(Side, Side)>,
    positions: &mut Vec<Option<Vec<PointF>>>,
    parsed_puzzles: &ParsedPuzzles,
    failed: &mut Vec<bool>,
) -> (component: Vec<usize>)
    requires
        positions_ok(*parsed_puzzles, old(positions)@),
        failed_ok(old(positions)@, old(failed)@),
        root < old(positions)@.len(),
        old(positions)@[root as int] is Some,
        parsed_puzzles.figures@[root as int].wf(),
        pairs_in_range(tree@, parsed_puzzles.figures@.len() as int),
        pairs_in_range(all_edges@, parsed_puzzles.figures@.len() as int),
    ensures
        positions_ok(*parsed_puzzles, final(positions)@),
        failed_ok(final(positions)@, final(failed)@),
        marks_kept(old(failed)@, final(failed)@),
        component_placed(*parsed_puzzles, component@, final(positions)@),
        component@.len() >= 1,
        component@[0] == root,
        forall|i: int|
            1 <= i < component@.len() ==> old(positions)@[#[trigger] component@[i] as int] is None
                && has_tree_edge(tree@, component@[i])
                && parsed_puzzles.figures@[component@[i] as int].good_spec(),
        forall|i: int| 1 <= i < component@.len() ==> #[trigger] hangs_on_tree(tree@, component@, i),
        forall|f: int|
            0 <= f < old(positions)@.len() && !component@.contains(f as usize) ==> (
            #[trigger] final(positions)@[f]) == old(positions)@[f],
        (views(final(positions)@), component@, final(failed)@) == grown(
            *parsed_puzzles,
            tree@,
            all_edges@,
            views(old(positions)@),
            old(failed)@,
            root,
        ),
{
    let n = positions.len();
    let m = tree.len();
    let mut component: Vec<usize> = Vec::new();
    component.push(root);
    let mut queue: VecDeque<usize> = VecDeque::new();
    queue.push_back(root);
    let ghost mut head: int = 0;
    let ghost target = grown(*parsed_puzzles, tree@, all_edges@, views(positions@), failed@, root);
    proof {
        assert(component@ =~= seq![root]);
        assert(queue@ =~= component@.skip(0));
        assert(component@.no_duplicates());
        lemma_fuel(n as int, m as int, 0, 0);
    }
    while queue.len() > 0
        invariant
            n == parsed_puzzles.figures@.len(),
            n == positions@.len(),
            n == old(positions)@.len(),
            m == tree@.len(),
            positions_ok(*parsed_puzzles, positions@),
            failed_ok(positions@, failed@),
            marks_kept(old(failed)@, failed@),
            component_placed(*parsed_puzzles, component@, positions@),
            pairs_in_range(tree@, n as int),
            pairs_in_range(all_edges@, n as int),
            component@.len() >= 1,
            component@[0] == root,
            0 <= head <= component@.len(),
            queue@ == component@.skip(head),
            forall|i: int|
                1 <= i < component@.len() ==> old(positions)@[#[trigger] component@[i] as int] is None
                    && has_tree_edge(tree@, component@[i])
                    && parsed_puzzles.figures@[component@[i] as int].good_spec(),
            forall|i: int| 1 <= i < component@.len() ==> #[trigger] hangs_on_tree(tree@, component@, i),
            forall|f: int|
                0 <= f < n && !component@.contains(f as usize) ==> (#[trigger] positions@[f]) == old(
                    positions,
                )@[f],
            fuel_left(n as int, m as int, head, 0) >= 0,
            grow_spec(
                *parsed_puzzles,
                tree@,
                all_edges@,
                views(positions@),
                component@,
                failed@,
                head,
                0,
                fuel_left(n as int, m as int, head, 0) as nat,
            ) == target,
        ensures
            head == component@.len(),
        decreases component@.len() - head + n - component@.len(),
    {
        proof {
            lemma_distinct_bounded(component@, n as int);
        }
        let v = match queue.pop_front() {
            Some(v) => v,
            None => {
                break ;
            },
        };
        proof {
            assert(v == component@[head]);
            assert(queue@ =~= component@.skip(head + 1));
            lemma_fuel(n as int, m as int, head, 0);
        }
        let mut t: usize = 0;
        while t < m
            invariant
                t <= m,
                n == parsed_puzzles.figures@.len(),
                n == positions@.len(),
                n == old(positions)@.len(),
                m == tree@.len(),
                0 <= head < component@.len(),
                v == component@[head],
                component@.len() <= n,
                queue@ == component@.skip(head + 1),
                positions_ok(*parsed_puzzles, positions@),
                failed_ok(positions@, failed@),
                marks_kept(old(failed)@, failed@),
                component_placed(*parsed_puzzles, component@, positions@),
                pairs_in_range(tree@, n as int),
                pairs_in_range(all_edges@, n as int),
                component@.len() >= 1,
                component@[0] == root,
                forall|i: int|
                    1 <= i < component@.len() ==> old(positions)@[#[trigger] component@[i] as int]
                        is None && has_tree_edge(tree@, component@[i])
                        && parsed_puzzles.figures@[component@[i] as int].good_spec(),
                forall|i: int|
                    1 <= i < component@.len() ==> #[trigger] hangs_on_tree(tree@, component@, i),
                forall|f: int|
                    0 <= f < n && !component@.contains(f as usize) ==> (#[trigger] positions@[f])
                        == old(positions)@[f],
                fuel_left(n as int, m as int, head, t as int) > 0,
                grow_spec(
                    *parsed_puzzles,
                    tree@,
                    all_edges@,
                    views(positions@),
                    component@,
                    failed@,
                    head,
                    t as int,
                    fuel_left(n as int, m as int, head, t as int) as nat,
                ) == target,
            decreases m - t,
        {
            let ghost members = component@;
            let ghost before = positions@;
            let ghost waiting = queue@;
            assert(side_in_range(tree@[t as int].0, n as int));
            try_tree_edge(
                v,
                tree[t],
                all_edges,
                positions,
                parsed_puzzles,
                &mut component,
                &mut queue,
                failed,
            );
            proof {
                lemma_grow_step(
                    *parsed_puzzles,
                    tree@,
                    old(positions)@,
                    before,
                    positions@,
                    members,
                    component@,
                    head,
                    t as int,
                );
                lemma_distinct_bounded(component@, n as int);
                lemma_fuel(n as int, m as int, head, t as int);
                if t + 1 <= m {
                    lemma_fuel(n as int, m as int, head, t as int + 1);
                }
                assert(queue@ =~= component@.skip(head + 1)) by {
                    assert(waiting == members.skip(head + 1));
                }
            }
            t = t + 1;
        }
        proof {
            lemma_fuel(n as int, m as int, head, m as int);
            head = head + 1;
        }
    }
    component
}

/// One step of growing keeps what is known of the component: every figure
/// but the first was not placed before, is a good piece, and hangs on the
/// tree; and what is outside the component lies as before.
proof fn lemma_grow_step(
    puzzles: ParsedPuzzles,
    tree: Seq<(Side, Side)>,
    start: Seq<Option<Vec<PointF>>>,
    before: Seq<Option<Vec<PointF>>>,
    after: Seq<Option<Vec<PointF>>>,
    members: Seq<usize>,
    now: Seq<usize>,
    head: int,
    t: int,
)
    requires
        0 <= head < members.len(),
        0 <= t < tree.len(),
        start.len() == before.len(),
        before.len() == after.len(),
        before.len() <= usize::MAX,
        members.len() >= 1,
        forall|i: int|
            0 <= i < members.len() ==> (#[trigger] members[i]) < before.len() && before[members[i] as int]
                is Some,
        forall|i: int|
            1 <= i < members.len() ==> start[#[trigger] members[i] as int] is None && has_tree_edge(
                tree,
                members[i],
            ) && puzzles.figures@[members[i] as int].good_spec(),
        forall|i: int| 1 <= i < members.len() ==> #[trigger] hangs_on_tree(tree, members, i),
        forall|f: int|
            0 <= f < before.len() && !members.contains(f as usize) ==> (#[trigger] before[f])
                == start[f],
        forall|f: int|
            0 <= f < before.len() && !now.contains(f as usize) ==> (#[trigger] after[f]) == before[f],
        now == members || {
            let x = if tree[t].0.fig == members[head] {
                tree[t].1.fig
            } else {
                tree[t].0.fig
            };
            &&& now == members.push(x)
            &&& oriented(tree[t], members[head]) is Some
            &&& x < before.len()
            &&& before[x as int] is None
            &&& puzzles.figures@[x as int].good_spec()
        },
    ensures
        now.len() >= 1,
        now[0] == members[0],
        now[head] == members[head],
        forall|i: int|
            1 <= i < now.len() ==> start[#[trigger] now[i] as int] is None && has_tree_edge(
                tree,
                now[i],
            ) && puzzles.figures@[now[i] as int].good_spec(),
        forall|i: int| 1 <= i < now.len() ==> #[trigger] hangs_on_tree(tree, now, i),
        forall|f: int|
            0 <= f < before.len() && !now.contains(f as usize) ==> (#[trigger] after[f]) == start[f],
{
    if now != members {
        let x = if tree[t].0.fig == members[head] {
            tree[t].1.fig
        } else {
            tree[t].0.fig
        };
        assert(!members.contains(x)) by {
            if members.contains(x) {
                let i = choose|i: int| 0 <= i < members.len() && members[i] == x;
                assert(before[x as int] is None);
            }
        }
        assert(touches(tree, t, x));
        assert forall|i: int| 1 <= i < now.len() implies start[#[trigger] now[i] as int] is None
            && has_tree_edge(tree, now[i]) && puzzles.figures@[now[i] as int].good_spec() by {
            if i < members.len() {
                assert(now[i] == members[i]);
            } else {
                assert(now[i] == x);
                assert(before[x as int] == start[x as int]);
            }
        }
        assert forall|i: int| 1 <= i < now.len() implies #[trigger] hangs_on_tree(tree, now, i) by {
            if i < members.len() {
                assert(hangs_on_tree(tree, members, i));
                let (j, e) = choose|j: int, e: int|
                    0 <= j < i && #[trigger] links(tree, e, members[j], members[i]);
                assert(links(tree, e, now[j], now[i]));
            } else {
                assert(links(tree, t, now[head], now[i]));
            }
        }
        assert forall|f: int| 0 <= f < before.len() && !now.contains(f as usize) implies (
        #[trigger] after[f]) == start[f] by {
            if members.contains(f as usize) {
                let i = choose|i: int| 0 <= i < members.len() && members[i] == f as usize;
                assert(now[i] == f as usize);
            }
        }
    }
}

/// Whether the placement has joined a side of figure `f`.
pub open spec fn has_join(placement: Placement, f: usize) -> bool {
    exists|side: usize| side < 4 && (#[trigger] placement.partner(Side { fig: f, side })) is Some
}

/// Whether the figure `f` is in one of the components.
pub open spec fn in_components(comps: Seq<Vec<usize>>, f: usize) -> bool {
    exists|k: int| 0 <= k < comps.len() && (#[trigger] comps[k])@.contains(f)
}

/// The components split the placed figures into groups: every member of a
/// component is placed, no figure is listed twice, and every placed figure
/// is in a component.
pub open spec fn is_component_list(u: Seq<Option<Vec<PointF>>>, comps: Seq<Vec<usize>>) -> bool {
    &&& forall|k: int, i: int|
        0 <= k < comps.len() && 0 <= i < comps[k]@.len() ==> (#[trigger] comps[k]@[i]) < u.len()
            && u[comps[k]@[i] as int] is Some
    &&& forall|k: int| 0 <= k < comps.len() ==> (#[trigger] comps[k])@.no_duplicates()
    &&& forall|k1: int, k2: int, i: int, j: int|
        0 <= k1 < k2 < comps.len() && 0 <= i < comps[k1]@.len() && 0 <= j < comps[k2]@.len()
            ==> #[trigger] comps[k1]@[i] != #[trigger] comps[k2]@[j]
    &&& forall|f: int| 0 <= f < u.len() && (#[trigger] u[f]) is Some ==> in_components(comps, f as usize)
}

/// Whether the side `s` lies on figure `a` and is joined to a side of
/// figure `b`.
pub open spec fn joins_figures(placement: Placement, s: Side, a: usize, b: usize) -> bool {
    s.fig == a && placement.partner(s) is Some && placement.partner(s)->Some_0.fig == b
}

/// Whether the figure at place `i` of the component is joined to a figure
/// at an earlier place.
pub open spec fn joined_back(placement: Placement, comp: Seq<usize>, i: int) -> bool {
    exists|j: int, s: Side| 0 <= j < i && #[trigger] joins_figures(placement, s, comp[j], comp[i])
}

/// `u` and `comps` are the assembly along the joined pairs `sorted` of the
/// placement: they are what growing the components along the spanning
/// forest of the pairs gives. In it a figure is placed if and only if it is
/// a good piece with a joined side that growing has not marked as failed:
/// a figure that could not be attached to its neighbour stays without a
/// position. Every placed figure has as many points as its outline; the
/// components split the placed figures into groups, and every figure of a
/// component but the first is joined to one that comes before it.
pub open spec fn is_assembly_along(
    sorted: Seq<(Side, Side)>,
    placement: Placement,
    puzzles: ParsedPuzzles,
    u: Seq<Option<Vec<PointF>>>,
    comps: Seq<Vec<usize>>,
) -> bool {
    let made = assemble_spec(
        puzzles,
        forest_upto(sorted, sorted.len() as int),
        sorted,
        puzzles.figures@.len() as int,
    );
    &&& views(u) == made.0
    &&& component_views(comps) == made.1
    &&& positions_ok(puzzles, u)
    &&& failed_ok(u, made.2)
    &&& forall|f: int|
        0 <= f < u.len() ==> ((#[trigger] u[f]) is Some <==> puzzles.figures@[f].good_spec()
            && has_join(placement, f as usize) && !made.2[f])
    &&& is_component_list(u, comps)
    &&& forall|k: int, i: int|
        0 <= k < comps.len() && 1 <= i < comps[k]@.len() ==> #[trigger] joined_back(
            placement,
            comps[k]@,
            i,
        )
}

/// `u` and `comps` are the assembly for the placement, with the scores of
/// `edges` as weights: the joined pairs are sorted by score, a spanning
/// forest is picked from them, and the components grow along its edges.
pub open spec fn is_assembly(
    edges: Seq<Edge>,
    placement: Placement,
    puzzles: ParsedPuzzles,
    u: Seq<Option<Vec<PointF>>>,
    comps: Seq<Vec<usize>>,
) -> bool {
    exists|sorted: Seq<(Side, Side)>| #[trigger]
        is_sorted_neighbours(edges, placement, sorted) && is_assembly_along(
            sorted,
            placement,
            puzzles,
            u,
            comps,
        )
}

/// A figure that hangs on the tree is joined to the figure it hangs on.
proof fn lemma_joined_back(
    placement: Placement,
    tree: Seq<(Side, Side)>,
    all_edges: Seq<(Side, Side)>,
    comp: Seq<usize>,
    i: int,
)
    requires
        hangs_on_tree(tree, comp, i),
        forall|t: int| 0 <= t < tree.len() ==> all_edges.contains(#[trigger] tree[t]),
        forall|e: int|
            0 <= e < all_edges.len() ==> placement.partner((#[trigger] all_edges[e]).0) == Some(
                all_edges[e].1,
            ) && placement.partner(all_edges[e].1) == Some(all_edges[e].0),
    ensures
        joined_back(placement, comp, i),
{
    let (j, t) = choose|j: int, t: int| 0 <= j < i && #[trigger] links(tree, t, comp[j], comp[i]);
    assert(all_edges.contains(tree[t]));
    let e = choose|e: int| 0 <= e < all_edges.len() && all_edges[e] == tree[t];
    if tree[t].0.fig == comp[j] && tree[t].1.fig == comp[i] {
        assert(joins_figures(placement, tree[t].0, comp[j], comp[i]));
    } else {
        assert(joins_figures(placement, tree[t].1, comp[j], comp[i]));
    }
}

/// The scores that the graph gives to the joined pairs of the placement.
pub open spec fn neighbour_scores(edges: Seq<Edge>, placement: Placement) -> Seq<u64> {
    Seq::new(
        placement.neighbours_spec().len(),
        |i: int|
            adj_score(edges, placement.neighbours_spec()[i].0, placement.neighbours_spec()[i].1),
    )
}

/// `sorted` lists the joined pairs of the placement in the order of a
/// stable sort by the score that the graph gives them.
pub open spec fn is_sorted_neighbours(edges: Seq<Edge>, placement: Placement, sorted: Seq<(Side, Side)>) -> bool {
    exists|order: Seq<usize>| #[trigger]
        is_stable_order(neighbour_scores(edges, placement), order) && sorted == Seq::new(
            order.len(),
            |i: int| placement.neighbours_spec()[order[i] as int],
        )
}

/// The contents of a list of components.
pub open spec fn component_views(comps: Seq<Vec<usize>>) -> Seq<Seq<usize>> {
    Seq::new(comps.len(), |k: int| comps[k]@)
}

/// The positions, the components and the marks when the first `root`
/// figures have had their turn: a figure that is neither placed nor marked
/// as failed, has a tree edge and is a good piece is put where it was
/// traced, and its component grows from it. A figure that growing could not
/// attach is marked, and starts no component when its turn comes.
pub open spec fn assemble_spec(
    puzzles: ParsedPuzzles,
    tree: Seq<(Side, Side)>,
    all_edges: Seq<(Side, Side)>,
    root: int,
) -> (Seq<Option<Seq<PointF>>>, Seq<Seq<usize>>, Seq<bool>)
    decreases root,
{
    if root <= 0 {
        (
            Seq::new(puzzles.figures@.len(), |f: int| None),
            Seq::empty(),
            Seq::new(puzzles.figures@.len(), |f: int| false),
        )
    } else {
        let prev = assemble_spec(puzzles, tree, all_edges, root - 1);
        let r = (root - 1) as usize;
        if prev.0[root - 1] is None && !prev.2[root - 1] && has_tree_edge(tree, r)
            && puzzles.figures@[root - 1].good_spec() {
            let g = grown(
                puzzles,
                tree,
                all_edges,
                prev.0.update(root - 1, Some(puzzles.figures@[root - 1].basic_position())),
                prev.2,
                r,
            );
            (g.0, prev.1.push(g.1), g.2)
        } else {
            prev
        }
    }
}

/// The joined pairs of the placement, sorted by the score that the table
/// gives them, pairs of equal score in their order.
fn sorted_neighbours(
    dists: &SideTable,
    placement: &Placement,
    Ghost(edges): Ghost<Seq<Edge>>,
) -> (r: Vec<(Side, Side)>)
    requires
        dists.wf(),
        placement.wf(),
        placement.n() == dists.n(),
        forall|s1: Side, s2: Side|
            side_in_range(s1, dists.n()) && side_in_range(s2, dists.n()) ==> #[trigger] dists.value(
                s1,
                s2,
            ) == adj_score(edges, s1, s2),
    ensures
        is_sorted_neighbours(edges, *placement, r@),
        pairs_in_range(r@, placement.n()),
        forall|i: int|
            0 <= i < r@.len() ==> placement.partner((#[trigger] r@[i]).0) == Some(r@[i].1)
                && placement.partner(r@[i].1) == Some(r@[i].0) && r@[i].0.fig != r@[i].1.fig,
        forall|s: Side|
            (#[trigger] placement.partner(s)) is Some ==> r@.contains((s, placement.partner(s)->Some_0)),
{
    let all_edges = placement.get_all_neighbours();
    let m = all_edges.len();
    let mut keys: Vec<u64> = Vec::new();
    let mut i: usize = 0;
    while i < m
        invariant
            i <= m,
            m == all_edges@.len(),
            all_edges@ == placement.neighbours_spec(),
            dists.wf(),
            placement.wf(),
            placement.n() == dists.n(),
            keys@.len() == i,
            forall|s1: Side, s2: Side|
                side_in_range(s1, dists.n()) && side_in_range(s2, dists.n()) ==> #[trigger] dists.value(
                    s1,
                    s2,
                ) == adj_score(edges, s1, s2),
            forall|j: int|
                0 <= j < i ==> (#[trigger] keys@[j]) == adj_score(
                    edges,
                    all_edges@[j].0,
                    all_edges@[j].1,
                ),
        decreases m - i,
    {
        proof {
            lemma_neighbours_are_joined(*placement, i as int);
        }
        let (s1, s2) = all_edges[i];
        keys.push(dists.get(s1, s2));
        i = i + 1;
    }
    assert(keys@ =~= neighbour_scores(edges, *placement));
    let order = stable_order(&keys);
    let mut sorted: Vec<(Side, Side)> = Vec::new();
    let mut j: usize = 0;
    while j < m
        invariant
            j <= m,
            m == all_edges@.len(),
            m == keys@.len(),
            all_edges@ == placement.neighbours_spec(),
            placement.wf(),
            is_stable_order(keys@, order@),
            sorted@.len() == j,
            forall|t: int| 0 <= t < j ==> (#[trigger] sorted@[t]) == all_edges@[order@[t] as int],
        decreases m - j,
    {
        sorted.push(all_edges[order[j]]);
        j = j + 1;
    }
    proof {
        assert forall|t: int| 0 <= t < sorted@.len() implies side_in_range(
            (#[trigger] sorted@[t]).0,
            placement.n(),
        ) && side_in_range(sorted@[t].1, placement.n()) && placement.partner(sorted@[t].0) == Some(
            sorted@[t].1,
        ) && placement.partner(sorted@[t].1) == Some(sorted@[t].0) && sorted@[t].0.fig
            != sorted@[t].1.fig by {
            lemma_neighbours_are_joined(*placement, order@[t] as int);
        }
        assert forall|s: Side| (#[trigger] placement.partner(s)) is Some implies sorted@.contains(
            (s, placement.partner(s)->Some_0),
        ) by {
            let wanted = (s, placement.partner(s)->Some_0);
            lemma_joined_is_neighbour(*placement, s);
            let at = choose|at: int| 0 <= at < all_edges@.len() && all_edges@[at] == wanted;
            lemma_stable_order_covers(keys@, order@, at);
            let t = choose|t: int| 0 <= t < order@.len() && order@[t] == at as usize;
            assert(sorted@[t] == wanted);
        }
        assert(sorted@ =~= Seq::new(
            order@.len(),
            |i: int| placement.neighbours_spec()[order@[i] as int],
        ));
    }
    sorted
}

/// Assembles the components, each in a frame of its own.
///
/// The joined pairs of the placement are sorted by the scores that the
/// graph gives them, and a spanning forest is picked from them, the best
/// pairs first. The figures
/// are taken in their order; a good piece that is not placed yet and has a
/// tree edge starts a component: it lies as it was traced, and the
/// component grows from it along the tree edges, refined jointly after
/// every figure that joins it. A figure that cannot be placed beside its
/// neighbour is marked as failed: it is not tried again, starts no
/// component, and stays without a position. So in the end exactly the good
/// pieces with a joined side that have not failed are placed.
pub fn assemble(graph: &Graph, placement: &Placement, parsed_puzzles: &ParsedPuzzles) -> (r: (
    Vec<Option<Vec<PointF>>>,
    Vec<Vec<usize>>,
))
    requires
        graph.n == parsed_puzzles.figures@.len(),
        graph.wf(),
        table_fits(graph.n),
        placement.wf(),
        placement.n() == graph.n,
    ensures
        r.0@.len() == graph.n,
        is_assembly(graph.all_edges@, *placement, *parsed_puzzles, r.0@, r.1@),
{
    let n = graph.n;
    let dists = graph.gen_adj_matrix();
    let all_edges = sorted_neighbours(&dists, placement, Ghost(graph.all_edges@));
    let tree = spanning_forest(n, &all_edges);
    proof {
        assert forall|i: int| 0 <= i < tree@.len() implies side_in_range(
            (#[trigger] tree@[i]).0,
            n as int,
        ) && side_in_range(tree@[i].1, n as int) by {
            let j = choose|j: int| 0 <= j < all_edges@.len() && all_edges@[j] == tree@[i];
        }
    }
    let mut components: Vec<Vec<usize>> = Vec::new();
    let mut positions: Vec<Option<Vec<PointF>>> = Vec::new();
    let mut failed: Vec<bool> = Vec::new();
    let mut f: usize = 0;
    while f < n
        invariant
            f <= n,
            positions@.len() == f,
            failed@.len() == f,
            forall|j: int| 0 <= j < f ==> (#[trigger] positions@[j]) is None,
            forall|j: int| 0 <= j < f ==> !#[trigger] failed@[j],
        decreases n - f,
    {
        positions.push(None);
        failed.push(false);
        f = f + 1;
    }
    proof {
        assert(views(positions@) =~= Seq::new(n as nat, |f: int| None));
        assert(failed@ =~= Seq::new(n as nat, |f: int| false));
    }
    let mut root: usize = 0;
    while root < n
        invariant
            root <= n,
            n == parsed_puzzles.figures@.len(),
            n == placement.n(),
            placement.wf(),
            positions@.len() == n,
            positions_ok(*parsed_puzzles, positions@),
            pairs_in_range(tree@, n as int),
            pairs_in_range(all_edges@, n as int),
            failed_ok(positions@, failed@),
            is_component_list(positions@, components@),
            (views(positions@), component_views(components@), failed@) == assemble_spec(
                *parsed_puzzles,
                tree@,
                all_edges@,
                root as int,
            ),
            forall|i: int| 0 <= i < tree@.len() ==> all_edges@.contains(#[trigger] tree@[i]),
            forall|i: int|
                0 <= i < all_edges@.len() ==> placement.partner((#[trigger] all_edges@[i]).0) == Some(
                    all_edges@[i].1,
                ) && placement.partner(all_edges@[i].1) == Some(all_edges@[i].0),
            forall|k: int, i: int|
                0 <= k < components@.len() && 1 <= i < components@[k]@.len() ==> #[trigger] joined_back(
                    *placement,
                    components@[k]@,
                    i,
                ),
            forall|f: int|
                0 <= f < n ==> ((#[trigger] positions@[f]) is Some ==> has_tree_edge(tree@, f as usize)
                    && parsed_puzzles.figures@[f].good_spec()),
            forall|f: int|
                0 <= f < root && parsed_puzzles.figures@[f].good_spec() && has_tree_edge(
                    tree@,
                    f as usize,
                ) && !failed@[f] ==> (#[trigger] positions@[f]) is Some,
        decreases n - root,
    {
        if positions[root].is_none() && !failed[root] && check_tree_edge(&tree, root)
            && parsed_puzzles.figures[root].is_good_puzzle() {
            let ghost start = positions@;
            let ghost groups = components@;
            let ghost marks = failed@;
            positions.set(root, Some(gen_basic_position(&parsed_puzzles.figures[root])));
            let ghost rooted = positions@;
            let component = grow_component(
                root,
                &tree,
                &all_edges,
                &mut positions,
                parsed_puzzles,
                &mut failed,
            );
            let ghost members = component@;
            components.push(component);
            proof {
                assert(views(rooted) =~= views(start).update(
                    root as int,
                    Some(parsed_puzzles.figures@[root as int].basic_position()),
                ));
                assert(component_views(components@) =~= component_views(groups).push(members));
                lemma_component_added(start, rooted, positions@, groups, components@, members, root);
                assert forall|k: int, i: int|
                    0 <= k < components@.len() && 1 <= i < components@[k]@.len() implies #[trigger] joined_back(
                    *placement,
                    components@[k]@,
                    i,
                ) by {
                    if k < groups.len() {
                        assert(components@[k] == groups[k]);
                    } else {
                        assert(hangs_on_tree(tree@, members, i));
                        lemma_joined_back(*placement, tree@, all_edges@, members, i);
                    }
                }
                lemma_root_done(
                    *parsed_puzzles,
                    tree@,
                    start,
                    rooted,
                    positions@,
                    marks,
                    failed@,
                    members,
                    root,
                );
            }
        }
        root = root + 1;
    }
    proof {
        assert forall|f: int| 0 <= f < n implies ((#[trigger] positions@[f]) is Some
            <==> parsed_puzzles.figures@[f].good_spec() && has_join(*placement, f as usize)
            && !failed@[f]) by {
            if positions@[f] is Some {
                let t = choose|t: int| #[trigger] touches(tree@, t, f as usize);
                assert(all_edges@.contains(tree@[t]));
                let j = choose|j: int| 0 <= j < all_edges@.len() && all_edges@[j] == tree@[t];
                if tree@[t].0.fig == f {
                    assert(placement.partner(Side { fig: f as usize, side: tree@[t].0.side }) is Some);
                } else {
                    assert(placement.partner(Side { fig: f as usize, side: tree@[t].1.side }) is Some);
                }
            }
            if parsed_puzzles.figures@[f].good_spec() && has_join(*placement, f as usize) {
                let side = choose|side: usize|
                    side < 4 && (#[trigger] placement.partner(Side { fig: f as usize, side })) is Some;
                let s = Side { fig: f as usize, side };
                let wanted = (s, placement.partner(s)->Some_0);
                assert(all_edges@.contains(wanted));
                let j = choose|j: int| 0 <= j < all_edges@.len() && all_edges@[j] == wanted;
                assert(all_edges@[j].0.fig != all_edges@[j].1.fig);
                assert(has_tree_edge(tree@, f as usize));
            }
        }
        assert(is_assembly_along(all_edges@, *placement, *parsed_puzzles, positions@, components@));
    }
    (positions, components)
}

/// After a component has grown from the figure `root`, what is placed is
/// a good piece with a tree edge, and of the figures up to `root` every
/// good piece with a tree edge is placed or marked as failed.
proof fn lemma_root_done(
    puzzles: ParsedPuzzles,
    tree: Seq<(Side, Side)>,
    start: Seq<Option<Vec<PointF>>>,
    rooted: Seq<Option<Vec<PointF>>>,
    after: Seq<Option<Vec<PointF>>>,
    marks: Seq<bool>,
    marks_after: Seq<bool>,
    members: Seq<usize>,
    root: usize,
)
    requires
        root < start.len(),
        start.len() <= usize::MAX,
        rooted.len() == start.len(),
        after.len() == start.len(),
        marks_kept(marks, marks_after),
        marks.len() == start.len(),
        has_tree_edge(tree, root),
        puzzles.figures@[root as int].good_spec(),
        forall|f: int| 0 <= f < start.len() && f != root ==> rooted[f] == start[f],
        members.len() >= 1,
        members[0] == root,
        forall|i: int|
            0 <= i < members.len() ==> (#[trigger] members[i]) < after.len() && after[members[i] as int]
                is Some,
        forall|i: int|
            1 <= i < members.len() ==> has_tree_edge(tree, #[trigger] members[i])
                && puzzles.figures@[members[i] as int].good_spec(),
        forall|f: int|
            0 <= f < start.len() && !members.contains(f as usize) ==> (#[trigger] after[f]) == rooted[f],
        forall|f: int|
            0 <= f < start.len() ==> ((#[trigger] start[f]) is Some ==> has_tree_edge(tree, f as usize)
                && puzzles.figures@[f].good_spec()),
        forall|f: int|
            0 <= f < root && puzzles.figures@[f].good_spec() && has_tree_edge(tree, f as usize)
                && !marks[f] ==> (#[trigger] start[f]) is Some,
    ensures
        forall|f: int|
            0 <= f < start.len() ==> ((#[trigger] after[f]) is Some ==> has_tree_edge(tree, f as usize)
                && puzzles.figures@[f].good_spec()),
        forall|f: int|
            0 <= f < root + 1 && puzzles.figures@[f].good_spec() && has_tree_edge(tree, f as usize)
                && !marks_after[f] ==> (#[trigger] after[f]) is Some,
{
    assert forall|f: int| 0 <= f < start.len() implies ((#[trigger] after[f]) is Some ==> has_tree_edge(
        tree,
        f as usize,
    ) && puzzles.figures@[f].good_spec()) by {
        if after[f] is Some {
            if members.contains(f as usize) {
                let i = choose|i: int| 0 <= i < members.len() && members[i] == f as usize;
            } else {
                assert(after[f] == rooted[f]);
                assert(f != root);
                assert(rooted[f] == start[f]);
            }
        }
    }
    assert forall|f: int|
        0 <= f < root + 1 && puzzles.figures@[f].good_spec() && has_tree_edge(tree, f as usize)
            && !marks_after[f] implies (#[trigger] after[f]) is Some by {
        if members.contains(f as usize) {
            let i = choose|i: int| 0 <= i < members.len() && members[i] == f as usize;
        } else {
            assert(after[f] == rooted[f]);
            assert(f != root);
            assert(rooted[f] == start[f]);
            assert(!marks[f]);
        }
    }
}

/// A component that has grown from figures that were not placed before
/// keeps the list of components in order.
proof fn lemma_component_added(
    start: Seq<Option<Vec<PointF>>>,
    rooted: Seq<Option<Vec<PointF>>>,
    grown: Seq<Option<Vec<PointF>>>,
    groups: Seq<Vec<usize>>,
    all: Seq<Vec<usize>>,
    members: Seq<usize>,
    root: usize,
)
    requires
        is_component_list(start, groups),
        root < start.len(),
        start[root as int] is None,
        rooted.len() == start.len(),
        grown.len() == start.len(),
        forall|f: int| 0 <= f < start.len() && f != root ==> rooted[f] == start[f],
        members.no_duplicates(),
        members.len() >= 1,
        members[0] == root,
        forall|i: int|
            0 <= i < members.len() ==> (#[trigger] members[i]) < grown.len() && grown[members[i] as int]
                is Some,
        forall|i: int| 1 <= i < members.len() ==> rooted[#[trigger] members[i] as int] is None,
        forall|f: int|
            0 <= f < start.len() && !members.contains(f as usize) ==> (#[trigger] grown[f]) == rooted[f],
        all.len() == groups.len() + 1,
        forall|k: int| 0 <= k < groups.len() ==> (#[trigger] all[k]) == groups[k],
        all[groups.len() as int]@ == members,
    ensures
        is_component_list(grown, all),
{
    assert forall|i: int| 0 <= i < members.len() implies start[#[trigger] members[i] as int] is None by {
        if i >= 1 {
            assert(rooted[members[i] as int] is None);
            assert(members[i] != root);
        }
    }
    assert forall|k: int, i: int| 0 <= k < groups.len() && 0 <= i < groups[k]@.len() implies !members.contains(
        #[trigger] groups[k]@[i],
    ) by {
        if members.contains(groups[k]@[i]) {
            let t = choose|t: int| 0 <= t < members.len() && members[t] == groups[k]@[i];
            assert(start[members[t] as int] is None);
        }
    }
    assert forall|k: int, i: int| 0 <= k < all.len() && 0 <= i < all[k]@.len() implies (
    #[trigger] all[k]@[i]) < grown.len() && grown[all[k]@[i] as int] is Some by {
        if k < groups.len() {
            assert(all[k] == groups[k]);
            assert(!members.contains(groups[k]@[i]));
            assert(groups[k]@[i] != root);
        }
    }
    assert forall|k: int| 0 <= k < all.len() implies (#[trigger] all[k])@.no_duplicates() by {
        if k < groups.len() {
            assert(all[k] == groups[k]);
        }
    }
    assert forall|k1: int, k2: int, i: int, j: int|
        0 <= k1 < k2 < all.len() && 0 <= i < all[k1]@.len() && 0 <= j < all[k2]@.len() implies #[trigger] all[k1]@[i]
        != #[trigger] all[k2]@[j] by {
        assert(all[k1] == groups[k1]);
        if k2 < groups.len() {
            assert(all[k2] == groups[k2]);
        } else {
            assert(!members.contains(groups[k1]@[i]));
        }
    }
    assert forall|f: int| 0 <= f < grown.len() && (#[trigger] grown[f]) is Some implies in_components(
        all,
        f as usize,
    ) by {
        if members.contains(f as usize) {
            assert(all[groups.len() as int]@.contains(f as usize));
        } else {
            assert(grown[f] == rooted[f]);
            assert(f != root) by {
                assert(members[0] == root);
            }
            assert(start[f] is Some);
            let k = choose|k: int| 0 <= k < groups.len() && (#[trigger] groups[k])@.contains(f as usize);
            assert(all[k] == groups[k]);
        }
    }
}

/// `r` is a surface for the placement: an assembly, packed component by
/// component on the shared canvas, so that the figures of one component
/// lie in one rectangle and the rectangles of different components do not
/// overlap.
pub open spec fn is_surface(
    edges: Seq<Edge>,
    placement: Placement,
    puzzles: ParsedPuzzles,
    r: Seq<Option<Vec<PointF>>>,
) -> bool {
    exists|u: Seq<Option<Vec<PointF>>>, comps: Seq<Vec<usize>>| #[trigger]
        is_assembly(edges, placement, puzzles, u, comps) && is_packing(u, comps, r) && packed_apart(
            u,
            comps,
            r,
        )
}

/// Places the figures on the canvas: the components are assembled along
/// the joins of the placement, each in a frame of its own, and then packed
/// on the shared canvas one beside the other.
///
/// A figure is placed if and only if it is a good piece with a joined side,
/// it could be attached to its neighbour or has started its component, and
/// the canvas has room for its component.
pub fn place_on_surface(graph: &Graph, placement: &Placement, parsed_puzzles: &ParsedPuzzles) -> (r:
    Vec<Option<Vec<PointF>>>)
    requires
        graph.n == parsed_puzzles.figures@.len(),
        graph.wf(),
        table_fits(graph.n),
        placement.wf(),
        placement.n() == graph.n,
    ensures
        r@.len() == graph.n,
        is_surface(graph.all_edges@, *placement, *parsed_puzzles, r@),
{
    let (positions, components) = assemble(graph, placement, parsed_puzzles);
    pack_all(positions, &components)
}

} // verus!
