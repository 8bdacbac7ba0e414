//! Sides of pieces as point sequences, the similarity of two such sequences,
//! and the alignment of one side onto another.

use vstd::prelude::*;
use vstd::slice::slice_subrange;
use crate::coordinate_system::{CoordinateSystem, DIR_UNIT, normalize, round_unit};
use crate::figure::Figure;
use crate::math::{
    clamp_coord, clamp_to_coord, lemma_div_lower, lemma_div_nonneg, saturate_score,
    saturate_to_score,
};
use crate::point::{abs, center_spec, cross, find_center, lemma_mul_bound, Point, PointF};

verus! {

/// How many points of the other sequence are looked at for each point.
pub const CHECK_NEXT: usize = 5;

/// A side is flat when no point leaves the chord by a tenth of its length.
pub const FLAT_RATIO: i128 = 10;

/// The position `i` steps after `start` on a cycle of length `n`.
pub open spec fn cyclic_index(start: int, i: int, n: int) -> int {
    if start + i < n {
        start + i
    } else {
        start + i - n
    }
}

/// The number of positions from `from` to `to` inclusive, walking forwards
/// on a cycle of length `n`.
pub open spec fn run_len(from: int, to: int, n: int) -> int {
    if to >= from {
        to - from + 1
    } else {
        to + n - from + 1
    }
}

/// The items from position `from` to position `to` inclusive, walking
/// forwards and wrapping at the end.
pub open spec fn cyclic_run_spec<T>(items: Seq<T>, from: int, to: int) -> Seq<T> {
    Seq::new(
        run_len(from, to, items.len() as int) as nat,
        |i: int| items[cyclic_index(from, i, items.len() as int)],
    )
}

/// A pixel sequence in canvas units.
pub open spec fn conv_seq(pts: Seq<Point>) -> Seq<PointF> {
    Seq::new(pts.len(), |i: int| pts[i].conv_spec())
}

/// The points of side `side` of `figure`, from its start corner to its end
/// corner inclusive, in canvas units.
pub open spec fn side_points(figure: Figure, side: int) -> Seq<PointF> {
    conv_seq(cyclic_run_spec(figure.border@, figure.side_start(side), figure.side_end(side)))
}

/// Walks a cyclic sequence from `from` to `to` inclusive.
pub fn cyclic_run<T: Copy>(items: &[T], from: usize, to: usize) -> (r: Vec<T>)
    requires
        from < items@.len(),
        to < items@.len(),
    ensures
        r@ == cyclic_run_spec(items@, from as int, to as int),
{
    let n = items.len();
    let mut res: Vec<T> = Vec::new();
    let mut cur: usize = from;
    loop
        invariant_except_break
            res@.len() < run_len(from as int, to as int, n as int),
            cur == cyclic_index(from as int, res@.len() as int, n as int),
        invariant
            n == items@.len(),
            from < n,
            to < n,
            cur < n,
            forall|i: int|
                0 <= i < res@.len() ==> res@[i] == items@[cyclic_index(from as int, i, n as int)],
        ensures
            res@.len() == run_len(from as int, to as int, n as int),
        decreases run_len(from as int, to as int, n as int) - res@.len(),
    {
        res.push(items[cur]);
        if cur == to {
            break;
        }
        cur = if cur + 1 == n {
            0
        } else {
            cur + 1
        };
    }
    assert(res@ =~= cyclic_run_spec(items@, from as int, to as int));
    res
}

/// Converts a pixel sequence to canvas units.
pub fn conv_all(pts: &[Point]) -> (r: Vec<PointF>)
    ensures
        r@ == conv_seq(pts@),
{
    let n = pts.len();
    let mut res: Vec<PointF> = Vec::new();
    let mut i: usize = 0;
    while i < n
        invariant
            i <= n,
            n == pts@.len(),
            res@.len() == i,
            forall|j: int| 0 <= j < i ==> res@[j] == pts@[j].conv_spec(),
        decreases n - i,
    {
        res.push(pts[i].conv_fixed());
        i = i + 1;
    }
    assert(res@ =~= conv_seq(pts@));
    res
}

/// The reverse of a point sequence.
pub fn reversed(pts: &[PointF]) -> (r: Vec<PointF>)
    ensures
        r@ == pts@.reverse(),
{
    let n = pts.len();
    let mut res: Vec<PointF> = Vec::new();
    let mut i: usize = 0;
    while i < n
        invariant
            i <= n,
            n == pts@.len(),
            res@.len() == i,
            forall|j: int| 0 <= j < i ==> res@[j] == pts@[n - 1 - j],
        decreases n - i,
    {
        res.push(pts[n - 1 - i]);
        i = i + 1;
    }
    assert(res@ =~= pts@.reverse());
    res
}

/// The points of one side of a figure, from corner to corner.
pub fn get_figure_border(figure: &Figure, border_id: usize) -> (r: Vec<PointF>)
    requires
        figure.wf(),
        border_id < 4,
    ensures
        r@ == side_points(*figure, border_id as int),
        r@.len() > 0,
{
    let from = figure.corner_positions[border_id];
    let to = figure.corner_positions[(border_id + 1) % 4];
    let run = cyclic_run(figure.border.as_slice(), from, to);
    conv_all(run.as_slice())
}

/// The cross product of the vector from the first point to point `i` with
/// the chord from the first point to the last: the signed distance of point
/// `i` from the chord, times the length of the chord.
pub open spec fn chord_cross(pts: Seq<PointF>, i: int) -> int {
    cross(
        pts[i].x - pts[0].x,
        pts[i].y - pts[0].y,
        pts.last().x - pts[0].x,
        pts.last().y - pts[0].y,
    )
}

/// Ten times the distance of point `i` from the chord of `pts`, times the
/// length of the chord.
pub open spec fn chord_deviation(pts: Seq<PointF>, i: int) -> int {
    FLAT_RATIO * abs(chord_cross(pts, i))
}

/// The squared length of the chord from the first to the last point.
pub open spec fn chord_len2(pts: Seq<PointF>) -> int {
    pts.last().dist2_spec(pts[0])
}

/// A side is a picture border (flat, with nothing to interlock) when every
/// point is nearer to the chord than a tenth of the chord's length.
pub open spec fn picture_border_spec(pts: Seq<PointF>) -> bool {
    forall|i: int| 0 <= i < pts.len() ==> #[trigger] chord_deviation(pts, i) < chord_len2(pts)
}

/// Tells whether a side is a picture border.
pub fn is_picture_border(pts: &[PointF]) -> (r: bool)
    requires
        pts@.len() > 0,
    ensures
        r == picture_border_spec(pts@),
{
    let n = pts.len();
    let first = pts[0];
    let last = pts[n - 1];
    let dx: i128 = last.x as i128 - first.x as i128;
    let dy: i128 = last.y as i128 - first.y as i128;
    let len2: u128 = last.dist2(&first);
    let mut max_dev: i128 = 0;
    let mut i: usize = 0;
    assert(chord_deviation(pts@, 0) == 0) by {
        assert(chord_cross(pts@, 0) == 0) by (nonlinear_arith)
            requires
                chord_cross(pts@, 0) == 0 * (pts@.last().y - pts@[0].y) - 0 * (pts@.last().x
                    - pts@[0].x),
        ;
    }
    while i < n
        invariant
            i <= n,
            n == pts@.len(),
            n > 0,
            first == pts@[0],
            dx == pts@.last().x - pts@[0].x,
            dy == pts@.last().y - pts@[0].y,
            0 <= max_dev <= 0x30_0000_0000_0000_0000,
            forall|j: int| 0 <= j < i ==> #[trigger] chord_deviation(pts@, j) <= max_dev,
            exists|j: int| 0 <= j < n && #[trigger] chord_deviation(pts@, j) == max_dev,
        decreases n - i,
    {
        let px: i128 = pts[i].x as i128 - first.x as i128;
        let py: i128 = pts[i].y as i128 - first.y as i128;
        proof {
            lemma_mul_bound(px as int, dy as int, 0x1_0000_0000, 0x1_0000_0000);
            lemma_mul_bound(py as int, dx as int, 0x1_0000_0000, 0x1_0000_0000);
        }
        let c: i128 = px * dy - py * dx;
        let dev: i128 = if c < 0 {
            FLAT_RATIO * (-c)
        } else {
            FLAT_RATIO * c
        };
        assert(dev == chord_deviation(pts@, i as int));
        if dev > max_dev {
            max_dev = dev;
        }
        i = i + 1;
    }
    max_dev < len2 as i128
}

/// The offset, within the first `width` points of `to` from `start` on, of
/// the point nearest to `p`; of several equally near ones the first.
pub open spec fn best_shift(p: PointF, to: Seq<PointF>, start: int, width: int) -> int
    decreases width,
{
    if width <= 1 {
        0
    } else {
        let b = best_shift(p, to, start, width - 1);
        if p.dist2_spec(to[start + width - 1]) < p.dist2_spec(to[start + b]) {
            width - 1
        } else {
            b
        }
    }
}

/// The width of the search window that starts at `start`: `CHECK_NEXT`
/// points, or as many as are left.
pub open spec fn window_width(to_len: int, start: int) -> int {
    if to_len - start < CHECK_NEXT as int {
        to_len - start
    } else {
        CHECK_NEXT as int
    }
}

/// The index in `to` that the `k`-th point of `from` was matched with (0 before
/// the first): each point is matched with the nearest point of the window that
/// starts where the point before it was matched.
pub open spec fn walk_pos(from: Seq<PointF>, to: Seq<PointF>, k: int) -> int
    decreases k,
{
    if k <= 0 {
        0
    } else {
        let s = walk_pos(from, to, k - 1);
        s + best_shift(from[k - 1], to, s, window_width(to.len() as int, s))
    }
}

/// The sum of the squared distances of the first `k` points of `from` to
/// their matches in `to`.
pub open spec fn walk_sum(from: Seq<PointF>, to: Seq<PointF>, k: int) -> int
    decreases k,
{
    if k <= 0 {
        0
    } else {
        walk_sum(from, to, k - 1) + from[k - 1].dist2_spec(to[walk_pos(from, to, k)])
    }
}

/// The mean of `n` numbers with the sum `sum`, rounded up: it is zero only
/// if the sum is.
pub open spec fn mean_up(sum: int, n: int) -> int {
    if sum % n == 0 {
        sum / n
    } else {
        sum / n + 1
    }
}

/// The mean squared distance of the points of `from` to their matches in
/// `to`, rounded up.
pub open spec fn one_side_score(from: Seq<PointF>, to: Seq<PointF>) -> int {
    mean_up(walk_sum(from, to, from.len() as int), from.len() as int)
}

/// The similarity of two point sequences, smaller is better: the mean
/// squared distance from `lhs` to `rhs` plus that from `rhs` to `lhs`. It is
/// zero only if every point of either sequence has been matched with an
/// equal point of the other.
pub open spec fn similarity(lhs: Seq<PointF>, rhs: Seq<PointF>) -> int {
    saturate_score(one_side_score(lhs, rhs) + one_side_score(rhs, lhs))
}

/// The nearest point of a window lies in the window.
pub proof fn lemma_best_shift_bounds(p: PointF, to: Seq<PointF>, start: int, width: int)
    ensures
        0 <= best_shift(p, to, start, width),
        width >= 1 ==> best_shift(p, to, start, width) < width,
        width < 1 ==> best_shift(p, to, start, width) == 0,
    decreases width,
{
    if width > 1 {
        lemma_best_shift_bounds(p, to, start, width - 1);
    }
}

/// The sum of the distances never decreases along the walk.
pub proof fn lemma_walk_sum_monotone(from: Seq<PointF>, to: Seq<PointF>, k: int, m: int)
    requires
        0 <= k <= m,
    ensures
        0 <= walk_sum(from, to, k) <= walk_sum(from, to, m),
    decreases m,
{
    if m > 0 {
        if m > k {
            lemma_walk_sum_monotone(from, to, k, m - 1);
        } else {
            lemma_walk_sum_monotone(from, to, m - 1, m - 1);
        }
        let a = from[m - 1];
        let b = to[walk_pos(from, to, m)];
        assert(a.dist2_spec(b) >= 0) by (nonlinear_arith)
            requires
                a.dist2_spec(b) == (a.x - b.x) * (a.x - b.x) + (a.y - b.y) * (a.y - b.y),
        ;
    }
}

/// The limit of a one-sided score in the arithmetic below: a score at or
/// above it saturates the similarity.
pub open spec fn one_side_cap() -> int {
    0x1_0000_0000_0000_0000
}

/// The one-sided score, limited to `one_side_cap()`.
fn score_one_side(from: &[PointF], to: &[PointF]) -> (r: u128)
    requires
        from@.len() > 0,
        to@.len() > 0,
    ensures
        r as int == if one_side_score(from@, to@) < one_side_cap() {
            one_side_score(from@, to@)
        } else {
            one_side_cap()
        },
{
    let n = from.len();
    let m = to.len();
    let mut iter: usize = 0;
    let mut sum: u128 = 0;
    let mut overflowed = false;
    let mut k: usize = 0;
    while k < n
        invariant
            k <= n,
            n == from@.len(),
            m == to@.len(),
            m > 0,
            iter < m,
            iter == walk_pos(from@, to@, k as int),
            !overflowed ==> sum as int == walk_sum(from@, to@, k as int),
            overflowed ==> walk_sum(from@, to@, k as int) > u128::MAX as int,
        decreases n - k,
    {
        let p = from[k];
        let width: usize = if m - iter < CHECK_NEXT {
            m - iter
        } else {
            CHECK_NEXT
        };
        let mut best: usize = 0;
        let mut best_d: u128 = p.dist2(&to[iter]);
        let mut j: usize = 1;
        while j < width
            invariant
                1 <= j <= width,
                width <= CHECK_NEXT,
                iter + width <= m,
                m == to@.len(),
                best < j,
                best == best_shift(p, to@, iter as int, j as int),
                best_d as int == p.dist2_spec(to@[iter + best]),
            decreases width - j,
        {
            let d = p.dist2(&to[iter + j]);
            if d < best_d {
                best = j;
                best_d = d;
            }
            j = j + 1;
        }
        proof {
            assert(width as int == window_width(m as int, iter as int));
            lemma_walk_sum_monotone(from@, to@, k as int, k as int + 1);
        }
        iter = iter + best;
        if overflowed || sum > u128::MAX - best_d {
            overflowed = true;
        } else {
            sum = sum + best_d;
        }
        k = k + 1;
    }
    proof {
        lemma_walk_sum_monotone(from@, to@, 0, n as int);
    }
    if overflowed {
        proof {
            assert(0x1_0000_0000_0000_0000int * n <= walk_sum(from@, to@, n as int))
                by (nonlinear_arith)
                requires
                    0 < n <= 0xffff_ffff_ffff_ffff,
                    walk_sum(from@, to@, n as int) > 0xffff_ffff_ffff_ffff_ffff_ffff_ffff_ffff,
            ;
            lemma_div_lower(walk_sum(from@, to@, n as int), n as int, 0x1_0000_0000_0000_0000);
        }
        0x1_0000_0000_0000_0000
    } else {
        let avg: u128 = sum / (n as u128);
        let rest: u128 = sum % (n as u128);
        if avg >= 0x1_0000_0000_0000_0000 {
            0x1_0000_0000_0000_0000
        } else if rest == 0 {
            avg
        } else {
            avg + 1
        }
    }
}

/// The similarity of two placed point sequences; smaller is better.
pub fn match_placed_borders(lhs: &[PointF], rhs: &[PointF]) -> (r: u64)
    requires
        lhs@.len() > 0,
        rhs@.len() > 0,
    ensures
        r as int == similarity(lhs@, rhs@),
{
    let a = score_one_side(lhs, rhs);
    let b = score_one_side(rhs, lhs);
    proof {
        lemma_walk_sum_monotone(lhs@, rhs@, 0, lhs@.len() as int);
        lemma_walk_sum_monotone(rhs@, lhs@, 0, rhs@.len() as int);
        lemma_mean_up(walk_sum(lhs@, rhs@, lhs@.len() as int), lhs@.len() as int);
        lemma_mean_up(walk_sum(rhs@, lhs@, rhs@.len() as int), rhs@.len() as int);
    }
    saturate_to_score(a + b)
}

/// The walk never leaves `to`.
proof fn lemma_walk_pos_bounds(from: Seq<PointF>, to: Seq<PointF>, k: int)
    requires
        to.len() > 0,
    ensures
        0 <= walk_pos(from, to, k) < to.len(),
    decreases k,
{
    if k > 0 {
        lemma_walk_pos_bounds(from, to, k - 1);
        let s = walk_pos(from, to, k - 1);
        lemma_best_shift_bounds(from[k - 1], to, s, window_width(to.len() as int, s));
    }
}

/// Where the distances of a walk sum up to zero, every point has been
/// matched with an equal point.
proof fn lemma_zero_walk(from: Seq<PointF>, to: Seq<PointF>, k: int, i: int)
    requires
        to.len() > 0,
        0 <= i < k <= from.len(),
        walk_sum(from, to, k) == 0,
    ensures
        to.contains(from[i]),
    decreases k,
{
    lemma_walk_sum_monotone(from, to, 0, k - 1);
    lemma_walk_pos_bounds(from, to, k);
    let hit = to[walk_pos(from, to, k)];
    lemma_dist2_zero(from[k - 1], hit);
    if i == k - 1 {
        assert(to[walk_pos(from, to, k)] == from[i]);
    } else {
        lemma_zero_walk(from, to, k - 1, i);
    }
}

/// A mean rounded up is zero only if the sum is.
proof fn lemma_mean_up(sum: int, n: int)
    requires
        sum >= 0,
        n > 0,
    ensures
        mean_up(sum, n) >= 0,
        mean_up(sum, n) == 0 <==> sum == 0,
{
    lemma_div_nonneg(sum, n);
    vstd::arithmetic::div_mod::lemma_fundamental_div_mod(sum, n);
}

/// Two sequences have the similarity zero only if they hold the same
/// points: every point of either is a point of the other.
pub proof fn lemma_zero_similarity(lhs: Seq<PointF>, rhs: Seq<PointF>)
    requires
        lhs.len() > 0,
        rhs.len() > 0,
        similarity(lhs, rhs) == 0,
    ensures
        walk_sum(lhs, rhs, lhs.len() as int) == 0,
        walk_sum(rhs, lhs, rhs.len() as int) == 0,
        forall|i: int| 0 <= i < lhs.len() ==> rhs.contains(#[trigger] lhs[i]),
        forall|j: int| 0 <= j < rhs.len() ==> lhs.contains(#[trigger] rhs[j]),
{
    lemma_walk_sum_monotone(lhs, rhs, 0, lhs.len() as int);
    lemma_walk_sum_monotone(rhs, lhs, 0, rhs.len() as int);
    lemma_mean_up(walk_sum(lhs, rhs, lhs.len() as int), lhs.len() as int);
    lemma_mean_up(walk_sum(rhs, lhs, rhs.len() as int), rhs.len() as int);
    assert forall|i: int| 0 <= i < lhs.len() implies rhs.contains(#[trigger] lhs[i]) by {
        lemma_zero_walk(lhs, rhs, lhs.len() as int, i);
    }
    assert forall|j: int| 0 <= j < rhs.len() implies lhs.contains(#[trigger] rhs[j]) by {
        lemma_zero_walk(rhs, lhs, rhs.len() as int, j);
    }
}

/// Swapping the two sequences does not change their similarity.
pub proof fn lemma_similarity_symmetric(lhs: Seq<PointF>, rhs: Seq<PointF>)
    ensures
        similarity(lhs, rhs) == similarity(rhs, lhs),
{
}

/// Two points are at distance zero exactly when they are equal.
pub proof fn lemma_dist2_zero(a: PointF, b: PointF)
    ensures
        a.dist2_spec(b) >= 0,
        a.dist2_spec(b) == 0 <==> a == b,
{
    let dx = a.x - b.x;
    let dy = a.y - b.y;
    assert(dx * dx >= 0 && (dx * dx == 0 <==> dx == 0)) by (nonlinear_arith);
    assert(dy * dy >= 0 && (dy * dy == 0 <==> dy == 0)) by (nonlinear_arith);
}

/// Where the window holds `p` itself exactly once, and at offset `j0`, that
/// offset is chosen.
proof fn lemma_best_shift_exact(p: PointF, to: Seq<PointF>, start: int, width: int, j0: int)
    requires
        0 <= j0 < width,
        to[start + j0] == p,
        forall|t: int| start <= t < start + width && t != start + j0 ==> to[t] != p,
    ensures
        best_shift(p, to, start, width) == j0,
    decreases width,
{
    lemma_dist2_zero(p, to[start + j0]);
    if width > 1 {
        let b = best_shift(p, to, start, width - 1);
        lemma_best_shift_bounds(p, to, start, width - 1);
        if j0 == width - 1 {
            lemma_dist2_zero(p, to[start + b]);
        } else {
            lemma_best_shift_exact(p, to, start, width - 1, j0);
            lemma_dist2_zero(p, to[start + width - 1]);
        }
    }
}

/// Walking a sequence of distinct points along itself matches every point
/// with itself.
proof fn lemma_self_walk(pts: Seq<PointF>, k: int)
    requires
        0 <= k <= pts.len(),
        forall|i: int, j: int| 0 <= i < j < pts.len() ==> pts[i] != pts[j],
    ensures
        k >= 1 ==> walk_pos(pts, pts, k) == k - 1,
        walk_sum(pts, pts, k) == 0,
    decreases k,
{
    if k >= 1 {
        lemma_self_walk(pts, k - 1);
        let s = walk_pos(pts, pts, k - 1);
        let w = window_width(pts.len() as int, s);
        if k == 1 {
            lemma_best_shift_exact(pts[0], pts, 0, w, 0);
        } else {
            assert(s == k - 2);
            lemma_best_shift_exact(pts[k - 1], pts, s, w, 1);
        }
        lemma_dist2_zero(pts[k - 1], pts[k - 1]);
    }
}

/// A sequence of distinct points has similarity zero with itself, and so
/// with the reverse of its own reverse.
pub proof fn lemma_self_similarity_zero(pts: Seq<PointF>)
    requires
        pts.len() > 0,
        forall|i: int, j: int| 0 <= i < j < pts.len() ==> pts[i] != pts[j],
    ensures
        similarity(pts, pts) == 0,
        similarity(pts, pts.reverse().reverse()) == 0,
{
    lemma_self_walk(pts, pts.len() as int);
    assert(pts.reverse().reverse() =~= pts);
}

/// A side whose ends differ and whose points all lie on the line through
/// its ends is a picture border.
pub proof fn lemma_straight_is_picture_border(pts: Seq<PointF>)
    requires
        pts.len() > 0,
        pts.last() != pts[0],
        forall|i: int| 0 <= i < pts.len() ==> #[trigger] chord_cross(pts, i) == 0,
    ensures
        picture_border_spec(pts),
{
    lemma_dist2_zero(pts.last(), pts[0]);
    assert forall|i: int| 0 <= i < pts.len() implies #[trigger] chord_deviation(pts, i)
        < chord_len2(pts) by {
        assert(chord_cross(pts, i) == 0);
    }
}

/// A side with a point whose distance from the chord exceeds a tenth of the
/// chord's length is no picture border.
pub proof fn lemma_offset_is_no_picture_border(pts: Seq<PointF>, i: int)
    requires
        0 <= i < pts.len(),
        chord_deviation(pts, i) > chord_len2(pts),
    ensures
        !picture_border_spec(pts),
{
}

/// Points left out at each end of a side when its frame is estimated.
pub const ESTIMATE_MARGIN: usize = 5;

/// The coarse frame of a side: the margin is dropped at both ends, the rest
/// is split in the middle of the side, and the frame starts at the centroid
/// of the first half and points to the centroid of the second. There is none
/// for a side of 13 points or fewer, nor where the two centroids coincide.
pub open spec fn estimate_spec(border: Seq<PointF>) -> Option<CoordinateSystem> {
    if border.len() <= 2 * ESTIMATE_MARGIN + 3 {
        None
    } else {
        let mid = border.len() as int / 2;
        let p1 = center_spec(border.subrange(ESTIMATE_MARGIN as int, mid));
        let p2 = center_spec(border.subrange(mid, border.len() - ESTIMATE_MARGIN));
        if p1 == p2 {
            None
        } else {
            Some(CoordinateSystem::between_spec(p1, p2))
        }
    }
}

/// Estimates the coarse frame of a side.
pub fn estimate_coordinate_system_by_border(border: &[PointF]) -> (r: Option<CoordinateSystem>)
    ensures
        r == estimate_spec(border@),
        r matches Some(cs) ==> cs.wf(),
{
    let n = border.len();
    if n <= ESTIMATE_MARGIN * 2 + 3 {
        return None;
    }
    let mid = n / 2;
    let p1 = find_center(slice_subrange(border, ESTIMATE_MARGIN, mid));
    let p2 = find_center(slice_subrange(border, mid, n - ESTIMATE_MARGIN));
    if p1.x == p2.x && p1.y == p2.y {
        return None;
    }
    Some(CoordinateSystem::between(p1, p2))
}

/// The first origin step of the local search: 10 pixels.
pub const START_COORD_STEP: i32 = 10_000;

/// The first direction step of the local search: a tenth of the unit.
pub const START_DIR_STEP: i32 = 100_000;

/// The origin step at or below which the search for origins ends: 0.01 pixel.
pub const MIN_COORD_STEP: i32 = 10;

/// The direction step at or below which the search for directions ends: a
/// hundredth of the unit.
pub const MIN_DIR_STEP: i32 = 10_000;

/// After this many passes a step shrinks whether or not the pass improved
/// the score.
pub const MAX_CHANGED_STEPS: usize = 50;

/// A step after shrinking: three tenths of it, rounded down.
pub open spec fn shrink_spec(step: int) -> int {
    step * 3 / 10
}

/// The four unit moves in their fixed order `+x, -x, +y, -y`, scaled by `step`.
pub open spec fn move_spec(mv: int, step: int) -> (int, int) {
    if mv == 0 {
        (step, 0)
    } else if mv == 1 {
        (-step, 0)
    } else if mv == 2 {
        (0, step)
    } else {
        (0, -step)
    }
}

/// The frame `cs` with its origin moved by the move `mv` of length `step`.
pub open spec fn shift_origin_spec(cs: CoordinateSystem, mv: int, step: int) -> CoordinateSystem {
    CoordinateSystem {
        start: PointF {
            x: clamp_coord(cs.start.x + move_spec(mv, step).0) as i32,
            y: clamp_coord(cs.start.y + move_spec(mv, step).1) as i32,
        },
        x_dir: cs.x_dir,
    }
}

/// The frame `cs` with the move `mv` of length `step` added to its
/// direction, which is then rescaled to the unit.
pub open spec fn turn_spec(cs: CoordinateSystem, mv: int, step: int) -> CoordinateSystem {
    CoordinateSystem {
        start: cs.start,
        x_dir: crate::coordinate_system::normalize_spec(
            cs.x_dir.x + move_spec(mv, step).0,
            cs.x_dir.y + move_spec(mv, step).1,
        ),
    }
}

/// Some vector with the contents `cs` was given the score `s` by `scorer`.
pub open spec fn scored<F: Fn(&Vec<CoordinateSystem>) -> u64>(
    scorer: F,
    cs: Seq<CoordinateSystem>,
    s: u64,
) -> bool {
    exists|v: Vec<CoordinateSystem>| v@ == cs && #[trigger] scorer.ensures((&v,), s)
}

/// The frames `res` were scored by `scorer` no worse than the frames `start`.
pub open spec fn not_worse<F: Fn(&Vec<CoordinateSystem>) -> u64>(
    scorer: F,
    start: Seq<CoordinateSystem>,
    res: Seq<CoordinateSystem>,
) -> bool {
    exists|s0: u64, s1: u64| #[trigger]
        scored(scorer, start, s0) && #[trigger] scored(scorer, res, s1) && s1 <= s0
}

/// All frames of a sequence are well formed.
pub open spec fn all_wf(cs: Seq<CoordinateSystem>) -> bool {
    forall|i: int| 0 <= i < cs.len() ==> (#[trigger] cs[i]).wf()
}

/// `scorer` accepts every vector of `n` well-formed frames.
pub open spec fn accepts_frames<F: Fn(&Vec<CoordinateSystem>) -> u64>(scorer: F, n: nat) -> bool {
    forall|v: Vec<CoordinateSystem>|
        v@.len() == n && all_wf(v@) ==> #[trigger] scorer.requires((&v,))
}

/// The number of passes after which the steps shrink at the latest, when
/// `changed_steps` passes have been counted since they were last forced to.
pub open spec fn passes_until_forced(changed_steps: int) -> int {
    MAX_CHANGED_STEPS as int - changed_steps
}

/// `f` tells the score that `scorer` gives: whatever `scorer` returns for a
/// vector is the value of `f` on its contents.
pub open spec fn agrees<F: Fn(&Vec<CoordinateSystem>) -> u64>(
    scorer: F,
    f: spec_fn(Seq<CoordinateSystem>) -> u64,
) -> bool {
    forall|v: Vec<CoordinateSystem>, s: u64| #[trigger] scorer.ensures((&v,), s) ==> s == f(v@)
}

/// The frames `cs` with the frame at `id` moved: by the move `mv` of length
/// `step`, applied to its direction if `turning`, else to its origin.
pub open spec fn apply_move(
    cs: Seq<CoordinateSystem>,
    id: int,
    mv: int,
    step: int,
    turning: bool,
) -> Seq<CoordinateSystem> {
    cs.update(
        id,
        if turning {
            turn_spec(cs[id], mv, step)
        } else {
            shift_origin_spec(cs[id], mv, step)
        },
    )
}

/// The state after the first `k` trials of a pass that starts with the
/// frames `cs` and the score `last`: the frames, their score, and whether a
/// trial was kept. Trial number `k` (from 0) moves frame `k / 4` by move
/// `k % 4`, and is kept if it makes the score strictly smaller.
pub open spec fn pass_spec(
    f: spec_fn(Seq<CoordinateSystem>) -> u64,
    cs: Seq<CoordinateSystem>,
    last: u64,
    step: int,
    turning: bool,
    k: int,
) -> (Seq<CoordinateSystem>, u64, bool)
    decreases k,
{
    if k <= 0 {
        (cs, last, false)
    } else {
        let prev = pass_spec(f, cs, last, step, turning, k - 1);
        let cand = apply_move(prev.0, (k - 1) / 4, (k - 1) % 4, step, turning);
        if f(cand) < prev.1 {
            (cand, f(cand), true)
        } else {
            prev
        }
    }
}

/// Whether the pass that follows `changed_steps` counted passes forces the
/// steps to shrink: every `MAX_CHANGED_STEPS`-th pass does.
pub open spec fn is_forced(changed_steps: int) -> bool {
    changed_steps + 1 >= MAX_CHANGED_STEPS as int
}

/// The number of passes counted after one more pass: it starts again from
/// 0 with a pass that forces the steps to shrink.
pub open spec fn next_count(changed_steps: int) -> int {
    if is_forced(changed_steps) {
        0
    } else {
        changed_steps + 1
    }
}

/// A step after a pass: shrunk if the pass kept no trial or forces the
/// steps to shrink, else unchanged.
pub open spec fn next_step(step: int, changed: bool, forced: bool) -> int {
    if !changed || forced {
        shrink_spec(step)
    } else {
        step
    }
}

/// Whether the search goes on with these steps.
pub open spec fn search_goes_on(coord_step: int, dir_step: int) -> bool {
    coord_step > MIN_COORD_STEP as int || dir_step > MIN_DIR_STEP as int
}

/// The frames that the local search ends with when it stands at the frames
/// `cs` with the score `last`, the steps `coord_step` and `dir_step`, and
/// `changed_steps` passes counted since the steps were last forced to
/// shrink.
pub open spec fn search_spec(
    f: spec_fn(Seq<CoordinateSystem>) -> u64,
    cs: Seq<CoordinateSystem>,
    last: u64,
    coord_step: int,
    dir_step: int,
    changed_steps: int,
) -> Seq<CoordinateSystem>
    decreases coord_step + dir_step, passes_until_forced(changed_steps),
{
    if search_goes_on(coord_step, dir_step) && 0 <= coord_step && 0 <= dir_step && 0
        <= changed_steps < MAX_CHANGED_STEPS as int {
        let forced = is_forced(changed_steps);
        let moved = pass_spec(f, cs, last, coord_step, false, 4 * cs.len() as int);
        let turned = pass_spec(f, moved.0, moved.1, dir_step, true, 4 * cs.len() as int);
        search_spec(
            f,
            turned.0,
            turned.1,
            next_step(coord_step, moved.2, forced),
            next_step(dir_step, turned.2, forced),
            next_count(changed_steps),
        )
    } else {
        cs
    }
}

/// The frames that the local search finds from the frames `start` under the
/// scores `f`.
pub open spec fn optimize_spec(
    f: spec_fn(Seq<CoordinateSystem>) -> u64,
    start: Seq<CoordinateSystem>,
) -> Seq<CoordinateSystem> {
    search_spec(f, start, f(start), START_COORD_STEP as int, START_DIR_STEP as int, 0)
}

/// The number of passes that the local search makes from the state at
/// which `search_spec` stands.
pub open spec fn search_passes(
    f: spec_fn(Seq<CoordinateSystem>) -> u64,
    cs: Seq<CoordinateSystem>,
    last: u64,
    coord_step: int,
    dir_step: int,
    changed_steps: int,
) -> nat
    decreases coord_step + dir_step, passes_until_forced(changed_steps),
{
    if search_goes_on(coord_step, dir_step) && 0 <= coord_step && 0 <= dir_step && 0
        <= changed_steps < MAX_CHANGED_STEPS as int {
        let forced = is_forced(changed_steps);
        let moved = pass_spec(f, cs, last, coord_step, false, 4 * cs.len() as int);
        let turned = pass_spec(f, moved.0, moved.1, dir_step, true, 4 * cs.len() as int);
        1 + search_passes(
            f,
            turned.0,
            turned.1,
            next_step(coord_step, moved.2, forced),
            next_step(dir_step, turned.2, forced),
            next_count(changed_steps),
        )
    } else {
        0
    }
}

/// How often a step has to shrink until it is no greater than `min`.
pub open spec fn shrinks_needed(step: int, min: int) -> nat
    decreases step,
{
    if step <= min || step <= 0 {
        0
    } else {
        1 + shrinks_needed(shrink_spec(step), min)
    }
}

/// How often both steps have to shrink until the search ends.
pub open spec fn rounds_needed(coord_step: int, dir_step: int) -> nat {
    if shrinks_needed(coord_step, MIN_COORD_STEP as int) >= shrinks_needed(dir_step, MIN_DIR_STEP as int) {
        shrinks_needed(coord_step, MIN_COORD_STEP as int)
    } else {
        shrinks_needed(dir_step, MIN_DIR_STEP as int)
    }
}

/// A step that has shrunk needs one shrink less, or none.
proof fn lemma_shrinks_needed(step: int, min: int)
    requires
        0 <= step,
        0 <= min,
    ensures
        shrinks_needed(shrink_spec(step), min) <= shrinks_needed(step, min),
        step > min ==> shrinks_needed(step, min) == shrinks_needed(shrink_spec(step), min) + 1,
        step <= min <==> shrinks_needed(step, min) == 0,
        0 <= shrink_spec(step) <= step,
{
}

/// The search ends before the steps were forced to shrink as often as
/// they have to: every `MAX_CHANGED_STEPS`-th pass shrinks both.
proof fn lemma_search_passes(
    f: spec_fn(Seq<CoordinateSystem>) -> u64,
    cs: Seq<CoordinateSystem>,
    last: u64,
    coord_step: int,
    dir_step: int,
    changed_steps: int,
)
    requires
        0 <= coord_step,
        0 <= dir_step,
        0 <= changed_steps < MAX_CHANGED_STEPS as int,
        search_goes_on(coord_step, dir_step),
    ensures
        search_passes(f, cs, last, coord_step, dir_step, changed_steps) + changed_steps
            <= MAX_CHANGED_STEPS as int * rounds_needed(coord_step, dir_step),
    decreases coord_step + dir_step, passes_until_forced(changed_steps),
{
    let forced = is_forced(changed_steps);
    let moved = pass_spec(f, cs, last, coord_step, false, 4 * cs.len() as int);
    let turned = pass_spec(f, moved.0, moved.1, dir_step, true, 4 * cs.len() as int);
    let c2 = next_step(coord_step, moved.2, forced);
    let d2 = next_step(dir_step, turned.2, forced);
    let rounds = rounds_needed(coord_step, dir_step) as int;
    let rounds2 = rounds_needed(c2, d2) as int;
    lemma_shrinks_needed(coord_step, MIN_COORD_STEP as int);
    lemma_shrinks_needed(dir_step, MIN_DIR_STEP as int);
    lemma_shrinks_needed(c2, MIN_COORD_STEP as int);
    lemma_shrinks_needed(d2, MIN_DIR_STEP as int);
    assert(rounds >= 1);
    assert(rounds2 <= rounds);
    if forced {
        assert(rounds2 == rounds - 1);
    }
    let rest = search_passes(f, turned.0, turned.1, c2, d2, next_count(changed_steps)) as int;
    assert(search_passes(f, cs, last, coord_step, dir_step, changed_steps) == 1 + rest);
    let most = MAX_CHANGED_STEPS as int * rounds;
    let most2 = MAX_CHANGED_STEPS as int * rounds2;
    assert(most >= 50 && most2 <= most && (forced ==> most2 == most - 50)) by (nonlinear_arith)
        requires
            rounds >= 1,
            rounds2 <= rounds,
            forced ==> rounds2 == rounds - 1,
            most == 50 * rounds,
            most2 == 50 * rounds2,
    ;
    if search_goes_on(c2, d2) {
        lemma_search_passes(f, turned.0, turned.1, c2, d2, next_count(changed_steps));
        assert(rest + next_count(changed_steps) <= most2);
    } else {
        assert(rest == 0);
    }
}

/// The local search ends after at most 300 passes, whatever the scores
/// are: with every fiftieth pass both steps shrink, and after six shrinks
/// both are at their minimum.
pub proof fn lemma_search_ends(f: spec_fn(Seq<CoordinateSystem>) -> u64, start: Seq<CoordinateSystem>)
    ensures
        search_passes(f, start, f(start), START_COORD_STEP as int, START_DIR_STEP as int, 0) <= 300,
{
    assert(shrinks_needed(7, 10) == 0);
    assert(shrinks_needed(24, 10) == 1) by {
        assert(shrink_spec(24) == 7);
    }
    assert(shrinks_needed(81, 10) == 2) by {
        assert(shrink_spec(81) == 24);
    }
    assert(shrinks_needed(270, 10) == 3) by {
        assert(shrink_spec(270) == 81);
    }
    assert(shrinks_needed(900, 10) == 4) by {
        assert(shrink_spec(900) == 270);
    }
    assert(shrinks_needed(3_000, 10) == 5) by {
        assert(shrink_spec(3_000) == 900);
    }
    assert(shrinks_needed(10_000, 10) == 6) by {
        assert(shrink_spec(10_000) == 3_000);
    }
    assert(shrinks_needed(9_000, 10_000) == 0);
    assert(shrinks_needed(30_000, 10_000) == 1) by {
        assert(shrink_spec(30_000) == 9_000);
    }
    assert(shrinks_needed(100_000, 10_000) == 2) by {
        assert(shrink_spec(100_000) == 30_000);
    }
    lemma_search_passes(f, start, f(start), START_COORD_STEP as int, START_DIR_STEP as int, 0);
}

fn shift_origin(cs: &CoordinateSystem, mv: usize, step: i32) -> (r: CoordinateSystem)
    requires
        mv < 4,
        cs.wf(),
    ensures
        r == shift_origin_spec(*cs, mv as int, step as int),
        r.wf(),
{
    let (dx, dy): (i128, i128) = if mv == 0 {
        (step as i128, 0)
    } else if mv == 1 {
        (-(step as i128), 0)
    } else if mv == 2 {
        (0, step as i128)
    } else {
        (0, -(step as i128))
    };
    CoordinateSystem {
        start: PointF {
            x: clamp_to_coord(cs.start.x as i128 + dx),
            y: clamp_to_coord(cs.start.y as i128 + dy),
        },
        x_dir: cs.x_dir,
    }
}

fn turn(cs: &CoordinateSystem, mv: usize, step: i32) -> (r: CoordinateSystem)
    requires
        mv < 4,
        cs.wf(),
        0 <= step <= START_DIR_STEP,
    ensures
        r == turn_spec(*cs, mv as int, step as int),
        r.wf(),
{
    let (dx, dy): (i64, i64) = if mv == 0 {
        (step as i64, 0)
    } else if mv == 1 {
        (-(step as i64), 0)
    } else if mv == 2 {
        (0, step as i64)
    } else {
        (0, -(step as i64))
    };
    CoordinateSystem {
        start: cs.start,
        x_dir: normalize(cs.x_dir.x as i64 + dx, cs.x_dir.y as i64 + dy),
    }
}

/// One pass of the local search: every frame in index order, and for each
/// the four moves in their order, applied to the origin or to the direction.
/// A move is kept only if the score gets strictly smaller.
fn try_all_moves<F: Fn(&Vec<CoordinateSystem>) -> u64>(
    cs: &mut Vec<CoordinateSystem>,
    scorer: &F,
    last_score: &mut u64,
    step: i32,
    turning: bool,
) -> (changed: bool)
    requires
        all_wf(old(cs)@),
        accepts_frames(*scorer, old(cs)@.len()),
        scored(*scorer, old(cs)@, *old(last_score)),
        0 <= step,
        turning ==> step <= START_DIR_STEP,
    ensures
        final(cs)@.len() == old(cs)@.len(),
        all_wf(final(cs)@),
        scored(*scorer, final(cs)@, *final(last_score)),
        *final(last_score) <= *old(last_score),
        !changed ==> final(cs)@ == old(cs)@,
        forall|f: spec_fn(Seq<CoordinateSystem>) -> u64| #[trigger]
            agrees(*scorer, f) ==> (final(cs)@, *final(last_score), changed) == pass_spec(
                f,
                old(cs)@,
                *old(last_score),
                step as int,
                turning,
                4 * old(cs)@.len() as int,
            ),
{
    let n = cs.len();
    let mut changed = false;
    let mut cs_id: usize = 0;
    while cs_id < n
        invariant
            cs_id <= n,
            n == cs@.len(),
            n == old(cs)@.len(),
            all_wf(cs@),
            accepts_frames(*scorer, n as nat),
            scored(*scorer, cs@, *last_score),
            *last_score <= *old(last_score),
            !changed ==> cs@ == old(cs)@,
            0 <= step,
            turning ==> step <= START_DIR_STEP,
            forall|f: spec_fn(Seq<CoordinateSystem>) -> u64| #[trigger]
                agrees(*scorer, f) ==> (cs@, *last_score, changed) == pass_spec(
                    f,
                    old(cs)@,
                    *old(last_score),
                    step as int,
                    turning,
                    4 * cs_id as int,
                ),
        decreases n - cs_id,
    {
        let mut mv: usize = 0;
        while mv < 4
            invariant
                mv <= 4,
                cs_id < n,
                n == cs@.len(),
                n == old(cs)@.len(),
                all_wf(cs@),
                accepts_frames(*scorer, n as nat),
                scored(*scorer, cs@, *last_score),
                *last_score <= *old(last_score),
                !changed ==> cs@ == old(cs)@,
                0 <= step,
                turning ==> step <= START_DIR_STEP,
                forall|f: spec_fn(Seq<CoordinateSystem>) -> u64| #[trigger]
                    agrees(*scorer, f) ==> (cs@, *last_score, changed) == pass_spec(
                        f,
                        old(cs)@,
                        *old(last_score),
                        step as int,
                        turning,
                        4 * cs_id as int + mv as int,
                    ),
            decreases 4 - mv,
        {
            let prev_cs = cs[cs_id];
            let ghost before = cs@;
            let ghost score_before = *last_score;
            let ghost changed_before = changed;
            let ncs = if turning {
                turn(&prev_cs, mv, step)
            } else {
                shift_origin(&prev_cs, mv, step)
            };
            cs.set(cs_id, ncs);
            assert(all_wf(cs@));
            let ghost cand = cs@;
            let new_score = scorer(cs);
            if new_score < *last_score {
                changed = true;
                *last_score = new_score;
                assert(scored(*scorer, cs@, *last_score));
            } else {
                cs.set(cs_id, prev_cs);
                assert(cs@ =~= before);
            }
            proof {
                let k = 4 * cs_id as int + mv as int + 1;
                assert((k - 1) / 4 == cs_id as int && (k - 1) % 4 == mv as int);
                assert(cand =~= apply_move(before, cs_id as int, mv as int, step as int, turning));
                assert forall|f: spec_fn(Seq<CoordinateSystem>) -> u64| #[trigger]
                    agrees(*scorer, f) implies (cs@, *last_score, changed) == pass_spec(
                    f,
                    old(cs)@,
                    *old(last_score),
                    step as int,
                    turning,
                    k,
                ) by {
                    assert((before, score_before, changed_before) == pass_spec(
                        f,
                        old(cs)@,
                        *old(last_score),
                        step as int,
                        turning,
                        k - 1,
                    ));
                    assert(new_score == f(cand));
                }
            }
            mv = mv + 1;
        }
        cs_id = cs_id + 1;
    }
    changed
}

fn shrink(step: i32) -> (r: i32)
    requires
        0 <= step,
    ensures
        r == shrink_spec(step as int),
        0 <= r <= step,
        step > 0 ==> r < step,
{
    ((step as i64 * 3) / 10) as i32
}

/// Local search over a list of frames: coordinate-wise hill climbing on the
/// score that `scorer` gives to the whole list.
///
/// Each pass tries, for every frame in index order, the four moves
/// `+x, -x, +y, -y` of the origin by the current origin step, and then the
/// same four moves of the direction by the current direction step; a move is
/// kept only if it makes the score strictly smaller. A step shrinks to three
/// tenths after a pass that kept none of its moves, and after every 50th
/// pass whatever it kept. The search ends when both steps are at or below
/// their limits. The result is never scored worse than the start.
pub fn local_optimize_coordinate_systems<F: Fn(&Vec<CoordinateSystem>) -> u64>(
    start_cs: &Vec<CoordinateSystem>,
    scorer: F,
) -> (r: Vec<CoordinateSystem>)
    requires
        all_wf(start_cs@),
        accepts_frames(scorer, start_cs@.len()),
    ensures
        r@.len() == start_cs@.len(),
        all_wf(r@),
        not_worse(scorer, start_cs@, r@),
        forall|f: spec_fn(Seq<CoordinateSystem>) -> u64| #[trigger]
            agrees(scorer, f) ==> r@ == optimize_spec(f, start_cs@),
{
    let n = start_cs.len();
    let start_score = scorer(start_cs);
    assert(scored(scorer, start_cs@, start_score));
    let mut last_score = start_score;
    let mut cs: Vec<CoordinateSystem> = Vec::new();
    let mut i: usize = 0;
    while i < n
        invariant
            i <= n,
            n == start_cs@.len(),
            cs@.len() == i,
            forall|j: int| 0 <= j < i ==> cs@[j] == start_cs@[j],
        decreases n - i,
    {
        cs.push(start_cs[i]);
        i = i + 1;
    }
    assert(cs@ =~= start_cs@);
    assert forall|f: spec_fn(Seq<CoordinateSystem>) -> u64| #[trigger]
        agrees(scorer, f) implies start_score == f(start_cs@) by {}
    let mut coord_step: i32 = START_COORD_STEP;
    let mut dir_step: i32 = START_DIR_STEP;
    let mut changed_steps: usize = 0;
    while coord_step > MIN_COORD_STEP || dir_step > MIN_DIR_STEP
        invariant
            cs@.len() == n,
            n == start_cs@.len(),
            all_wf(cs@),
            accepts_frames(scorer, n as nat),
            scored(scorer, start_cs@, start_score),
            scored(scorer, cs@, last_score),
            last_score <= start_score,
            0 <= coord_step <= START_COORD_STEP,
            0 <= dir_step <= START_DIR_STEP,
            changed_steps < MAX_CHANGED_STEPS,
            forall|f: spec_fn(Seq<CoordinateSystem>) -> u64| #[trigger]
                agrees(scorer, f) ==> search_spec(
                    f,
                    cs@,
                    last_score,
                    coord_step as int,
                    dir_step as int,
                    changed_steps as int,
                ) == optimize_spec(f, start_cs@),
        decreases coord_step + dir_step, passes_until_forced(changed_steps as int),
    {
        let ghost cs0 = cs@;
        let ghost score0 = last_score;
        let ghost coord0 = coord_step as int;
        let ghost dir0 = dir_step as int;
        let ghost count0 = changed_steps as int;
        let forced = changed_steps + 1 >= MAX_CHANGED_STEPS;
        let moved = try_all_moves(&mut cs, &scorer, &mut last_score, coord_step, false);
        if !moved || forced {
            coord_step = shrink(coord_step);
        }
        let ghost cs1 = cs@;
        let ghost score1 = last_score;
        let turned = try_all_moves(&mut cs, &scorer, &mut last_score, dir_step, true);
        if !turned || forced {
            dir_step = shrink(dir_step);
        }
        changed_steps = if forced {
            0
        } else {
            changed_steps + 1
        };
        proof {
            assert forall|f: spec_fn(Seq<CoordinateSystem>) -> u64| #[trigger]
                agrees(scorer, f) implies search_spec(
                f,
                cs@,
                last_score,
                coord_step as int,
                dir_step as int,
                changed_steps as int,
            ) == optimize_spec(f, start_cs@) by {
                assert((cs1, score1, moved) == pass_spec(f, cs0, score0, coord0, false, 4 * cs0.len() as int));
                assert((cs@, last_score, turned) == pass_spec(f, cs1, score1, dir0, true, 4 * cs1.len() as int));
                assert(search_spec(f, cs0, score0, coord0, dir0, count0) == search_spec(
                    f,
                    cs@,
                    last_score,
                    coord_step as int,
                    dir_step as int,
                    changed_steps as int,
                ));
            }
        }
    }
    cs
}

/// Two sides whose similarity, as they lie in the photograph, is at most
/// this were neighbours there already: 30 square pixels.
pub const EXISTING_MAX_SCORE: u64 = 30_000_000;

/// A coarse placement with a similarity of at most this is taken as it is;
/// a worse one is refined by local search: 100 square pixels.
pub const ACCEPT_ESTIMATE_SCORE: u64 = 100_000_000;

/// The outcome of matching one side against another.
#[derive(Clone, Debug)]
pub struct MatchResult {
    /// The similarity of the two sides as placed; smaller is better.
    pub score: u64,
    /// The whole outline of the reference figure.
    pub lhs: Vec<PointF>,
    /// The whole outline of the candidate figure, moved onto the reference.
    pub rhs: Vec<PointF>,
    pub lhs_id: usize,
    pub rhs_id: usize,
    pub lhs_center: PointF,
    pub rhs_center: PointF,
}

/// The smallest x coordinate among `init` and the points of `s`.
pub open spec fn lowest_x(s: Seq<PointF>, init: int) -> int
    decreases s.len(),
{
    if s.len() == 0 {
        init
    } else {
        let rest = lowest_x(s.drop_last(), init);
        if s.last().x < rest {
            s.last().x as int
        } else {
            rest
        }
    }
}

/// The smallest y coordinate among `init` and the points of `s`.
pub open spec fn lowest_y(s: Seq<PointF>, init: int) -> int
    decreases s.len(),
{
    if s.len() == 0 {
        init
    } else {
        let rest = lowest_y(s.drop_last(), init);
        if s.last().y < rest {
            s.last().y as int
        } else {
            rest
        }
    }
}

fn lowest_of(pts: &Vec<PointF>, init_x: i32, init_y: i32) -> (r: (i32, i32))
    ensures
        r.0 == lowest_x(pts@, init_x as int),
        r.1 == lowest_y(pts@, init_y as int),
{
    let n = pts.len();
    let mut lx = init_x;
    let mut ly = init_y;
    let mut i: usize = 0;
    while i < n
        invariant
            i <= n,
            n == pts@.len(),
            lx == lowest_x(pts@.take(i as int), init_x as int),
            ly == lowest_y(pts@.take(i as int), init_y as int),
        decreases n - i,
    {
        proof {
            assert(pts@.take(i as int + 1).drop_last() == pts@.take(i as int));
        }
        if pts[i].x < lx {
            lx = pts[i].x;
        }
        if pts[i].y < ly {
            ly = pts[i].y;
        }
        i = i + 1;
    }
    proof {
        assert(pts@.take(n as int) == pts@);
    }
    (lx, ly)
}

impl MatchResult {
    /// Puts the parts of a result together and adds the centroids of the
    /// two outlines.
    pub fn new(score: u64, lhs: Vec<PointF>, rhs: Vec<PointF>, lhs_id: usize, rhs_id: usize) -> (r:
        Self)
        ensures
            r.score == score,
            r.lhs == lhs,
            r.rhs == rhs,
            r.lhs_id == lhs_id,
            r.rhs_id == rhs_id,
            r.lhs_center == center_spec(lhs@),
            r.rhs_center == center_spec(rhs@),
    {
        let lhs_center = find_center(lhs.as_slice());
        let rhs_center = find_center(rhs.as_slice());
        MatchResult { lhs_center, rhs_center, score, lhs, rhs, lhs_id, rhs_id }
    }

    /// The offset of a result: what moves the smallest x and the smallest y
    /// of both outlines to zero.
    pub open spec fn offset_spec(&self) -> PointF {
        PointF {
            x: clamp_coord(-lowest_x(self.rhs@, lowest_x(self.lhs@, i32::MAX as int))) as i32,
            y: clamp_coord(-lowest_y(self.rhs@, lowest_y(self.lhs@, i32::MAX as int))) as i32,
        }
    }

    /// The offset that moves both outlines into the quadrant of
    /// non-negative coordinates, touching both axes.
    pub fn get_offset(&self) -> (r: PointF)
        requires
            self.lhs@.len() + self.rhs@.len() > 0,
        ensures
            r == self.offset_spec(),
    {
        let (lx, ly) = lowest_of(&self.lhs, i32::MAX, i32::MAX);
        let (mx, my) = lowest_of(&self.rhs, lx, ly);
        PointF { x: clamp_to_coord(-(mx as i128)), y: clamp_to_coord(-(my as i128)) }
    }
}

/// The point `p` of the frame `from_cs` taken over into the frame `to_cs`:
/// its local coordinates in the first are read as local coordinates in the
/// second.
pub open spec fn move_point(to_cs: CoordinateSystem, from_cs: CoordinateSystem, p: PointF) -> PointF {
    to_cs.to_real_spec(from_cs.create_spec(p))
}

/// Every point of `pts` taken over from `from_cs` into `to_cs`.
pub open spec fn move_seq(to_cs: CoordinateSystem, from_cs: CoordinateSystem, pts: Seq<PointF>) -> Seq<
    PointF,
> {
    Seq::new(pts.len(), |i: int| move_point(to_cs, from_cs, pts[i]))
}

/// Takes every point of `pts` over from `from_cs` into `to_cs`.
pub fn move_points(to_cs: &CoordinateSystem, from_cs: &CoordinateSystem, pts: &[PointF]) -> (r: Vec<
    PointF,
>)
    ensures
        r@ == move_seq(*to_cs, *from_cs, pts@),
{
    let n = pts.len();
    let mut res: Vec<PointF> = Vec::new();
    let mut i: usize = 0;
    while i < n
        invariant
            i <= n,
            n == pts@.len(),
            res@.len() == i,
            forall|j: int| 0 <= j < i ==> res@[j] == move_point(*to_cs, *from_cs, pts@[j]),
        decreases n - i,
    {
        res.push(to_cs.to_real(from_cs.create(pts[i])));
        i = i + 1;
    }
    assert(res@ =~= move_seq(*to_cs, *from_cs, pts@));
    res
}

/// Whether a candidate side, already reversed, can be aligned with a
/// reference side: neither is a picture border, and each has a coarse frame.
pub open spec fn alignable(lhs: Seq<PointF>, rhs: Seq<PointF>) -> bool {
    &&& !picture_border_spec(lhs)
    &&& !picture_border_spec(rhs)
    &&& estimate_spec(lhs) is Some
    &&& estimate_spec(rhs) is Some
}

/// The similarity of the reference side `lhs` and the candidate side `rhs`
/// when the candidate's frame is `from_cs` and the reference keeps its
/// coarse frame.
pub open spec fn placed_score(lhs: Seq<PointF>, rhs: Seq<PointF>, from_cs: CoordinateSystem) -> int {
    similarity(lhs, move_seq(estimate_spec(lhs)->Some_0, from_cs, rhs))
}

/// The score of a list of frames when the candidate side `rhs` is aligned
/// with the reference side `lhs`, which has the frame `to_cs`: the
/// similarity of the reference and the candidate as the first frame of the
/// list places it.
pub open spec fn frame_scores(lhs: Seq<PointF>, rhs: Seq<PointF>, to_cs: CoordinateSystem) -> spec_fn(
    Seq<CoordinateSystem>,
) -> u64 {
    |cs: Seq<CoordinateSystem>| similarity(lhs, move_seq(to_cs, cs[0], rhs)) as u64
}

/// The frame by which the candidate side `rhs`, already reversed, is
/// aligned with the reference side `lhs`: its coarse frame, if that places
/// it with a score of at most `ACCEPT_ESTIMATE_SCORE`, and else what local
/// search finds from the coarse frame.
pub open spec fn alignment_frame(lhs: Seq<PointF>, rhs: Seq<PointF>) -> CoordinateSystem {
    let coarse = estimate_spec(rhs)->Some_0;
    if placed_score(lhs, rhs, coarse) <= ACCEPT_ESTIMATE_SCORE {
        coarse
    } else {
        optimize_spec(frame_scores(lhs, rhs, estimate_spec(lhs)->Some_0), seq![coarse])[0]
    }
}

/// Whether the frame reproduces the points: each of them, expressed in
/// the frame and mapped back to the canvas, is where it was.
pub open spec fn reproduces(cs: CoordinateSystem, pts: Seq<PointF>) -> bool {
    forall|i: int| 0 <= i < pts.len() ==> move_point(cs, cs, #[trigger] pts[i]) == pts[i]
}

/// A frame along the first axis of the canvas reproduces every point whose
/// offset from its origin is a coordinate.
pub proof fn lemma_axis_frame_reproduces(cs: CoordinateSystem, p: PointF)
    requires
        cs.x_dir == (PointF { x: DIR_UNIT, y: 0 }),
        i32::MIN <= p.x - cs.start.x <= i32::MAX,
        i32::MIN <= p.y - cs.start.y <= i32::MAX,
    ensures
        move_point(cs, cs, p) == p,
{
    let vx = p.x - cs.start.x;
    let vy = p.y - cs.start.y;
    assert(round_unit(vx * 1_000_000 + vy * 0) == vx);
    assert(round_unit(vy * 1_000_000 - vx * 0) == vy);
    let l = cs.create_spec(p);
    assert(l.x == vx && l.y == vy);
    assert(round_unit(l.x * 1_000_000 - l.y * 0) == vx);
    assert(round_unit(l.x * 0 + l.y * 1_000_000) == vy);
}

/// A side of distinct points that its coarse frame reproduces is aligned
/// with a copy of itself by the coarse frame, and with the score zero.
pub proof fn lemma_copy_aligns_exactly(side: Seq<PointF>)
    requires
        estimate_spec(side) is Some,
        forall|i: int, j: int| 0 <= i < j < side.len() ==> side[i] != side[j],
        reproduces(estimate_spec(side)->Some_0, side),
    ensures
        alignment_frame(side, side) == estimate_spec(side)->Some_0,
        placed_score(side, side, alignment_frame(side, side)) == 0,
{
    let coarse = estimate_spec(side)->Some_0;
    assert(move_seq(coarse, coarse, side) =~= side);
    lemma_self_similarity_zero(side);
}

/// `m` is the result of aligning side `rhs_border_id` of `rhs_figure` with
/// side `lhs_border_id` of `lhs_figure` by the candidate frame `from_cs`.
pub open spec fn is_alignment(
    lhs_figure: Figure,
    lhs_border_id: int,
    rhs_figure: Figure,
    rhs_border_id: int,
    from_cs: CoordinateSystem,
    m: MatchResult,
) -> bool {
    let lhs = side_points(lhs_figure, lhs_border_id);
    let rhs = side_points(rhs_figure, rhs_border_id).reverse();
    let coarse = estimate_spec(rhs)->Some_0;
    &&& from_cs.wf()
    &&& m.score as int == placed_score(lhs, rhs, from_cs)
    &&& m.score as int <= placed_score(lhs, rhs, coarse)
    &&& m.lhs@ == lhs_figure.basic_position()
    &&& m.rhs@ == move_seq(estimate_spec(lhs)->Some_0, from_cs, rhs_figure.basic_position())
    &&& m.lhs_center == center_spec(m.lhs@)
    &&& m.rhs_center == center_spec(m.rhs@)
}

/// Aligns one side of the candidate figure `rhs_figure` with one side of the
/// reference figure `lhs_figure`.
///
/// The candidate side is reversed, since adjoining sides are traced in
/// opposite senses. There is no result if either side is a picture border or
/// has no coarse frame. Otherwise the candidate is placed by the two coarse
/// frames; if that placement scores above `ACCEPT_ESTIMATE_SCORE` the
/// candidate's frame is refined by local search, which never makes the score
/// worse. The result holds the final score, the outline of the reference as
/// it was traced, the outline of the candidate moved onto it, and the two
/// identifiers.
pub fn match_borders(
    lhs_figure: &Figure,
    lhs_border_id: usize,
    rhs_figure: &Figure,
    rhs_border_id: usize,
    lhs_id: usize,
    rhs_id: usize,
) -> (r: Option<MatchResult>)
    requires
        lhs_figure.wf(),
        rhs_figure.wf(),
        lhs_border_id < 4,
        rhs_border_id < 4,
    ensures
        r is Some <==> alignable(
            side_points(*lhs_figure, lhs_border_id as int),
            side_points(*rhs_figure, rhs_border_id as int).reverse(),
        ),
        r matches Some(m) ==> m.lhs_id == lhs_id && m.rhs_id == rhs_id && is_alignment(
            *lhs_figure,
            lhs_border_id as int,
            *rhs_figure,
            rhs_border_id as int,
            alignment_frame(
                side_points(*lhs_figure, lhs_border_id as int),
                side_points(*rhs_figure, rhs_border_id as int).reverse(),
            ),
            m,
        ),
{
    let lhs = get_figure_border(lhs_figure, lhs_border_id);
    let rhs_forward = get_figure_border(rhs_figure, rhs_border_id);
    let rhs = reversed(rhs_forward.as_slice());
    if is_picture_border(lhs.as_slice()) || is_picture_border(rhs.as_slice()) {
        return None;
    }
    let to_cs = match estimate_coordinate_system_by_border(lhs.as_slice()) {
        Some(cs) => cs,
        None => { return None; },
    };
    let coarse = match estimate_coordinate_system_by_border(rhs.as_slice()) {
        Some(cs) => cs,
        None => { return None; },
    };
    let coarse_moved = move_points(&to_cs, &coarse, rhs.as_slice());
    let coarse_score = match_placed_borders(lhs.as_slice(), coarse_moved.as_slice());
    let from_cs = if coarse_score <= ACCEPT_ESTIMATE_SCORE {
        coarse
    } else {
        let scorer = |cs: &Vec<CoordinateSystem>| -> (s: u64)
            requires
                cs@.len() == 1,
            ensures
                s as int == similarity(lhs@, move_seq(to_cs, cs@[0], rhs@)),
            {
                let moved = move_points(&to_cs, &cs[0], rhs.as_slice());
                match_placed_borders(lhs.as_slice(), moved.as_slice())
            };
        let mut start: Vec<CoordinateSystem> = Vec::new();
        start.push(coarse);
        let refined = local_optimize_coordinate_systems(&start, scorer);
        proof {
            let (s0, s1) = choose|s0: u64, s1: u64| #[trigger]
                scored(scorer, start@, s0) && #[trigger] scored(scorer, refined@, s1) && s1 <= s0;
            let v0 = choose|v: Vec<CoordinateSystem>| v@ == start@ && #[trigger] scorer.ensures((&v,), s0);
            let v1 = choose|v: Vec<CoordinateSystem>|
                v@ == refined@ && #[trigger] scorer.ensures((&v,), s1);
            assert(s0 as int == similarity(lhs@, move_seq(to_cs, coarse, rhs@)));
            assert(s1 as int == similarity(lhs@, move_seq(to_cs, refined@[0], rhs@)));
            assert(agrees(scorer, frame_scores(lhs@, rhs@, to_cs)));
            assert(start@ =~= seq![coarse]);
        }
        refined[0]
    };
    let moved = move_points(&to_cs, &from_cs, rhs.as_slice());
    let score = match_placed_borders(lhs.as_slice(), moved.as_slice());
    let lhs_all = conv_all(lhs_figure.border.as_slice());
    let rhs_basic = conv_all(rhs_figure.border.as_slice());
    let rhs_all = move_points(&to_cs, &from_cs, rhs_basic.as_slice());
    let res = MatchResult::new(score, lhs_all, rhs_all, lhs_id, rhs_id);
    proof {
        assert(lhs_figure.basic_position() =~= conv_seq(lhs_figure.border@));
        assert(rhs_figure.basic_position() =~= conv_seq(rhs_figure.border@));
        assert(from_cs == alignment_frame(lhs@, rhs@));
    }
    Some(res)
}

/// `m` is the result of comparing two sides as they lie in the photograph.
pub open spec fn is_unmoved_match(
    lhs_figure: Figure,
    lhs_border_id: int,
    rhs_figure: Figure,
    rhs_border_id: int,
    m: MatchResult,
) -> bool {
    &&& m.score as int == existing_score(lhs_figure, lhs_border_id, rhs_figure, rhs_border_id)
    &&& m.lhs@ == lhs_figure.basic_position()
    &&& m.rhs@ == rhs_figure.basic_position()
    &&& m.lhs_center == center_spec(m.lhs@)
    &&& m.rhs_center == center_spec(m.rhs@)
}

/// The similarity of two sides as they lie in the photograph, the second
/// one reversed.
pub open spec fn existing_score(
    lhs_figure: Figure,
    lhs_border_id: int,
    rhs_figure: Figure,
    rhs_border_id: int,
) -> int {
    similarity(
        side_points(lhs_figure, lhs_border_id),
        side_points(rhs_figure, rhs_border_id).reverse(),
    )
}

/// Compares two sides where they lie in the photograph, without moving
/// either. There is a result only if their similarity is at most
/// `EXISTING_MAX_SCORE`: such sides were neighbours before the puzzle was
/// taken apart.
pub fn match_borders_without_move(
    lhs_figure: &Figure,
    lhs_border_id: usize,
    rhs_figure: &Figure,
    rhs_border_id: usize,
    lhs_id: usize,
    rhs_id: usize,
) -> (r: Option<MatchResult>)
    requires
        lhs_figure.wf(),
        rhs_figure.wf(),
        lhs_border_id < 4,
        rhs_border_id < 4,
    ensures
        r is Some <==> existing_score(
            *lhs_figure,
            lhs_border_id as int,
            *rhs_figure,
            rhs_border_id as int,
        ) <= EXISTING_MAX_SCORE,
        r matches Some(m) ==> m.lhs_id == lhs_id && m.rhs_id == rhs_id && is_unmoved_match(
            *lhs_figure,
            lhs_border_id as int,
            *rhs_figure,
            rhs_border_id as int,
            m,
        ),
{
    let lhs = get_figure_border(lhs_figure, lhs_border_id);
    let rhs_forward = get_figure_border(rhs_figure, rhs_border_id);
    let rhs = reversed(rhs_forward.as_slice());
    let score = match_placed_borders(lhs.as_slice(), rhs.as_slice());
    if score > EXISTING_MAX_SCORE {
        return None;
    }
    let lhs_all = conv_all(lhs_figure.border.as_slice());
    let rhs_all = conv_all(rhs_figure.border.as_slice());
    proof {
        assert(lhs_figure.basic_position() =~= conv_seq(lhs_figure.border@));
        assert(rhs_figure.basic_position() =~= conv_seq(rhs_figure.border@));
    }
    Some(MatchResult::new(score, lhs_all, rhs_all, lhs_id, rhs_id))
}

} // verus!
