//! Frames on the canvas: an origin and a direction of unit length.

use vstd::prelude::*;
use crate::math::{
    clamp_coord, clamp_to_coord, floor_sqrt, is_floor_sqrt, isqrt, lemma_div_bounds,
    lemma_floor_sqrt_is, lemma_floor_sqrt_monotone,
};
use crate::point::{abs, lemma_mul_bound, PointF};

verus! {

/// The length of a direction vector: directions are fixed-point numbers with
/// six decimal places.
pub const DIR_UNIT: i32 = 1_000_000;

/// A frame: `start` is its origin, `x_dir` the direction of its first axis,
/// scaled to length `DIR_UNIT`. The second axis is `x_dir` turned by a
/// quarter.
#[derive(Clone, Copy, Debug, PartialEq, Eq, Structural)]
pub struct CoordinateSystem {
    pub start: PointF,
    pub x_dir: PointF,
}

/// `a / DIR_UNIT`, rounded to the nearest integer.
pub open spec fn round_unit(a: int) -> int {
    (a + 500_000) / 1_000_000
}

/// One component `c` of a vector of squared length `n2`, rescaled so that
/// the vector has length `DIR_UNIT`, rounded towards zero.
pub open spec fn unit_component(c: int, n2: int) -> int {
    let m = floor_sqrt(c * c * 1_000_000_000_000 / n2);
    if c < 0 {
        -m
    } else {
        m
    }
}

/// The vector `(dx, dy)` rescaled to length `DIR_UNIT`.
pub open spec fn normalize_spec(dx: int, dy: int) -> PointF {
    PointF {
        x: unit_component(dx, dx * dx + dy * dy) as i32,
        y: unit_component(dy, dx * dx + dy * dy) as i32,
    }
}

/// A direction that `normalize` can have produced: no component beyond the
/// unit, and one of them at least half of it.
pub open spec fn is_direction(d: PointF) -> bool {
    &&& -DIR_UNIT <= d.x <= DIR_UNIT
    &&& -DIR_UNIT <= d.y <= DIR_UNIT
    &&& (abs(d.x as int) >= DIR_UNIT / 2 || abs(d.y as int) >= DIR_UNIT / 2)
}

proof fn lemma_unit_component(c: int, n2: int)
    requires
        n2 > 0,
        0 <= c * c <= n2,
    ensures
        -DIR_UNIT <= unit_component(c, n2) <= DIR_UNIT,
        2 * (c * c) >= n2 ==> abs(unit_component(c, n2)) >= DIR_UNIT / 2,
        c >= 0 ==> unit_component(c, n2) >= 0,
        c <= 0 ==> unit_component(c, n2) <= 0,
{
    let a = c * c * 1_000_000_000_000;
    let q = a / n2;
    assert(0 * n2 <= a <= 1_000_000_000_000 * n2) by (nonlinear_arith)
        requires
            0 <= c * c <= n2,
            a == c * c * 1_000_000_000_000,
    ;
    lemma_div_bounds(a, n2, 0, 1_000_000_000_000);
    let m = floor_sqrt(q);
    assert(is_floor_sqrt(1_000_000_000_000, 1_000_000)) by (nonlinear_arith);
    assert(is_floor_sqrt(0, 0));
    // the square root exists: bisection finds it, here it is bounded by monotonicity
    lemma_floor_sqrt_exists(q);
    lemma_floor_sqrt_monotone(q, 1_000_000_000_000, m, 1_000_000);
    lemma_floor_sqrt_monotone(0, q, 0, m);
    if c == 0 {
        assert(a == 0);
        assert(q == 0);
        lemma_floor_sqrt_is(0, 0);
    }
    if 2 * (c * c) >= n2 {
        assert(500_000_000_000 * n2 <= a) by (nonlinear_arith)
            requires
                2 * (c * c) >= n2,
                a == c * c * 1_000_000_000_000,
        ;
        lemma_div_bounds(a, n2, 500_000_000_000, 1_000_000_000_000);
        assert(is_floor_sqrt(250_000_000_000, 500_000)) by (nonlinear_arith);
        lemma_floor_sqrt_monotone(250_000_000_000, q, 500_000, m);
    }
}

/// Every natural number has a floor square root.
pub proof fn lemma_floor_sqrt_exists(v: int)
    requires
        v >= 0,
    ensures
        is_floor_sqrt(v, floor_sqrt(v)),
    decreases v,
{
    if v == 0 {
        assert(is_floor_sqrt(0, 0));
    } else {
        lemma_floor_sqrt_exists(v - 1);
        let r = floor_sqrt(v - 1);
        assert(is_floor_sqrt(v - 1, r));
        if v < (r + 1) * (r + 1) {
            assert(is_floor_sqrt(v, r));
        } else {
            assert(v == (r + 1) * (r + 1));
            assert((r + 1) * (r + 1) < (r + 2) * (r + 2)) by (nonlinear_arith)
                requires
                    r >= 0,
            ;
            assert(is_floor_sqrt(v, r + 1));
        }
    }
}

fn unit_component_exec(c: i64, n2: u128) -> (r: i32)
    requires
        -0x2_0000_0000 <= c <= 0x2_0000_0000,
        n2 > 0,
        c * c <= n2,
    ensures
        r as int == unit_component(c as int, n2 as int),
{
    let m: u128 = if c < 0 {
        (-c) as u128
    } else {
        c as u128
    };
    proof {
        lemma_mul_bound(c as int, c as int, 0x2_0000_0000, 0x2_0000_0000);
        assert(c * c >= 0) by (nonlinear_arith);
        assert(m * m == c * c) by (nonlinear_arith)
            requires
                m == c || m == -c,
        ;
        assert(0x2_0000_0000int * 0x2_0000_0000int * 1_000_000_000_000 < u128::MAX)
            by (nonlinear_arith);
        assert(m * m * 1_000_000_000_000 <= 0x2_0000_0000int * 0x2_0000_0000int
            * 1_000_000_000_000) by (nonlinear_arith)
            requires
                m * m <= 0x2_0000_0000int * 0x2_0000_0000int,
        ;
        lemma_unit_component(c as int, n2 as int);
    }
    let sq: u128 = m * m;
    let q: u128 = sq * 1_000_000_000_000 / n2;
    let root: u128 = isqrt(q);
    if c < 0 {
        -(root as i32)
    } else {
        root as i32
    }
}

/// Rescales the vector `(dx, dy)` to length `DIR_UNIT`.
pub fn normalize(dx: i64, dy: i64) -> (r: PointF)
    requires
        dx != 0 || dy != 0,
        -0x2_0000_0000 <= dx <= 0x2_0000_0000,
        -0x2_0000_0000 <= dy <= 0x2_0000_0000,
    ensures
        r == normalize_spec(dx as int, dy as int),
        is_direction(r),
{
    proof {
        lemma_mul_bound(dx as int, dx as int, 0x2_0000_0000, 0x2_0000_0000);
        lemma_mul_bound(dy as int, dy as int, 0x2_0000_0000, 0x2_0000_0000);
        assert(dx * dx >= 0) by (nonlinear_arith);
        assert(dy * dy >= 0) by (nonlinear_arith);
        assert(dx != 0 ==> dx * dx > 0) by (nonlinear_arith);
        assert(dy != 0 ==> dy * dy > 0) by (nonlinear_arith);
    }
    let wx: i128 = dx as i128;
    let wy: i128 = dy as i128;
    let n2: u128 = (wx * wx + wy * wy) as u128;
    proof {
        lemma_unit_component(dx as int, n2 as int);
        lemma_unit_component(dy as int, n2 as int);
    }
    let x = unit_component_exec(dx, n2);
    let y = unit_component_exec(dy, n2);
    PointF { x, y }
}

impl CoordinateSystem {
    /// The direction is one that `normalize` produces.
    pub open spec fn wf(&self) -> bool {
        is_direction(self.x_dir)
    }

    /// The frame at `start` whose first axis points along `dir`.
    pub open spec fn new_spec(start: PointF, dir: PointF) -> CoordinateSystem {
        CoordinateSystem { start, x_dir: normalize_spec(dir.x as int, dir.y as int) }
    }

    /// The frame at `a` whose first axis points towards `b`.
    pub open spec fn between_spec(a: PointF, b: PointF) -> CoordinateSystem {
        CoordinateSystem { start: a, x_dir: normalize_spec(b.x - a.x, b.y - a.y) }
    }

    /// The local coordinates of the canvas point `p`: its offset from the
    /// origin projected on the two axes.
    pub open spec fn create_spec(&self, p: PointF) -> PointF {
        let vx = p.x - self.start.x;
        let vy = p.y - self.start.y;
        PointF {
            x: clamp_coord(round_unit(vx * self.x_dir.x + vy * self.x_dir.y)) as i32,
            y: clamp_coord(round_unit(vy * self.x_dir.x - vx * self.x_dir.y)) as i32,
        }
    }

    /// The canvas point with the local coordinates `l`.
    pub open spec fn to_real_spec(&self, l: PointF) -> PointF {
        PointF {
            x: clamp_coord(self.start.x + round_unit(l.x * self.x_dir.x - l.y * self.x_dir.y)) as i32,
            y: clamp_coord(self.start.y + round_unit(l.x * self.x_dir.y + l.y * self.x_dir.x)) as i32,
        }
    }

    /// Builds the frame at `start` along `dir`, which must not be zero.
    pub fn new(start: PointF, dir: PointF) -> (r: CoordinateSystem)
        requires
            dir.x != 0 || dir.y != 0,
        ensures
            r == Self::new_spec(start, dir),
            r.wf(),
    {
        CoordinateSystem { start, x_dir: normalize(dir.x as i64, dir.y as i64) }
    }

    /// Builds the frame at `a` that points towards `b`, which must differ from `a`.
    pub fn between(a: PointF, b: PointF) -> (r: CoordinateSystem)
        requires
            a != b,
        ensures
            r == Self::between_spec(a, b),
            r.wf(),
    {
        CoordinateSystem {
            start: a,
            x_dir: normalize(b.x as i64 - a.x as i64, b.y as i64 - a.y as i64),
        }
    }

    /// Expresses the canvas point `p` in this frame.
    pub fn create(&self, p: PointF) -> (r: PointF)
        ensures
            r == self.create_spec(p),
    {
        let vx: i128 = p.x as i128 - self.start.x as i128;
        let vy: i128 = p.y as i128 - self.start.y as i128;
        let ux: i128 = self.x_dir.x as i128;
        let uy: i128 = self.x_dir.y as i128;
        proof {
            lemma_mul_bound(vx as int, ux as int, 0x1_0000_0000, 0x8000_0000);
            lemma_mul_bound(vy as int, uy as int, 0x1_0000_0000, 0x8000_0000);
            lemma_mul_bound(vy as int, ux as int, 0x1_0000_0000, 0x8000_0000);
            lemma_mul_bound(vx as int, uy as int, 0x1_0000_0000, 0x8000_0000);
        }
        let along: i128 = vx * ux + vy * uy;
        let across: i128 = vy * ux - vx * uy;
        PointF { x: clamp_to_coord(round_unit_exec(along)), y: clamp_to_coord(round_unit_exec(across)) }
    }

    /// Maps the local coordinates `l` back to the canvas.
    pub fn to_real(&self, l: PointF) -> (r: PointF)
        ensures
            r == self.to_real_spec(l),
    {
        let lx: i128 = l.x as i128;
        let ly: i128 = l.y as i128;
        let ux: i128 = self.x_dir.x as i128;
        let uy: i128 = self.x_dir.y as i128;
        proof {
            lemma_mul_bound(lx as int, ux as int, 0x8000_0000, 0x8000_0000);
            lemma_mul_bound(ly as int, uy as int, 0x8000_0000, 0x8000_0000);
            lemma_mul_bound(lx as int, uy as int, 0x8000_0000, 0x8000_0000);
            lemma_mul_bound(ly as int, ux as int, 0x8000_0000, 0x8000_0000);
        }
        let dx: i128 = round_unit_exec(lx * ux - ly * uy);
        let dy: i128 = round_unit_exec(lx * uy + ly * ux);
        PointF {
            x: clamp_to_coord(self.start.x as i128 + dx),
            y: clamp_to_coord(self.start.y as i128 + dy),
        }
    }
}

fn round_unit_exec(a: i128) -> (r: i128)
    requires
        -0x1_0000_0000_0000_0000_0000 <= a <= 0x1_0000_0000_0000_0000_0000,
    ensures
        r as int == round_unit(a as int),
        -0x1_0000_0000_0000_0000_0000 <= r <= 0x1_0000_0000_0000_0000_0000,
{
    match (a + 500_000).checked_div_euclid(1_000_000) {
        Some(q) => q,
        None => 0,
    }
}

} // verus!
