//! Points of the pixel grid and of the canvas.

use vstd::prelude::*;
use crate::math::{clamp_coord, clamp_to_coord, lemma_div_bounds};

verus! {

/// Canvas units per pixel: canvas coordinates are fixed-point numbers with
/// three decimal places.
pub const UNITS_PER_PIXEL: i32 = 1000;

/// A point of the pixel grid, as traced from the photograph.
#[derive(Clone, Copy, Debug, PartialEq, Eq, Structural)]
pub struct Point {
    pub x: i32,
    pub y: i32,
}

/// A point or vector of the canvas, in units of 1/1000 pixel.
#[derive(Clone, Copy, Debug, PartialEq, Eq, Structural)]
pub struct PointF {
    pub x: i32,
    pub y: i32,
}

impl Point {
    /// The canvas point that this pixel maps to.
    pub open spec fn conv_spec(self) -> PointF {
        PointF {
            x: clamp_coord(self.x * UNITS_PER_PIXEL) as i32,
            y: clamp_coord(self.y * UNITS_PER_PIXEL) as i32,
        }
    }

    /// Converts a pixel to canvas units, saturating at the canvas limits.
    pub fn conv_fixed(&self) -> (r: PointF)
        ensures
            r == self.conv_spec(),
    {
        let x: i128 = self.x as i128 * 1000;
        let y: i128 = self.y as i128 * 1000;
        PointF { x: clamp_to_coord(x), y: clamp_to_coord(y) }
    }
}

/// The cross product (signed parallelogram area) of two vectors.
pub open spec fn cross(ax: int, ay: int, bx: int, by: int) -> int {
    ax * by - ay * bx
}

/// The absolute value of an integer.
pub open spec fn abs(v: int) -> int {
    if v < 0 {
        -v
    } else {
        v
    }
}

/// The product of two bounded integers is bounded by the product of the bounds.
pub proof fn lemma_mul_bound(a: int, b: int, ba: int, bb: int)
    requires
        -ba <= a <= ba,
        -bb <= b <= bb,
    ensures
        -(ba * bb) <= a * b <= ba * bb,
{
    assert(-(ba * bb) <= a * b <= ba * bb) by (nonlinear_arith)
        requires
            -ba <= a <= ba,
            -bb <= b <= bb,
    ;
}

impl PointF {
    /// The origin.
    pub fn zero() -> (r: PointF)
        ensures
            r == (PointF { x: 0, y: 0 }),
    {
        PointF { x: 0, y: 0 }
    }

    /// The squared distance between two points.
    pub open spec fn dist2_spec(self, other: PointF) -> int {
        (self.x - other.x) * (self.x - other.x) + (self.y - other.y) * (self.y - other.y)
    }

    /// The component-wise sum, each component limited to the coordinate range.
    pub open spec fn plus_spec(self, other: PointF) -> PointF {
        PointF {
            x: clamp_coord(self.x + other.x) as i32,
            y: clamp_coord(self.y + other.y) as i32,
        }
    }

    /// The component-wise difference, each component limited to the coordinate range.
    pub open spec fn minus_spec(self, other: PointF) -> PointF {
        PointF {
            x: clamp_coord(self.x - other.x) as i32,
            y: clamp_coord(self.y - other.y) as i32,
        }
    }

    /// Squared distance to `other`.
    pub fn dist2(&self, other: &PointF) -> (r: u128)
        ensures
            r as int == self.dist2_spec(*other),
            r <= 0x2_0000_0000_0000_0000,
    {
        let dx: i128 = self.x as i128 - other.x as i128;
        let dy: i128 = self.y as i128 - other.y as i128;
        proof {
            lemma_mul_bound(dx as int, dx as int, 0x1_0000_0000, 0x1_0000_0000);
            lemma_mul_bound(dy as int, dy as int, 0x1_0000_0000, 0x1_0000_0000);
            assert(dx * dx >= 0) by (nonlinear_arith);
            assert(dy * dy >= 0) by (nonlinear_arith);
        }
        (dx * dx + dy * dy) as u128
    }

    /// Saturating vector addition.
    pub fn plus(&self, other: &PointF) -> (r: PointF)
        ensures
            r == self.plus_spec(*other),
    {
        PointF {
            x: clamp_to_coord(self.x as i128 + other.x as i128),
            y: clamp_to_coord(self.y as i128 + other.y as i128),
        }
    }

    /// Saturating vector subtraction.
    pub fn minus(&self, other: &PointF) -> (r: PointF)
        ensures
            r == self.minus_spec(*other),
    {
        PointF {
            x: clamp_to_coord(self.x as i128 - other.x as i128),
            y: clamp_to_coord(self.y as i128 - other.y as i128),
        }
    }
}

/// The sum of the x coordinates of a point sequence.
pub open spec fn sum_x(s: Seq<PointF>) -> int
    decreases s.len(),
{
    if s.len() == 0 {
        0
    } else {
        sum_x(s.drop_last()) + s.last().x
    }
}

/// The sum of the y coordinates of a point sequence.
pub open spec fn sum_y(s: Seq<PointF>) -> int
    decreases s.len(),
{
    if s.len() == 0 {
        0
    } else {
        sum_y(s.drop_last()) + s.last().y
    }
}

/// The centroid of a point sequence, each coordinate rounded down; the origin
/// for an empty sequence.
pub open spec fn center_spec(s: Seq<PointF>) -> PointF {
    if s.len() == 0 {
        PointF { x: 0, y: 0 }
    } else {
        PointF {
            x: (sum_x(s) / (s.len() as int)) as i32,
            y: (sum_y(s) / (s.len() as int)) as i32,
        }
    }
}

/// Centroid of `pts`.
pub fn find_center(pts: &[PointF]) -> (r: PointF)
    ensures
        r == center_spec(pts@),
{
    let n = pts.len();
    if n == 0 {
        return PointF { x: 0, y: 0 };
    }
    let mut sx: i128 = 0;
    let mut sy: i128 = 0;
    let mut i: usize = 0;
    while i < n
        invariant
            i <= n,
            n == pts@.len(),
            sx as int == sum_x(pts@.take(i as int)),
            sy as int == sum_y(pts@.take(i as int)),
            -0x8000_0000 * i <= sx <= 0x7fff_ffff * i,
            -0x8000_0000 * i <= sy <= 0x7fff_ffff * i,
        decreases n - i,
    {
        proof {
            assert(pts@.take(i as int + 1).drop_last() == pts@.take(i as int));
        }
        sx = sx + pts[i].x as i128;
        sy = sy + pts[i].y as i128;
        i = i + 1;
    }
    proof {
        assert(pts@.take(n as int) == pts@);
    }
    proof {
        lemma_div_bounds(sx as int, n as int, -0x8000_0000, 0x7fff_ffff);
        lemma_div_bounds(sy as int, n as int, -0x8000_0000, 0x7fff_ffff);
    }
    let cx = match sx.checked_div_euclid(n as i128) {
        Some(q) => q,
        None => 0,
    };
    let cy = match sy.checked_div_euclid(n as i128) {
        Some(q) => q,
        None => 0,
    };
    PointF { x: cx as i32, y: cy as i32 }
}

} // verus!
