//! Packing of finished components side by side on the canvas.

use vstd::prelude::*;
use crate::border_matcher::{lowest_x, lowest_y};
use crate::point::PointF;

verus! {

/// An axis-parallel rectangle of the canvas, borders included.
#[derive(Clone, Copy, Debug, PartialEq, Eq, Structural)]
pub struct Rect {
    pub min_x: i32,
    pub min_y: i32,
    pub max_x: i32,
    pub max_y: i32,
}

/// The free strip left between two components: 10 pixels.
pub const PACKING_GAP: i32 = 10_000;

impl Rect {
    /// The rectangle is not empty.
    pub open spec fn wf(self) -> bool {
        self.min_x <= self.max_x && self.min_y <= self.max_y
    }

    /// Whether the point lies in the rectangle.
    pub open spec fn contains(self, p: PointF) -> bool {
        self.min_x <= p.x <= self.max_x && self.min_y <= p.y <= self.max_y
    }

    /// Whether two rectangles have no point in common.
    pub open spec fn disjoint(self, other: Rect) -> bool {
        self.max_x < other.min_x || other.max_x < self.min_x || self.max_y < other.min_y
            || other.max_y < self.min_y
    }
}

/// The largest x coordinate among `init` and the points of `s`.
pub open spec fn highest_x(s: Seq<PointF>, init: int) -> int
    decreases s.len(),
{
    if s.len() == 0 {
        init
    } else {
        let rest = highest_x(s.drop_last(), init);
        if s.last().x > rest {
            s.last().x as int
        } else {
            rest
        }
    }
}

/// The largest y coordinate among `init` and the points of `s`.
pub open spec fn highest_y(s: Seq<PointF>, init: int) -> int
    decreases s.len(),
{
    if s.len() == 0 {
        init
    } else {
        let rest = highest_y(s.drop_last(), init);
        if s.last().y > rest {
            s.last().y as int
        } else {
            rest
        }
    }
}

/// The bounding box of a sequence of points that is not empty.
pub open spec fn bounding_box(pts: Seq<PointF>) -> Rect {
    Rect {
        min_x: lowest_x(pts, i32::MAX as int) as i32,
        min_y: lowest_y(pts, i32::MAX as int) as i32,
        max_x: highest_x(pts, i32::MIN as int) as i32,
        max_y: highest_y(pts, i32::MIN as int) as i32,
    }
}

/// The extremes of a sequence of points are coordinates.
pub proof fn lemma_extremes_range(pts: Seq<PointF>)
    ensures
        i32::MIN <= lowest_x(pts, i32::MAX as int) <= i32::MAX,
        i32::MIN <= lowest_y(pts, i32::MAX as int) <= i32::MAX,
        i32::MIN <= highest_x(pts, i32::MIN as int) <= i32::MAX,
        i32::MIN <= highest_y(pts, i32::MIN as int) <= i32::MAX,
    decreases pts.len(),
{
    if pts.len() > 0 {
        lemma_extremes_range(pts.drop_last());
    }
}

/// No point of a sequence lies beyond its extremes.
pub proof fn lemma_extremes(pts: Seq<PointF>, i: int)
    requires
        0 <= i < pts.len(),
    ensures
        lowest_x(pts, i32::MAX as int) <= pts[i].x <= highest_x(pts, i32::MIN as int),
        lowest_y(pts, i32::MAX as int) <= pts[i].y <= highest_y(pts, i32::MIN as int),
    decreases pts.len(),
{
    if i < pts.len() - 1 {
        lemma_extremes(pts.drop_last(), i);
    }
}

/// Every point of a sequence lies in its bounding box.
pub proof fn lemma_bounding_box_contains(pts: Seq<PointF>, i: int)
    requires
        0 <= i < pts.len(),
    ensures
        bounding_box(pts).wf(),
        bounding_box(pts).contains(pts[i]),
{
    lemma_extremes(pts, i);
    lemma_extremes_range(pts);
}

/// The extremes of points that lie in a rectangle lie in the rectangle.
proof fn lemma_extremes_within(pts: Seq<PointF>, b: Rect)
    requires
        forall|j: int| 0 <= j < pts.len() ==> b.contains(#[trigger] pts[j]),
    ensures
        b.min_x <= lowest_x(pts, i32::MAX as int),
        b.min_y <= lowest_y(pts, i32::MAX as int),
        highest_x(pts, i32::MIN as int) <= b.max_x,
        highest_y(pts, i32::MIN as int) <= b.max_y,
    decreases pts.len(),
{
    if pts.len() > 0 {
        assert(b.contains(pts[pts.len() - 1]));
        assert forall|j: int| 0 <= j < pts.drop_last().len() implies b.contains(
            #[trigger] pts.drop_last()[j],
        ) by {
            assert(pts.drop_last()[j] == pts[j]);
        }
        lemma_extremes_within(pts.drop_last(), b);
    }
}

/// The bounding box of points that lie in a rectangle lies in the
/// rectangle.
pub proof fn lemma_bounding_box_within(pts: Seq<PointF>, b: Rect)
    requires
        pts.len() > 0,
        lies_in(b, pts),
    ensures
        b.min_x <= bounding_box(pts).min_x,
        b.min_y <= bounding_box(pts).min_y,
        bounding_box(pts).max_x <= b.max_x,
        bounding_box(pts).max_y <= b.max_y,
{
    lemma_extremes_within(pts, b);
    lemma_extremes_range(pts);
}

fn bounds_of(pts: &[PointF]) -> (r: Rect)
    requires
        pts@.len() > 0,
    ensures
        r == bounding_box(pts@),
        r.wf(),
{
    let n = pts.len();
    let mut lx: i32 = i32::MAX;
    let mut ly: i32 = i32::MAX;
    let mut hx: i32 = i32::MIN;
    let mut hy: i32 = i32::MIN;
    let mut i: usize = 0;
    while i < n
        invariant
            i <= n,
            n == pts@.len(),
            lx == lowest_x(pts@.take(i as int), i32::MAX as int),
            ly == lowest_y(pts@.take(i as int), i32::MAX as int),
            hx == highest_x(pts@.take(i as int), i32::MIN as int),
            hy == highest_y(pts@.take(i as int), i32::MIN as int),
        decreases n - i,
    {
        proof {
            assert(pts@.take(i as int + 1).drop_last() == pts@.take(i as int));
        }
        let p = pts[i];
        if p.x < lx {
            lx = p.x;
        }
        if p.y < ly {
            ly = p.y;
        }
        if p.x > hx {
            hx = p.x;
        }
        if p.y > hy {
            hy = p.y;
        }
        i = i + 1;
    }
    proof {
        assert(pts@.take(n as int) == pts@);
        lemma_bounding_box_contains(pts@, 0);
    }
    Rect { min_x: lx, min_y: ly, max_x: hx, max_y: hy }
}

/// The packer: the bounding boxes of the components registered so far, one
/// beside the other along the x axis, and the x coordinate from which the
/// canvas is still free.
pub struct RectsFitter {
    placed: Vec<Rect>,
    next_x: i32,
}

/// Where the packer puts a component with the bounding box `b` when the
/// canvas is free from `next_x` on: the box with its lower left corner at
/// `(next_x, 0)`.
pub open spec fn packed_box(b: Rect, next_x: int) -> Rect {
    Rect {
        min_x: next_x as i32,
        min_y: 0,
        max_x: (next_x + (b.max_x - b.min_x)) as i32,
        max_y: (b.max_y - b.min_y) as i32,
    }
}

/// Whether a component with the bounding box `b` still fits on the canvas
/// that is free from `next_x` on: the packed box, the free strip behind it
/// and the offset of the move must all be coordinates.
pub open spec fn fits_canvas(b: Rect, next_x: int) -> bool {
    &&& next_x + (b.max_x - b.min_x) + 1 + PACKING_GAP <= i32::MAX
    &&& b.max_y - b.min_y <= i32::MAX
    &&& i32::MIN <= next_x - b.min_x <= i32::MAX
    &&& i32::MIN <= -b.min_y <= i32::MAX
}

impl RectsFitter {
    /// The boxes registered so far, in the order of their registration.
    pub closed spec fn boxes(&self) -> Seq<Rect> {
        self.placed@
    }

    /// The x coordinate from which the canvas is free.
    pub closed spec fn free_from(&self) -> int {
        self.next_x as int
    }

    /// The registered boxes are not empty, lie left of the free part of the
    /// canvas, and no two of them overlap.
    pub open spec fn wf(&self) -> bool {
        &&& 0 <= self.free_from()
        &&& forall|i: int|
            0 <= i < self.boxes().len() ==> (#[trigger] self.boxes()[i]).wf() && self.boxes()[i].max_x
                < self.free_from()
        &&& forall|i: int, j: int|
            0 <= i < j < self.boxes().len() ==> (#[trigger] self.boxes()[i]).disjoint(
                #[trigger] self.boxes()[j],
            )
    }

    /// A packer with an empty canvas.
    pub fn new() -> (r: Self)
        ensures
            r.wf(),
            r.boxes() == Seq::<Rect>::empty(),
            r.free_from() == 0,
    {
        RectsFitter { placed: Vec::new(), next_x: 0 }
    }

    /// Registers the footprint `pts` of a finished component and returns the
    /// offset by which to move it: the moved footprint overlaps none of the
    /// footprints registered before. There is no offset, and nothing is
    /// registered, where the component does not fit on the canvas any more.
    /// An empty footprint gets the offset zero and is not registered.
    pub fn add_points(&mut self, pts: &[PointF]) -> (r: Option<PointF>)
        requires
            old(self).wf(),
        ensures
            final(self).wf(),
            pts@.len() == 0 ==> r == Some(PointF { x: 0, y: 0 }),
            pts@.len() > 0 ==> (r is Some <==> fits_canvas(bounding_box(pts@), old(self).free_from())),
            pts@.len() == 0 || r is None ==> final(self).boxes() == old(self).boxes(),
            pts@.len() == 0 || r is None ==> final(self).free_from() == old(self).free_from(),
            pts@.len() > 0 ==> (r matches Some(shift) ==> {
                let b = bounding_box(pts@);
                let packed = packed_box(b, old(self).free_from());
                &&& shift.x == old(self).free_from() - b.min_x
                &&& shift.y == -b.min_y
                &&& final(self).boxes() == old(self).boxes().push(packed)
                &&& final(self).free_from() == packed.max_x + 1 + PACKING_GAP
                &&& forall|i: int|
                    0 <= i < old(self).boxes().len() ==> packed.disjoint(
                        #[trigger] old(self).boxes()[i],
                    )
                &&& forall|i: int|
                    0 <= i < pts@.len() ==> packed.min_x <= (#[trigger] pts@[i]).x + shift.x
                        <= packed.max_x && packed.min_y <= pts@[i].y + shift.y <= packed.max_y
            }),
    {
        if pts.len() == 0 {
            return Some(PointF { x: 0, y: 0 });
        }
        let b = bounds_of(pts);
        let width: i64 = b.max_x as i64 - b.min_x as i64;
        let height: i64 = b.max_y as i64 - b.min_y as i64;
        let shift_x: i64 = self.next_x as i64 - b.min_x as i64;
        let shift_y: i64 = -(b.min_y as i64);
        if self.next_x as i64 + width + 1 + PACKING_GAP as i64 > i32::MAX as i64 || height
            > i32::MAX as i64 || shift_x > i32::MAX as i64 || shift_x < i32::MIN as i64 || shift_y
            > i32::MAX as i64 {
            return None;
        }
        let packed = Rect {
            min_x: self.next_x,
            min_y: 0,
            max_x: (self.next_x as i64 + width) as i32,
            max_y: height as i32,
        };
        proof {
            assert forall|i: int| 0 <= i < pts@.len() implies packed.min_x <= (#[trigger] pts@[i]).x
                + shift_x <= packed.max_x && packed.min_y <= pts@[i].y + shift_y <= packed.max_y by {
                lemma_bounding_box_contains(pts@, i);
            }
        }
        let ghost before = self.placed@;
        self.placed.push(packed);
        self.next_x = (packed.max_x as i64 + 1 + PACKING_GAP as i64) as i32;
        proof {
            assert forall|i: int, j: int| 0 <= i < j < self.boxes().len() implies (
            #[trigger] self.boxes()[i]).disjoint(#[trigger] self.boxes()[j]) by {
                if j < before.len() {
                    assert(self.boxes()[i] == before[i] && self.boxes()[j] == before[j]);
                } else {
                    assert(self.boxes()[i] == before[i]);
                }
            }
            assert forall|i: int| 0 <= i < self.boxes().len() implies (#[trigger] self.boxes()[i]).wf()
                && self.boxes()[i].max_x < self.free_from() by {
                if i < before.len() {
                    assert(self.boxes()[i] == before[i]);
                }
            }
        }
        Some(PointF { x: shift_x as i32, y: shift_y as i32 })
    }
}

/// Whether all points of `pts` lie in the rectangle `b`.
pub open spec fn lies_in(b: Rect, pts: Seq<PointF>) -> bool {
    forall|j: int| 0 <= j < pts.len() ==> b.contains(#[trigger] pts[j])
}

/// The footprints of two components that were packed one after the other do
/// not overlap: the boxes that hold them are disjoint.
pub proof fn lemma_packed_components_disjoint(fitter: RectsFitter, i: int, j: int)
    requires
        fitter.wf(),
        0 <= i < fitter.boxes().len(),
        0 <= j < fitter.boxes().len(),
        i != j,
    ensures
        fitter.boxes()[i].disjoint(fitter.boxes()[j]),
{
    if i < j {
        assert(fitter.boxes()[i].disjoint(fitter.boxes()[j]));
    } else {
        assert(fitter.boxes()[j].disjoint(fitter.boxes()[i]));
    }
}

} // verus!
