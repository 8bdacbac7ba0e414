//! Packing the components of an assembly on the shared canvas.

use vstd::prelude::*;
use crate::point::PointF;
use crate::rects_fitter::{
    bounding_box, fits_canvas, lemma_bounding_box_contains, lemma_bounding_box_within, lies_in,
    packed_box, PACKING_GAP, Rect, RectsFitter,
};
use crate::surface_placer::{in_components, is_component_list};

verus! {

/// The points of the first `i` figures of a component, in their order.
pub open spec fn footprint(u: Seq<Option<Vec<PointF>>>, comp: Seq<usize>, i: int) -> Seq<PointF>
    decreases i,
{
    if i <= 0 {
        Seq::empty()
    } else {
        footprint(u, comp, i - 1) + u[comp[i - 1] as int]->Some_0@
    }
}

/// The offset that the packer gives to a footprint when the canvas is free
/// from `free` on: zero for an empty footprint, none for one that does not
/// fit, and else what moves the lower left corner of its bounding box to
/// `(free, 0)`.
pub open spec fn shift_for(pts: Seq<PointF>, free: int) -> Option<PointF> {
    if pts.len() == 0 {
        Some(PointF { x: 0, y: 0 })
    } else if fits_canvas(bounding_box(pts), free) {
        Some(
            PointF {
                x: (free - bounding_box(pts).min_x) as i32,
                y: (-bounding_box(pts).min_y) as i32,
            },
        )
    } else {
        None
    }
}

/// From where the canvas is free after the packer has seen a footprint.
pub open spec fn next_free(pts: Seq<PointF>, free: int) -> int {
    if pts.len() > 0 && fits_canvas(bounding_box(pts), free) {
        packed_box(bounding_box(pts), free).max_x + 1 + PACKING_GAP
    } else {
        free
    }
}

/// From where the canvas is free after the first `k` components are packed.
pub open spec fn free_after(u: Seq<Option<Vec<PointF>>>, comps: Seq<Vec<usize>>, k: int) -> int
    decreases k,
{
    if k <= 0 {
        0
    } else {
        next_free(
            footprint(u, comps[k - 1]@, comps[k - 1]@.len() as int),
            free_after(u, comps, k - 1),
        )
    }
}

/// The offset of component `k` when the components are packed in their
/// order.
pub open spec fn component_shift(u: Seq<Option<Vec<PointF>>>, comps: Seq<Vec<usize>>, k: int) -> Option<
    PointF,
> {
    shift_for(footprint(u, comps[k]@, comps[k]@.len() as int), free_after(u, comps, k))
}

/// Every point of `pts` moved by `shift`.
pub open spec fn shifted(pts: Seq<PointF>, shift: PointF) -> Seq<PointF> {
    Seq::new(pts.len(), |i: int| pts[i].plus_spec(shift))
}

/// What packing makes of the position `was` of a figure whose component
/// gets the offset `shift`: the position moved by the offset, or nothing if
/// there is no offset.
pub open spec fn moved_to(was: Option<Vec<PointF>>, shift: Option<PointF>, now: Option<Vec<PointF>>) -> bool {
    match shift {
        Some(sh) => now is Some && now->Some_0@ == shifted(was->Some_0@, sh),
        None => now is None,
    }
}

/// `r` is what packing makes of the assembly `u`: the components are
/// packed in their order, every figure of a component is moved by the
/// offset of the component, and the figures of a component that does not
/// fit on the canvas are taken off.
pub open spec fn is_packing(
    u: Seq<Option<Vec<PointF>>>,
    comps: Seq<Vec<usize>>,
    r: Seq<Option<Vec<PointF>>>,
) -> bool {
    &&& r.len() == u.len()
    &&& forall|k: int, i: int|
        0 <= k < comps.len() && 0 <= i < comps[k]@.len() ==> moved_to(
            u[(#[trigger] comps[k]@[i]) as int],
            component_shift(u, comps, k),
            r[comps[k]@[i] as int],
        )
    &&& forall|f: int| 0 <= f < u.len() && !in_components(comps, f as usize) ==> (#[trigger] r[f]) == u[f]
}

/// The footprint that the assembly `u` gives to component `k`.
pub open spec fn component_footprint(u: Seq<Option<Vec<PointF>>>, comps: Seq<Vec<usize>>, k: int) -> Seq<
    PointF,
> {
    footprint(u, comps[k]@, comps[k]@.len() as int)
}

/// Whether packing gives component `k` a rectangle of the canvas: it has
/// points, and the canvas has room for it.
pub open spec fn has_box(u: Seq<Option<Vec<PointF>>>, comps: Seq<Vec<usize>>, k: int) -> bool {
    component_footprint(u, comps, k).len() > 0 && fits_canvas(
        bounding_box(component_footprint(u, comps, k)),
        free_after(u, comps, k),
    )
}

/// The rectangle of the canvas that packing gives to component `k`: the
/// bounding box of its footprint, moved to where the canvas was free.
pub open spec fn component_box(u: Seq<Option<Vec<PointF>>>, comps: Seq<Vec<usize>>, k: int) -> Rect {
    packed_box(bounding_box(component_footprint(u, comps, k)), free_after(u, comps, k))
}

/// In `r` the components of the assembly `u` lie apart: every figure of a
/// component that has a rectangle is placed and lies in the rectangle of
/// its component, and the rectangles of two different components do not
/// overlap.
pub open spec fn packed_apart(
    u: Seq<Option<Vec<PointF>>>,
    comps: Seq<Vec<usize>>,
    r: Seq<Option<Vec<PointF>>>,
) -> bool {
    &&& forall|k: int, i: int|
        0 <= k < comps.len() && 0 <= i < comps[k]@.len() && has_box(u, comps, k) ==> r[(
        #[trigger] comps[k]@[i]) as int] is Some && lies_in(
            component_box(u, comps, k),
            r[comps[k]@[i] as int]->Some_0@,
        )
    &&& forall|k1: int, k2: int|
        0 <= k1 < k2 < comps.len() && #[trigger] has_box(u, comps, k1) && #[trigger] has_box(u, comps, k2)
            ==> component_box(u, comps, k1).disjoint(component_box(u, comps, k2))
}

/// The canvas is free from a coordinate that is not negative.
proof fn lemma_free_range(u: Seq<Option<Vec<PointF>>>, comps: Seq<Vec<usize>>, k: int)
    ensures
        0 <= free_after(u, comps, k) <= i32::MAX,
    decreases k,
{
    if k > 0 {
        lemma_free_range(u, comps, k - 1);
        let pts = component_footprint(u, comps, k - 1);
        if pts.len() > 0 {
            lemma_bounding_box_contains(pts, 0);
        }
    }
}

/// The free part of the canvas only shrinks, and it begins behind the
/// rectangle of every component that was packed.
proof fn lemma_free_grows(u: Seq<Option<Vec<PointF>>>, comps: Seq<Vec<usize>>, k1: int, k2: int)
    requires
        0 <= k1 < k2,
    ensures
        free_after(u, comps, k1) <= free_after(u, comps, k2),
        has_box(u, comps, k1) ==> component_box(u, comps, k1).max_x < free_after(u, comps, k2),
    decreases k2,
{
    lemma_free_range(u, comps, k2 - 1);
    let pts = component_footprint(u, comps, k2 - 1);
    if pts.len() > 0 {
        lemma_bounding_box_contains(pts, 0);
    }
    if k1 < k2 - 1 {
        lemma_free_grows(u, comps, k1, k2 - 1);
    }
}

/// The rectangles of two different components do not overlap.
pub proof fn lemma_boxes_apart(u: Seq<Option<Vec<PointF>>>, comps: Seq<Vec<usize>>, k1: int, k2: int)
    requires
        0 <= k1 < k2,
        has_box(u, comps, k1),
        has_box(u, comps, k2),
    ensures
        component_box(u, comps, k1).disjoint(component_box(u, comps, k2)),
{
    lemma_free_grows(u, comps, k1, k2);
    lemma_free_range(u, comps, k2);
}

/// The footprint of a component depends on the positions of its figures
/// only.
proof fn lemma_footprint_agree(
    u1: Seq<Option<Vec<PointF>>>,
    u2: Seq<Option<Vec<PointF>>>,
    comp: Seq<usize>,
    i: int,
)
    requires
        i <= comp.len(),
        forall|j: int| 0 <= j < i ==> u1[#[trigger] comp[j] as int] == u2[comp[j] as int],
    ensures
        footprint(u1, comp, i) == footprint(u2, comp, i),
    decreases i,
{
    if i > 0 {
        lemma_footprint_agree(u1, u2, comp, i - 1);
    }
}

/// Every point of a figure of the component is a point of its footprint.
proof fn lemma_footprint_holds(u: Seq<Option<Vec<PointF>>>, comp: Seq<usize>, i: int, j: int, t: int)
    requires
        0 <= j < i <= comp.len(),
        0 <= t < u[comp[j] as int]->Some_0@.len(),
    ensures
        footprint(u, comp, i).contains(u[comp[j] as int]->Some_0@[t]),
    decreases i,
{
    let rest = footprint(u, comp, i - 1);
    let last = u[comp[i - 1] as int]->Some_0@;
    let all = footprint(u, comp, i);
    if j == i - 1 {
        assert(all[rest.len() + t] == last[t]);
    } else {
        lemma_footprint_holds(u, comp, i - 1, j, t);
        let at = choose|at: int| 0 <= at < rest.len() && rest[at] == u[comp[j] as int]->Some_0@[t];
        assert(all[at] == rest[at]);
    }
}

/// Packs one component: all its figures are moved by the offset that the
/// packer gives to their footprint, or taken off if it gives none.
fn pack_component(fitter: &mut RectsFitter, positions: &mut Vec<Option<Vec<PointF>>>, component: &Vec<usize>)
    requires
        old(fitter).wf(),
        component@.no_duplicates(),
        forall|i: int|
            0 <= i < component@.len() ==> (#[trigger] component@[i]) < old(positions)@.len() && old(
                positions,
            )@[component@[i] as int] is Some,
    ensures
        final(fitter).wf(),
        final(positions)@.len() == old(positions)@.len(),
        final(fitter).free_from() == next_free(
            footprint(old(positions)@, component@, component@.len() as int),
            old(fitter).free_from(),
        ),
        forall|i: int|
            0 <= i < component@.len() ==> moved_to(
                old(positions)@[(#[trigger] component@[i]) as int],
                shift_for(
                    footprint(old(positions)@, component@, component@.len() as int),
                    old(fitter).free_from(),
                ),
                final(positions)@[component@[i] as int],
            ),
        forall|f: int|
            0 <= f < old(positions)@.len() && !component@.contains(f as usize) ==> (
            #[trigger] final(positions)@[f]) == old(positions)@[f],
        footprint(old(positions)@, component@, component@.len() as int).len() > 0 && fits_canvas(
            bounding_box(footprint(old(positions)@, component@, component@.len() as int)),
            old(fitter).free_from(),
        ) ==> forall|i: int|
            0 <= i < component@.len() ==> (#[trigger] final(positions)@[component@[i] as int]) is Some
                && lies_in(
                packed_box(
                    bounding_box(footprint(old(positions)@, component@, component@.len() as int)),
                    old(fitter).free_from(),
                ),
                final(positions)@[component@[i] as int]->Some_0@,
            ),
{
    let len = component.len();
    let ghost before = positions@;
    let mut new_pts: Vec<PointF> = Vec::new();
    let mut i: usize = 0;
    while i < len
        invariant
            i <= len,
            len == component@.len(),
            positions@ == before,
            forall|t: int|
                0 <= t < len ==> (#[trigger] component@[t]) < before.len() && before[component@[t] as int]
                    is Some,
            new_pts@ == footprint(before, component@, i as int),
        decreases len - i,
    {
        let c = component[i];
        match &positions[c] {
            Some(p) => {
                let ghost base = new_pts@;
                let mut j: usize = 0;
                while j < p.len()
                    invariant
                        j <= p@.len(),
                        new_pts@ == base + p@.take(j as int),
                    decreases p@.len() - j,
                {
                    new_pts.push(p[j]);
                    assert(new_pts@ =~= base + p@.take(j as int + 1));
                    j = j + 1;
                }
                assert(p@.take(p@.len() as int) =~= p@);
            },
            None => {},
        }
        i = i + 1;
    }
    let ghost pts = new_pts@;
    let ghost free = fitter.free_from();
    match fitter.add_points(new_pts.as_slice()) {
        Some(shift) => {
            let ghost packed = packed_box(bounding_box(pts), free);
            assert(Some(shift) == shift_for(pts, free));
            let mut k: usize = 0;
            while k < len
                invariant
                    k <= len,
                    len == component@.len(),
                    positions@.len() == before.len(),
                    component@.no_duplicates(),
                    pts == footprint(before, component@, len as int),
                    forall|t: int|
                        0 <= t < len ==> (#[trigger] component@[t]) < before.len()
                            && before[component@[t] as int] is Some,
                    pts.len() > 0 ==> forall|t: int|
                        0 <= t < pts.len() ==> packed.min_x <= (#[trigger] pts[t]).x + shift.x
                            <= packed.max_x && packed.min_y <= pts[t].y + shift.y <= packed.max_y,
                    forall|f: int|
                        0 <= f < before.len() && !component@.contains(f as usize) ==> (
                        #[trigger] positions@[f]) == before[f],
                    forall|t: int|
                        k <= t < len ==> positions@[#[trigger] component@[t] as int]
                            == before[component@[t] as int],
                    forall|t: int|
                        0 <= t < k ==> (#[trigger] positions@[component@[t] as int]) is Some
                            && positions@[component@[t] as int]->Some_0@ == shifted(
                            before[component@[t] as int]->Some_0@,
                            shift,
                        ) && (pts.len() > 0 ==> lies_in(
                            packed,
                            positions@[component@[t] as int]->Some_0@,
                        )),
                decreases len - k,
            {
                let c = component[k];
                let moved = match &positions[c] {
                    Some(p) => {
                        let count = p.len();
                        let mut out: Vec<PointF> = Vec::new();
                        let mut j: usize = 0;
                        while j < count
                            invariant
                                j <= count,
                                count == p@.len(),
                                out@.len() == j,
                                forall|t: int|
                                    0 <= t < j ==> (#[trigger] out@[t]) == p@[t].plus_spec(shift),
                            decreases count - j,
                        {
                            out.push(p[j].plus(&shift));
                            j = j + 1;
                        }
                        proof {
                            assert(p@ == before[c as int]->Some_0@);
                            assert(out@ =~= shifted(p@, shift));
                            if pts.len() > 0 {
                                assert forall|t: int| 0 <= t < out@.len() implies packed.contains(
                                    #[trigger] out@[t],
                                ) by {
                                    lemma_footprint_holds(before, component@, len as int, k as int, t);
                                    let q = before[component@[k as int] as int]->Some_0@[t];
                                    let idx = choose|idx: int| 0 <= idx < pts.len() && pts[idx] == q;
                                    assert(packed.min_x <= pts[idx].x + shift.x <= packed.max_x);
                                }
                            }
                        }
                        out
                    },
                    None => Vec::new(),
                };
                positions.set(c, Some(moved));
                proof {
                    assert forall|t: int| 0 <= t < k + 1 implies (
                    #[trigger] positions@[component@[t] as int]) is Some
                        && positions@[component@[t] as int]->Some_0@ == shifted(
                        before[component@[t] as int]->Some_0@,
                        shift,
                    ) && (pts.len() > 0 ==> lies_in(packed, positions@[component@[t] as int]->Some_0@)) by {
                        if t < k {
                            assert(component@[t] != c);
                        }
                    }
                    assert forall|t: int| k + 1 <= t < len implies positions@[
                    #[trigger] component@[t] as int] == before[component@[t] as int] by {
                        assert(component@[t] != c);
                    }
                }
                k = k + 1;
            }
        },
        None => {
            assert(shift_for(pts, free) is None);
            let mut k: usize = 0;
            while k < len
                invariant
                    k <= len,
                    len == component@.len(),
                    positions@.len() == before.len(),
                    forall|t: int| 0 <= t < len ==> (#[trigger] component@[t]) < before.len(),
                    forall|f: int|
                        0 <= f < before.len() && !component@.contains(f as usize) ==> (
                        #[trigger] positions@[f]) == before[f],
                    forall|t: int| 0 <= t < k ==> (#[trigger] positions@[component@[t] as int]) is None,
                    forall|t: int| 0 <= t < len ==> positions@[#[trigger] component@[t] as int] is None
                        || t >= k,
                decreases len - k,
            {
                positions.set(component[k], None);
                k = k + 1;
            }
        },
    }
}

/// The positions `now` have the first `k` components packed and the others
/// as in the assembly `u`, and what is packed lies in the rectangle of its
/// component.
pub open spec fn packed_upto(
    u: Seq<Option<Vec<PointF>>>,
    comps: Seq<Vec<usize>>,
    k: int,
    now: Seq<Option<Vec<PointF>>>,
) -> bool {
    &&& now.len() == u.len()
    &&& forall|c: int, i: int|
        0 <= c < k && 0 <= i < comps[c]@.len() ==> moved_to(
            u[(#[trigger] comps[c]@[i]) as int],
            component_shift(u, comps, c),
            now[comps[c]@[i] as int],
        )
    &&& forall|c: int, i: int|
        k <= c < comps.len() && 0 <= i < comps[c]@.len() ==> now[(#[trigger] comps[c]@[i]) as int]
            == u[comps[c]@[i] as int]
    &&& forall|f: int| 0 <= f < u.len() && !in_components(comps, f as usize) ==> (#[trigger] now[f]) == u[f]
    &&& forall|c: int, i: int|
        0 <= c < k && 0 <= i < comps[c]@.len() && has_box(u, comps, c) ==> now[(
        #[trigger] comps[c]@[i]) as int] is Some && lies_in(
            component_box(u, comps, c),
            now[comps[c]@[i] as int]->Some_0@,
        )
}

/// Packing component `k` takes the positions from `k` packed components to
/// `k + 1`.
proof fn lemma_pack_step(
    u: Seq<Option<Vec<PointF>>>,
    comps: Seq<Vec<usize>>,
    k: int,
    before: Seq<Option<Vec<PointF>>>,
    after: Seq<Option<Vec<PointF>>>,
)
    requires
        is_component_list(u, comps),
        0 <= k < comps.len(),
        packed_upto(u, comps, k, before),
        after.len() == before.len(),
        forall|i: int|
            0 <= i < comps[k]@.len() ==> moved_to(
                before[(#[trigger] comps[k]@[i]) as int],
                component_shift(u, comps, k),
                after[comps[k]@[i] as int],
            ),
        forall|f: int|
            0 <= f < before.len() && !comps[k]@.contains(f as usize) ==> (#[trigger] after[f])
                == before[f],
        has_box(u, comps, k) ==> forall|i: int|
            0 <= i < comps[k]@.len() ==> (#[trigger] after[comps[k]@[i] as int]) is Some && lies_in(
                component_box(u, comps, k),
                after[comps[k]@[i] as int]->Some_0@,
            ),
    ensures
        packed_upto(u, comps, k + 1, after),
{
    let comp = comps[k]@;
    assert forall|c: int, i: int| 0 <= c < comps.len() && c != k && 0 <= i < comps[c]@.len() implies after[(
    #[trigger] comps[c]@[i]) as int] == before[comps[c]@[i] as int] by {
        let f = comps[c]@[i];
        assert forall|j: int| 0 <= j < comp.len() implies comp[j] != f by {
            if c < k {
                assert(comps[c]@[i] != comps[k]@[j]);
            } else {
                assert(comps[k]@[j] != comps[c]@[i]);
            }
        }
        assert(!comp.contains(f));
    }
    assert forall|c: int, i: int| 0 <= c < k + 1 && 0 <= i < comps[c]@.len() implies moved_to(
        u[(#[trigger] comps[c]@[i]) as int],
        component_shift(u, comps, c),
        after[comps[c]@[i] as int],
    ) by {
        if c == k {
            assert(before[comps[k]@[i] as int] == u[comps[k]@[i] as int]);
        }
    }
    assert forall|f: int| 0 <= f < u.len() && !in_components(comps, f as usize) implies (
    #[trigger] after[f]) == u[f] by {
        if comp.contains(f as usize) {
            assert(comps[k]@.contains(f as usize));
        }
    }
    assert forall|c: int, i: int|
        0 <= c < k + 1 && 0 <= i < comps[c]@.len() && has_box(u, comps, c) implies after[(
    #[trigger] comps[c]@[i]) as int] is Some && lies_in(
        component_box(u, comps, c),
        after[comps[c]@[i] as int]->Some_0@,
    ) by {
        if c < k {
            assert(after[comps[c]@[i] as int] == before[comps[c]@[i] as int]);
        }
    }
}

/// A component that is moved as a whole keeps the number of its points.
proof fn lemma_footprint_len(
    u: Seq<Option<Vec<PointF>>>,
    r: Seq<Option<Vec<PointF>>>,
    comp: Seq<usize>,
    shift: PointF,
    i: int,
)
    requires
        i <= comp.len(),
        forall|j: int|
            0 <= j < i ==> moved_to(u[(#[trigger] comp[j]) as int], Some(shift), r[comp[j] as int]),
    ensures
        footprint(r, comp, i).len() == footprint(u, comp, i).len(),
    decreases i,
{
    if i > 0 {
        lemma_footprint_len(u, r, comp, shift, i - 1);
        assert(moved_to(u[comp[i - 1] as int], Some(shift), r[comp[i - 1] as int]));
    }
}

/// The footprint of figures that lie in a rectangle lies in the rectangle.
proof fn lemma_footprint_within(r: Seq<Option<Vec<PointF>>>, comp: Seq<usize>, i: int, b: Rect)
    requires
        i <= comp.len(),
        forall|j: int| 0 <= j < i ==> lies_in(b, r[(#[trigger] comp[j]) as int]->Some_0@),
    ensures
        lies_in(b, footprint(r, comp, i)),
    decreases i,
{
    if i > 0 {
        lemma_footprint_within(r, comp, i - 1, b);
        let rest = footprint(r, comp, i - 1);
        let last = r[comp[i - 1] as int]->Some_0@;
        assert(lies_in(b, last));
        assert forall|t: int| 0 <= t < footprint(r, comp, i).len() implies b.contains(
            #[trigger] footprint(r, comp, i)[t],
        ) by {
            if t < rest.len() {
                assert(footprint(r, comp, i)[t] == rest[t]);
            } else {
                assert(footprint(r, comp, i)[t] == last[t - rest.len()]);
            }
        }
    }
}

/// After packing, the bounding boxes of two different components that have
/// points and found room on the canvas do not overlap.
pub proof fn lemma_components_apart(
    u: Seq<Option<Vec<PointF>>>,
    comps: Seq<Vec<usize>>,
    r: Seq<Option<Vec<PointF>>>,
    k1: int,
    k2: int,
)
    requires
        is_packing(u, comps, r),
        packed_apart(u, comps, r),
        0 <= k1 < comps.len(),
        0 <= k2 < comps.len(),
        k1 != k2,
        has_box(u, comps, k1),
        has_box(u, comps, k2),
    ensures
        component_footprint(r, comps, k1).len() > 0,
        component_footprint(r, comps, k2).len() > 0,
        bounding_box(component_footprint(r, comps, k1)).disjoint(
            bounding_box(component_footprint(r, comps, k2)),
        ),
{
    lemma_component_in_box(u, comps, r, k1);
    lemma_component_in_box(u, comps, r, k2);
    if k1 < k2 {
        assert(component_box(u, comps, k1).disjoint(component_box(u, comps, k2)));
    } else {
        assert(component_box(u, comps, k2).disjoint(component_box(u, comps, k1)));
    }
}

/// After packing, the bounding box of a component that has points and
/// found room on the canvas lies in the rectangle of the component.
proof fn lemma_component_in_box(
    u: Seq<Option<Vec<PointF>>>,
    comps: Seq<Vec<usize>>,
    r: Seq<Option<Vec<PointF>>>,
    k: int,
)
    requires
        is_packing(u, comps, r),
        packed_apart(u, comps, r),
        0 <= k < comps.len(),
        has_box(u, comps, k),
    ensures
        component_footprint(r, comps, k).len() > 0,
        component_box(u, comps, k).min_x <= bounding_box(component_footprint(r, comps, k)).min_x,
        component_box(u, comps, k).min_y <= bounding_box(component_footprint(r, comps, k)).min_y,
        bounding_box(component_footprint(r, comps, k)).max_x <= component_box(u, comps, k).max_x,
        bounding_box(component_footprint(r, comps, k)).max_y <= component_box(u, comps, k).max_y,
{
    let comp = comps[k]@;
    let shift = component_shift(u, comps, k)->Some_0;
    assert forall|j: int| 0 <= j < comp.len() implies moved_to(
        u[(#[trigger] comp[j]) as int],
        Some(shift),
        r[comp[j] as int],
    ) by {
        assert(moved_to(u[comps[k]@[j] as int], component_shift(u, comps, k), r[comps[k]@[j] as int]));
    }
    lemma_footprint_len(u, r, comp, shift, comp.len() as int);
    assert forall|j: int| 0 <= j < comp.len() implies lies_in(
        component_box(u, comps, k),
        r[(#[trigger] comp[j]) as int]->Some_0@,
    ) by {
        assert(lies_in(component_box(u, comps, k), r[comps[k]@[j] as int]->Some_0@));
    }
    lemma_footprint_within(r, comp, comp.len() as int, component_box(u, comps, k));
    lemma_bounding_box_within(component_footprint(r, comps, k), component_box(u, comps, k));
}

/// Packs the components of an assembly on the shared canvas, one after the
/// other in their order: each is moved as a whole to a free part of the
/// canvas. A component for which the canvas has no room any more is taken
/// off.
pub fn pack_all(positions: Vec<Option<Vec<PointF>>>, components: &Vec<Vec<usize>>) -> (r: Vec<
    Option<Vec<PointF>>,
>)
    requires
        is_component_list(positions@, components@),
    ensures
        is_packing(positions@, components@, r@),
        packed_apart(positions@, components@, r@),
{
    let ghost u = positions@;
    let total = positions.len();
    let mut positions = positions;
    let mut fitter = RectsFitter::new();
    let count = components.len();
    let mut k: usize = 0;
    while k < count
        invariant
            k <= count,
            count == components@.len(),
            u.len() == total,
            is_component_list(u, components@),
            fitter.wf(),
            fitter.free_from() == free_after(u, components@, k as int),
            packed_upto(u, components@, k as int, positions@),
        decreases count - k,
    {
        let ghost before = positions@;
        let ghost comp = components@[k as int]@;
        proof {
            assert(components@[k as int]@.no_duplicates());
            assert forall|i: int| 0 <= i < comp.len() implies (#[trigger] comp[i]) < before.len()
                && before[comp[i] as int] is Some && before[comp[i] as int] == u[comp[i] as int] by {
                assert(before[components@[k as int]@[i] as int] == u[components@[k as int]@[i] as int]);
            }
            lemma_footprint_agree(before, u, comp, comp.len() as int);
        }
        pack_component(&mut fitter, &mut positions, &components[k]);
        proof {
            lemma_pack_step(u, components@, k as int, before, positions@);
        }
        k = k + 1;
    }
    proof {
        assert(is_packing(u, components@, positions@));
        assert forall|k1: int, k2: int|
            0 <= k1 < k2 < components@.len() && #[trigger] has_box(u, components@, k1)
                && #[trigger] has_box(u, components@, k2) implies component_box(
            u,
            components@,
            k1,
        ).disjoint(component_box(u, components@, k2)) by {
            lemma_boxes_apart(u, components@, k1, k2);
        }
    }
    positions
}

} // verus!
