use jigsaw_solver::coordinate_system::{normalize, CoordinateSystem, DIR_UNIT};
use jigsaw_solver::dsu::Dsu;
use jigsaw_solver::math::{clamp_to_coord, isqrt, saturate_to_score};
use jigsaw_solver::placement::Placement;
use jigsaw_solver::point::{Point, PointF};
use jigsaw_solver::rects_fitter::{RectsFitter, PACKING_GAP};
use jigsaw_solver::sorting::stable_order;
use jigsaw_solver::utils::Side;

fn side(fig: usize, side: usize) -> Side {
    Side { fig, side }
}

#[test]
fn integer_square_root_rounds_down() {
    assert_eq!(isqrt(0), 0);
    assert_eq!(isqrt(1), 1);
    assert_eq!(isqrt(3), 1);
    assert_eq!(isqrt(4), 2);
    assert_eq!(isqrt(99), 9);
    assert_eq!(isqrt(1_000_000_000_000), 1_000_000);
    assert_eq!(isqrt(999_999_999_999), 999_999);
    assert_eq!(isqrt(u128::MAX), u64::MAX as u128);
}

#[test]
fn wide_values_are_limited() {
    assert_eq!(clamp_to_coord(5), 5);
    assert_eq!(clamp_to_coord(1 << 40), i32::MAX);
    assert_eq!(clamp_to_coord(-(1 << 40)), i32::MIN);
    assert_eq!(saturate_to_score(7), 7);
    assert_eq!(saturate_to_score(1 << 64), u64::MAX);
}

#[test]
fn pixels_become_canvas_units() {
    assert_eq!(Point { x: 3, y: -4 }.conv_fixed(), PointF { x: 3000, y: -4000 });
    assert_eq!(Point { x: 3_000_000, y: -3_000_000 }.conv_fixed(), PointF { x: i32::MAX, y: i32::MIN });
}

#[test]
fn points_add_and_subtract_with_saturation() {
    let a = PointF { x: 5, y: -7 };
    let b = PointF { x: 1, y: 2 };
    assert_eq!(a.plus(&b), PointF { x: 6, y: -5 });
    assert_eq!(a.minus(&b), PointF { x: 4, y: -9 });
    assert_eq!(PointF { x: i32::MAX, y: i32::MIN }.plus(&PointF { x: 1, y: -1 }), PointF { x: i32::MAX, y: i32::MIN });
    assert_eq!(a.dist2(&b), 16 + 81);
    assert_eq!(PointF::zero(), PointF { x: 0, y: 0 });
}

#[test]
fn directions_are_scaled_to_the_unit() {
    assert_eq!(normalize(3, 4), PointF { x: 600_000, y: 800_000 });
    assert_eq!(normalize(-7, 0), PointF { x: -DIR_UNIT, y: 0 });
    assert_eq!(normalize(0, 123_456), PointF { x: 0, y: DIR_UNIT });
    assert_eq!(normalize(1, 1), PointF { x: 707_106, y: 707_106 });
    assert_eq!(normalize(-1, 2), PointF { x: -447_213, y: 894_427 });
}

#[test]
fn frame_maps_points_there_and_back() {
    let cs = CoordinateSystem::new(PointF { x: 1000, y: 2000 }, PointF { x: 0, y: 5 });
    assert_eq!(cs.x_dir, PointF { x: 0, y: DIR_UNIT });
    // the first axis points up: a point above the origin is on it
    assert_eq!(cs.create(PointF { x: 1000, y: 2500 }), PointF { x: 500, y: 0 });
    assert_eq!(cs.create(PointF { x: 900, y: 2000 }), PointF { x: 0, y: 100 });
    assert_eq!(cs.to_real(PointF { x: 500, y: 0 }), PointF { x: 1000, y: 2500 });
    assert_eq!(cs.to_real(PointF { x: 0, y: 100 }), PointF { x: 900, y: 2000 });
    let skew = CoordinateSystem::between(PointF { x: -300, y: 40 }, PointF { x: 700, y: 1040 });
    for p in [PointF { x: 12_345, y: -6_789 }, PointF { x: 0, y: 0 }, PointF { x: -50_000, y: 50_001 }] {
        let back = skew.to_real(skew.create(p));
        assert!((back.x - p.x).abs() <= 2 && (back.y - p.y).abs() <= 2, "{:?} {:?}", p, back);
    }
}

#[test]
fn sides_turn_round_the_piece() {
    assert_eq!(side(3, 0).next(), side(3, 1));
    assert_eq!(side(3, 3).next(), side(3, 0));
    assert_eq!(side(3, 0).prev(), side(3, 3));
    assert_eq!(side(3, 2).prev(), side(3, 1));
    assert_eq!(side(3, 1).opposite(), side(3, 3));
    assert_eq!(side(3, 2).opposite(), side(3, 0));
}

#[test]
fn stable_order_keeps_equal_keys_in_order() {
    assert_eq!(stable_order(&vec![3, 1, 2, 1, 3, 0]), vec![5, 1, 3, 2, 0, 4]);
    assert_eq!(stable_order(&vec![]), Vec::<usize>::new());
    assert_eq!(stable_order(&vec![u64::MAX, 0]), vec![1, 0]);
}

#[test]
fn placement_joins_each_side_once() {
    let mut p = Placement::new(3);
    assert_eq!(p.len(), 3);
    assert!(p.get_all_neighbours().is_empty());
    assert!(p.join_sides(side(2, 1), side(0, 3)));
    assert_eq!(p.get_neighbour(side(2, 1)), Some(side(0, 3)));
    assert_eq!(p.get_neighbour(side(0, 3)), Some(side(2, 1)));
    // a joined side is not joined again
    assert!(!p.join_sides(side(2, 1), side(1, 0)));
    assert!(!p.join_sides(side(1, 0), side(0, 3)));
    // nor a side with a side of the same figure, nor a side out of range
    assert!(!p.join_sides(side(1, 0), side(1, 2)));
    assert!(!p.join_sides(side(1, 0), side(3, 0)));
    assert!(!p.join_sides(side(1, 4), side(0, 0)));
    assert_eq!(p.get_neighbour(side(1, 0)), None);
    assert_eq!(p.get_neighbour(side(7, 0)), None);
    assert!(p.join_sides(side(0, 0), side(1, 2)));
    assert_eq!(
        p.get_all_neighbours(),
        vec![
            (side(0, 0), side(1, 2)),
            (side(0, 3), side(2, 1)),
            (side(1, 2), side(0, 0)),
            (side(2, 1), side(0, 3)),
        ]
    );
}

#[test]
fn disjoint_sets_unite() {
    let mut d = Dsu::new(5);
    assert!(!d.is_joined(0, 1));
    assert!(d.is_joined(3, 3));
    assert!(d.unite(0, 1));
    assert!(d.unite(3, 4));
    assert!(!d.unite(1, 0));
    assert!(d.is_joined(0, 1));
    assert!(!d.is_joined(1, 3));
    assert!(d.unite(1, 4));
    assert!(d.is_joined(0, 3));
    assert!(!d.is_joined(2, 3));
    assert_eq!(d.find(0), d.find(4));
    assert_eq!(d.find(2), 2);
}

fn boxes_overlap(a: &[PointF], b: &[PointF]) -> bool {
    let lo = |p: &[PointF], f: fn(&PointF) -> i32| p.iter().map(f).min().unwrap();
    let hi = |p: &[PointF], f: fn(&PointF) -> i32| p.iter().map(f).max().unwrap();
    let x: fn(&PointF) -> i32 = |p| p.x;
    let y: fn(&PointF) -> i32 = |p| p.y;
    !(hi(a, x) < lo(b, x) || hi(b, x) < lo(a, x) || hi(a, y) < lo(b, y) || hi(b, y) < lo(a, y))
}

#[test]
fn packed_components_do_not_overlap() {
    let first = vec![PointF { x: -500, y: 100 }, PointF { x: 1500, y: 900 }, PointF { x: 0, y: 0 }];
    let second = vec![PointF { x: 200, y: 300 }, PointF { x: 400, y: -300 }];
    let third = vec![PointF { x: 7, y: 7 }];
    assert!(boxes_overlap(&first, &second));
    let mut fitter = RectsFitter::new();
    let mut placed: Vec<Vec<PointF>> = Vec::new();
    for pts in [first, second, third] {
        let shift = fitter.add_points(&pts).unwrap();
        placed.push(pts.iter().map(|p| p.plus(&shift)).collect());
    }
    assert_eq!(placed[0], vec![PointF { x: 0, y: 100 }, PointF { x: 2000, y: 900 }, PointF { x: 500, y: 0 }]);
    assert_eq!(placed[1][0], PointF { x: 2001 + PACKING_GAP, y: 600 });
    for i in 0..placed.len() {
        for j in 0..i {
            assert!(!boxes_overlap(&placed[i], &placed[j]));
        }
    }
}

#[test]
fn packing_an_empty_footprint_moves_nothing() {
    let mut fitter = RectsFitter::new();
    assert_eq!(fitter.add_points(&[]), Some(PointF { x: 0, y: 0 }));
    assert_eq!(fitter.add_points(&[PointF { x: 5, y: 5 }]), Some(PointF { x: -5, y: -5 }));
}

#[test]
fn packing_fails_where_the_canvas_is_full() {
    let mut fitter = RectsFitter::new();
    let wide = vec![PointF { x: 0, y: 0 }, PointF { x: i32::MAX - PACKING_GAP - 1, y: 10 }];
    assert!(fitter.add_points(&wide).is_some());
    assert_eq!(fitter.add_points(&[PointF { x: 0, y: 0 }]), None);
    let mut fresh = RectsFitter::new();
    let tall = vec![PointF { x: 0, y: i32::MIN }, PointF { x: 0, y: 1 }];
    assert_eq!(fresh.add_points(&tall), None);
    assert!(fresh.add_points(&[PointF { x: 0, y: 0 }]).is_some());
}
