use jigsaw_solver::border_matcher::{
    estimate_coordinate_system_by_border, get_figure_border, is_picture_border,
    local_optimize_coordinate_systems, match_borders, match_borders_without_move,
    match_placed_borders, MatchResult, ACCEPT_ESTIMATE_SCORE, EXISTING_MAX_SCORE,
};
use jigsaw_solver::coordinate_system::CoordinateSystem;
use jigsaw_solver::figure::Figure;
use jigsaw_solver::point::{find_center, Point, PointF};

fn pts(raw: &[(i32, i32)]) -> Vec<PointF> {
    raw.iter().map(|&(x, y)| PointF { x, y }).collect()
}

const SIDE: i32 = 40;

fn bump(center: i32, height: i32) -> Vec<i32> {
    (0..=SIDE)
        .map(|t| {
            let rise = height.abs() - (t - center).abs();
            if rise > 0 {
                rise * height.signum()
            } else {
                0
            }
        })
        .collect()
}

fn flat() -> Vec<i32> {
    vec![0; (SIDE + 1) as usize]
}

fn mate(profile: &[i32]) -> Vec<i32> {
    profile.iter().rev().map(|d| -d).collect()
}

fn piece(off_x: i32, off_y: i32, profiles: [&[i32]; 4]) -> Figure {
    let mut border = Vec::new();
    for t in 0..SIDE {
        border.push(Point { x: off_x + t, y: off_y - profiles[0][t as usize] });
    }
    for t in 0..SIDE {
        border.push(Point { x: off_x + SIDE + profiles[1][t as usize], y: off_y + t });
    }
    for t in 0..SIDE {
        border.push(Point { x: off_x + SIDE - t, y: off_y + SIDE + profiles[2][t as usize] });
    }
    for t in 0..SIDE {
        border.push(Point { x: off_x - profiles[3][t as usize], y: off_y + SIDE - t });
    }
    let side = SIDE as usize;
    Figure { border, corner_positions: vec![0, side, 2 * side, 3 * side] }
}

#[test]
fn similarity_of_a_border_with_itself_is_zero() {
    let a = pts(&[(0, 0), (1000, 0), (2000, 500), (3000, 0), (4000, 0)]);
    assert_eq!(match_placed_borders(&a, &a), 0);
}

#[test]
fn similarity_of_a_border_with_the_reverse_of_its_reverse_is_zero() {
    let a = pts(&[(0, 0), (1000, 0), (2000, 500), (3000, 0), (4000, 0)]);
    let mut back = a.clone();
    back.reverse();
    back.reverse();
    assert_eq!(match_placed_borders(&a, &back), 0);
}

#[test]
fn similarity_is_symmetric() {
    let a = pts(&[(0, 0), (1000, 0), (2000, 500), (3000, 0), (4000, 0)]);
    let b = pts(&[(0, 100), (1000, 200), (2000, 300), (3100, 0)]);
    assert_eq!(match_placed_borders(&a, &b), match_placed_borders(&b, &a));
}

#[test]
fn similarity_of_two_parallel_segments() {
    let a = pts(&[(0, 0), (1000, 0)]);
    let b = pts(&[(0, 1000), (1000, 1000)]);
    assert_eq!(match_placed_borders(&a, &b), 2_000_000);
}

#[test]
fn similarity_never_walks_backwards() {
    // the second point of `a` is nearest to the first point of `b`, but the
    // first point of `a` has already been matched with the second
    let a = pts(&[(1000, 0), (0, 0)]);
    let b = pts(&[(0, 0), (1000, 0)]);
    // a -> b: (1000,0) takes b[1] at distance 0, then (0,0) can only take b[1]: 1_000_000
    // b -> a: (0,0) takes a[1] at distance 0, then (1000,0) can only take a[1]: 1_000_000
    assert_eq!(match_placed_borders(&a, &b), 1_000_000);
}

#[test]
fn similarity_looks_five_points_ahead_only() {
    let a = pts(&[(6000, 0)]);
    let b = pts(&[(0, 0), (1000, 0), (2000, 0), (3000, 0), (4000, 0), (5000, 0), (6000, 0)]);
    // a -> b: the window ends at (4000, 0): 4_000_000
    // b -> a: 36 + 25 + 16 + 9 + 4 + 1 + 0 = 91 million over 7 points
    assert_eq!(match_placed_borders(&a, &b), 4_000_000 + 13_000_000);
}

#[test]
fn similarity_saturates() {
    let a = pts(&[(i32::MIN, i32::MIN)]);
    let b = pts(&[(i32::MAX, i32::MAX)]);
    assert_eq!(match_placed_borders(&a, &b), u64::MAX);
}

#[test]
fn straight_side_is_a_picture_border() {
    let a = pts(&[(0, 0), (1000, 1000), (2000, 2000), (5000, 5000)]);
    assert!(is_picture_border(&a));
}

#[test]
fn side_with_a_far_point_is_no_picture_border() {
    let a = pts(&[(0, 0), (5000, 1100), (10000, 0)]);
    assert!(!is_picture_border(&a));
}

#[test]
fn picture_border_limit_is_a_tenth_of_the_chord() {
    // the chord has length 100; a point at distance 10 is at the limit
    assert!(!is_picture_border(&pts(&[(0, 0), (50, 10), (100, 0)])));
    assert!(is_picture_border(&pts(&[(0, 0), (50, 9), (100, 0)])));
    assert!(is_picture_border(&pts(&[(0, 0), (50, -9), (100, 0)])));
    assert!(!is_picture_border(&pts(&[(0, 0), (50, -10), (100, 0)])));
}

#[test]
fn side_that_ends_where_it_starts_is_no_picture_border() {
    assert!(!is_picture_border(&pts(&[(0, 0), (1000, 0), (0, 0)])));
    assert!(!is_picture_border(&pts(&[(7, 7)])));
}

#[test]
fn figure_border_runs_from_corner_to_corner() {
    let f = piece(10, 20, [&flat(), &flat(), &flat(), &flat()]);
    let side0 = get_figure_border(&f, 0);
    assert_eq!(side0.len(), 41);
    assert_eq!(side0[0], PointF { x: 10_000, y: 20_000 });
    assert_eq!(side0[40], PointF { x: 50_000, y: 20_000 });
    let side1 = get_figure_border(&f, 1);
    assert_eq!(side1[0], PointF { x: 50_000, y: 20_000 });
    assert_eq!(side1[40], PointF { x: 50_000, y: 60_000 });
}

#[test]
fn figure_border_wraps_at_the_end_of_the_outline() {
    let f = piece(0, 0, [&flat(), &flat(), &flat(), &flat()]);
    let side3 = get_figure_border(&f, 3);
    assert_eq!(side3.len(), 41);
    assert_eq!(side3[0], PointF { x: 0, y: 40_000 });
    assert_eq!(side3[39], PointF { x: 0, y: 1_000 });
    assert_eq!(side3[40], PointF { x: 0, y: 0 });
}

#[test]
fn figure_border_of_a_side_with_equal_corners_is_one_point() {
    let f = Figure {
        border: vec![Point { x: 1, y: 2 }, Point { x: 3, y: 4 }],
        corner_positions: vec![1, 1, 0, 0],
    };
    assert_eq!(get_figure_border(&f, 0), vec![PointF { x: 3000, y: 4000 }]);
    assert_eq!(
        get_figure_border(&f, 1),
        vec![PointF { x: 3000, y: 4000 }, PointF { x: 1000, y: 2000 }]
    );
}

#[test]
fn center_rounds_down() {
    assert_eq!(find_center(&pts(&[(0, 0), (1, 0), (0, -1)])), PointF { x: 0, y: -1 });
    assert_eq!(find_center(&pts(&[(3, 9), (5, 11)])), PointF { x: 4, y: 10 });
    assert_eq!(find_center(&[]), PointF { x: 0, y: 0 });
}

#[test]
fn estimate_needs_more_than_thirteen_points() {
    let short: Vec<PointF> = (0..13).map(|i| PointF { x: i * 1000, y: 0 }).collect();
    assert_eq!(estimate_coordinate_system_by_border(&short), None);
    let enough: Vec<PointF> = (0..14).map(|i| PointF { x: i * 1000, y: 0 }).collect();
    assert!(estimate_coordinate_system_by_border(&enough).is_some());
}

#[test]
fn estimate_runs_from_centroid_to_centroid() {
    let side: Vec<PointF> = (0..20).map(|i| PointF { x: i * 1000, y: 500 }).collect();
    // points 5..10 have the centroid 7000, points 10..15 the centroid 12000
    let cs = estimate_coordinate_system_by_border(&side).unwrap();
    assert_eq!(cs.start, PointF { x: 7000, y: 500 });
    assert_eq!(cs.x_dir, PointF { x: 1_000_000, y: 0 });
}

#[test]
fn estimate_fails_where_the_centroids_coincide() {
    let side: Vec<PointF> = (0..20).map(|_| PointF { x: 3, y: 4 }).collect();
    assert_eq!(estimate_coordinate_system_by_border(&side), None);
}

#[test]
fn local_optimizer_never_returns_a_worse_state() {
    let start = vec![
        CoordinateSystem::new(PointF { x: 0, y: 0 }, PointF { x: 1, y: 0 }),
        CoordinateSystem::new(PointF { x: 500, y: -700 }, PointF { x: 0, y: 1 }),
    ];
    let scorers: Vec<Box<dyn Fn(&Vec<CoordinateSystem>) -> u64>> = vec![
        Box::new(|cs| (cs[0].start.x - 12_345).unsigned_abs() as u64 + cs[1].start.y.unsigned_abs() as u64),
        Box::new(|cs| cs[0].x_dir.y.unsigned_abs() as u64 + cs[1].x_dir.x.unsigned_abs() as u64),
        Box::new(|cs| (cs[0].start.x as i64 * 7919 + cs[1].x_dir.y as i64 * 31).rem_euclid(1000) as u64),
        Box::new(|_| 5),
    ];
    for scorer in scorers.iter() {
        let before = scorer(&start);
        let res = local_optimize_coordinate_systems(&start, |cs| scorer(cs));
        assert_eq!(res.len(), start.len());
        assert!(scorer(&res) <= before);
    }
}

#[test]
fn local_optimizer_finds_a_near_origin() {
    let start = vec![CoordinateSystem::new(PointF { x: 0, y: 0 }, PointF { x: 1, y: 0 })];
    let target = PointF { x: 12_345, y: -6_789 };
    let res = local_optimize_coordinate_systems(&start, |cs| {
        (cs[0].start.x - target.x).unsigned_abs() as u64 + (cs[0].start.y - target.y).unsigned_abs() as u64
    });
    // the last origin step taken is 24 units long
    assert!((res[0].start.x - target.x).abs() <= 24);
    assert!((res[0].start.y - target.y).abs() <= 24);
}

#[test]
fn local_optimizer_shrinks_its_steps_with_every_fiftieth_pass() {
    // every pass brings the origin one step nearer to a target far away, so
    // the steps shrink only when they are forced to: 50 passes each with the
    // steps 10000, 3000, 900, 270, 81 and 24
    let start = vec![CoordinateSystem::new(PointF { x: 0, y: 0 }, PointF { x: 1, y: 0 })];
    let res = local_optimize_coordinate_systems(&start, |cs| (5_000_000 - cs[0].start.x).unsigned_abs() as u64);
    assert_eq!(res[0].start, PointF { x: 50 * (10_000 + 3_000 + 900 + 270 + 81 + 24), y: 0 });
    assert_eq!(res[0].start.x, 713_750);
}

#[test]
fn similarity_is_zero_only_where_the_borders_coincide() {
    let a = pts(&[(0, 0), (5000, 0)]);
    let near = pts(&[(0, 0), (5000, 1)]);
    // one point a thousandth of a pixel off: the mean is rounded up
    assert_eq!(match_placed_borders(&a, &near), 2);
    assert_eq!(match_placed_borders(&near, &a), 2);
    assert_eq!(match_placed_borders(&a, &a), 0);
    let longer = pts(&[(0, 0), (1000, 0), (2000, 0), (3000, 0), (3000, 2)]);
    let straight = pts(&[(0, 0), (1000, 0), (2000, 0), (3000, 0), (3000, 0)]);
    // one way the squares sum to 4 over 5 points, the other way to 0
    assert_eq!(match_placed_borders(&longer, &straight), 1);
    assert_eq!(match_placed_borders(&straight, &longer), 1);
}

#[test]
fn local_optimizer_ends_after_three_hundred_passes() {
    // a scorer that gets better with every call: no pass lets a step shrink,
    // so the steps shrink only with every fiftieth pass, six times in all
    let calls = std::cell::Cell::new(0u64);
    let start = vec![
        CoordinateSystem::new(PointF { x: 0, y: 0 }, PointF { x: 1, y: 0 }),
        CoordinateSystem::new(PointF { x: 5, y: 5 }, PointF { x: 0, y: 1 }),
    ];
    let res = local_optimize_coordinate_systems(&start, |_| {
        calls.set(calls.get() + 1);
        u64::MAX - calls.get()
    });
    assert_eq!(res.len(), 2);
    // once for the start, then eight trials for each frame in each pass
    assert_eq!(calls.get(), 1 + 8 * 2 * 300);
}

#[test]
fn frame_along_the_first_axis_reproduces_points() {
    let cs = CoordinateSystem::new(PointF { x: 3_000, y: -4_000 }, PointF { x: 7, y: 0 });
    assert_eq!(cs.x_dir, PointF { x: 1_000_000, y: 0 });
    for p in pts(&[(0, 0), (3_000, -4_000), (-123_456, 654_321), (2_000_000_000, -2_000_000_000)]) {
        assert_eq!(cs.create(p), PointF { x: p.x - 3_000, y: p.y + 4_000 });
        assert_eq!(cs.to_real(cs.create(p)), p);
    }
}

#[test]
fn copy_of_a_side_aligns_with_the_score_zero() {
    // two bumps whose halves of the side have their centroids at one height:
    // the coarse frame runs along the first axis and reproduces every point
    let mut profile = vec![0; (SIDE + 1) as usize];
    for (t, h) in [(8, 1), (9, 3), (10, 7), (11, 3), (12, 1), (26, 1), (27, 3), (28, 8), (29, 3), (30, 1)] {
        profile[t] = h;
    }
    let a = piece(0, 0, [&profile, &flat(), &flat(), &flat()]);
    let below = piece(0, -40, [&flat(), &flat(), &mate(&profile), &flat()]);
    let mut reversed = get_figure_border(&below, 2);
    reversed.reverse();
    assert_eq!(get_figure_border(&a, 0), reversed);
    let frame = estimate_coordinate_system_by_border(&reversed).unwrap();
    assert_eq!(frame.x_dir, PointF { x: 1_000_000, y: 0 });
    let m = match_borders(&a, 0, &below, 2, 0, 1).unwrap();
    assert_eq!(m.score, 0);
    // the candidate stays where it was, seen from the frame of the reference
    let moved = match_borders(&a, 0, &piece(500, 77, [&flat(), &flat(), &mate(&profile), &flat()]), 2, 0, 1)
        .unwrap();
    assert_eq!(moved.score, 0);
    assert_eq!(moved.rhs, m.rhs);
}

#[test]
fn local_optimizer_keeps_the_start_under_a_constant_scorer() {
    let start = vec![CoordinateSystem::new(PointF { x: 3, y: 4 }, PointF { x: 3, y: 4 })];
    let res = local_optimize_coordinate_systems(&start, |_| 17);
    assert_eq!(res, start);
}

#[test]
fn match_result_holds_the_centroids() {
    let m = MatchResult::new(5, pts(&[(0, 0), (10, 20)]), pts(&[(7, 7)]), 3, 4);
    assert_eq!(m.score, 5);
    assert_eq!(m.lhs_id, 3);
    assert_eq!(m.rhs_id, 4);
    assert_eq!(m.lhs_center, PointF { x: 5, y: 10 });
    assert_eq!(m.rhs_center, PointF { x: 7, y: 7 });
}

#[test]
fn offset_moves_the_smallest_coordinates_to_zero() {
    let m = MatchResult::new(0, pts(&[(5, -3), (10, 20)]), pts(&[(-7, 7)]), 0, 1);
    assert_eq!(m.get_offset(), PointF { x: 7, y: 3 });
    let far = MatchResult::new(0, pts(&[(i32::MIN, 1)]), vec![], 0, 1);
    assert_eq!(far.get_offset(), PointF { x: i32::MAX, y: -1 });
}

#[test]
fn flat_sides_are_not_matched() {
    let a = piece(0, 0, [&bump(12, 8), &flat(), &flat(), &flat()]);
    let b = piece(100, 0, [&flat(), &flat(), &mate(&bump(12, 8)), &flat()]);
    assert!(match_borders(&a, 1, &b, 2, 0, 1).is_none());
    assert!(match_borders(&a, 0, &b, 1, 0, 1).is_none());
    assert!(match_borders(&a, 0, &b, 2, 0, 1).is_some());
}

#[test]
fn mating_sides_match_with_a_score_near_zero() {
    let a = piece(0, 0, [&bump(12, 8), &flat(), &flat(), &flat()]);
    let b = piece(300, -170, [&flat(), &flat(), &mate(&bump(12, 8)), &flat()]);
    let m = match_borders(&a, 0, &b, 2, 7, 9).unwrap();
    assert_eq!(m.lhs_id, 7);
    assert_eq!(m.rhs_id, 9);
    assert!(m.score <= 100, "score {}", m.score);
    assert_eq!(m.lhs.len(), a.border.len());
    assert_eq!(m.rhs.len(), b.border.len());
    assert_eq!(m.lhs[0], PointF { x: 0, y: 0 });
    // the candidate comes to lie below the reference: its corner 3 on corner 0
    let corner3 = m.rhs[3 * SIDE as usize];
    assert!((corner3.x - 0).abs() <= 5 && (corner3.y - 0).abs() <= 5, "{:?}", corner3);
    let corner2 = m.rhs[2 * SIDE as usize];
    assert!((corner2.x - 40_000).abs() <= 5 && (corner2.y - 0).abs() <= 5, "{:?}", corner2);
}

#[test]
fn sides_that_do_not_mate_score_worse() {
    let a = piece(0, 0, [&bump(12, 8), &flat(), &flat(), &flat()]);
    let c = piece(300, -170, [&flat(), &flat(), &mate(&bump(28, -9)), &flat()]);
    let m = match_borders(&a, 0, &c, 2, 0, 1).unwrap();
    assert!(m.score > 2_000_000, "score {}", m.score);
}

#[test]
fn a_bad_coarse_placement_is_refined() {
    // a candidate whose side is a different curve: the coarse placement is
    // far off, and local search may only make it better
    let a = piece(0, 0, [&bump(20, 18), &flat(), &flat(), &flat()]);
    let c = piece(0, 0, [&flat(), &flat(), &bump(9, 9), &flat()]);
    let m = match_borders(&a, 0, &c, 2, 0, 1).unwrap();
    assert!(m.score > ACCEPT_ESTIMATE_SCORE / 100, "score {}", m.score);
}

#[test]
fn neighbours_in_the_photograph_are_found_without_moving() {
    let a = piece(0, 0, [&bump(12, 8), &flat(), &flat(), &flat()]);
    let below = piece(0, -40, [&flat(), &flat(), &mate(&bump(12, 8)), &flat()]);
    let m = match_borders_without_move(&a, 0, &below, 2, 0, 1).unwrap();
    assert_eq!(m.score, 0);
    assert_eq!(m.rhs[0], PointF { x: 0, y: -40_000 });
    let nearly = piece(3, -43, [&flat(), &flat(), &mate(&bump(12, 8)), &flat()]);
    let m = match_borders_without_move(&a, 0, &nearly, 2, 0, 1).unwrap();
    assert!(m.score > 0 && m.score <= EXISTING_MAX_SCORE);
    let far = piece(300, -40, [&flat(), &flat(), &mate(&bump(12, 8)), &flat()]);
    assert!(match_borders_without_move(&a, 0, &far, 2, 0, 1).is_none());
}

fn turned(f: &Figure, off_x: i32, off_y: i32) -> Figure {
    // a quarter turn, then a move
    Figure {
        border: f.border.iter().map(|p| Point { x: off_x - p.y, y: off_y + p.x }).collect(),
        corner_positions: f.corner_positions.clone(),
    }
}

#[test]
fn mating_sides_match_when_a_piece_is_turned() {
    let a = piece(0, 0, [&bump(12, 8), &flat(), &flat(), &flat()]);
    let b = turned(&piece(0, -40, [&flat(), &flat(), &mate(&bump(12, 8)), &flat()]), 500, -90);
    let m = match_borders(&a, 0, &b, 2, 0, 1).unwrap();
    assert!(m.score <= 100, "score {}", m.score);
    // the candidate is turned back and comes to lie below the reference
    let corner3 = m.rhs[3 * SIDE as usize];
    assert!(corner3.x.abs() <= 5 && corner3.y.abs() <= 5, "{:?}", corner3);
    let corner0 = m.rhs[0];
    assert!(corner0.x.abs() <= 5 && (corner0.y + 40_000).abs() <= 5, "{:?}", corner0);
    // as it lies in the photograph it is no neighbour
    assert!(match_borders_without_move(&a, 0, &b, 2, 0, 1).is_none());
}

#[test]
fn alignment_is_the_same_every_time() {
    let a = piece(0, 0, [&bump(20, 18), &flat(), &flat(), &flat()]);
    let c = piece(7, -3, [&flat(), &flat(), &bump(9, 9), &flat()]);
    let first = match_borders(&a, 0, &c, 2, 0, 1).unwrap();
    let second = match_borders(&a, 0, &c, 2, 0, 1).unwrap();
    assert_eq!(first.score, second.score);
    assert_eq!(first.rhs, second.rhs);
}
