use jigsaw_solver::borders_graph::{Edge, Graph, NO_EDGE_SCORE};
use jigsaw_solver::figure::Figure;
use jigsaw_solver::graph_solver::{
    fmax4, gen_basic_position, get_border, get_borders_dist, solve_graph, solve_graph_simple,
    EdgesScores, Four, MoveCS,
};
use jigsaw_solver::refinement::local_optimize_positions;
use jigsaw_solver::seeding::{find_fours, four_block_placement, select_fours, FOUR_MAX_SCORE};
use jigsaw_solver::packing::pack_all;
use jigsaw_solver::spanning_forest::spanning_forest;
use jigsaw_solver::surface_placer::{assemble, place_on_surface};
use jigsaw_solver::parsed_puzzles::ParsedPuzzles;
use jigsaw_solver::placement::Placement;
use jigsaw_solver::point::{Point, PointF};
use jigsaw_solver::score_table::SideTable;
use jigsaw_solver::utils::Side;

const SIDE: i32 = 40;

fn bump(center: i32, height: i32) -> Vec<i32> {
    (0..=SIDE)
        .map(|t| {
            let rise = height.abs() - (t - center).abs();
            if rise > 0 {
                rise * height.signum()
            } else {
                0
            }
        })
        .collect()
}

fn flat() -> Vec<i32> {
    vec![0; (SIDE + 1) as usize]
}

fn mate(profile: &[i32]) -> Vec<i32> {
    profile.iter().rev().map(|d| -d).collect()
}

fn piece(off_x: i32, off_y: i32, profiles: [&[i32]; 4]) -> Figure {
    let mut border = Vec::new();
    for t in 0..SIDE {
        border.push(Point { x: off_x + t, y: off_y - profiles[0][t as usize] });
    }
    for t in 0..SIDE {
        border.push(Point { x: off_x + SIDE + profiles[1][t as usize], y: off_y + t });
    }
    for t in 0..SIDE {
        border.push(Point { x: off_x + SIDE - t, y: off_y + SIDE + profiles[2][t as usize] });
    }
    for t in 0..SIDE {
        border.push(Point { x: off_x - profiles[3][t as usize], y: off_y + SIDE - t });
    }
    let side = SIDE as usize;
    Figure { border, corner_positions: vec![0, side, 2 * side, 3 * side] }
}

fn side(fig: usize, side: usize) -> Side {
    Side { fig, side }
}

fn edge(fig1: usize, side1: usize, fig2: usize, side2: usize, score: u64) -> Edge {
    Edge {
        fig1,
        fig2,
        side1,
        side2,
        score,
        existing_edge: false,
        base_p1: PointF { x: 0, y: 0 },
        base_p2: PointF { x: 1, y: 0 },
    }
}

/// Four pieces of a ring, scattered: 0 top left, 1 top right, 2 bottom left,
/// 3 bottom right. The outer sides are flat.
fn ring() -> ParsedPuzzles {
    let right_of_0 = bump(10, 6);
    let below_0 = bump(30, 9);
    let below_1 = bump(20, 12);
    let right_of_2 = bump(20, 5);
    let top_left = piece(0, 0, [&below_0, &right_of_0, &flat(), &flat()]);
    let top_right = piece(200, 30, [&below_1, &flat(), &flat(), &mate(&right_of_0)]);
    let bottom_left = piece(-50, 300, [&flat(), &right_of_2, &mate(&below_0), &flat()]);
    let bottom_right = piece(260, 280, [&flat(), &flat(), &mate(&below_1), &mate(&right_of_2)]);
    ParsedPuzzles {
        figures: vec![top_left, top_right, bottom_left, bottom_right],
        figures_on_border: vec![],
    }
}

fn joints_of_the_ring() -> Vec<(Side, Side)> {
    vec![
        (side(0, 1), side(1, 3)),
        (side(0, 0), side(2, 2)),
        (side(1, 0), side(3, 2)),
        (side(2, 1), side(3, 3)),
    ]
}

#[test]
fn largest_of_four() {
    assert_eq!(fmax4([1, 2, 3, 4]), 4);
    assert_eq!(fmax4([9, 2, 3, 4]), 9);
    assert_eq!(fmax4([1, 7, 7, 4]), 7);
    assert_eq!(fmax4([0, 0, 0, 0]), 0);
}

#[test]
fn block_lists_its_sides_and_joints() {
    let f = Four { s0: side(0, 0), s1: side(1, 1), s2: side(2, 2), s3: side(3, 3), max_dist: 5 };
    assert_eq!(f.all(), [side(0, 0), side(1, 1), side(2, 2), side(3, 3)]);
    assert_eq!(
        f.neighbours(),
        [
            (side(0, 0), side(1, 3)),
            (side(0, 1), side(2, 1)),
            (side(1, 2), side(3, 2)),
            (side(2, 2), side(3, 1)),
        ]
    );
}

#[test]
fn basic_position_is_the_outline() {
    let f = piece(3, -4, [&flat(), &flat(), &flat(), &flat()]);
    let pos = gen_basic_position(&f);
    assert_eq!(pos.len(), 160);
    assert_eq!(pos[0], PointF { x: 3000, y: -4000 });
    assert_eq!(pos[80], PointF { x: 43_000, y: 36_000 });
}

#[test]
fn move_takes_the_outline_to_its_position() {
    let f = piece(0, 0, [&flat(), &flat(), &flat(), &flat()]);
    let basic = gen_basic_position(&f);
    // the position: the outline turned by a quarter and moved
    let turned: Vec<PointF> = basic.iter().map(|p| PointF { x: 7000 - p.y, y: -3000 + p.x }).collect();
    let mv = MoveCS::new(&f, &turned);
    assert_eq!(mv.from_cs.start, PointF { x: 0, y: 0 });
    assert_eq!(mv.to_cs.start, PointF { x: 7000, y: -3000 });
    for i in [0usize, 13, 40, 99, 159] {
        let got = mv.conv_point(basic[i]);
        assert!((got.x - turned[i].x).abs() <= 2 && (got.y - turned[i].y).abs() <= 2, "{:?}", got);
    }
    assert!(MoveCS::try_new(&f, &turned).is_some());
    assert!(MoveCS::try_new(&f, &turned[1..]).is_none());
    let collapsed = vec![PointF { x: 1, y: 1 }; 160];
    assert!(MoveCS::try_new(&f, &collapsed).is_none());
}

#[test]
fn border_of_a_position_runs_from_corner_to_corner() {
    let puzzles = ring();
    let pos: Vec<PointF> = (0..160).map(|i| PointF { x: i, y: -i }).collect();
    let s2 = get_border(&pos, &puzzles, side(1, 2));
    assert_eq!(s2.len(), 41);
    assert_eq!(s2[0], PointF { x: 80, y: -80 });
    assert_eq!(s2[40], PointF { x: 120, y: -120 });
    let s3 = get_border(&pos, &puzzles, side(1, 3));
    assert_eq!(s3[0], PointF { x: 120, y: -120 });
    assert_eq!(s3[39], PointF { x: 159, y: -159 });
    assert_eq!(s3[40], PointF { x: 0, y: 0 });
}

#[test]
fn borders_dist_of_pieces_put_together_is_zero() {
    let puzzles = ring();
    let top_left = gen_basic_position(&puzzles.figures[0]);
    // the top right piece where it belongs: right of the top left one
    let top_right: Vec<PointF> = gen_basic_position(&puzzles.figures[1])
        .iter()
        .map(|p| PointF { x: p.x - 200_000 + 40_000, y: p.y - 30_000 })
        .collect();
    assert_eq!(get_borders_dist(&top_left, &top_right, &puzzles, side(0, 1), side(1, 3)), 0);
    let apart = gen_basic_position(&puzzles.figures[1]);
    assert!(get_borders_dist(&top_left, &apart, &puzzles, side(0, 1), side(1, 3)) > 1_000_000);
}

#[test]
fn scores_add_up() {
    let mut s = EdgesScores::new();
    assert_eq!(s.get_final_score(), 0);
    s.add_score(5);
    s.add_score(7);
    assert_eq!(s.all_scores, vec![5, 7]);
    assert_eq!(s.get_final_score(), 12);
    s.add_score(u64::MAX);
    assert_eq!(s.get_final_score(), u64::MAX);
}

#[test]
fn spanning_forest_takes_the_links_that_connect() {
    let pairs = vec![
        (side(0, 0), side(1, 0)),
        (side(1, 0), side(0, 0)),
        (side(2, 0), side(3, 0)),
        (side(1, 1), side(2, 1)),
        (side(3, 1), side(0, 1)),
        (side(4, 0), side(5, 0)),
    ];
    assert_eq!(
        spanning_forest(6, &pairs),
        vec![
            (side(0, 0), side(1, 0)),
            (side(2, 0), side(3, 0)),
            (side(1, 1), side(2, 1)),
            (side(4, 0), side(5, 0)),
        ]
    );
}

fn block_table() -> SideTable {
    // figures 0..4 form a block with the sides (0,0) (1,0) (2,0) (3,0);
    // figures 4..8 form a better one; figure 8 could replace figure 3
    let mut t = SideTable::new(9, NO_EDGE_SCORE);
    let blocks = [([0usize, 1, 2, 3], 2_000_000u64), ([4, 5, 6, 7], 1_000_000), ([0, 1, 2, 8], 2_999_999)];
    for (figs, score) in blocks {
        let f = Four {
            s0: side(figs[0], 0),
            s1: side(figs[1], 0),
            s2: side(figs[2], 0),
            s3: side(figs[3], 0),
            max_dist: 0,
        };
        for (a, b) in f.neighbours() {
            if t.get(a, b) == NO_EDGE_SCORE {
                t.set(a, b, score);
                t.set(b, a, score);
            }
        }
    }
    t
}

#[test]
fn blocks_are_found_with_their_worst_joint() {
    let fours = find_fours(&block_table());
    let keys: Vec<([usize; 4], u64)> =
        fours.iter().map(|f| ([f.s0.fig, f.s1.fig, f.s2.fig, f.s3.fig], f.max_dist)).collect();
    // the table is symmetric: every block is found once from each of its pieces
    assert_eq!(
        keys,
        vec![
            ([0, 1, 2, 3], 2_000_000),
            ([0, 1, 2, 8], 2_999_999),
            ([1, 3, 0, 2], 2_000_000),
            ([1, 8, 0, 2], 2_999_999),
            ([2, 0, 3, 1], 2_000_000),
            ([2, 0, 8, 1], 2_999_999),
            ([3, 2, 1, 0], 2_000_000),
            ([4, 5, 6, 7], 1_000_000),
            ([5, 7, 4, 6], 1_000_000),
            ([6, 4, 7, 5], 1_000_000),
            ([7, 6, 5, 4], 1_000_000),
            ([8, 2, 1, 0], 2_999_999),
        ]
    );
    assert_eq!((fours[0].s0.side, fours[0].s1.side, fours[0].s2.side, fours[0].s3.side), (0, 0, 0, 0));
    assert_eq!((fours[2].s0.side, fours[2].s1.side, fours[2].s2.side, fours[2].s3.side), (1, 1, 1, 1));
}

#[test]
fn blocks_above_the_limit_are_not_found() {
    let mut t = block_table();
    t.set(side(4, 0), side(5, 2), FOUR_MAX_SCORE + 1);
    t.set(side(5, 2), side(4, 0), FOUR_MAX_SCORE + 1);
    let fours = find_fours(&t);
    assert_eq!(fours.len(), 8);
    assert!(fours.iter().all(|f| f.all().iter().all(|s| s.fig < 4 || s.fig == 8)));
    // a joint at the limit itself is too bad already
    let mut at_limit = block_table();
    at_limit.set(side(4, 0), side(5, 2), FOUR_MAX_SCORE);
    at_limit.set(side(5, 2), side(4, 0), FOUR_MAX_SCORE);
    let fours = find_fours(&at_limit);
    assert_eq!(fours.len(), 8);
    assert!(fours.iter().all(|f| f.all().iter().all(|s| s.fig < 4 || s.fig == 8)));
    let mut below = block_table();
    below.set(side(4, 0), side(5, 2), FOUR_MAX_SCORE - 1);
    below.set(side(5, 2), side(4, 0), FOUR_MAX_SCORE - 1);
    let fours = find_fours(&below);
    assert_eq!(fours.len(), 12);
    assert_eq!(fours[7].max_dist, FOUR_MAX_SCORE - 1);
}

#[test]
fn selected_blocks_share_no_figure() {
    let fours = find_fours(&block_table());
    let sel = select_fours(&fours, 9);
    let keys: Vec<[usize; 4]> = sel.iter().map(|f| [f.s0.fig, f.s1.fig, f.s2.fig, f.s3.fig]).collect();
    assert_eq!(keys, vec![[4, 5, 6, 7], [0, 1, 2, 3]]);
    assert_eq!(fours.len(), 12);
    let mut seen = std::collections::BTreeSet::new();
    for f in sel.iter() {
        for s in f.all() {
            assert!(seen.insert(s.fig));
        }
    }
}

#[test]
fn blocks_with_a_figure_twice_are_not_selected() {
    let twice = Four { s0: side(0, 0), s1: side(1, 0), s2: side(1, 1), s3: side(2, 0), max_dist: 1 };
    let fine = Four { s0: side(3, 0), s1: side(4, 0), s2: side(5, 1), s3: side(6, 0), max_dist: 2 };
    let late = Four { s0: side(6, 1), s1: side(7, 0), s2: side(8, 1), s3: side(9, 0), max_dist: 3 };
    let far = Four { s0: side(10, 1), s1: side(11, 0), s2: side(12, 1), s3: side(13, 0), max_dist: 0 };
    let sel = select_fours(&vec![twice, fine, late, far], 10);
    assert_eq!(sel.len(), 1);
    assert_eq!(sel[0].s0, side(3, 0));
}

#[test]
fn block_seeding_joins_the_joints_of_the_selected_blocks() {
    let mut all_edges = Vec::new();
    for (figs, score) in [([0usize, 1, 2, 3], 2_000_000u64), ([4, 5, 6, 7], 1_000_000)] {
        let f = Four {
            s0: side(figs[0], 0),
            s1: side(figs[1], 0),
            s2: side(figs[2], 0),
            s3: side(figs[3], 0),
            max_dist: 0,
        };
        for (a, b) in f.neighbours() {
            all_edges.push(edge(a.fig, a.side, b.fig, b.side, score));
        }
    }
    let graph = Graph { n: 8, all_edges, parsed_puzzles_hash: 0 };
    let p = four_block_placement(&graph);
    assert_eq!(p.get_neighbour(side(0, 0)), Some(side(1, 2)));
    assert_eq!(p.get_neighbour(side(0, 1)), Some(side(2, 3)));
    assert_eq!(p.get_neighbour(side(1, 1)), Some(side(3, 3)));
    assert_eq!(p.get_neighbour(side(2, 0)), Some(side(3, 2)));
    assert_eq!(p.get_neighbour(side(7, 2)), Some(side(6, 0)));
    assert_eq!(p.get_all_neighbours().len(), 16);
}

fn check_ring(puzzles: &ParsedPuzzles, positions: &[Option<Vec<PointF>>]) {
    assert_eq!(positions.len(), 4);
    for (f, p) in positions.iter().enumerate() {
        let p = p.as_ref().expect("every figure is placed");
        assert_eq!(p.len(), puzzles.figures[f].border.len());
    }
    for (s1, s2) in joints_of_the_ring() {
        let a = get_border(positions[s1.fig].as_ref().unwrap(), puzzles, s1);
        let mut b = get_border(positions[s2.fig].as_ref().unwrap(), puzzles, s2);
        b.reverse();
        assert_eq!(a.len(), b.len());
        for (p, q) in a.iter().zip(b.iter()) {
            // within a twentieth of a pixel
            assert!((p.x - q.x).abs() <= 50 && (p.y - q.y).abs() <= 50, "{:?} {:?} {:?} {:?}", s1, s2, p, q);
        }
    }
}

#[test]
fn greedy_solution_places_the_ring() {
    let puzzles = ring();
    let graph = Graph::new(&puzzles, false);
    let low: Vec<(usize, usize, usize, usize)> = graph
        .all_edges
        .iter()
        .filter(|e| e.score <= 2_000_000)
        .map(|e| (e.fig1, e.side1, e.fig2, e.side2))
        .collect();
    assert_eq!(
        low,
        vec![
            (0, 1, 1, 3),
            (0, 0, 2, 2),
            (1, 3, 0, 1),
            (1, 0, 3, 2),
            (2, 2, 0, 0),
            (2, 1, 3, 3),
            (3, 2, 1, 0),
            (3, 3, 2, 1),
        ]
    );
    let positions = solve_graph_simple(&graph, &puzzles);
    check_ring(&puzzles, &positions);
}

#[test]
fn surface_of_an_empty_placement_is_empty() {
    let puzzles = ring();
    let graph = Graph::new(&puzzles, false);
    let positions = place_on_surface(&graph, &Placement::new(4), &puzzles);
    assert_eq!(positions, vec![None, None, None, None]);
}

#[test]
fn surface_keeps_components_apart() {
    let puzzles = ring();
    let graph = Graph::new(&puzzles, false);
    let mut placement = Placement::new(4);
    assert!(placement.join_sides(side(0, 1), side(1, 3)));
    assert!(placement.join_sides(side(2, 1), side(3, 3)));
    let positions = place_on_surface(&graph, &placement, &puzzles);
    let extent = |figs: [usize; 2]| {
        let all: Vec<PointF> =
            figs.iter().flat_map(|&f| positions[f].clone().unwrap().into_iter()).collect();
        (
            all.iter().map(|p| p.x).min().unwrap(),
            all.iter().map(|p| p.x).max().unwrap(),
            all.iter().map(|p| p.y).min().unwrap(),
        )
    };
    let (lo_a, hi_a, bottom_a) = extent([0, 1]);
    let (lo_b, _hi_b, bottom_b) = extent([2, 3]);
    assert_eq!(lo_a, 0);
    assert_eq!(bottom_a, 0);
    assert_eq!(bottom_b, 0);
    assert!(hi_a < lo_b);
    // the joined sides lie on each other
    let a = get_border(positions[0].as_ref().unwrap(), &puzzles, side(0, 1));
    let mut b = get_border(positions[1].as_ref().unwrap(), &puzzles, side(1, 3));
    b.reverse();
    for (p, q) in a.iter().zip(b.iter()) {
        assert!((p.x - q.x).abs() <= 50 && (p.y - q.y).abs() <= 50);
    }
}

#[test]
fn surface_leaves_out_what_cannot_be_attached() {
    let puzzles = ring();
    let graph = Graph::new(&puzzles, false);
    // two flat sides joined: they cannot be aligned
    let mut placement = Placement::new(4);
    assert!(placement.join_sides(side(0, 2), side(3, 0)));
    let positions = place_on_surface(&graph, &placement, &puzzles);
    // the first piece lies as it was traced, moved to the corner of the canvas
    let first = positions[0].as_ref().unwrap();
    assert_eq!(first.len(), puzzles.figures[0].border.len());
    assert_eq!(first.iter().map(|p| p.x).min().unwrap(), 0);
    assert_eq!(first.iter().map(|p| p.y).min().unwrap(), 0);
    // the piece that could not be attached to it has no position
    assert!(positions[3].is_none());
    assert!(positions[1].is_none());
    assert!(positions[2].is_none());
}

#[test]
fn assembly_leaves_out_what_cannot_be_attached() {
    let puzzles = ring();
    let graph = Graph::new(&puzzles, false);
    // a good joint, and a joint of two flat sides behind it
    let mut placement = Placement::new(4);
    assert!(placement.join_sides(side(0, 1), side(1, 3)));
    assert!(placement.join_sides(side(1, 1), side(2, 3)));
    let (positions, components) = assemble(&graph, &placement, &puzzles);
    assert_eq!(components, vec![vec![0, 1]]);
    assert!(positions[0].is_some());
    assert!(positions[1].is_some());
    assert!(positions[2].is_none());
    assert!(positions[3].is_none());
}

#[test]
fn refinement_never_makes_the_joints_worse() {
    let puzzles = ring();
    let joints = vec![(side(0, 1), side(1, 3)), (side(1, 3), side(0, 1))];
    let top_left = gen_basic_position(&puzzles.figures[0]);
    // the top right piece a pixel and a half away from where it belongs
    let top_right: Vec<PointF> = gen_basic_position(&puzzles.figures[1])
        .iter()
        .map(|p| PointF { x: p.x - 200_000 + 40_000 + 1500, y: p.y - 30_000 - 1200 })
        .collect();
    let untouched = gen_basic_position(&puzzles.figures[2]);
    let mut positions = vec![Some(top_left), Some(top_right), Some(untouched.clone()), None];
    let before = get_borders_dist(
        positions[0].as_ref().unwrap(),
        positions[1].as_ref().unwrap(),
        &puzzles,
        side(0, 1),
        side(1, 3),
    );
    local_optimize_positions(&joints, &mut positions, &puzzles, &vec![0, 1]);
    let after = get_borders_dist(
        positions[0].as_ref().unwrap(),
        positions[1].as_ref().unwrap(),
        &puzzles,
        side(0, 1),
        side(1, 3),
    );
    assert!(before > 1_000_000);
    assert!(after < before / 100, "{} -> {}", before, after);
    assert_eq!(positions[2], Some(untouched));
    assert_eq!(positions[3], None);
}

#[test]
fn block_solution_places_a_block() {
    // four pieces that meet in a point, with the sides that the block wants:
    // side 0 of piece 0 against side 2 of piece 1, side 1 of piece 0 against
    // side 3 of piece 2, side 1 of piece 1 against side 3 of piece 3, side 0
    // of piece 2 against side 2 of piece 3
    let a = bump(10, 6);
    let b = bump(30, 9);
    let c = bump(20, 12);
    let d = bump(20, 5);
    let p0 = piece(0, 0, [&a, &b, &flat(), &flat()]);
    let p1 = piece(200, 30, [&flat(), &c, &mate(&a), &flat()]);
    let p2 = piece(-50, 300, [&d, &flat(), &flat(), &mate(&b)]);
    let p3 = piece(260, 280, [&flat(), &flat(), &mate(&d), &mate(&c)]);
    let puzzles = ParsedPuzzles { figures: vec![p0, p1, p2, p3], figures_on_border: vec![] };
    let graph = Graph::new(&puzzles, false);
    let placement = four_block_placement(&graph);
    assert_eq!(placement.get_neighbour(side(0, 0)), Some(side(1, 2)));
    assert_eq!(placement.get_neighbour(side(0, 1)), Some(side(2, 3)));
    assert_eq!(placement.get_neighbour(side(1, 1)), Some(side(3, 3)));
    assert_eq!(placement.get_neighbour(side(2, 0)), Some(side(3, 2)));
    let positions = solve_graph(&graph, &puzzles);
    assert!(positions.iter().all(|p| p.is_some()));
    for (s1, s2) in [
        (side(0, 0), side(1, 2)),
        (side(0, 1), side(2, 3)),
        (side(1, 1), side(3, 3)),
        (side(2, 0), side(3, 2)),
    ] {
        let dist = get_borders_dist(
            positions[s1.fig].as_ref().unwrap(),
            positions[s2.fig].as_ref().unwrap(),
            &puzzles,
            s1,
            s2,
        );
        assert!(dist <= 10_000, "{:?} {:?} {}", s1, s2, dist);
    }
}

#[test]
fn assembly_places_the_good_pieces_with_a_join() {
    let mut puzzles = ring();
    // the bottom right piece is no good piece: two of its corners coincide
    puzzles.figures[3].corner_positions = vec![0, 40, 40, 120];
    let graph = Graph::new(&puzzles, false);
    let mut placement = Placement::new(4);
    assert!(placement.join_sides(side(0, 1), side(1, 3)));
    assert!(placement.join_sides(side(1, 0), side(3, 2)));
    let (positions, components) = assemble(&graph, &placement, &puzzles);
    assert!(positions[0].is_some());
    assert!(positions[1].is_some());
    assert!(positions[2].is_none());
    assert!(positions[3].is_none());
    assert_eq!(components, vec![vec![0, 1]]);
    // the first figure of a component lies as it was traced, up to refinement
    let first = positions[0].as_ref().unwrap()[0];
    assert!(first.x.abs() <= 100 && first.y.abs() <= 100, "{:?}", first);
}

#[test]
fn packing_moves_each_component_as_a_whole() {
    let a = vec![PointF { x: -5, y: 7 }, PointF { x: 5, y: 9 }];
    let b = vec![PointF { x: 0, y: -1 }];
    let c = vec![PointF { x: 1, y: 1 }, PointF { x: 2, y: 3 }];
    let positions = vec![Some(a), None, Some(b), Some(c)];
    let packed = pack_all(positions, &vec![vec![2, 0], vec![3]]);
    // the first component has the bounding box (-5, -1) .. (5, 9)
    assert_eq!(packed[0], Some(vec![PointF { x: 0, y: 8 }, PointF { x: 10, y: 10 }]));
    assert_eq!(packed[1], None);
    assert_eq!(packed[2], Some(vec![PointF { x: 5, y: 0 }]));
    // the second starts a gap of 10 pixels behind it
    assert_eq!(packed[3], Some(vec![PointF { x: 10_011, y: 0 }, PointF { x: 10_012, y: 2 }]));
}

#[test]
fn packing_takes_off_what_does_not_fit() {
    let wide = vec![PointF { x: 0, y: 0 }, PointF { x: i32::MAX - 20_000, y: 5 }];
    let small = vec![PointF { x: 3, y: 3 }];
    let packed = pack_all(vec![Some(wide.clone()), Some(small.clone()), Some(small)], &vec![vec![1], vec![0], vec![2]]);
    assert_eq!(packed[1], Some(vec![PointF { x: 0, y: 0 }]));
    assert_eq!(packed[0], None);
    assert_eq!(packed[2], Some(vec![PointF { x: 10_001, y: 0 }]));
}
