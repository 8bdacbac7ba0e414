use jigsaw_solver::borders_graph::{Edge, Graph, NO_EDGE_SCORE};
use jigsaw_solver::figure::Figure;
use jigsaw_solver::seeding::{greedy_placement, GREEDY_MAX_SCORE};
use jigsaw_solver::parsed_puzzles::{FigureOnBorder, ParsedPuzzles, HASH_SEED};
use jigsaw_solver::placement::Placement;
use jigsaw_solver::point::{Point, PointF};
use jigsaw_solver::score_table::{check_table_fits, SideTable};
use jigsaw_solver::utils::Side;

const SIDE: i32 = 40;

fn bump(center: i32, height: i32) -> Vec<i32> {
    (0..=SIDE)
        .map(|t| {
            let rise = height.abs() - (t - center).abs();
            if rise > 0 {
                rise * height.signum()
            } else {
                0
            }
        })
        .collect()
}

fn flat() -> Vec<i32> {
    vec![0; (SIDE + 1) as usize]
}

fn mate(profile: &[i32]) -> Vec<i32> {
    profile.iter().rev().map(|d| -d).collect()
}

fn piece(off_x: i32, off_y: i32, profiles: [&[i32]; 4]) -> Figure {
    let mut border = Vec::new();
    for t in 0..SIDE {
        border.push(Point { x: off_x + t, y: off_y - profiles[0][t as usize] });
    }
    for t in 0..SIDE {
        border.push(Point { x: off_x + SIDE + profiles[1][t as usize], y: off_y + t });
    }
    for t in 0..SIDE {
        border.push(Point { x: off_x + SIDE - t, y: off_y + SIDE + profiles[2][t as usize] });
    }
    for t in 0..SIDE {
        border.push(Point { x: off_x - profiles[3][t as usize], y: off_y + SIDE - t });
    }
    let side = SIDE as usize;
    Figure { border, corner_positions: vec![0, side, 2 * side, 3 * side] }
}

fn side(fig: usize, side: usize) -> Side {
    Side { fig, side }
}

fn edge(fig1: usize, side1: usize, fig2: usize, side2: usize, score: u64) -> Edge {
    Edge {
        fig1,
        fig2,
        side1,
        side2,
        score,
        existing_edge: false,
        base_p1: PointF { x: fig1 as i32, y: side1 as i32 },
        base_p2: PointF { x: 100 + fig2 as i32, y: side2 as i32 },
    }
}

fn three_pieces() -> ParsedPuzzles {
    // side 0 of figure 0 mates with side 2 of figure 1; figure 2 has a side
    // of another shape
    let a = piece(0, 0, [&bump(12, 8), &flat(), &flat(), &flat()]);
    let b = piece(300, -170, [&flat(), &flat(), &mate(&bump(12, 8)), &flat()]);
    let c = piece(-200, 90, [&flat(), &bump(28, -9), &flat(), &flat()]);
    ParsedPuzzles { figures: vec![a, b, c], figures_on_border: vec![] }
}

#[test]
fn graph_holds_an_edge_for_mating_sides() {
    let puzzles = three_pieces();
    let graph = Graph::new(&puzzles, false);
    assert_eq!(graph.n, 3);
    assert_eq!(graph.parsed_puzzles_hash, puzzles.calc_hash());
    let found: Vec<&Edge> = graph
        .all_edges
        .iter()
        .filter(|e| e.fig1 == 0 && e.side1 == 0 && e.fig2 == 1 && e.side2 == 2)
        .collect();
    assert_eq!(found.len(), 1);
    assert!(found[0].score < GREEDY_MAX_SCORE, "score {}", found[0].score);
    assert!(!found[0].existing_edge);
    assert_ne!(found[0].base_p1, found[0].base_p2);
    // the anchors are the first outline point of figure 1 and the one half
    // way round, moved onto figure 0: the piece comes to lie below it
    assert!((found[0].base_p1.x - 0).abs() <= 5 && (found[0].base_p1.y + 40_000).abs() <= 5);
    assert!((found[0].base_p2.x - 40_000).abs() <= 5 && (found[0].base_p2.y - 0).abs() <= 5);
    let back: Vec<&Edge> = graph
        .all_edges
        .iter()
        .filter(|e| e.fig1 == 1 && e.side1 == 2 && e.fig2 == 0 && e.side2 == 0)
        .collect();
    assert_eq!(back.len(), 1);
    assert!(back[0].score < GREEDY_MAX_SCORE);
}

#[test]
fn graph_holds_no_edge_for_flat_sides_and_is_ordered() {
    let puzzles = three_pieces();
    let graph = Graph::new(&puzzles, false);
    // one side of each figure is not flat: six ordered pairs
    assert_eq!(graph.all_edges.len(), 6);
    for e in graph.all_edges.iter() {
        assert_ne!(e.fig1, e.fig2);
        let shaped = [(0, 0), (1, 2), (2, 1)];
        assert!(shaped.contains(&(e.fig1, e.side1)));
        assert!(shaped.contains(&(e.fig2, e.side2)));
    }
    for w in graph.all_edges.windows(2) {
        assert!((w[0].fig1, w[0].fig2, w[0].side1, w[0].side2) < (w[1].fig1, w[1].fig2, w[1].side1, w[1].side2));
    }
}

#[test]
fn greedy_seeding_selects_the_mating_edge() {
    let puzzles = three_pieces();
    let graph = Graph::new(&puzzles, false);
    let placement = greedy_placement(&graph);
    assert_eq!(placement.get_neighbour(side(0, 0)), Some(side(1, 2)));
    assert_eq!(placement.get_neighbour(side(1, 2)), Some(side(0, 0)));
    assert_eq!(placement.get_neighbour(side(2, 1)), None);
    assert_eq!(placement.get_all_neighbours(), vec![(side(0, 0), side(1, 2)), (side(1, 2), side(0, 0))]);
}

#[test]
fn perfect_mates_get_the_score_zero_and_are_joined() {
    // the two halves of the side have their centroids at one height, so the
    // coarse frame runs along the first axis; the mate is the same point
    // sequence traced the other way round
    let mut profile = vec![0; (SIDE + 1) as usize];
    for (t, h) in [(8, 1), (9, 3), (10, 7), (11, 3), (12, 1), (26, 1), (27, 3), (28, 8), (29, 3), (30, 1)] {
        profile[t] = h;
    }
    let a = piece(0, 0, [&profile, &flat(), &flat(), &flat()]);
    let b = piece(0, -40, [&flat(), &flat(), &mate(&profile), &flat()]);
    let c = piece(-200, 90, [&flat(), &bump(28, -9), &flat(), &flat()]);
    let puzzles = ParsedPuzzles { figures: vec![a, b, c], figures_on_border: vec![] };
    let graph = Graph::new(&puzzles, false);
    let found: Vec<&Edge> =
        graph.all_edges.iter().filter(|e| (e.fig1, e.side1, e.fig2, e.side2) == (0, 0, 1, 2)).collect();
    assert_eq!(found.len(), 1);
    assert_eq!(found[0].score, 0);
    assert!(found[0].existing_edge);
    // every rival of the pair scores above zero
    for e in graph.all_edges.iter() {
        let sides = [(e.fig1, e.side1), (e.fig2, e.side2)];
        let same = sides == [(0, 0), (1, 2)] || sides == [(1, 2), (0, 0)];
        if !same && (sides.contains(&(0, 0)) || sides.contains(&(1, 2))) {
            assert!(e.score > 0);
        }
    }
    let placement = greedy_placement(&graph);
    assert_eq!(placement.get_neighbour(side(0, 0)), Some(side(1, 2)));
    assert_eq!(placement.get_neighbour(side(1, 2)), Some(side(0, 0)));
}

#[test]
fn graph_skips_pieces_that_are_not_good() {
    let mut puzzles = three_pieces();
    puzzles.figures[1].corner_positions = vec![0, 40, 40, 120];
    assert!(!puzzles.figures[1].is_good_puzzle());
    let graph = Graph::new(&puzzles, false);
    assert_eq!(graph.n, 3);
    assert!(graph.all_edges.iter().all(|e| e.fig1 != 1 && e.fig2 != 1));
    assert_eq!(graph.all_edges.len(), 2);
}

#[test]
fn graph_of_the_frame_only_compares_frame_sides() {
    let mut puzzles = three_pieces();
    puzzles.figures_on_border = vec![
        FigureOnBorder { left_side: side(0, 0), right_side: side(0, 1) },
        FigureOnBorder { left_side: side(1, 2), right_side: side(1, 3) },
    ];
    let graph = Graph::new(&puzzles, true);
    let keys: Vec<(usize, usize, usize, usize)> =
        graph.all_edges.iter().map(|e| (e.fig1, e.side1, e.fig2, e.side2)).collect();
    assert_eq!(keys, vec![(0, 0, 1, 2), (1, 2, 0, 0)]);
}

#[test]
fn edges_between_a_piece_and_itself_are_none() {
    let puzzles = three_pieces();
    assert!(Graph::edges_between(&puzzles, false, 1, 1).is_empty());
    let pair = Graph::edges_between(&puzzles, false, 0, 1);
    assert_eq!(pair.len(), 1);
    assert_eq!(pair[0].sides(), (side(0, 0), side(1, 2)));
}

#[test]
fn existing_edge_marks_neighbours_in_the_photograph() {
    let a = piece(0, 0, [&bump(12, 8), &flat(), &flat(), &flat()]);
    let below = piece(1, -41, [&flat(), &flat(), &mate(&bump(12, 8)), &flat()]);
    let puzzles = ParsedPuzzles { figures: vec![a, below], figures_on_border: vec![] };
    let graph = Graph::new(&puzzles, false);
    assert_eq!(graph.all_edges.len(), 2);
    assert!(graph.all_edges[0].existing_edge);
    assert!(graph.all_edges[1].existing_edge);
}

#[test]
fn hash_tells_piece_sets_apart() {
    let empty = ParsedPuzzles { figures: vec![], figures_on_border: vec![] };
    assert_eq!(empty.calc_hash(), HASH_SEED);
    let puzzles = three_pieces();
    let same = three_pieces();
    assert_eq!(puzzles.calc_hash(), same.calc_hash());
    let mut other = three_pieces();
    other.figures[2].border[5].y += 1;
    assert_ne!(puzzles.calc_hash(), other.calc_hash());
    let mut corners = three_pieces();
    corners.figures[0].corner_positions[1] = 41;
    assert_ne!(puzzles.calc_hash(), corners.calc_hash());
}

#[test]
fn hash_of_one_point() {
    let one = ParsedPuzzles {
        figures: vec![Figure { border: vec![Point { x: 0, y: -1 }], corner_positions: vec![] }],
        figures_on_border: vec![],
    };
    let prime: u128 = 0x0000_0100_0000_01b3;
    let mut h: u128 = HASH_SEED as u128;
    for v in [1u128, 0x8000_0000, 0x7fff_ffff, 0] {
        h = (h * prime + v) % (1u128 << 64);
    }
    assert_eq!(one.calc_hash() as u128, h);
}

#[test]
fn adjacency_table_holds_the_scores_both_ways() {
    let graph = Graph {
        n: 3,
        all_edges: vec![edge(0, 1, 2, 3, 500), edge(1, 0, 2, 2, 900), edge(2, 3, 0, 1, 700)],
        parsed_puzzles_hash: 0,
    };
    let dist = graph.gen_adj_matrix();
    // the later edge between the same two sides wins
    assert_eq!(dist.get(side(0, 1), side(2, 3)), 700);
    assert_eq!(dist.get(side(2, 3), side(0, 1)), 700);
    assert_eq!(dist.get(side(1, 0), side(2, 2)), 900);
    assert_eq!(dist.get(side(2, 2), side(1, 0)), 900);
    assert_eq!(dist.get(side(0, 0), side(2, 3)), NO_EDGE_SCORE);
    assert_eq!(dist.get(side(2, 2), side(2, 2)), NO_EDGE_SCORE);
}

#[test]
fn side_table_keeps_what_is_stored() {
    let mut t = SideTable::new(2, 11);
    assert_eq!(t.len(), 2);
    assert_eq!(t.get(side(1, 3), side(0, 2)), 11);
    t.set(side(1, 3), side(0, 2), 42);
    assert_eq!(t.get(side(1, 3), side(0, 2)), 42);
    assert_eq!(t.get(side(0, 2), side(1, 3)), 11);
    assert_eq!(t.get(side(1, 3), side(0, 1)), 11);
    let none = SideTable::new(0, 0);
    assert_eq!(none.len(), 0);
}

#[test]
fn graph_from_elsewhere_is_checked() {
    let good = Graph { n: 3, all_edges: vec![edge(0, 1, 2, 3, 500)], parsed_puzzles_hash: 0 };
    assert!(good.check_wf());
    assert!(good.check_anchors());
    let mut far = edge(0, 1, 3, 3, 500);
    assert!(!Graph { n: 3, all_edges: vec![far], parsed_puzzles_hash: 0 }.check_wf());
    far.fig1 = 3;
    far.fig2 = 0;
    assert!(!Graph { n: 3, all_edges: vec![far], parsed_puzzles_hash: 0 }.check_wf());
    let mut side = edge(0, 4, 2, 3, 500);
    assert!(!Graph { n: 3, all_edges: vec![side], parsed_puzzles_hash: 0 }.check_wf());
    side.side1 = 0;
    side.side2 = 4;
    assert!(!Graph { n: 3, all_edges: vec![side], parsed_puzzles_hash: 0 }.check_wf());
    let none = Graph { n: 0, all_edges: vec![], parsed_puzzles_hash: 0 };
    assert!(none.check_wf());
    assert!(none.check_anchors());
}

#[test]
fn anchors_that_coincide_are_found() {
    let mut twice = edge(0, 1, 2, 3, 500);
    twice.base_p2 = twice.base_p1;
    let graph = Graph {
        n: 3,
        all_edges: vec![edge(1, 0, 2, 2, 900), twice],
        parsed_puzzles_hash: 0,
    };
    // the edge is one of the graph, but its anchors give no frame
    assert!(graph.check_wf());
    assert!(!graph.check_anchors());
    let distances = graph.gen_adj_matrix();
    assert_eq!(distances.get(side(0, 1), side(2, 3)), 500);
    assert_eq!(distances.get(side(2, 3), side(0, 1)), 500);
}

#[test]
fn table_size_is_checked() {
    assert!(check_table_fits(0));
    assert!(check_table_fits(1000));
    assert!(!check_table_fits(usize::MAX));
    assert!(!check_table_fits(1 << 31));
}

#[test]
fn anchor_table_holds_the_anchors_one_way() {
    let graph = Graph {
        n: 3,
        all_edges: vec![edge(0, 1, 2, 3, 500), edge(1, 0, 2, 2, 900), edge(0, 1, 2, 3, 100)],
        parsed_puzzles_hash: 0,
    };
    let anchors = graph.get_base_points_matrix();
    assert_eq!(
        anchors.get(side(1, 0), side(2, 2)),
        (PointF { x: 1, y: 0 }, PointF { x: 102, y: 2 })
    );
    assert_eq!(
        anchors.get(side(0, 1), side(2, 3)),
        (PointF { x: 0, y: 1 }, PointF { x: 102, y: 3 })
    );
    assert_eq!(anchors.get(side(2, 3), side(0, 1)), (PointF { x: 0, y: 0 }, PointF { x: 0, y: 0 }));
}

#[test]
fn vertices_are_counted_once() {
    let graph = Graph {
        n: 5,
        all_edges: vec![edge(0, 1, 2, 3, 500), edge(2, 0, 0, 2, 900), edge(4, 1, 2, 3, 100)],
        parsed_puzzles_hash: 0,
    };
    assert_eq!(graph.num_vertices(), 3);
    let none = Graph { n: 5, all_edges: vec![], parsed_puzzles_hash: 0 };
    assert_eq!(none.num_vertices(), 0);
}

#[test]
fn subgraph_keeps_the_joined_edges() {
    let graph = Graph {
        n: 3,
        all_edges: vec![edge(0, 1, 2, 3, 500), edge(1, 0, 2, 2, 900), edge(2, 3, 0, 1, 700)],
        parsed_puzzles_hash: 77,
    };
    let mut placement = Placement::new(3);
    assert!(placement.join_sides(side(2, 3), side(0, 1)));
    let sub = graph.get_subgraph(&placement);
    assert_eq!(sub.n, 3);
    assert_eq!(sub.parsed_puzzles_hash, 77);
    let keys: Vec<(usize, usize, usize, usize)> =
        sub.all_edges.iter().map(|e| (e.fig1, e.side1, e.fig2, e.side2)).collect();
    assert_eq!(keys, vec![(0, 1, 2, 3), (2, 3, 0, 1)]);
}

#[test]
fn greedy_seeding_takes_the_best_edges_first() {
    let graph = Graph {
        n: 4,
        all_edges: vec![
            edge(0, 0, 1, 0, 1_500_000),
            edge(0, 0, 2, 0, 1_000_000),
            edge(1, 0, 2, 1, 1_000_000),
            edge(3, 0, 1, 0, 2_000_000),
            edge(3, 1, 2, 2, 2_000_001),
            edge(3, 2, 3, 3, 5),
        ],
        parsed_puzzles_hash: 0,
    };
    let p = greedy_placement(&graph);
    // the edge of a figure with itself is passed over; of the two edges with
    // the score 1_000_000 the first comes first; (0,0)-(1,0) finds both sides
    // taken; the limit itself is still within; above the limit nothing is joined
    assert_eq!(p.get_neighbour(side(3, 2)), None);
    assert_eq!(p.get_neighbour(side(0, 0)), Some(side(2, 0)));
    assert_eq!(p.get_neighbour(side(1, 0)), Some(side(2, 1)));
    assert_eq!(p.get_neighbour(side(3, 0)), None);
    assert_eq!(p.get_neighbour(side(3, 1)), None);
    assert_eq!(p.get_neighbour(side(2, 2)), None);
}

#[test]
fn greedy_seeding_joins_at_the_limit() {
    let graph = Graph {
        n: 2,
        all_edges: vec![edge(0, 0, 1, 0, GREEDY_MAX_SCORE), edge(0, 1, 1, 1, GREEDY_MAX_SCORE + 1)],
        parsed_puzzles_hash: 0,
    };
    let p = greedy_placement(&graph);
    assert_eq!(p.get_neighbour(side(0, 0)), Some(side(1, 0)));
    assert_eq!(p.get_neighbour(side(0, 1)), None);
}
