//! Shape-only reconstruction of a cut-apart jigsaw puzzle.
//!
//! Piece outlines are matched side against side, the matches are collected in
//! a candidate graph, and the best ones are assembled into placements on a
//! shared canvas. All geometry is done in integer fixed-point arithmetic so
//! that every step has an exact, machine-checked contract.

pub mod math;
pub mod point;
pub mod coordinate_system;
pub mod utils;
pub mod figure;
pub mod parsed_puzzles;
pub mod border_matcher;
pub mod sorting;
pub mod score_table;
pub mod placement;
pub mod borders_graph;
pub mod seeding;
pub mod dsu;
pub mod spanning_forest;
pub mod refinement;
pub mod surface_placer;
pub mod rects_fitter;
pub mod packing;
pub mod graph_solver;
