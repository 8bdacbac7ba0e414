//! The set of pieces handed over by the image pipeline.

use vstd::prelude::*;
use crate::figure::Figure;
use crate::point::Point;
use crate::utils::Side;

verus! {

/// A piece on the outer frame of the puzzle, with its two sides that run
/// along the frame.
#[derive(Clone, Copy, Debug)]
pub struct FigureOnBorder {
    pub left_side: Side,
    pub right_side: Side,
}

/// All pieces of one photograph, and what the border detection found.
#[derive(Clone, Debug)]
pub struct ParsedPuzzles {
    pub figures: Vec<Figure>,
    pub figures_on_border: Vec<FigureOnBorder>,
}

/// The multiplier of the hash.
pub const HASH_PRIME: u64 = 0x0000_0100_0000_01b3;

/// The start value of the hash.
pub const HASH_SEED: u64 = 0xcbf2_9ce4_8422_2325;

/// One hash step: the state times the prime plus the value, modulo 2^64.
pub open spec fn hash_mix(h: u64, v: u64) -> u64 {
    ((h as int * HASH_PRIME as int + v as int) % 0x1_0000_0000_0000_0000) as u64
}

/// A signed coordinate as an unsigned hash input.
pub open spec fn hash_coord(c: i32) -> u64 {
    (c as int + 0x8000_0000) as u64
}

/// The hash after the first `k` outline points.
pub open spec fn hash_points(h: u64, pts: Seq<Point>, k: int) -> u64
    decreases k,
{
    if k <= 0 {
        h
    } else {
        hash_mix(
            hash_mix(hash_points(h, pts, k - 1), hash_coord(pts[k - 1].x)),
            hash_coord(pts[k - 1].y),
        )
    }
}

/// The hash after the first `k` corner indices.
pub open spec fn hash_corners(h: u64, corners: Seq<usize>, k: int) -> u64
    decreases k,
{
    if k <= 0 {
        h
    } else {
        hash_mix(hash_corners(h, corners, k - 1), corners[k - 1] as u64)
    }
}

/// The hash after one more figure: its outline length, its outline, its
/// number of corners and its corners.
pub open spec fn hash_figure(h: u64, f: Figure) -> u64 {
    let h1 = hash_mix(h, f.border@.len() as u64);
    let h2 = hash_points(h1, f.border@, f.border@.len() as int);
    let h3 = hash_mix(h2, f.corner_positions@.len() as u64);
    hash_corners(h3, f.corner_positions@, f.corner_positions@.len() as int)
}

/// The hash after the first `k` figures.
pub open spec fn hash_figures(figures: Seq<Figure>, k: int) -> u64
    decreases k,
{
    if k <= 0 {
        HASH_SEED
    } else {
        hash_figure(hash_figures(figures, k - 1), figures[k - 1])
    }
}

fn mix(h: u64, v: u64) -> (r: u64)
    ensures
        r == hash_mix(h, v),
{
    proof {
        crate::point::lemma_mul_bound(
            h as int,
            HASH_PRIME as int,
            0xffff_ffff_ffff_ffff,
            0x0000_0100_0000_01b3,
        );
        assert(0xffff_ffff_ffff_ffffint * 0x0000_0100_0000_01b3int + 0xffff_ffff_ffff_ffffint
            < 0xffff_ffff_ffff_ffff_ffff_ffff_ffff_ffffint) by (nonlinear_arith);
        assert(h as int * HASH_PRIME as int >= 0) by (nonlinear_arith)
            requires
                h >= 0,
                HASH_PRIME >= 0,
        ;
    }
    let wide: u128 = h as u128 * HASH_PRIME as u128 + v as u128;
    (wide % 0x1_0000_0000_0000_0000) as u64
}

fn coord(c: i32) -> (r: u64)
    ensures
        r == hash_coord(c),
{
    (c as i64 + 0x8000_0000) as u64
}

fn hash_one_figure(h: u64, f: &Figure) -> (r: u64)
    ensures
        r == hash_figure(h, *f),
{
    let n = f.border.len();
    let mut acc = mix(h, n as u64);
    let mut i: usize = 0;
    while i < n
        invariant
            i <= n,
            n == f.border@.len(),
            acc == hash_points(hash_mix(h, n as u64), f.border@, i as int),
        decreases n - i,
    {
        acc = mix(mix(acc, coord(f.border[i].x)), coord(f.border[i].y));
        i = i + 1;
    }
    let m = f.corner_positions.len();
    let ghost h3 = hash_mix(acc, m as u64);
    acc = mix(acc, m as u64);
    let mut j: usize = 0;
    while j < m
        invariant
            j <= m,
            m == f.corner_positions@.len(),
            acc == hash_corners(h3, f.corner_positions@, j as int),
        decreases m - j,
    {
        acc = mix(acc, f.corner_positions[j] as u64);
        j = j + 1;
    }
    acc
}

impl ParsedPuzzles {
    /// The hash that identifies this exact collection of pieces.
    pub open spec fn hash_spec(&self) -> u64 {
        hash_figures(self.figures@, self.figures@.len() as int)
    }

    /// Computes the hash of the collection: a graph built from it carries
    /// this value and may only be used together with a collection that
    /// hashes to the same value.
    pub fn calc_hash(&self) -> (r: u64)
        ensures
            r == self.hash_spec(),
    {
        let n = self.figures.len();
        let mut acc = HASH_SEED;
        let mut i: usize = 0;
        while i < n
            invariant
                i <= n,
                n == self.figures@.len(),
                acc == hash_figures(self.figures@, i as int),
            decreases n - i,
        {
            acc = hash_one_figure(acc, &self.figures[i]);
            i = i + 1;
        }
        acc
    }
}

} // verus!
