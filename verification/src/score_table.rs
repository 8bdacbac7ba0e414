//! Dense tables indexed by two sides, held in a four-dimensional array.

use vstd::prelude::*;
use crate::placement::side_in_range;
use crate::utils::Side;

verus! {

/// A four-dimensional array of `u64` cells, kept in an `ndarray::Array4`.
#[verifier::external_body]
pub struct Array4U64 {
    cells: ndarray::Array4<u64>,
}

/// The values that a four-dimensional array holds, by index.
pub uninterp spec fn array4_cells(a: Array4U64) -> Map<(int, int, int, int), u64>;

/// The lengths of the four axes of an array.
pub uninterp spec fn array4_shape(a: Array4U64) -> (int, int, int, int);

/// Whether an index lies within a shape.
pub open spec fn in_shape(shape: (int, int, int, int), i: int, j: int, k: int, l: int) -> bool {
    0 <= i < shape.0 && 0 <= j < shape.1 && 0 <= k < shape.2 && 0 <= l < shape.3
}

/// An axis length as a factor of the number of cells that must be
/// addressable: an empty axis counts as one.
pub open spec fn axis_factor(d: usize) -> int {
    if d == 0 {
        1
    } else {
        d as int
    }
}

/// `ndarray::Array4::from_elem`: an array of the given shape with every cell
/// equal to `elem`. The call panics where the product of the non-zero axis
/// lengths exceeds `isize::MAX`, and the allocation behind it where the
/// bytes of the cells do.
#[verifier::external_body]
fn array4_from_elem(d0: usize, d1: usize, d2: usize, d3: usize, elem: u64) -> (r: Array4U64)
    requires
        axis_factor(d0) * axis_factor(d1) * axis_factor(d2) * axis_factor(d3) * 8 <= isize::MAX,
    ensures
        array4_shape(r) == (d0 as int, d1 as int, d2 as int, d3 as int),
        forall|i: int, j: int, k: int, l: int|
            in_shape(array4_shape(r), i, j, k, l) ==> #[trigger] array4_cells(r)[(i, j, k, l)]
                == elem,
{
    Array4U64 { cells: ndarray::Array4::from_elem((d0, d1, d2, d3), elem) }
}

/// Indexing an `ndarray::Array4` with `[i, j, k, l]`: the value of that
/// cell. The call panics for an index outside the shape.
#[verifier::external_body]
fn array4_get(a: &Array4U64, i: usize, j: usize, k: usize, l: usize) -> (r: u64)
    requires
        in_shape(array4_shape(*a), i as int, j as int, k as int, l as int),
    ensures
        r == array4_cells(*a)[(i as int, j as int, k as int, l as int)],
{
    a.cells[[i, j, k, l]]
}

/// Assigning to an `ndarray::Array4` at `[i, j, k, l]`: that cell takes the
/// value, every other cell and the shape stay. The call panics for an index
/// outside the shape.
#[verifier::external_body]
fn array4_set(a: &mut Array4U64, i: usize, j: usize, k: usize, l: usize, v: u64)
    requires
        in_shape(array4_shape(*old(a)), i as int, j as int, k as int, l as int),
    ensures
        array4_shape(*final(a)) == array4_shape(*old(a)),
        array4_cells(*final(a)) == array4_cells(*old(a)).insert(
            (i as int, j as int, k as int, l as int),
            v,
        ),
{
    a.cells[[i, j, k, l]] = v;
}

/// Whether a table for `n` figures can be allocated on this machine.
pub open spec fn table_fits(n: usize) -> bool {
    (n * n) * 128 <= isize::MAX
}

/// Tells whether a table for `n` figures can be allocated on this machine.
pub fn check_table_fits(n: usize) -> (r: bool)
    ensures
        r == table_fits(n),
{
    match n.checked_mul(n) {
        Some(sq) => match sq.checked_mul(128) {
            Some(bytes) => bytes <= isize::MAX as usize,
            None => false,
        },
        None => {
            assert(n * n > usize::MAX);
            false
        },
    }
}

/// A dense table with one `u64` value for every ordered pair of sides of `n`
/// figures.
pub struct SideTable {
    cells: Array4U64,
    n: usize,
}

impl SideTable {
    /// The number of figures.
    pub closed spec fn n(&self) -> int {
        self.n as int
    }

    /// The table has a cell for every pair of sides.
    pub closed spec fn wf(&self) -> bool {
        &&& array4_shape(self.cells) == (self.n as int, 4int, self.n as int, 4int)
        &&& table_fits(self.n)
    }

    /// The number of figures of a table, as a machine integer.
    pub fn len(&self) -> (r: usize)
        requires
            self.wf(),
        ensures
            r == self.n(),
            table_fits(r),
    {
        self.n
    }

    /// The value stored for the pair `(s1, s2)`.
    pub closed spec fn value(&self, s1: Side, s2: Side) -> u64 {
        array4_cells(self.cells)[(s1.fig as int, s1.side as int, s2.fig as int, s2.side as int)]
    }

    /// A table for `n` figures in which every value is `fill`.
    pub fn new(n: usize, fill: u64) -> (r: SideTable)
        requires
            table_fits(n),
        ensures
            r.wf(),
            r.n() == n,
            forall|s1: Side, s2: Side|
                side_in_range(s1, n as int) && side_in_range(s2, n as int) ==> #[trigger] r.value(
                    s1,
                    s2,
                ) == fill,
    {
        assert(axis_factor(n) * axis_factor(4) * axis_factor(n) * axis_factor(4) * 8 <= isize::MAX)
            by (nonlinear_arith)
            requires
                (n * n) * 128 <= isize::MAX,
                axis_factor(4) == 4,
                axis_factor(n) == n || (n == 0 && axis_factor(n) == 1),
        ;
        SideTable { cells: array4_from_elem(n, 4, n, 4, fill), n }
    }

    /// The value stored for the pair `(s1, s2)`.
    pub fn get(&self, s1: Side, s2: Side) -> (r: u64)
        requires
            self.wf(),
            side_in_range(s1, self.n()),
            side_in_range(s2, self.n()),
        ensures
            r == self.value(s1, s2),
    {
        array4_get(&self.cells, s1.fig, s1.side, s2.fig, s2.side)
    }

    /// Stores `v` for the pair `(s1, s2)`; every other value stays.
    pub fn set(&mut self, s1: Side, s2: Side, v: u64)
        requires
            old(self).wf(),
            side_in_range(s1, old(self).n()),
            side_in_range(s2, old(self).n()),
        ensures
            final(self).wf(),
            final(self).n() == old(self).n(),
            forall|a: Side, b: Side| #[trigger]
                final(self).value(a, b) == if a == s1 && b == s2 {
                    v
                } else {
                    old(self).value(a, b)
                },
    {
        array4_set(&mut self.cells, s1.fig, s1.side, s2.fig, s2.side, v);
    }
}

} // verus!
