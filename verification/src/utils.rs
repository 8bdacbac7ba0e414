//! Identifiers of the sides of the pieces.

use vstd::prelude::*;

verus! {

/// One of the four sides of a figure.
#[derive(Clone, Copy, Debug, PartialEq, Eq, Structural)]
pub struct Side {
    pub fig: usize,
    pub side: usize,
}

impl Side {
    /// The side that follows this one in traversal order.
    pub open spec fn next_spec(self) -> Side {
        Side { fig: self.fig, side: ((self.side % 4 + 1) % 4) as usize }
    }

    /// The side that precedes this one in traversal order.
    pub open spec fn prev_spec(self) -> Side {
        Side { fig: self.fig, side: ((self.side % 4 + 3) % 4) as usize }
    }

    /// The side across the figure from this one.
    pub open spec fn opposite_spec(self) -> Side {
        Side { fig: self.fig, side: ((self.side % 4 + 2) % 4) as usize }
    }

    /// The position of this side in an enumeration of all sides, four per figure.
    pub open spec fn index_spec(self) -> int {
        4 * self.fig + self.side
    }

    /// The side that follows this one in traversal order.
    pub fn next(&self) -> (r: Side)
        ensures
            r == self.next_spec(),
            r.side < 4,
    {
        Side { fig: self.fig, side: (self.side % 4 + 1) % 4 }
    }

    /// The side that precedes this one in traversal order.
    pub fn prev(&self) -> (r: Side)
        ensures
            r == self.prev_spec(),
            r.side < 4,
    {
        Side { fig: self.fig, side: (self.side % 4 + 3) % 4 }
    }

    /// The side across the figure from this one.
    pub fn opposite(&self) -> (r: Side)
        ensures
            r == self.opposite_spec(),
            r.side < 4,
    {
        Side { fig: self.fig, side: (self.side % 4 + 2) % 4 }
    }
}

} // verus!
