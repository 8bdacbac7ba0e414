//! A puzzle piece: its traced outline and its four corners.

use vstd::prelude::*;
use crate::point::{Point, PointF};

verus! {

/// One puzzle piece. `border` is the cyclic outline; `corner_positions` are
/// four indices into it that split it into the sides 0 to 3.
#[derive(Clone, Debug)]
pub struct Figure {
    pub border: Vec<Point>,
    pub corner_positions: Vec<usize>,
}

/// Whether the corner at `i` is not below the corner that follows it cyclically.
pub open spec fn corner_wraps(corners: Seq<usize>, i: int) -> bool {
    corners[i] >= corners[(i + 1) % 4]
}

/// How many of the four corners are followed by a smaller or equal one.
pub open spec fn wrap_count(corners: Seq<usize>) -> int {
    (if corner_wraps(corners, 0) { 1int } else { 0 })
        + (if corner_wraps(corners, 1) { 1int } else { 0 })
        + (if corner_wraps(corners, 2) { 1int } else { 0 })
        + (if corner_wraps(corners, 3) { 1int } else { 0 })
}

impl Figure {
    /// The outline is not empty and the four corners lie on it.
    pub open spec fn wf(&self) -> bool {
        &&& self.border@.len() > 0
        &&& self.corner_positions@.len() == 4
        &&& forall|i: int| 0 <= i < 4 ==> (#[trigger] self.corner_positions@[i]) < self.border@.len()
    }

    /// A piece that can be matched: it is well formed, its corners go once
    /// round the outline in increasing order, and the first outline point
    /// differs from the one half way round.
    pub open spec fn good_spec(&self) -> bool {
        &&& self.wf()
        &&& wrap_count(self.corner_positions@) == 1
        &&& self.border@[0] != self.border@[self.border@.len() as int / 2]
    }

    /// The corner at which side `side` starts.
    pub open spec fn side_start(&self, side: int) -> int {
        self.corner_positions@[side] as int
    }

    /// The corner at which side `side` ends.
    pub open spec fn side_end(&self, side: int) -> int {
        self.corner_positions@[(side + 1) % 4] as int
    }

    /// The outline in canvas units, before any placement.
    pub open spec fn basic_position(&self) -> Seq<PointF> {
        Seq::new(self.border@.len(), |i: int| self.border@[i].conv_spec())
    }

    /// The validity test for pieces: only good pieces take part in matching.
    pub fn is_good_puzzle(&self) -> (r: bool)
        ensures
            r == self.good_spec(),
    {
        let n = self.border.len();
        if n == 0 || self.corner_positions.len() != 4 {
            return false;
        }
        let c0 = self.corner_positions[0];
        let c1 = self.corner_positions[1];
        let c2 = self.corner_positions[2];
        let c3 = self.corner_positions[3];
        if c0 >= n || c1 >= n || c2 >= n || c3 >= n {
            return false;
        }
        assert(self.wf()) by {
            assert forall|i: int| 0 <= i < 4 implies (#[trigger] self.corner_positions@[i])
                < self.border@.len() by {
                if i == 0 {
                } else if i == 1 {
                } else if i == 2 {
                } else {
                    assert(i == 3);
                }
            }
        }
        let mut wraps: u8 = 0;
        if c0 >= c1 {
            wraps = wraps + 1;
        }
        if c1 >= c2 {
            wraps = wraps + 1;
        }
        if c2 >= c3 {
            wraps = wraps + 1;
        }
        if c3 >= c0 {
            wraps = wraps + 1;
        }
        let a = self.border[0];
        let b = self.border[n / 2];
        wraps == 1 && !(a.x == b.x && a.y == b.y)
    }
}

} // verus!
