//! Which side has been joined to which: the state of an assembly.

use vstd::prelude::*;
use crate::utils::Side;

verus! {

/// What the four sides of one figure are joined to.
#[derive(Clone, Copy, Debug)]
pub struct Joins {
    pub s0: Option<Side>,
    pub s1: Option<Side>,
    pub s2: Option<Side>,
    pub s3: Option<Side>,
}

impl Joins {
    /// The partner of side `side` (sides are counted modulo 4).
    pub open spec fn get_spec(self, side: int) -> Option<Side> {
        if side % 4 == 0 {
            self.s0
        } else if side % 4 == 1 {
            self.s1
        } else if side % 4 == 2 {
            self.s2
        } else {
            self.s3
        }
    }

    /// These joins with the partner of side `side` replaced.
    pub open spec fn set_spec(self, side: int, to: Option<Side>) -> Joins {
        if side % 4 == 0 {
            Joins { s0: to, ..self }
        } else if side % 4 == 1 {
            Joins { s1: to, ..self }
        } else if side % 4 == 2 {
            Joins { s2: to, ..self }
        } else {
            Joins { s3: to, ..self }
        }
    }

    fn get(&self, side: usize) -> (r: Option<Side>)
        ensures
            r == self.get_spec(side as int),
    {
        let k = side % 4;
        if k == 0 {
            self.s0
        } else if k == 1 {
            self.s1
        } else if k == 2 {
            self.s2
        } else {
            self.s3
        }
    }

    fn set(&self, side: usize, to: Option<Side>) -> (r: Joins)
        ensures
            r == self.set_spec(side as int, to),
    {
        let k = side % 4;
        if k == 0 {
            Joins { s0: to, s1: self.s1, s2: self.s2, s3: self.s3 }
        } else if k == 1 {
            Joins { s0: self.s0, s1: to, s2: self.s2, s3: self.s3 }
        } else if k == 2 {
            Joins { s0: self.s0, s1: self.s1, s2: to, s3: self.s3 }
        } else {
            Joins { s0: self.s0, s1: self.s1, s2: self.s2, s3: to }
        }
    }
}

/// The join state of all sides of `n` figures. A side is joined to at most
/// one other side, of another figure, and joins are mutual.
#[derive(Clone, Debug)]
pub struct Placement {
    joins: Vec<Joins>,
}

/// Whether `s` names a side of one of `n` figures.
pub open spec fn side_in_range(s: Side, n: int) -> bool {
    0 <= s.fig < n && s.side < 4
}

/// The side with the position `k` in the enumeration of all sides.
pub open spec fn side_at(k: int) -> Side {
    Side { fig: (k / 4) as usize, side: (k % 4) as usize }
}

/// The pairs `(s, partner of s)` for the joined sides `s` among the first
/// `k` sides, in the order of the sides.
pub open spec fn neighbours_upto(joins: Seq<Joins>, k: int) -> Seq<(Side, Side)>
    decreases k,
{
    if k <= 0 {
        Seq::empty()
    } else {
        let rest = neighbours_upto(joins, k - 1);
        match joins[(k - 1) / 4].get_spec((k - 1) % 4) {
            Some(t) => rest.push((side_at(k - 1), t)),
            None => rest,
        }
    }
}

impl Placement {
    /// The number of figures.
    pub closed spec fn n(&self) -> int {
        self.joins@.len() as int
    }

    /// The side that `s` is joined to, if any.
    pub closed spec fn partner(&self, s: Side) -> Option<Side> {
        if side_in_range(s, self.joins@.len() as int) {
            self.joins@[s.fig as int].get_spec(s.side as int)
        } else {
            None
        }
    }

    /// If `s` is joined, then to a side in range on another figure that is
    /// joined to `s` in turn.
    pub open spec fn mutual(&self, s: Side) -> bool {
        self.partner(s) matches Some(t) ==> {
            &&& side_in_range(s, self.n())
            &&& side_in_range(t, self.n())
            &&& t.fig != s.fig
            &&& self.partner(t) == Some(s)
        }
    }

    /// Joins lead to sides in range on other figures, and are mutual.
    pub open spec fn wf(&self) -> bool {
        forall|s: Side| (#[trigger] self.partner(s)) is Some ==> self.mutual(s)
    }

    /// Every joined pair, once in each direction, in the order of the first
    /// side: by figure, then by side.
    pub closed spec fn neighbours_spec(&self) -> Seq<(Side, Side)> {
        neighbours_upto(self.joins@, 4 * self.joins@.len() as int)
    }

    /// A placement of `n` figures in which nothing is joined.
    pub fn new(n: usize) -> (r: Placement)
        ensures
            r.n() == n,
            r.wf(),
            forall|s: Side| r.partner(s) is None,
    {
        let mut joins: Vec<Joins> = Vec::new();
        let mut i: usize = 0;
        while i < n
            invariant
                i <= n,
                joins@.len() == i,
                forall|j: int|
                    0 <= j < i ==> (#[trigger] joins@[j]) == (Joins {
                        s0: None,
                        s1: None,
                        s2: None,
                        s3: None,
                    }),
            decreases n - i,
        {
            joins.push(Joins { s0: None, s1: None, s2: None, s3: None });
            i = i + 1;
        }
        Placement { joins }
    }

    /// The number of figures.
    pub fn len(&self) -> (r: usize)
        ensures
            r == self.n(),
    {
        self.joins.len()
    }

    /// The side that `s` is joined to, if any; none for a side out of range.
    pub fn get_neighbour(&self, s: Side) -> (r: Option<Side>)
        ensures
            r == self.partner(s),
    {
        if s.fig < self.joins.len() && s.side < 4 {
            self.joins[s.fig].get(s.side)
        } else {
            None
        }
    }

    /// Whether `s1` and `s2` can be joined: both name sides of this
    /// placement, on different figures, and neither is joined yet.
    pub open spec fn can_join(&self, s1: Side, s2: Side) -> bool {
        &&& side_in_range(s1, self.n())
        &&& side_in_range(s2, self.n())
        &&& s1.fig != s2.fig
        &&& self.partner(s1) is None
        &&& self.partner(s2) is None
    }

    /// Joins `s1` and `s2` if that is possible, and tells whether it did.
    /// A side that is joined stays joined: nothing else changes.
    pub fn join_sides(&mut self, s1: Side, s2: Side) -> (joined: bool)
        requires
            old(self).wf(),
        ensures
            final(self).wf(),
            final(self).n() == old(self).n(),
            joined == old(self).can_join(s1, s2),
            joined ==> forall|s: Side|
                #[trigger] final(self).partner(s) == if s == s1 {
                    Some(s2)
                } else if s == s2 {
                    Some(s1)
                } else {
                    old(self).partner(s)
                },
            !joined ==> forall|s: Side| #[trigger] final(self).partner(s) == old(self).partner(s),
    {
        let n = self.joins.len();
        if s1.fig >= n || s2.fig >= n || s1.side >= 4 || s2.side >= 4 || s1.fig == s2.fig {
            return false;
        }
        let j1 = self.joins[s1.fig];
        let j2 = self.joins[s2.fig];
        if j1.get(s1.side).is_some() || j2.get(s2.side).is_some() {
            return false;
        }
        self.joins.set(s1.fig, j1.set(s1.side, Some(s2)));
        self.joins.set(s2.fig, j2.set(s2.side, Some(s1)));
        proof {
            assert forall|s: Side| #[trigger] self.partner(s) == if s == s1 {
                Some(s2)
            } else if s == s2 {
                Some(s1)
            } else {
                old(self).partner(s)
            } by {
                if side_in_range(s, n as int) {
                    if s.fig == s1.fig {
                    } else if s.fig == s2.fig {
                    } else {
                    }
                }
            }
            assert forall|s: Side| (#[trigger] self.partner(s)) is Some implies self.mutual(s) by {
                let t = self.partner(s)->Some_0;
                if s == s1 {
                } else if s == s2 {
                } else {
                    assert(old(self).partner(s) == Some(t));
                    assert(old(self).mutual(s));
                    assert(old(self).partner(t) == Some(s));
                }
            }
        }
        true
    }

    /// All joined pairs, each in both directions, ordered by the first side.
    pub fn get_all_neighbours(&self) -> (r: Vec<(Side, Side)>)
        ensures
            r@ == self.neighbours_spec(),
    {
        let n = self.joins.len();
        let mut res: Vec<(Side, Side)> = Vec::new();
        let mut fig: usize = 0;
        while fig < n
            invariant
                fig <= n,
                n == self.joins@.len(),
                res@ == neighbours_upto(self.joins@, 4 * fig),
            decreases n - fig,
        {
            let mut side: usize = 0;
            while side < 4
                invariant
                    side <= 4,
                    fig < n,
                    n == self.joins@.len(),
                    res@ == neighbours_upto(self.joins@, 4 * fig + side),
                decreases 4 - side,
            {
                let ghost k = 4 * fig + side;
                assert(k / 4 == fig && k % 4 == side);
                match self.joins[fig].get(side) {
                    Some(t) => {
                        res.push((Side { fig, side }, t));
                    },
                    None => {},
                }
                assert(res@ == neighbours_upto(self.joins@, k + 1));
                side = side + 1;
            }
            fig = fig + 1;
        }
        res
    }
}

/// Every pair that `get_all_neighbours` lists is a join of the placement,
/// and so is its mirror image.
pub proof fn lemma_neighbours_are_joined(p: Placement, i: int)
    requires
        p.wf(),
        0 <= i < p.neighbours_spec().len(),
    ensures
        p.partner(p.neighbours_spec()[i].0) == Some(p.neighbours_spec()[i].1),
        p.partner(p.neighbours_spec()[i].1) == Some(p.neighbours_spec()[i].0),
        side_in_range(p.neighbours_spec()[i].0, p.n()),
        side_in_range(p.neighbours_spec()[i].1, p.n()),
        p.neighbours_spec()[i].0.fig != p.neighbours_spec()[i].1.fig,
{
    lemma_neighbours_upto(p, 4 * p.n(), i);
    assert(p.mutual(p.neighbours_spec()[i].0));
}

/// Every join of the placement is listed by `get_all_neighbours`.
pub proof fn lemma_joined_is_neighbour(p: Placement, s: Side)
    requires
        p.partner(s) is Some,
    ensures
        p.neighbours_spec().contains((s, p.partner(s)->Some_0)),
{
    lemma_joined_upto(p, s, 4 * p.n());
}

proof fn lemma_joined_upto(p: Placement, s: Side, k: int)
    requires
        p.partner(s) is Some,
        s.index_spec() < k <= 4 * p.n(),
    ensures
        neighbours_upto(p.joins@, k).contains((s, p.partner(s)->Some_0)),
    decreases k,
{
    let rest = neighbours_upto(p.joins@, k - 1);
    let now = neighbours_upto(p.joins@, k);
    let wanted = (s, p.partner(s)->Some_0);
    if s.index_spec() == k - 1 {
        assert((k - 1) / 4 == s.fig && (k - 1) % 4 == s.side);
        assert(side_at(k - 1) == s);
        assert(now == rest.push(wanted));
        assert(now[rest.len() as int] == wanted);
    } else {
        lemma_joined_upto(p, s, k - 1);
        let i = choose|i: int| 0 <= i < rest.len() && rest[i] == wanted;
        assert(now[i] == wanted);
    }
}

proof fn lemma_neighbours_upto(p: Placement, k: int, i: int)
    requires
        0 <= k <= 4 * p.n(),
        0 <= i < neighbours_upto(p.joins@, k).len(),
    ensures
        p.partner(neighbours_upto(p.joins@, k)[i].0) == Some(neighbours_upto(p.joins@, k)[i].1),
        side_in_range(neighbours_upto(p.joins@, k)[i].0, p.n()),
    decreases k,
{
    if k > 0 {
        let rest = neighbours_upto(p.joins@, k - 1);
        if i < rest.len() {
            lemma_neighbours_upto(p, k - 1, i);
        } else {
            // the positions of the sides are machine integers
            assert(p.joins.len() == p.joins@.len());
            assert(side_at(k - 1).fig == (k - 1) / 4);
        }
    }
}

} // verus!
