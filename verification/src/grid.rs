use vstd::prelude::*;
use crate::hex::Hex;

verus! {

/// A map from lattice cells near the origin to territory indices, stored as
/// a dense square indexed by the two independent cube coordinates.  Cells at
/// lattice distance `bound` or more from the origin are never claimed.
pub struct CellGrid {
    bound: usize,
    side: usize,
    cells: Vec<Option<usize>>,
}

impl CellGrid {
    /// The exclusive radius of the playable disk.
    pub closed spec fn spec_bound(self) -> int {
        self.bound as int
    }

    pub closed spec fn wf(self) -> bool {
        &&& 1 <= self.bound <= 10_000
        &&& self.side == 2 * self.bound - 1
        &&& self.cells@.len() == self.side * self.side
    }

    /// The cell `(q, r)` lies in the stored square.
    closed spec fn in_square(self, q: int, r: int) -> bool {
        &&& -(self.spec_bound() - 1) <= q <= self.spec_bound() - 1
        &&& -(self.spec_bound() - 1) <= r <= self.spec_bound() - 1
    }

    closed spec fn idx(self, q: int, r: int) -> int {
        (q + self.spec_bound() - 1) * (2 * self.spec_bound() - 1) + (r + self.spec_bound() - 1)
    }

    /// The territory that has claimed cell `(q, r)`, if any.
    pub closed spec fn at(self, q: int, r: int) -> Option<usize> {
        if self.in_square(q, r) {
            self.cells@[self.idx(q, r)]
        } else {
            None
        }
    }

    proof fn lemma_idx_bounds(self, q: int, r: int)
        requires
            self.wf(),
            self.in_square(q, r),
        ensures
            0 <= self.idx(q, r) < self.cells@.len(),
    {
        let b = self.spec_bound();
        let s = 2 * b - 1;
        assert(0 <= q + b - 1 <= s - 1);
        assert(0 <= r + b - 1 <= s - 1);
        assert((q + b - 1) * s + (r + b - 1) < s * s && 0 <= (q + b - 1) * s) by (nonlinear_arith)
            requires
                0 <= q + b - 1 <= s - 1,
                0 <= r + b - 1 <= s - 1,
                s >= 1,
        ;
        assert(self.cells@.len() == s * s);
    }

    proof fn lemma_idx_injective(self, q1: int, r1: int, q2: int, r2: int)
        requires
            self.wf(),
            self.in_square(q1, r1),
            self.in_square(q2, r2),
            !(q1 == q2 && r1 == r2),
        ensures
            self.idx(q1, r1) != self.idx(q2, r2),
    {
        let b = self.spec_bound();
        let s = 2 * b - 1;
        assert((q1 + b - 1) * s + (r1 + b - 1) != (q2 + b - 1) * s + (r2 + b - 1))
            by (nonlinear_arith)
            requires
                0 <= q1 + b - 1 <= s - 1,
                0 <= r1 + b - 1 <= s - 1,
                0 <= q2 + b - 1 <= s - 1,
                0 <= r2 + b - 1 <= s - 1,
                s >= 1,
                !(q1 == q2 && r1 == r2),
        ;
    }

    /// A valid grid's radius lies in the supported range.
    pub proof fn lemma_bound_range(self)
        requires
            self.wf(),
        ensures
            1 <= self.spec_bound() <= 10_000,
    {
    }

    /// An empty grid over the disk of the given exclusive radius.
    pub fn new(bound: usize) -> (g: CellGrid)
        requires
            1 <= bound <= 10_000,
        ensures
            g.wf(),
            g.spec_bound() == bound,
            forall|q: int, r: int| g.at(q, r) is None,
    {
        let side: usize = 2 * bound - 1;
        assert(side * side < 0x1800_0000) by (nonlinear_arith)
            requires
                side <= 19_999,
        ;
        let n: usize = side * side;
        let mut cells: Vec<Option<usize>> = Vec::new();
        let mut k: usize = 0;
        while k < n
            invariant
                cells@.len() == k,
                k <= n,
                forall|j: int| 0 <= j < k ==> cells@[j] is None,
            decreases n - k,
        {
            cells.push(None);
            k = k + 1;
        }
        let g = CellGrid { bound, side, cells };
        proof {
            assert forall|q: int, r: int| g.at(q, r) is None by {
                if g.in_square(q, r) {
                    g.lemma_idx_bounds(q, r);
                }
            }
        }
        g
    }

    pub fn bound(&self) -> (b: usize)
        ensures
            b == self.spec_bound(),
    {
        self.bound
    }

    /// Looks the cell up; cells outside the stored square are unclaimed.
    pub fn get(&self, h: &Hex) -> (r: Option<usize>)
        requires
            self.wf(),
            h.in_range(1_000_000),
        ensures
            r == self.at(h.q as int, h.r as int),
    {
        let b1: i32 = (self.bound - 1) as i32;
        if -b1 <= h.q && h.q <= b1 && -b1 <= h.r && h.r <= b1 {
            let qi: usize = (h.q + b1) as usize;
            let ri: usize = (h.r + b1) as usize;
            proof {
                self.lemma_idx_bounds(h.q as int, h.r as int);
            }
            assert(qi * self.side + ri < 0x1800_0000) by (nonlinear_arith)
            requires
                qi <= self.side - 1,
                ri <= self.side - 1,
                1 <= self.side <= 19_999,
        ;
        let ix: usize = qi * self.side + ri;
            self.cells[ix]
        } else {
            None
        }
    }

    /// Claims the cell for territory `t`; every other cell is unchanged.
    pub fn set_cell(&mut self, h: &Hex, t: usize)
        requires
            old(self).wf(),
            h.in_range(1_000_000),
            h.spec_dist0() < old(self).spec_bound(),
        ensures
            final(self).wf(),
            final(self).spec_bound() == old(self).spec_bound(),
            final(self).at(h.q as int, h.r as int) == Some(t),
            forall|q: int, r: int|
                !(q == h.q as int && r == h.r as int) ==> final(self).at(q, r) == old(self).at(
                    q,
                    r,
                ),
    {
        let b1: i32 = (self.bound - 1) as i32;
        let qi: usize = (h.q + b1) as usize;
        let ri: usize = (h.r + b1) as usize;
        proof {
            self.lemma_idx_bounds(h.q as int, h.r as int);
        }
        assert(qi * self.side + ri < 0x1800_0000) by (nonlinear_arith)
            requires
                qi <= self.side - 1,
                ri <= self.side - 1,
                1 <= self.side <= 19_999,
        ;
        let ix: usize = qi * self.side + ri;
        self.cells.set(ix, Some(t));
        proof {
            assert forall|q: int, r: int|
                !(q == h.q as int && r == h.r as int) implies self.at(q, r) == old(self).at(
                q,
                r,
            ) by {
                if self.in_square(q, r) {
                    self.lemma_idx_bounds(q, r);
                    self.lemma_idx_injective(q, r, h.q as int, h.r as int);
                }
            }
        }
    }

    /// Releases the cell; every other cell is unchanged.
    pub fn clear_cell(&mut self, h: &Hex)
        requires
            old(self).wf(),
            h.in_range(1_000_000),
            h.spec_dist0() < old(self).spec_bound(),
        ensures
            final(self).wf(),
            final(self).spec_bound() == old(self).spec_bound(),
            final(self).at(h.q as int, h.r as int) is None,
            forall|q: int, r: int|
                !(q == h.q as int && r == h.r as int) ==> final(self).at(q, r) == old(self).at(
                    q,
                    r,
                ),
    {
        let b1: i32 = (self.bound - 1) as i32;
        let qi: usize = (h.q + b1) as usize;
        let ri: usize = (h.r + b1) as usize;
        proof {
            self.lemma_idx_bounds(h.q as int, h.r as int);
        }
        assert(qi * self.side + ri < 0x1800_0000) by (nonlinear_arith)
            requires
                qi <= self.side - 1,
                ri <= self.side - 1,
                1 <= self.side <= 19_999,
        ;
        let ix: usize = qi * self.side + ri;
        self.cells.set(ix, None);
        proof {
            assert forall|q: int, r: int|
                !(q == h.q as int && r == h.r as int) implies self.at(q, r) == old(self).at(
                q,
                r,
            ) by {
                if self.in_square(q, r) {
                    self.lemma_idx_bounds(q, r);
                    self.lemma_idx_injective(q, r, h.q as int, h.r as int);
                }
            }
        }
    }
}

} // verus!
