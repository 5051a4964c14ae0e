use vstd::prelude::*;

verus! {

/// A point of the hexagonal lattice in cube coordinates.
/// Valid points satisfy `q + r + s == 0`.
#[derive(Clone, Copy, PartialEq, Eq, Hash, Structural, Debug)]
pub struct Hex {
    pub q: i32,
    pub r: i32,
    pub s: i32,
}

/// Absolute value of a mathematical integer.
pub open spec fn abs_int(x: int) -> int {
    if x < 0 {
        -x
    } else {
        x
    }
}

/// The greater of two mathematical integers.
pub open spec fn max_int(a: int, b: int) -> int {
    if a < b {
        b
    } else {
        a
    }
}

impl Hex {
    /// The cube-coordinate invariant: the three coordinates sum to zero.
    pub open spec fn wf(self) -> bool {
        self.q + self.r + self.s == 0
    }

    /// All three coordinates lie within `bound` of zero; used to keep
    /// coordinate arithmetic free of overflow.
    pub open spec fn in_range(self, bound: int) -> bool {
        &&& -bound <= self.q <= bound
        &&& -bound <= self.r <= bound
        &&& -bound <= self.s <= bound
    }

    /// Lattice distance from the origin: the greatest absolute coordinate.
    pub open spec fn spec_dist0(self) -> int {
        max_int(max_int(abs_int(self.q as int), abs_int(self.r as int)), abs_int(self.s as int))
    }

    pub fn new(q: i32, r: i32, s: i32) -> (h: Hex)
        requires
            q + r + s == 0,
        ensures
            h == (Hex { q, r, s }),
            h.wf(),
    {
        Hex { q, r, s }
    }

    /// Component-wise sum of two lattice points.
    pub fn plus(&self, other: &Hex) -> (h: Hex)
        requires
            self.in_range(1_000_000),
            other.in_range(1_000_000),
        ensures
            h.q == self.q + other.q,
            h.r == self.r + other.r,
            h.s == self.s + other.s,
            self.wf() && other.wf() ==> h.wf(),
    {
        Hex { q: self.q + other.q, r: self.r + other.r, s: self.s + other.s }
    }

    /// Lattice distance from the origin, as executable code.
    pub fn dist_from_origin(&self) -> (d: i32)
        requires
            self.in_range(1_000_000),
        ensures
            d == self.spec_dist0(),
    {
        let aq: i32 = if self.q < 0 {
            -self.q
        } else {
            self.q
        };
        let ar: i32 = if self.r < 0 {
            -self.r
        } else {
            self.r
        };
        let az: i32 = if self.s < 0 {
            -self.s
        } else {
            self.s
        };
        let mut m: i32 = aq;
        if ar > m {
            m = ar;
        }
        if az > m {
            m = az;
        }
        m
    }

    /// The six orthogonal neighbour offsets of the hexagonal lattice.
    pub fn orthogonal() -> (dirs: [Hex; 6])
        ensures
            dirs@.len() == 6,
            forall|d: int| 0 <= d < 6 ==> dirs@[d] == spec_dir(d),
    {
        [
            Hex { q: 1, r: -1, s: 0 },
            Hex { q: -1, r: 1, s: 0 },
            Hex { q: 0, r: 1, s: -1 },
            Hex { q: 0, r: -1, s: 1 },
            Hex { q: 1, r: 0, s: -1 },
            Hex { q: -1, r: 0, s: 1 },
        ]
    }
}

/// The six orthogonal neighbour offsets, as a specification-level table.
pub open spec fn spec_dir(d: int) -> Hex {
    if d == 0 {
        Hex { q: 1i32, r: -1i32, s: 0i32 }
    } else if d == 1 {
        Hex { q: -1i32, r: 1i32, s: 0i32 }
    } else if d == 2 {
        Hex { q: 0i32, r: 1i32, s: -1i32 }
    } else if d == 3 {
        Hex { q: 0i32, r: -1i32, s: 1i32 }
    } else if d == 4 {
        Hex { q: 1i32, r: 0i32, s: -1i32 }
    } else {
        Hex { q: -1i32, r: 0i32, s: 1i32 }
    }
}

/// The index of the offset opposite to offset `d`.
pub open spec fn opposite_dir(d: int) -> int {
    if d == 0 {
        1
    } else if d == 1 {
        0
    } else if d == 2 {
        3
    } else if d == 3 {
        2
    } else if d == 4 {
        5
    } else {
        4
    }
}

/// `b` is one orthogonal step away from `a`.
pub open spec fn is_neighbor(a: Hex, b: Hex) -> bool {
    exists|d: int|
        0 <= d < 6 && b.q == a.q + #[trigger] spec_dir(d).q && b.r == a.r + spec_dir(d).r && b.s
            == a.s + spec_dir(d).s
}

/// Each offset's opposite is again one of the six offsets, and undoes it.
pub proof fn lemma_opposite_dir(d: int)
    requires
        0 <= d < 6,
    ensures
        0 <= opposite_dir(d) < 6,
        spec_dir(opposite_dir(d)).q == -spec_dir(d).q,
        spec_dir(opposite_dir(d)).r == -spec_dir(d).r,
        spec_dir(opposite_dir(d)).s == -spec_dir(d).s,
{
}

/// The one-step neighbour relation on the lattice is symmetric.
pub proof fn lemma_neighbor_symmetric(a: Hex, b: Hex)
    requires
        is_neighbor(a, b),
    ensures
        is_neighbor(b, a),
{
    let d = choose|d: int|
        0 <= d < 6 && b.q == a.q + #[trigger] spec_dir(d).q && b.r == a.r + spec_dir(d).r && b.s
            == a.s + spec_dir(d).s;
    lemma_opposite_dir(d);
    let e = opposite_dir(d);
    assert(a.q == b.q + spec_dir(e).q && a.r == b.r + spec_dir(e).r && a.s == b.s + spec_dir(e).s);
}

} // verus!
