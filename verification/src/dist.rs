//! Exact squared Euclidean distances between integer points.
//!
//! The square root is monotone, so ordering points by their squared distance
//! orders them by their Euclidean distance.  A squared distance between two
//! points with `i64` coordinates can exceed every machine integer, so it is
//! kept in two 128-bit limbs.

use vstd::prelude::*;

verus! {

/// The weight of the high limb of a [`Dist`]: two to the power 128.
pub open spec fn limb() -> nat {
    0x1_0000_0000_0000_0000_0000_0000_0000_0000nat
}

/// The square of an integer.
pub open spec fn sq(x: int) -> nat {
    (x * x) as nat
}

/// The sum of the squared coordinate differences over the first `n` axes.
pub open spec fn sq_dist_upto(p: Seq<i64>, q: Seq<i64>, n: int) -> nat
    decreases n,
{
    if n <= 0 {
        0
    } else {
        sq_dist_upto(p, q, n - 1) + sq(p[n - 1] - q[n - 1])
    }
}

/// The squared Euclidean distance between `p` and `q`.  Where one of them
/// has more coordinates than the other, the surplus is left out.
pub open spec fn sq_dist(p: Seq<i64>, q: Seq<i64>) -> nat {
    if p.len() <= q.len() {
        sq_dist_upto(p, q, p.len() as int)
    } else {
        sq_dist_upto(p, q, q.len() as int)
    }
}

/// A squared distance never falls below the squared difference along any
/// one axis: the distance to a hyperplane bounds the distance to whatever
/// lies behind it.
pub proof fn lemma_sq_dist_bounds_axis(p: Seq<i64>, q: Seq<i64>, n: int, axis: int)
    requires
        0 <= axis < n,
    ensures
        sq(p[axis] - q[axis]) <= sq_dist_upto(p, q, n),
    decreases n,
{
    if axis < n - 1 {
        lemma_sq_dist_bounds_axis(p, q, n - 1, axis);
    }
}

/// Squares grow with the magnitude of what is squared.
pub proof fn lemma_sq_monotone(x: int, y: int)
    requires
        0 <= x <= y || y <= x <= 0,
    ensures
        sq(x) <= sq(y),
        sq(x) == x * x,
        sq(y) == y * y,
{
    assert(0 <= x * x <= y * y) by (nonlinear_arith)
        requires
            0 <= x <= y || y <= x <= 0,
    ;
}

/// An exact squared distance, `hi * 2^128 + lo`.
#[derive(Debug, Clone, Copy)]
pub struct Dist {
    pub hi: u128,
    pub lo: u128,
}

impl View for Dist {
    type V = nat;

    open spec fn view(&self) -> nat {
        self.hi as nat * limb() + self.lo as nat
    }
}

impl Dist {
    /// The distance of a point from itself.
    pub fn zero() -> (d: Dist)
        ensures
            d@ == 0,
            d.hi == 0,
            d.lo == 0,
    {
        Dist { hi: 0, lo: 0 }
    }

    /// Adds the squared difference of two coordinates.
    pub fn add_square(self, a: i64, b: i64) -> (d: Dist)
        requires
            self.hi < u128::MAX,
        ensures
            d@ == self@ + sq(a - b),
            d.hi <= self.hi + 1,
    {
        let gap: u128 = if a >= b {
            (a as i128 - b as i128) as u128
        } else {
            (b as i128 - a as i128) as u128
        };
        assert(gap * gap <= 0xFFFF_FFFF_FFFF_FFFF * 0xFFFF_FFFF_FFFF_FFFF) by (nonlinear_arith)
            requires
                0 <= gap <= 0xFFFF_FFFF_FFFF_FFFF,
        ;
        assert(gap * gap == sq(a - b)) by (nonlinear_arith)
            requires
                gap == a - b || gap == b - a,
        ;
        let term: u128 = gap * gap;
        if self.lo > u128::MAX - term {
            Dist { hi: self.hi + 1, lo: self.lo - (u128::MAX - term) - 1 }
        } else {
            Dist { hi: self.hi, lo: self.lo + term }
        }
    }

    /// Whether this distance is strictly smaller than `other`.
    pub fn lt(&self, other: &Dist) -> (b: bool)
        ensures
            b == (self@ < other@),
    {
        self.hi < other.hi || (self.hi == other.hi && self.lo < other.lo)
    }
}

/// The squared Euclidean distance between two points, over the coordinates
/// that both have.
pub fn sq_distance(p: &Vec<i64>, q: &Vec<i64>) -> (d: Dist)
    ensures
        d@ == sq_dist(p@, q@),
{
    let n: usize = if p.len() <= q.len() {
        p.len()
    } else {
        q.len()
    };
    let mut d = Dist::zero();
    let mut i: usize = 0;
    while i < n
        invariant
            i <= n,
            n <= p.len(),
            n <= q.len(),
            d@ == sq_dist_upto(p@, q@, i as int),
            d.hi <= i,
        decreases n - i,
    {
        d = d.add_square(p[i], q[i]);
        i += 1;
    }
    d
}

} // verus!
