//! A 2-D coordinate with an integer Euclidean distance metric.

use vstd::prelude::*;

verus! {

/// Square of an integer, used by the distance specification.
pub open spec fn sqr(x: int) -> int {
    x * x
}

/// `r` is the floor of the (real) square root of `n`.
pub open spec fn is_sqrt_floor(n: int, r: int) -> bool {
    0 <= r && sqr(r) <= n < sqr(r + 1)
}

/// The floor of a square root is unique: two candidates for the same
/// radicand are equal.
pub proof fn lemma_sqrt_floor_unique(n: int, r1: int, r2: int)
    requires
        is_sqrt_floor(n, r1),
        is_sqrt_floor(n, r2),
    ensures
        r1 == r2,
{
    if r1 < r2 {
        assert(sqr(r1 + 1) <= sqr(r2)) by (nonlinear_arith)
            requires
                0 <= r1,
                r1 + 1 <= r2,
        ;
    }
    if r2 < r1 {
        assert(sqr(r2 + 1) <= sqr(r1)) by (nonlinear_arith)
            requires
                0 <= r2,
                r2 + 1 <= r1,
        ;
    }
}

/// Floor of the square root of `n`, by binary search on the answer.
fn isqrt(n: u128) -> (r: u64)
    ensures
        is_sqrt_floor(n as int, r as int),
{
    let mut lo: u128 = 0;
    let mut hi: u128 = 0x1_0000_0000_0000_0000;
    proof {
        assert((n as int) < sqr(hi as int)) by (nonlinear_arith)
            requires
                hi == 0x1_0000_0000_0000_0000u128,
                n <= u128::MAX,
        ;
    }
    while lo + 1 < hi
        invariant
            lo < hi <= 0x1_0000_0000_0000_0000u128,
            sqr(lo as int) <= n as int,
            (n as int) < sqr(hi as int),
        decreases hi - lo,
    {
        let mid: u128 = lo + (hi - lo) / 2;
        proof {
            assert(sqr(mid as int) <= sqr(0xffff_ffff_ffff_ffffu128 as int)) by (nonlinear_arith)
                requires
                    0 <= mid <= 0xffff_ffff_ffff_ffffu128,
            ;
        }
        if mid * mid <= n {
            lo = mid;
        } else {
            hi = mid;
        }
    }
    lo as u64
}

/// A 2-D coordinate. Pure value type; equality is structural.
#[derive(Debug, Clone, Copy, PartialEq, Eq, Structural)]
pub struct Point {
    pub row: i32,
    pub col: i32,
}

/// Squared Euclidean distance between two points.
pub open spec fn dist_sq(a: Point, b: Point) -> int {
    sqr(a.row - b.row) + sqr(a.col - b.col)
}

impl Point {
    pub fn new(row: i32, col: i32) -> (p: Point)
        ensures
            p.row == row,
            p.col == col,
    {
        Point { row, col }
    }

    pub fn row(&self) -> (r: i32)
        ensures
            r == self.row,
    {
        self.row
    }

    pub fn col(&self) -> (c: i32)
        ensures
            c == self.col,
    {
        self.col
    }

    /// The floor of the Euclidean distance between `self` and `other`.
    pub fn dist(&self, other: &Point) -> (d: u64)
        ensures
            is_sqrt_floor(dist_sq(*self, *other), d as int),
    {
        let dr: i128 = self.row as i128 - other.row as i128;
        let dc: i128 = self.col as i128 - other.col as i128;
        proof {
            assert(dr * dr == sqr(self.row - other.row) && dc * dc == sqr(self.col - other.col)
                && 0 <= dr * dr < 0x1_0000_0000_0000_0000 && 0 <= dc * dc
                < 0x1_0000_0000_0000_0000) by (nonlinear_arith)
                requires
                    dr == self.row - other.row,
                    dc == self.col - other.col,
                    -0x1_0000_0000 < dr < 0x1_0000_0000,
                    -0x1_0000_0000 < dc < 0x1_0000_0000,
            ;
        }
        let sr: u128 = (dr * dr) as u128;
        let sc: u128 = (dc * dc) as u128;
        isqrt(sr + sc)
    }
}

} // verus!
