//! Exact representation of path costs of the form `cardinal + diagonal * sqrt(2)`.
//!
//! Every path on the grid is a sequence of unit-cost cardinal steps and
//! sqrt(2)-cost diagonal steps, so its total cost is determined by the pair of
//! step counters. Because sqrt(2) is irrational, two distinct pairs never
//! denote the same real number, and the order on these costs can be decided
//! exactly with integer arithmetic: `a < b * sqrt(2)` holds iff either `a` is
//! negative and `b` is not, or both are nonnegative and `a^2 < 2 * b^2`, or
//! both are negative and `a^2 > 2 * b^2`.

use vstd::prelude::*;

verus! {

/// A path cost: `cardinal` counts straight steps (cost 1 each) and `diagonal`
/// counts diagonal steps (cost sqrt(2) each).
#[derive(Clone, Copy, Debug, PartialEq, Eq, Structural)]
pub struct Cost {
    pub cardinal: u64,
    pub diagonal: u64,
}

/// Both step counters are at most 2^63, so that squares of differences of
/// counters fit in `u128` when costs are compared.
pub open spec fn cost_bounded(c: Cost) -> bool {
    c.cardinal <= 0x8000_0000_0000_0000 && c.diagonal <= 0x8000_0000_0000_0000
}

/// `a < b * sqrt(2)`, decided in integer arithmetic.
pub open spec fn below_sqrt2_mult(a: int, b: int) -> bool {
    if b >= 0 {
        a < 0 || a * a < 2 * (b * b)
    } else {
        a < 0 && a * a > 2 * (b * b)
    }
}

/// The strict order on costs: `c1.cardinal + c1.diagonal * sqrt(2)` is less
/// than `c2.cardinal + c2.diagonal * sqrt(2)`.
pub open spec fn cost_lt(c1: Cost, c2: Cost) -> bool {
    below_sqrt2_mult(c1.cardinal - c2.cardinal, c2.diagonal - c1.diagonal)
}

impl Cost {
    /// The zero cost, the cost of the empty path.
    pub fn zero() -> (r: Cost)
        ensures
            r.cardinal == 0,
            r.diagonal == 0,
    {
        Cost { cardinal: 0, diagonal: 0 }
    }

    /// The cost of this path extended by one step: a diagonal step when
    /// `diagonal` is set, otherwise a cardinal step.
    pub fn plus_step(&self, diagonal: bool) -> (r: Cost)
        requires
            self.cardinal < u64::MAX,
            self.diagonal < u64::MAX,
        ensures
            diagonal ==> r.cardinal == self.cardinal && r.diagonal == self.diagonal + 1,
            !diagonal ==> r.cardinal == self.cardinal + 1 && r.diagonal == self.diagonal,
    {
        if diagonal {
            Cost { cardinal: self.cardinal, diagonal: self.diagonal + 1 }
        } else {
            Cost { cardinal: self.cardinal + 1, diagonal: self.diagonal }
        }
    }

    /// Exact strict comparison of two costs.
    pub fn lt(&self, other: &Cost) -> (r: bool)
        requires
            cost_bounded(*self),
            cost_bounded(*other),
        ensures
            r == cost_lt(*self, *other),
    {
        let a_nonneg = self.cardinal >= other.cardinal;
        let a_mag: u64 = if a_nonneg {
            self.cardinal - other.cardinal
        } else {
            other.cardinal - self.cardinal
        };
        let b_nonneg = other.diagonal >= self.diagonal;
        let b_mag: u64 = if b_nonneg {
            other.diagonal - self.diagonal
        } else {
            self.diagonal - other.diagonal
        };
        proof {
            let a = self.cardinal - other.cardinal;
            let b = other.diagonal - self.diagonal;
            assert((a_mag as int) * (a_mag as int) == a * a) by (nonlinear_arith)
                requires
                    a_mag == if a >= 0 { a } else { -a },
            ;
            assert((b_mag as int) * (b_mag as int) == b * b) by (nonlinear_arith)
                requires
                    b_mag == if b >= 0 { b } else { -b },
            ;
            assert((a_mag as int) * (a_mag as int) <= 0x8000_0000_0000_0000 * 0x8000_0000_0000_0000)
                by (nonlinear_arith)
                requires
                    0 <= a_mag <= 0x8000_0000_0000_0000,
            ;
            assert((b_mag as int) * (b_mag as int) <= 0x8000_0000_0000_0000 * 0x8000_0000_0000_0000)
                by (nonlinear_arith)
                requires
                    0 <= b_mag <= 0x8000_0000_0000_0000,
            ;
        }
        let a_sq: u128 = (a_mag as u128) * (a_mag as u128);
        let b_sq_2: u128 = 2 * ((b_mag as u128) * (b_mag as u128));
        if b_nonneg {
            !a_nonneg || a_sq < b_sq_2
        } else {
            !a_nonneg && a_sq > b_sq_2
        }
    }
}

} // verus!
