//! Exact non-negative fractions, the library's numbers between 0 and 1.

use vstd::prelude::*;

verus! {

/// The fraction `numer / denom`, kept as it was computed and never reduced.
#[derive(Clone, Copy, Debug, PartialEq, Eq)]
pub struct Ratio {
    pub numer: u128,
    pub denom: u128,
}

impl Ratio {
    /// The denominator is not zero, so the fraction is a number.
    pub open spec fn wf(self) -> bool {
        self.denom > 0
    }

    /// The fraction lies between 0 and 1 inclusive.
    pub open spec fn is_proportion(self) -> bool {
        0 < self.denom && self.numer <= self.denom
    }

    /// The fraction is the number `n / d`.
    pub open spec fn is(self, n: int, d: int) -> bool {
        self.numer * d == n * self.denom
    }

    /// The fraction is at most `other`.
    pub open spec fn at_most(self, other: Ratio) -> bool {
        self.numer * other.denom <= other.numer * self.denom
    }

    /// The fraction is strictly below `other`.
    pub open spec fn less_than(self, other: Ratio) -> bool {
        self.numer * other.denom < other.numer * self.denom
    }

    /// The fraction `numer / denom`.
    pub fn new(numer: u128, denom: u128) -> (r: Ratio)
        requires
            denom > 0,
        ensures
            r.numer == numer,
            r.denom == denom,
    {
        Ratio { numer, denom }
    }

    /// Whether the fraction is strictly above `other`.
    ///
    /// The two are compared as continued fractions, whole part by whole
    /// part, so that no product is ever formed.
    pub fn is_above(self, other: Ratio) -> (r: bool)
        requires
            self.wf(),
            other.wf(),
        ensures
            r == other.less_than(self),
    {
        let mut left_numer = self.numer;
        let mut left_denom = self.denom;
        let mut right_numer = other.numer;
        let mut right_denom = other.denom;
        loop
            invariant
                left_denom > 0,
                right_denom > 0,
                (left_numer * right_denom > right_numer * left_denom) == other.less_than(self),
            decreases left_denom + right_denom,
        {
            let left_whole = left_numer / left_denom;
            let right_whole = right_numer / right_denom;
            let left_rest = left_numer % left_denom;
            let right_rest = right_numer % right_denom;
            proof {
                lemma_compare_by_parts(
                    left_whole as int,
                    left_rest as int,
                    left_denom as int,
                    right_whole as int,
                    right_rest as int,
                    right_denom as int,
                );
                assert(left_numer == left_whole * left_denom + left_rest) by {
                    vstd::arithmetic::div_mod::lemma_fundamental_div_mod(
                        left_numer as int,
                        left_denom as int,
                    );
                    assert(left_denom * left_whole == left_whole * left_denom)
                        by (nonlinear_arith);
                }
                assert(right_numer == right_whole * right_denom + right_rest) by {
                    vstd::arithmetic::div_mod::lemma_fundamental_div_mod(
                        right_numer as int,
                        right_denom as int,
                    );
                    assert(right_denom * right_whole == right_whole * right_denom)
                        by (nonlinear_arith);
                }
            }
            if left_whole != right_whole {
                return left_whole > right_whole;
            }
            if left_rest == 0 {
                return false;
            }
            if right_rest == 0 {
                return true;
            }
            left_numer = right_denom;
            right_numer = left_denom;
            left_denom = right_rest;
            right_denom = left_rest;
        }
    }
}

/// How `w1 + r1 / q1` and `w2 + r2 / q2` compare, where the rests are
/// proper fractions: by their whole parts if these differ, else as the
/// rests do, which compare as their inverses do the other way round.
proof fn lemma_compare_by_parts(w1: int, r1: int, q1: int, w2: int, r2: int, q2: int)
    requires
        0 <= r1 < q1,
        0 <= r2 < q2,
        0 <= w1,
        0 <= w2,
    ensures
        w1 > w2 ==> (w1 * q1 + r1) * q2 > (w2 * q2 + r2) * q1,
        w1 < w2 ==> (w1 * q1 + r1) * q2 < (w2 * q2 + r2) * q1,
        w1 == w2 ==> (((w1 * q1 + r1) * q2 > (w2 * q2 + r2) * q1) == (q2 * r1 > q1 * r2)),
        w1 == w2 && r1 == 0 ==> !((w1 * q1 + r1) * q2 > (w2 * q2 + r2) * q1),
        w1 == w2 && r1 > 0 && r2 == 0 ==> (w1 * q1 + r1) * q2 > (w2 * q2 + r2) * q1,
{
    assert((w1 * q1 + r1) * q2 - (w2 * q2 + r2) * q1 == (w1 - w2) * (q1 * q2) + (r1 * q2 - r2 * q1)
        && q2 * r1 == r1 * q2 && q1 * r2 == r2 * q1) by (nonlinear_arith);
    assert(0 <= r1 * q2 < q1 * q2 && 0 <= r2 * q1 < q1 * q2) by (nonlinear_arith)
        requires
            0 <= r1 < q1,
            0 <= r2 < q2,
    ;
    if w1 > w2 {
        assert((w1 - w2) * (q1 * q2) >= q1 * q2) by (nonlinear_arith)
            requires
                w1 - w2 >= 1,
                q1 * q2 > 0,
        ;
    }
    if w1 < w2 {
        assert((w1 - w2) * (q1 * q2) <= -(q1 * q2)) by (nonlinear_arith)
            requires
                w1 - w2 <= -1,
                q1 * q2 > 0,
        ;
    }
    if w1 == w2 {
        assert((w1 - w2) * (q1 * q2) == 0) by (nonlinear_arith)
            requires
                w1 - w2 == 0,
        ;
        if r1 > 0 && r2 == 0 {
            assert(r1 * q2 > 0) by (nonlinear_arith)
                requires
                    r1 > 0,
                    q2 > 0,
            ;
        }
    }
}

} // verus!
