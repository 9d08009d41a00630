//! Exact quotients of two unsigned integers.

use vstd::prelude::*;

verus! {

/// A quotient that is never negative, held as numerator and denominator.
/// It need not be in lowest terms.
#[derive(Clone, Copy, Debug, PartialEq, Eq, Structural)]
pub struct Ratio {
    pub num: u128,
    pub den: u128,
}

impl Ratio {
    /// The denominator is not zero.
    pub open spec fn wf(self) -> bool {
        self.den > 0
    }

    /// The number that the quotient stands for.
    pub open spec fn value(self) -> real {
        self.num as real / self.den as real
    }

    /// The quotient `num / den`.
    pub fn new(num: u128, den: u128) -> (r: Ratio)
        requires
            den > 0,
        ensures
            r == (Ratio { num, den }),
            r.wf(),
    {
        Ratio { num, den }
    }

    /// Zero, as `0 / 1`.
    pub fn zero() -> (r: Ratio)
        ensures
            r == (Ratio { num: 0, den: 1 }),
            r.wf(),
            r.value() == 0real,
    {
        let r = Ratio { num: 0, den: 1 };
        assert(r.value() == 0real) by (nonlinear_arith)
            requires
                r.num == 0,
                r.den == 1,
        ;
        r
    }

    /// Whether the quotient is at most `bound`: whether the numerator is at
    /// most `bound` times the denominator.
    pub fn at_most(&self, bound: u128) -> (yes: bool)
        ensures
            yes == (self.num <= bound * self.den),
            self.wf() ==> yes == (self.value() <= bound as real),
    {
        proof {
            if self.wf() {
                lemma_value_at_most(self.num as nat, self.den as nat, bound as nat);
            }
        }
        match bound.checked_mul(self.den) {
            Some(scaled) => self.num <= scaled,
            None => true,
        }
    }
}

/// A quotient is at most `bound` exactly when its numerator is at most
/// `bound` times its denominator.
pub proof fn lemma_value_at_most(num: nat, den: nat, bound: nat)
    requires
        den > 0,
    ensures
        (num as real / den as real <= bound as real) <==> num <= bound * den,
{
    let n = num as real;
    let d = den as real;
    let b = bound as real;
    assert((bound * den) as real == b * d) by (nonlinear_arith)
        requires
            b == bound as real,
            d == den as real,
    ;
    assert((n / d <= b) <==> n <= b * d) by (nonlinear_arith)
        requires
            d > 0real,
    ;
}

/// A quotient with a denominator that is not zero is a number that is not
/// negative, and not above one where the numerator is not above the
/// denominator.
pub proof fn lemma_value_bounds(r: Ratio)
    requires
        r.wf(),
    ensures
        r.value() >= 0real,
        r.num <= r.den ==> r.value() <= 1real,
{
    let n = r.num as real;
    let d = r.den as real;
    assert(n / d >= 0real) by (nonlinear_arith)
        requires
            n >= 0real,
            d > 0real,
    ;
    if r.num <= r.den {
        assert(n / d <= 1real) by (nonlinear_arith)
            requires
                n <= d,
                d > 0real,
        ;
    }
}

} // verus!
