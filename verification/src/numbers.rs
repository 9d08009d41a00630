//! Common divisors and common multiples of unsigned integers.

use vstd::arithmetic::div_mod::{lemma_fundamental_div_mod, lemma_mod_multiples_basic};
use vstd::prelude::*;

verus! {

/// `n` is a multiple of `d`.
pub open spec fn is_multiple(n: int, d: int) -> bool {
    d > 0 && n % d == 0
}

/// `g` is `a * x + b * y`.
pub open spec fn combines(a: int, b: int, g: int, x: int, y: int) -> bool {
    g == a * x + b * y
}

/// `g` is the greatest common divisor of `a` and `b`: it divides both, and
/// it is a sum of multiples of the two, so that every common divisor of
/// them divides it.
pub open spec fn is_gcd(a: int, b: int, g: int) -> bool {
    &&& is_multiple(a, g)
    &&& is_multiple(b, g)
    &&& exists|x: int, y: int| combines(a, b, g, x, y)
}

/// `l` is the least common multiple of `a` and `b`: a multiple of both that
/// divides every other.
pub open spec fn is_lcm(a: int, b: int, l: int) -> bool {
    &&& l > 0
    &&& is_multiple(l, a)
    &&& is_multiple(l, b)
    &&& forall|m: int| is_multiple(m, a) && is_multiple(m, b) ==> #[trigger] is_multiple(m, l)
}

/// A product with `d` is a multiple of `d`.
pub proof fn lemma_product_is_multiple(k: int, d: int)
    requires
        d > 0,
    ensures
        is_multiple(k * d, d),
        is_multiple(d * k, d),
{
    lemma_mod_multiples_basic(k, d);
    assert(k * d == d * k) by (nonlinear_arith);
}

/// A multiple of `d` is `d` times its quotient by `d`.
pub proof fn lemma_multiple_is_product(n: int, d: int)
    requires
        is_multiple(n, d),
    ensures
        n == (n / d) * d,
        n == d * (n / d),
{
    lemma_fundamental_div_mod(n, d);
    assert((n / d) * d == d * (n / d)) by (nonlinear_arith);
}

/// A positive multiple of `d` is at least `d`, and its quotient by `d` is
/// at least one.
pub proof fn lemma_multiple_is_large(n: int, d: int)
    requires
        is_multiple(n, d),
        n > 0,
    ensures
        n >= d,
        n / d >= 1,
{
    lemma_multiple_is_product(n, d);
    let q = n / d;
    assert(q >= 1) by (nonlinear_arith)
        requires
            n == q * d,
            n > 0,
            d > 0,
    ;
    assert(q * d >= d) by (nonlinear_arith)
        requires
            q >= 1,
            d > 0,
    ;
}

/// A multiple of a multiple of `d` is a multiple of `d`.
pub proof fn lemma_multiple_transitive(n: int, m: int, d: int)
    requires
        is_multiple(n, m),
        is_multiple(m, d),
    ensures
        is_multiple(n, d),
        n / d == (n / m) * (m / d),
{
    lemma_multiple_is_product(n, m);
    lemma_multiple_is_product(m, d);
    let p = n / m;
    let q = m / d;
    assert(n == (p * q) * d) by (nonlinear_arith)
        requires
            n == p * m,
            m == q * d,
    ;
    lemma_product_is_multiple(p * q, d);
    vstd::arithmetic::div_mod::lemma_div_multiples_vanish(p * q, d);
    assert(d * (p * q) == (p * q) * d) by (nonlinear_arith);
}

/// Where `g` is the greatest common divisor of `a` and `b`, the product of
/// `a / g` and `b` is their least common multiple.
pub proof fn lemma_lcm_from_gcd(a: int, b: int, g: int)
    requires
        a > 0,
        b > 0,
        is_gcd(a, b, g),
    ensures
        is_lcm(a, b, (a / g) * b),
{
    let (x, y) = choose|x: int, y: int| combines(a, b, g, x, y);
    lemma_multiple_is_product(a, g);
    lemma_multiple_is_product(b, g);
    let a1 = a / g;
    let b1 = b / g;
    let l = a1 * b;
    assert(a1 > 0) by (nonlinear_arith)
        requires
            a == a1 * g,
            a > 0,
            g > 0,
    ;
    assert(l > 0) by (nonlinear_arith)
        requires
            l == a1 * b,
            a1 > 0,
            b > 0,
    ;
    assert(l == b1 * a) by (nonlinear_arith)
        requires
            l == a1 * b,
            a == a1 * g,
            b == b1 * g,
    ;
    lemma_product_is_multiple(a1, b);
    lemma_product_is_multiple(b1, a);
    assert forall|m: int| is_multiple(m, a) && is_multiple(m, b) implies #[trigger] is_multiple(
        m,
        l,
    ) by {
        lemma_multiple_is_product(m, a);
        lemma_multiple_is_product(m, b);
        let p = m / a;
        let q = m / b;
        let k = q * x + p * y;
        let ab = a * b;
        assert(g * m == a * x * m + b * y * m) by (nonlinear_arith)
            requires
                g == a * x + b * y,
        ;
        assert(a * x * m == ab * (q * x)) by (nonlinear_arith)
            requires
                m == q * b,
                ab == a * b,
        ;
        assert(b * y * m == ab * (p * y)) by (nonlinear_arith)
            requires
                m == p * a,
                ab == a * b,
        ;
        assert(ab * (q * x) + ab * (p * y) == ab * k) by (nonlinear_arith)
            requires
                k == q * x + p * y,
        ;
        assert(ab == g * l) by (nonlinear_arith)
            requires
                ab == a * b,
                a == a1 * g,
                l == a1 * b,
        ;
        assert((g * l) * k == g * (k * l)) by (nonlinear_arith);
        vstd::arithmetic::mul::lemma_mul_equality_converse(g, m, k * l);
        lemma_product_is_multiple(k, l);
    }
}

/// The greatest common divisor of two positive integers.
pub fn gcd(a: u128, b: u128) -> (g: u128)
    requires
        a > 0,
        b > 0,
    ensures
        g > 0,
        is_gcd(a as int, b as int, g as int),
{
    let mut r0: u128 = a;
    let mut r1: u128 = b;
    let ghost mut x0: int = 1;
    let ghost mut y0: int = 0;
    let ghost mut x1: int = 0;
    let ghost mut y1: int = 1;
    assert(combines(a as int, b as int, a as int, 1, 0)) by (nonlinear_arith);
    assert(combines(a as int, b as int, b as int, 0, 1)) by (nonlinear_arith);
    while r1 != 0
        invariant
            r0 > 0,
            combines(a as int, b as int, r0 as int, x0, y0),
            combines(a as int, b as int, r1 as int, x1, y1),
            forall|d: int|
                is_multiple(r0 as int, d) && d > 0 && r1 as int % d == 0 ==> is_multiple(
                    a as int,
                    d,
                ) && is_multiple(b as int, d),
        decreases r1,
    {
        let q = r0 / r1;
        let r2 = r0 % r1;
        proof {
            lemma_fundamental_div_mod(r0 as int, r1 as int);
            let x2 = x0 - q * x1;
            let y2 = y0 - q * y1;
            assert(combines(a as int, b as int, r2 as int, x2, y2)) by (nonlinear_arith)
                requires
                    r0 == a * x0 + b * y0,
                    r1 == a * x1 + b * y1,
                    r0 == r1 * q + r2,
                    x2 == x0 - q * x1,
                    y2 == y0 - q * y1,
            ;
            assert forall|d: int|
                is_multiple(r1 as int, d) && d > 0 && r2 as int % d == 0 implies is_multiple(
                a as int,
                d,
            ) && is_multiple(b as int, d) by {
                lemma_multiple_is_product(r1 as int, d);
                lemma_multiple_is_product(r2 as int, d);
                let u = r1 as int / d;
                let v = r2 as int / d;
                assert(r0 as int == (u * q + v) * d) by (nonlinear_arith)
                    requires
                        r0 == r1 * q + r2,
                        r1 == u * d,
                        r2 == v * d,
                ;
                lemma_product_is_multiple(u * q + v, d);
            }
            x0 = x1;
            y0 = y1;
            x1 = x2;
            y1 = y2;
        }
        r0 = r1;
        r1 = r2;
    }
    proof {
        vstd::arithmetic::div_mod::lemma_mod_self_0(r0 as int);
        assert(is_multiple(r0 as int, r0 as int));
    }
    r0
}

/// The least common multiple of two positive integers, or nothing where it
/// does not fit the machine type.
pub fn lcm(a: u128, b: u128) -> (l: Option<u128>)
    requires
        a > 0,
        b > 0,
    ensures
        l matches Some(m) ==> is_lcm(a as int, b as int, m as int),
        l is None ==> forall|m: int|
            m > 0 && is_multiple(m, a as int) && is_multiple(m, b as int) ==> m > u128::MAX,
{
    let g = gcd(a, b);
    proof {
        lemma_lcm_from_gcd(a as int, b as int, g as int);
    }
    let ghost exact = (a as int / g as int) * b as int;
    let l = (a / g).checked_mul(b);
    proof {
        if l is None {
            assert forall|m: int|
                m > 0 && is_multiple(m, a as int) && is_multiple(m, b as int) implies m
                > u128::MAX by {
                assert(is_multiple(m, exact));
                lemma_multiple_is_large(m, exact);
            }
        }
    }
    l
}

} // verus!
