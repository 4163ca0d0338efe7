//! Greatest common divisors and fractions in lowest terms.
//!
//! The rational scalar keeps every value in lowest terms. The lemmas here say
//! why that representation is the smallest one a value has, which is what
//! lets an arithmetic operation report exactly when its result does not fit.
use vstd::prelude::*;

verus! {

/// The greatest common divisor of two natural numbers, by Euclid's recursion.
pub open spec fn gcd(a: nat, b: nat) -> nat
    decreases b,
{
    if b == 0 {
        a
    } else {
        gcd(b, a % b)
    }
}

/// `n` and `d` have no common factor: some integer combination of them is one.
pub open spec fn bezout(n: int, d: int, x: int, y: int) -> bool {
    n * x + d * y == 1
}

/// `n / d` is a fraction in lowest terms.
pub open spec fn coprime(n: int, d: int) -> bool {
    exists|x: int, y: int| bezout(n, d, x, y)
}

/// What Euclid's algorithm leaves behind: both quotients by the divisor and
/// the coefficients of the combination that yields it.
pub struct GcdWitness {
    pub qa: int,
    pub qb: int,
    pub x: int,
    pub y: int,
}

/// The divisor `gcd(a, b)` divides both arguments and is an integer
/// combination of them.
pub proof fn lemma_gcd_witness(a: nat, b: nat) -> (w: GcdWitness)
    ensures
        a == gcd(a, b) * w.qa,
        b == gcd(a, b) * w.qb,
        w.qa >= 0,
        w.qb >= 0,
        a * w.x + b * w.y == gcd(a, b),
        b > 0 ==> gcd(a, b) > 0,
        a > 0 ==> gcd(a, b) > 0,
    decreases b,
{
    if b == 0 {
        let w = GcdWitness { qa: 1, qb: 0, x: 1, y: 0 };
        assert(a == a * 1 && 0 == a * 0) by (nonlinear_arith);
        w
    } else {
        let r = a % b;
        let q = a / b;
        vstd::arithmetic::div_mod::lemma_fundamental_div_mod(a as int, b as int);
        vstd::arithmetic::div_mod::lemma_mod_pos_bound(a as int, b as int);
        vstd::arithmetic::div_mod::lemma_div_pos_is_pos(a as int, b as int);
        let v = lemma_gcd_witness(b, r);
        let g = gcd(b, r) as int;
        assert(gcd(a, b) == gcd(b, r));
        let w = GcdWitness { qa: q * v.qa + v.qb, qb: v.qa, x: v.y, y: v.x - q * v.y };
        assert(a == g * (q * v.qa + v.qb)) by (nonlinear_arith)
            requires
                a == b * q + r,
                b == g * v.qa,
                r == g * v.qb,
        ;
        assert(a * v.y + b * (v.x - q * v.y) == g) by (nonlinear_arith)
            requires
                a == b * q + r,
                b * v.x + r * v.y == g,
        ;
        assert(q * v.qa + v.qb >= 0) by (nonlinear_arith)
            requires
                q >= 0,
                v.qa >= 0,
                v.qb >= 0,
        ;
        w
    }
}

/// Dividing both parts of a fraction by their greatest common divisor leaves
/// a fraction in lowest terms.
pub proof fn lemma_reduced_is_coprime(a: nat, b: nat)
    requires
        b > 0,
    ensures
        gcd(a, b) > 0,
        a == gcd(a, b) * (a / gcd(a, b)),
        b == gcd(a, b) * (b / gcd(a, b)),
        b / gcd(a, b) > 0,
        coprime((a / gcd(a, b)) as int, (b / gcd(a, b)) as int),
        coprime(-((a / gcd(a, b)) as int), (b / gcd(a, b)) as int),
{
    let w = lemma_gcd_witness(a, b);
    let g = gcd(a, b) as int;
    vstd::arithmetic::div_mod::lemma_div_multiples_vanish(w.qa, g);
    vstd::arithmetic::div_mod::lemma_div_multiples_vanish(w.qb, g);
    assert(a as int / g == w.qa);
    assert(b as int / g == w.qb);
    assert(w.qb > 0) by (nonlinear_arith)
        requires
            b == g * w.qb,
            b > 0,
            g > 0,
            w.qb >= 0,
    ;
    assert(w.qa * w.x + w.qb * w.y == 1) by (nonlinear_arith)
        requires
            a == g * w.qa,
            b == g * w.qb,
            a * w.x + b * w.y == g,
            g > 0,
    ;
    assert(bezout(w.qa, w.qb, w.x, w.y));
    assert((-w.qa) * (-w.x) + w.qb * w.y == 1) by (nonlinear_arith)
        requires
            w.qa * w.x + w.qb * w.y == 1,
    ;
    assert(bezout(-w.qa, w.qb, -w.x, w.y));
}

/// A fraction in lowest terms is the smallest representation of its value:
/// every other fraction of equal value has a denominator and a numerator at
/// least as large in magnitude.
pub proof fn lemma_lowest_terms_minimal(n0: int, d0: int, n: int, d: int)
    requires
        d0 > 0,
        d > 0,
        coprime(n0, d0),
        n * d0 == n0 * d,
    ensures
        d0 <= d,
        -n <= n0 <= n || n <= n0 <= -n,
{
    let (x, y) = choose|x: int, y: int| bezout(n0, d0, x, y);
    let k = n * x + d * y;
    assert(d == d0 * k) by (nonlinear_arith)
        requires
            n0 * x + d0 * y == 1,
            n * d0 == n0 * d,
            k == n * x + d * y,
    ;
    assert(n == n0 * k) by (nonlinear_arith)
        requires
            n0 * x + d0 * y == 1,
            n * d0 == n0 * d,
            k == n * x + d * y,
    ;
    assert(k >= 1) by (nonlinear_arith)
        requires
            d == d0 * k,
            d > 0,
            d0 > 0,
    ;
    assert(d0 <= d) by (nonlinear_arith)
        requires
            d == d0 * k,
            k >= 1,
            d0 > 0,
    ;
    assert(-n <= n0 <= n || n <= n0 <= -n) by (nonlinear_arith)
        requires
            n == n0 * k,
            k >= 1,
    ;
}

/// Two fractions in lowest terms with positive denominators and equal cross
/// products are the same fraction.
pub proof fn lemma_lowest_terms_unique(n0: int, d0: int, n1: int, d1: int)
    requires
        d0 > 0,
        d1 > 0,
        coprime(n0, d0),
        coprime(n1, d1),
        n1 * d0 == n0 * d1,
    ensures
        n0 == n1,
        d0 == d1,
{
    lemma_lowest_terms_minimal(n0, d0, n1, d1);
    assert(n0 * d1 == n1 * d0);
    lemma_lowest_terms_minimal(n1, d1, n0, d0);
    assert(n0 == n1) by (nonlinear_arith)
        requires
            d0 == d1,
            d0 > 0,
            n1 * d0 == n0 * d1,
    ;
}

} // verus!
