//! Exact rational numbers with 64-bit numerator and denominator.
//!
//! A [`Rational`] denotes one real number, its view. Arithmetic is exact: an
//! operation returns the true result, or `None` when no fraction of two
//! 64-bit integers has that value.
use vstd::prelude::*;
use crate::number_theory::{
    bezout, coprime, gcd, lemma_lowest_terms_minimal, lemma_lowest_terms_unique,
    lemma_reduced_is_coprime,
};

verus! {

/// The largest magnitude a numerator or a denominator may have.
pub const LIMIT: i64 = 0x7fff_ffff_ffff_ffff;

/// The real number `n / d`.
pub open spec fn fraction(n: int, d: int) -> real {
    n as real / d as real
}

/// `n / d` can be stored: both parts are within [`LIMIT`] and `d` is positive.
pub open spec fn fits(n: int, d: int) -> bool {
    -LIMIT <= n <= LIMIT && 1 <= d <= LIMIT
}

/// Some fraction that can be stored has the value `v`.
pub open spec fn representable(v: real) -> bool {
    exists|n: int, d: int| #[trigger] fits(n, d) && v == fraction(n, d)
}

/// Exact sum, if it can be stored.
pub open spec fn q_add(a: real, b: real) -> Option<real> {
    if representable(a + b) {
        Some(a + b)
    } else {
        None
    }
}

/// Exact difference, if it can be stored.
pub open spec fn q_sub(a: real, b: real) -> Option<real> {
    if representable(a - b) {
        Some(a - b)
    } else {
        None
    }
}

/// Exact product, if it can be stored.
pub open spec fn q_mul(a: real, b: real) -> Option<real> {
    if representable(a * b) {
        Some(a * b)
    } else {
        None
    }
}

/// Exact quotient, if the divisor is not zero and the quotient can be stored.
pub open spec fn q_div(a: real, b: real) -> Option<real> {
    if b != 0real && representable(a / b) {
        Some(a / b)
    } else {
        None
    }
}

/// Equal fractions have equal cross products, and the other way round.
pub proof fn lemma_fraction_eq(n0: int, d0: int, n1: int, d1: int)
    requires
        d0 != 0,
        d1 != 0,
    ensures
        fraction(n0, d0) == fraction(n1, d1) <==> n0 * d1 == n1 * d0,
{
    assert(fraction(n0, d0) == fraction(n1, d1) <==> n0 * d1 == n1 * d0) by (nonlinear_arith)
        requires
            d0 != 0,
            d1 != 0,
    ;
}

/// A fraction with denominator one is its numerator, and a fraction is zero
/// exactly when its numerator is.
pub proof fn lemma_fraction_basics(n: int, d: int)
    requires
        d != 0,
    ensures
        fraction(n, 1) == n as real,
        fraction(n, d) == 0real <==> n == 0,
{
    assert(fraction(n, 1) == n as real) by (nonlinear_arith);
    assert(fraction(n, d) == 0real <==> n == 0) by (nonlinear_arith)
        requires
            d != 0,
    ;
}

/// An exact rational number.
///
/// The fraction is kept in lowest terms with a positive denominator, so two
/// values are equal exactly when their fields are.
#[derive(Clone, Copy, Debug, PartialEq, Eq, Structural)]
pub struct Rational {
    num: i64,
    den: i64,
}

impl View for Rational {
    type V = real;

    closed spec fn view(&self) -> real {
        fraction(self.num as int, self.den as int)
    }
}

impl Rational {
    #[verifier::type_invariant]
    spec fn well_formed(self) -> bool {
        &&& fits(self.num as int, self.den as int)
        &&& coprime(self.num as int, self.den as int)
    }

    /// The numerator of the fraction in lowest terms.
    pub closed spec fn spec_numer(self) -> int {
        self.num as int
    }

    /// The denominator of the fraction in lowest terms.
    pub closed spec fn spec_denom(self) -> int {
        self.den as int
    }

    /// Zero.
    pub fn zero() -> (r: Rational)
        ensures
            r@ == 0real,
    {
        assert(bezout(0, 1, 0, 1));
        proof {
            lemma_fraction_basics(0, 1);
        }
        Rational { num: 0, den: 1 }
    }

    /// One.
    pub fn one() -> (r: Rational)
        ensures
            r@ == 1real,
    {
        assert(bezout(1, 1, 1, 0));
        proof {
            lemma_fraction_basics(1, 1);
        }
        Rational { num: 1, den: 1 }
    }

    /// The integer `n`.
    pub fn from_int(n: i32) -> (r: Rational)
        ensures
            r@ == n as real,
    {
        assert(bezout(n as int, 1, 0, 1));
        proof {
            lemma_fraction_basics(n as int, 1);
        }
        Rational { num: n as i64, den: 1 }
    }

    /// The fraction `num / den`, reduced to lowest terms.
    ///
    /// `None` when `den` is zero or the reduced fraction cannot be stored.
    pub fn new(num: i64, den: i64) -> (r: Option<Rational>)
        ensures
            match r {
                Some(x) => den != 0 && x@ == fraction(num as int, den as int),
                None => den == 0 || !representable(fraction(num as int, den as int)),
            },
    {
        if den == 0 {
            return None;
        }
        let negative: bool = (num < 0) != (den < 0);
        let mag: u128 = magnitude(num as i128);
        let dmag: u128 = magnitude(den as i128);
        proof {
            assert(fraction(num as int, den as int) == signed_fraction(negative, mag as nat, dmag as nat)) by (nonlinear_arith)
                requires
                    den != 0,
                    negative == ((num < 0) != (den < 0)),
                    mag == (if num < 0 { -num } else { num as int }),
                    dmag == (if den < 0 { -den } else { den as int }),
            ;
        }
        reduce(negative, mag, dmag)
    }

    /// The numerator of the fraction in lowest terms.
    pub fn numer(&self) -> (n: i64)
        ensures
            n == self.spec_numer(),
            -LIMIT <= n <= LIMIT,
            coprime(self.spec_numer(), self.spec_denom()),
            self@ == fraction(self.spec_numer(), self.spec_denom()),
    {
        proof {
            use_type_invariant(self);
        }
        self.num
    }

    /// The denominator of the fraction in lowest terms; it is positive.
    pub fn denom(&self) -> (d: i64)
        ensures
            d == self.spec_denom(),
            d > 0,
            coprime(self.spec_numer(), self.spec_denom()),
            self@ == fraction(self.spec_numer(), self.spec_denom()),
    {
        proof {
            use_type_invariant(self);
        }
        self.den
    }

    /// The value is zero.
    pub fn is_zero(&self) -> (b: bool)
        ensures
            b == (self@ == 0real),
    {
        proof {
            use_type_invariant(self);
            lemma_fraction_basics(self.num as int, self.den as int);
        }
        self.num == 0
    }

    /// The value is below zero.
    pub fn is_negative(&self) -> (b: bool)
        ensures
            b == (self@ < 0real),
    {
        proof {
            use_type_invariant(self);
            let n = self.num as int;
            let d = self.den as int;
            assert((n < 0) == (fraction(n, d) < 0real)) by (nonlinear_arith)
                requires
                    d > 0,
            ;
        }
        self.num < 0
    }

    /// The two values are the same number.
    pub fn eq_value(&self, rhs: &Rational) -> (b: bool)
        ensures
            b == (self@ == rhs@),
            b == (*self == *rhs),
    {
        proof {
            use_type_invariant(self);
            use_type_invariant(rhs);
            lemma_fraction_eq(self.num as int, self.den as int, rhs.num as int, rhs.den as int);
            if self@ == rhs@ {
                lemma_lowest_terms_unique(self.num as int, self.den as int, rhs.num as int, rhs.den as int);
            }
        }
        self.num == rhs.num && self.den == rhs.den
    }

    /// `self < rhs`.
    pub fn lt(&self, rhs: &Rational) -> (b: bool)
        ensures
            b == (self@ < rhs@),
    {
        proof {
            use_type_invariant(self);
            use_type_invariant(rhs);
        }
        let l: i128 = mul_wide(self.num, rhs.den);
        let r: i128 = mul_wide(rhs.num, self.den);
        proof {
            let (a, b, c, d) = (self.num as int, self.den as int, rhs.num as int, rhs.den as int);
            assert((a * d < c * b) == (fraction(a, b) < fraction(c, d))) by (nonlinear_arith)
                requires
                    b > 0,
                    d > 0,
            ;
        }
        l < r
    }

    /// `self <= rhs`.
    pub fn le(&self, rhs: &Rational) -> (b: bool)
        ensures
            b == (self@ <= rhs@),
    {
        !rhs.lt(self)
    }

    /// The negated value; it can always be stored.
    pub fn neg(&self) -> (r: Rational)
        ensures
            r@ == -self@,
    {
        proof {
            use_type_invariant(self);
            let (n, d) = (self.num as int, self.den as int);
            let (x, y) = choose|x: int, y: int| bezout(n, d, x, y);
            assert((-n) * (-x) + d * y == 1) by (nonlinear_arith)
                requires
                    n * x + d * y == 1,
            ;
            assert(bezout(-n, d, -x, y));
            assert(fraction(-n, d) == -fraction(n, d)) by (nonlinear_arith)
                requires
                    d > 0,
            ;
        }
        Rational { num: -self.num, den: self.den }
    }

    /// The exact sum, or `None` when it cannot be stored.
    pub fn add(&self, rhs: &Rational) -> (r: Option<Rational>)
        ensures
            match r {
                Some(x) => q_add(self@, rhs@) == Some(x@),
                None => q_add(self@, rhs@) is None,
            },
    {
        proof {
            use_type_invariant(self);
            use_type_invariant(rhs);
        }
        let l: i128 = mul_wide(self.num, rhs.den);
        let r: i128 = mul_wide(rhs.num, self.den);
        let n: i128 = l + r;
        let d: i128 = mul_wide(self.den, rhs.den);
        proof {
            let (a, b, c, e) = (self.num as int, self.den as int, rhs.num as int, rhs.den as int);
            assert(b * e > 0) by (nonlinear_arith)
                requires
                    b > 0,
                    e > 0,
            ;
            assert(fraction(a, b) + fraction(c, e) == fraction(a * e + c * b, b * e)) by (nonlinear_arith)
                requires
                    b > 0,
                    e > 0,
            ;
            lemma_signed(n as int, d as int);
        }
        let out = reduce(n < 0, magnitude(n), magnitude(d));
        proof {
            lemma_representable_some(out, self@ + rhs@);
        }
        out
    }

    /// The exact difference, or `None` when it cannot be stored.
    pub fn sub(&self, rhs: &Rational) -> (r: Option<Rational>)
        ensures
            match r {
                Some(x) => q_sub(self@, rhs@) == Some(x@),
                None => q_sub(self@, rhs@) is None,
            },
    {
        proof {
            use_type_invariant(self);
            use_type_invariant(rhs);
        }
        let l: i128 = mul_wide(self.num, rhs.den);
        let r: i128 = mul_wide(rhs.num, self.den);
        let n: i128 = l - r;
        let d: i128 = mul_wide(self.den, rhs.den);
        proof {
            let (a, b, c, e) = (self.num as int, self.den as int, rhs.num as int, rhs.den as int);
            assert(b * e > 0) by (nonlinear_arith)
                requires
                    b > 0,
                    e > 0,
            ;
            assert(fraction(a, b) - fraction(c, e) == fraction(a * e - c * b, b * e)) by (nonlinear_arith)
                requires
                    b > 0,
                    e > 0,
            ;
            lemma_signed(n as int, d as int);
        }
        let out = reduce(n < 0, magnitude(n), magnitude(d));
        proof {
            lemma_representable_some(out, self@ - rhs@);
        }
        out
    }

    /// The exact product, or `None` when it cannot be stored.
    pub fn mul(&self, rhs: &Rational) -> (r: Option<Rational>)
        ensures
            match r {
                Some(x) => q_mul(self@, rhs@) == Some(x@),
                None => q_mul(self@, rhs@) is None,
            },
    {
        proof {
            use_type_invariant(self);
            use_type_invariant(rhs);
        }
        let n: i128 = mul_wide(self.num, rhs.num);
        let d: i128 = mul_wide(self.den, rhs.den);
        proof {
            let (a, b, c, e) = (self.num as int, self.den as int, rhs.num as int, rhs.den as int);
            assert(b * e > 0) by (nonlinear_arith)
                requires
                    b > 0,
                    e > 0,
            ;
            assert(fraction(a, b) * fraction(c, e) == fraction(a * c, b * e)) by (nonlinear_arith)
                requires
                    b > 0,
                    e > 0,
            ;
            lemma_signed(n as int, d as int);
        }
        let out = reduce(n < 0, magnitude(n), magnitude(d));
        proof {
            lemma_representable_some(out, self@ * rhs@);
        }
        out
    }

    /// The exact quotient, or `None` when `rhs` is zero or the quotient cannot
    /// be stored.
    pub fn div(&self, rhs: &Rational) -> (r: Option<Rational>)
        ensures
            match r {
                Some(x) => q_div(self@, rhs@) == Some(x@),
                None => q_div(self@, rhs@) is None,
            },
    {
        proof {
            use_type_invariant(self);
            use_type_invariant(rhs);
            lemma_fraction_basics(rhs.num as int, rhs.den as int);
        }
        if rhs.num == 0 {
            return None;
        }
        let n: i128 = mul_wide(self.num, rhs.den);
        let d: i128 = mul_wide(self.den, rhs.num);
        proof {
            let (a, b, c, e) = (self.num as int, self.den as int, rhs.num as int, rhs.den as int);
            assert(b * c != 0) by (nonlinear_arith)
                requires
                    b > 0,
                    c != 0,
            ;
            assert(fraction(a, b) / fraction(c, e) == fraction(a * e, b * c)) by (nonlinear_arith)
                requires
                    b > 0,
                    e > 0,
                    c != 0,
            ;
            lemma_signed(n as int, d as int);
        }
        let out = reduce((n < 0) != (d < 0), magnitude(n), magnitude(d));
        proof {
            lemma_representable_some(out, self@ / rhs@);
        }
        out
    }
}

/// The fraction `mag / den` with the given sign.
pub open spec fn signed_fraction(negative: bool, mag: nat, den: nat) -> real {
    if negative {
        fraction(-(mag as int), den as int)
    } else {
        fraction(mag as int, den as int)
    }
}

/// A fraction of two integers is the fraction of their magnitudes with the
/// sign that the two signs give.
proof fn lemma_signed(n: int, d: int)
    requires
        d != 0,
    ensures
        fraction(n, d) == signed_fraction(
            (n < 0) != (d < 0),
            (if n < 0 { -n } else { n }) as nat,
            (if d < 0 { -d } else { d }) as nat,
        ),
{
    assert(fraction(n, d) == fraction(-n, -d)) by (nonlinear_arith)
        requires
            d != 0,
    ;
    assert(fraction(-n, d) == fraction(n, -d)) by (nonlinear_arith)
        requires
            d != 0,
    ;
    if n == 0 {
        assert(fraction(0, d) == fraction(0, -d)) by (nonlinear_arith)
            requires
                d != 0,
        ;
    }
}

/// What `reduce` returns decides whether the value it was given can be stored.
proof fn lemma_representable_some(out: Option<Rational>, v: real)
    requires
        match out {
            Some(x) => x@ == v && fits(x.num as int, x.den as int),
            None => !representable(v),
        },
    ensures
        out is Some <==> representable(v),
{
    if let Some(x) = out {
        assert(fits(x.num as int, x.den as int) && v == fraction(x.num as int, x.den as int));
    }
}

/// The product of two 64-bit integers, which always fits in 128 bits.
fn mul_wide(a: i64, b: i64) -> (p: i128)
    ensures
        p == a * b,
        -LIMIT <= a <= LIMIT && -LIMIT <= b <= LIMIT ==> -LIMIT * LIMIT <= p <= LIMIT * LIMIT,
{
    assert(-LIMIT <= a <= LIMIT && -LIMIT <= b <= LIMIT ==> -LIMIT * LIMIT <= a * b <= LIMIT
        * LIMIT) by (nonlinear_arith);
    assert(-0x8000_0000_0000_0000 * 0x8000_0000_0000_0000 <= a * b <= 0x8000_0000_0000_0000
        * 0x8000_0000_0000_0000) by (nonlinear_arith)
        requires
            -0x8000_0000_0000_0000 <= a < 0x8000_0000_0000_0000,
            -0x8000_0000_0000_0000 <= b < 0x8000_0000_0000_0000,
    ;
    (a as i128) * (b as i128)
}

/// The magnitude of a 128-bit integer.
fn magnitude(n: i128) -> (m: u128)
    requires
        n > i128::MIN,
    ensures
        m == (if n < 0 { -n } else { n as int }),
{
    if n < 0 {
        (-n) as u128
    } else {
        n as u128
    }
}

/// Euclid's algorithm.
fn gcd_u128(a: u128, b: u128) -> (g: u128)
    ensures
        g == gcd(a as nat, b as nat),
{
    let mut x: u128 = a;
    let mut y: u128 = b;
    while y != 0
        invariant
            gcd(x as nat, y as nat) == gcd(a as nat, b as nat),
        decreases y,
    {
        let t: u128 = x % y;
        x = y;
        y = t;
    }
    x
}

/// Brings the fraction `± mag / den` to lowest terms and stores it if it fits.
fn reduce(negative: bool, mag: u128, den: u128) -> (r: Option<Rational>)
    requires
        den > 0,
    ensures
        match r {
            Some(x) => x@ == signed_fraction(negative, mag as nat, den as nat) && fits(
                x.num as int,
                x.den as int,
            ),
            None => !representable(signed_fraction(negative, mag as nat, den as nat)),
        },
{
    let g: u128 = gcd_u128(mag, den);
    proof {
        lemma_reduced_is_coprime(mag as nat, den as nat);
    }
    let n0: u128 = mag / g;
    let d0: u128 = den / g;
    let ghost sn: int = if negative { -(n0 as int) } else { n0 as int };
    let ghost sm: int = if negative { -(mag as int) } else { mag as int };
    proof {
        assert(sn * (den as int) == sm * (d0 as int)) by (nonlinear_arith)
            requires
                mag == g * n0,
                den == g * d0,
                sn == (if negative { -(n0 as int) } else { n0 as int }),
                sm == (if negative { -(mag as int) } else { mag as int }),
        ;
        lemma_fraction_eq(sn, d0 as int, sm, den as int);
        assert(coprime(sn, d0 as int));
    }
    if n0 <= LIMIT as u128 && d0 <= LIMIT as u128 {
        let num: i64 = if negative { -(n0 as i64) } else { n0 as i64 };
        Some(Rational { num, den: d0 as i64 })
    } else {
        proof {
            let v = signed_fraction(negative, mag as nat, den as nat);
            if representable(v) {
                let (n, d) = choose|n: int, d: int| #[trigger] fits(n, d) && v == fraction(n, d);
                lemma_fraction_eq(n, d, sn, d0 as int);
                lemma_lowest_terms_minimal(sn, d0 as int, n, d);
                assert(false);
            }
        }
        None
    }
}

} // verus!
