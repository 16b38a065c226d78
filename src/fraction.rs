//! The extended fraction type: construction, queries and arithmetic.
use crate::approx::{
    convergent_walk, lemma_walk_end, lemma_walk_positive, lemma_walk_step, limit_value, walk_state,
};
use crate::arith::{self, abs};
use crate::value::{
    add_fits, add_value, compare_value, decode, denominator_of, div_fits, div_value, eq_value,
    in_range, infinity_value, int_order, int_value, lemma_product_terms, lemma_quotient_terms,
    lemma_ratio_finite, lemma_ratio_fits, lemma_results_representable, lemma_sum_terms, mul_fits,
    mul_value, neg_value, numerator_of, pow_fits, pow_value, ratio, ratio_fits, representable,
    sub_fits, sub_value, sum_fits, ExtValue,
};
use std::cmp::Ordering;
use vstd::arithmetic::power::{
    lemma0_pow, lemma1_pow, lemma_pow_increases, lemma_pow_positive, pow,
};
use vstd::prelude::*;

verus! {

/// An exact rational number in lowest terms, or a signed infinity, or NaN.
///
/// A zero denominator marks the special values: numerator 1 is positive
/// infinity, -1 negative infinity and 0 NaN. A finite value keeps its
/// numerator within `±i128::MAX`, so that negation never overflows.
#[derive(Debug, Clone, Copy, Hash)]
pub struct ExtFraction {
    numerator: i128,
    denominator: i128,
}

impl View for ExtFraction {
    type V = ExtValue;

    closed spec fn view(&self) -> ExtValue {
        decode(self.numerator as int, self.denominator as int)
    }
}

/// Greatest common divisor of the magnitudes of `a` and `b`.
fn gcd(a: i128, b: i128) -> (g: u128)
    ensures
        g == arith::gcd(abs(a as int), abs(b as int)),
{
    let mut x = magnitude(a);
    let mut y = magnitude(b);
    while y != 0
        invariant
            arith::gcd(x as nat, y as nat) == arith::gcd(abs(a as int), abs(b as int)),
        decreases y,
    {
        let t = y;
        y = x % y;
        x = t;
    }
    x
}

/// The magnitude of `x`, which fits a `u128` also for `i128::MIN`.
fn magnitude(x: i128) -> (r: u128)
    ensures
        r == abs(x as int),
{
    if x < 0 {
        ((-(x + 1)) as u128) + 1
    } else {
        x as u128
    }
}

/// Whether the terms of `ratio(n, d)` fit the representation: they fail to
/// only when `i128::MIN` stands as a term with no common factor to cancel.
pub(crate) fn ratio_fits_check(n: i128, d: i128) -> (r: bool)
    ensures
        r == ratio_fits(n as int, d as int),
{
    if d == 0 {
        return true;
    }
    let g = gcd(n, d);
    proof {
        arith::lemma_gcd_bounds(n as int, d as int);
        lemma_ratio_finite(n as int, d as int);
        let gi = g as int;
        let (an, ad) = (abs(n as int) as int, abs(d as int) as int);
        if gi >= 2 {
            vstd::arithmetic::div_mod::lemma_div_is_ordered_by_denominator(an, 2, gi);
            vstd::arithmetic::div_mod::lemma_div_is_ordered_by_denominator(ad, 2, gi);
        }
        vstd::arithmetic::div_mod::lemma_div_is_ordered_by_denominator(an, 1, gi);
        vstd::arithmetic::div_mod::lemma_div_is_ordered_by_denominator(ad, 1, gi);
    }
    !((n == i128::MIN || d == i128::MIN) && g == 1)
}

/// Exact quotient of `a` by a positive divisor of it.
fn div_exact(a: i128, b: i128) -> (r: i128)
    requires
        b > 0,
        a > i128::MIN,
        (a as int) % (b as int) == 0,
    ensures
        r == (a as int) / (b as int),
{
    proof {
        arith::lemma_quotient(a as int, b as int);
    }
    if a >= 0 {
        a / b
    } else {
        let q = (-a) / b;
        proof {
            let k = (a as int) / (b as int);
            arith::lemma_multiple(-k, b as int);
            assert(-k * b == -(a as int)) by (nonlinear_arith)
                requires
                    a as int == k * b,
            ;
        }
        -q
    }
}

/// `base` raised to `exp`.
fn int_pow(base: i128, exp: u32) -> (r: i128)
    requires
        in_range(pow(base as int, exp as nat)),
    ensures
        r == pow(base as int, exp as nat),
{
    if base == 0 {
        proof {
            reveal(pow);
            if exp > 0 {
                lemma0_pow(exp as nat);
            }
        }
        return if exp == 0 {
            1
        } else {
            0
        };
    }
    if base == 1 {
        proof {
            lemma1_pow(exp as nat);
        }
        return 1;
    }
    if base == -1 {
        proof {
            arith::lemma_pow_minus_one(exp as nat);
        }
        return if exp % 2 == 0 {
            1
        } else {
            -1
        };
    }
    let mut acc: i128 = 1;
    let mut i: u32 = 0;
    proof {
        reveal(pow);
    }
    while i < exp
        invariant
            i <= exp,
            acc == pow(base as int, i as nat),
            in_range(pow(base as int, exp as nat)),
            abs(base as int) >= 2,
        decreases exp - i,
    {
        proof {
            arith::lemma_pow_step(base as int, i as nat);
            arith::lemma_pow_abs(base as int, (i + 1) as nat);
            arith::lemma_pow_abs(base as int, exp as nat);
            lemma_pow_increases(abs(base as int), (i + 1) as nat, exp as nat);
        }
        acc = acc * base;
        i = i + 1;
    }
    acc
}

/// Floor quotient and remainder of `n` by a positive `d`.
fn floor_div(n: i128, d: i128) -> (r: (i128, i128))
    requires
        d > 0,
    ensures
        r.0 == (n as int) / (d as int),
        r.1 == (n as int) % (d as int),
{
    proof {
        vstd::arithmetic::div_mod::lemma_fundamental_div_mod(n as int, d as int);
        vstd::arithmetic::div_mod::lemma_mod_bound(n as int, d as int);
        if n >= 0 {
            vstd::arithmetic::div_mod::lemma_div_pos_is_pos(n as int, d as int);
            vstd::arithmetic::div_mod::lemma_div_is_ordered_by_denominator(n as int, 1, d as int);
        } else {
            assert((n as int) / (d as int) >= n) by (nonlinear_arith)
                requires
                    n as int == d * ((n as int) / (d as int)) + (n as int) % (d as int),
                    0 <= (n as int) % (d as int) < d,
                    d > 0,
                    n < 0,
            ;
            assert((n as int) / (d as int) < 0) by (nonlinear_arith)
                requires
                    n as int == d * ((n as int) / (d as int)) + (n as int) % (d as int),
                    0 <= (n as int) % (d as int) < d,
                    d > 0,
                    n < 0,
            ;
        }
    }
    let q = n.checked_div_euclid(d).unwrap();
    let m = n.checked_rem_euclid(d).unwrap();
    (q, m)
}

/// Compares `n1/d1` with `n2/d2` for positive denominators without forming
/// the cross products: whole parts first, then the reciprocals of the
/// remainders.
fn compare_fractions(n1: i128, d1: i128, n2: i128, d2: i128) -> (r: Ordering)
    requires
        d1 > 0,
        d2 > 0,
    ensures
        r == int_order(n1 * d2, n2 * d1),
    decreases d1 + d2,
{
    let (q1, r1) = floor_div(n1, d1);
    let (q2, r2) = floor_div(n2, d2);
    let ghost x = n1 * d2 - n2 * d1;
    proof {
        let (n1i, d1i, n2i, d2i, q1i, q2i, r1i, r2i) = (n1 as int, d1 as int, n2 as int, d2 as int, q1 as int, q2 as int, r1 as int, r2 as int);
        vstd::arithmetic::div_mod::lemma_fundamental_div_mod(n1i, d1i);
        vstd::arithmetic::div_mod::lemma_fundamental_div_mod(n2i, d2i);
        vstd::arithmetic::div_mod::lemma_mod_bound(n1i, d1i);
        vstd::arithmetic::div_mod::lemma_mod_bound(n2i, d2i);
        assert(x == (q1i - q2i) * (d1i * d2i) + (r1i * d2i - r2i * d1i)) by (nonlinear_arith)
            requires
                n1i == d1i * q1i + r1i,
                n2i == d2i * q2i + r2i,
                x == n1i * d2i - n2i * d1i,
        ;
        assert(0 <= r1i * d2i < d1i * d2i && 0 <= r2i * d1i < d1i * d2i) by (nonlinear_arith)
            requires
                0 <= r1i < d1i,
                0 <= r2i < d2i,
                d1i > 0,
                d2i > 0,
        ;
        if q1i < q2i {
            assert((q1i - q2i) * (d1i * d2i) <= -(d1i * d2i)) by (nonlinear_arith)
                requires
                    q1i < q2i,
                    d1i * d2i > 0,
            ;
        }
        if q1i > q2i {
            assert((q1i - q2i) * (d1i * d2i) >= d1i * d2i) by (nonlinear_arith)
                requires
                    q1i > q2i,
                    d1i * d2i > 0,
            ;
        }
        if q1i == q2i {
            assert(x == r1i * d2i - r2i * d1i) by (nonlinear_arith)
                requires
                    x == (q1i - q2i) * (d1i * d2i) + (r1i * d2i - r2i * d1i),
                    q1i == q2i,
            ;
        }
        if r1i == 0 && r2i > 0 {
            assert(r2i * d1i > 0) by (nonlinear_arith)
                requires
                    r2i > 0,
                    d1i > 0,
            ;
        }
        if r2i == 0 && r1i > 0 {
            assert(r1i * d2i > 0) by (nonlinear_arith)
                requires
                    r1i > 0,
                    d2i > 0,
            ;
        }
        assert(d2i * r1i == r1i * d2i && d1i * r2i == r2i * d1i) by (nonlinear_arith);
    }
    if q1 < q2 {
        return Ordering::Less;
    }
    if q1 > q2 {
        return Ordering::Greater;
    }
    if r1 == 0 {
        return if r2 == 0 {
            Ordering::Equal
        } else {
            Ordering::Less
        };
    }
    if r2 == 0 {
        return Ordering::Greater;
    }
    compare_fractions(d2, r2, d1, r1)
}

/// `na/da + nb/db` for positive denominators, computed over the common factor
/// of the denominators so that intermediate terms stay small.
fn finite_sum(na: i128, da: i128, nb: i128, db: i128) -> (r: (i128, i128))
    requires
        da > 0,
        db > 0,
        sum_fits(na as int, da as int, nb as int, db as int),
    ensures
        ratio(na * db + nb * da, da * db) == (ExtValue::Finite { num: r.0 as int, den: r.1 as int }),
        in_range(r.0 as int),
{
    proof {
        lemma_sum_terms(na as int, da as int, nb as int, db as int);
    }
    let g = gcd(da, db) as i128;
    let s = da / g;
    let t = na * (db / g) + nb * s;
    let g2 = gcd(t, g) as i128;
    let num = div_exact(t, g2);
    let den = s * (db / g2);
    proof {
        lemma_ratio_fits(num as int, den as int);
    }
    ExtFraction::reduce(num, den)
}

/// `na/da * nb/db` for positive denominators, cancelling each numerator
/// against the other operand's denominator before multiplying.
fn finite_product(na: i128, da: i128, nb: i128, db: i128) -> (r: (i128, i128))
    requires
        da > 0,
        db > 0,
        in_range(na as int),
        in_range(nb as int),
        mul_fits(ExtValue::Finite { num: na as int, den: da as int }, ExtValue::Finite { num: nb as int, den: db as int }),
    ensures
        ratio(na * nb, da * db) == (ExtValue::Finite { num: r.0 as int, den: r.1 as int }),
        in_range(r.0 as int),
{
    proof {
        lemma_product_terms(na as int, da as int, nb as int, db as int);
    }
    let g1 = gcd(na, db) as i128;
    let g2 = gcd(nb, da) as i128;
    let num = div_exact(na, g1) * div_exact(nb, g2);
    let den = (db / g1) * (da / g2);
    proof {
        lemma_ratio_fits(num as int, den as int);
    }
    ExtFraction::reduce(num, den)
}

/// `base` raised to `exp`, or none when the power is not within `±i128::MAX`.
fn checked_int_pow(base: i128, exp: u32) -> (r: Option<i128>)
    ensures
        r is Some <==> in_range(pow(base as int, exp as nat)),
        r is Some ==> r->0 == pow(base as int, exp as nat),
{
    if -1 <= base && base <= 1 {
        proof {
            arith::lemma_pow_abs(base as int, exp as nat);
            if base == 0 {
                lemma0_pow_or_one(exp as nat);
            } else {
                lemma1_pow(exp as nat);
            }
        }
        return Some(int_pow(base, exp));
    }
    let mut acc: i128 = 1;
    let mut i: u32 = 0;
    proof {
        reveal(pow);
    }
    while i < exp
        invariant
            i <= exp,
            acc == pow(base as int, i as nat),
            in_range(acc as int),
            abs(base as int) >= 2,
        decreases exp - i,
    {
        proof {
            arith::lemma_pow_step(base as int, i as nat);
            arith::lemma_pow_abs(base as int, (i + 1) as nat);
            arith::lemma_pow_abs(base as int, exp as nat);
            lemma_pow_increases(abs(base as int), (i + 1) as nat, exp as nat);
        }
        acc = match acc.checked_mul(base) {
            Some(v) => {
                if v == i128::MIN {
                    return None;
                }
                v
            },
            None => {
                return None;
            },
        };
        i = i + 1;
    }
    Some(acc)
}

/// `0^e` is 1 for `e == 0` and 0 otherwise, so it is within range.
proof fn lemma0_pow_or_one(e: nat)
    ensures
        pow(0, e) == 0 || pow(0, e) == 1,
{
    reveal(pow);
    if e > 0 {
        lemma0_pow(e);
    }
}

/// Whether the terms of the finite sum fit, as `sum_fits` states.
fn sum_fits_check(na: i128, da: i128, nb: i128, db: i128) -> (r: bool)
    requires
        da > 0,
        db > 0,
    ensures
        r == sum_fits(na as int, da as int, nb as int, db as int),
{
    proof {
        arith::lemma_gcd_bounds(da as int, db as int);
    }
    let g = gcd(da, db) as i128;
    let s = da / g;
    let t1 = match na.checked_mul(db / g) {
        Some(v) => v,
        None => {
            return false;
        },
    };
    let t2 = match nb.checked_mul(s) {
        Some(v) => v,
        None => {
            return false;
        },
    };
    if t1 == i128::MIN || t2 == i128::MIN {
        return false;
    }
    let t = match t1.checked_add(t2) {
        Some(v) => v,
        None => {
            return false;
        },
    };
    if t == i128::MIN {
        return false;
    }
    proof {
        arith::lemma_gcd_bounds(t as int, g as int);
    }
    let g2 = gcd(t, g) as i128;
    s.checked_mul(db / g2).is_some()
}

/// Whether the terms of the finite product fit, as `mul_fits` states.
fn product_fits_check(na: i128, da: i128, nb: i128, db: i128) -> (r: bool)
    requires
        da > 0,
        db > 0,
        in_range(na as int),
        in_range(nb as int),
    ensures
        r == mul_fits(ExtValue::Finite { num: na as int, den: da as int }, ExtValue::Finite { num: nb as int, den: db as int }),
{
    proof {
        arith::lemma_gcd_bounds(na as int, db as int);
        arith::lemma_gcd_bounds(nb as int, da as int);
    }
    let g1 = gcd(na, db) as i128;
    let g2 = gcd(nb, da) as i128;
    let fits_num = match div_exact(na, g1).checked_mul(div_exact(nb, g2)) {
        Some(v) => v != i128::MIN,
        None => false,
    };
    fits_num && (db / g1).checked_mul(da / g2).is_some()
}

/// Whether the terms of the finite quotient fit, as `div_fits` states.
fn quotient_fits_check(na: i128, da: i128, nb: i128, db: i128) -> (r: bool)
    requires
        da > 0,
        db > 0,
        nb != 0,
        in_range(na as int),
        in_range(nb as int),
    ensures
        r == div_fits(ExtValue::Finite { num: na as int, den: da as int }, ExtValue::Finite { num: nb as int, den: db as int }),
{
    proof {
        arith::lemma_gcd_bounds(na as int, nb as int);
        arith::lemma_gcd_bounds(db as int, da as int);
    }
    let g1 = gcd(na, nb) as i128;
    let g2 = gcd(db, da) as i128;
    let fits_num = match div_exact(na, g1).checked_mul(db / g2) {
        Some(v) => v != i128::MIN,
        None => false,
    };
    let fits_den = match div_exact(nb, g1).checked_mul(da / g2) {
        Some(v) => v != i128::MIN,
        None => false,
    };
    fits_num && fits_den
}

/// `(na/da) / (nb/db)` for positive denominators and `nb != 0`, cancelling
/// the numerators against each other and the denominators against each other.
fn finite_quotient(na: i128, da: i128, nb: i128, db: i128) -> (r: (i128, i128))
    requires
        da > 0,
        db > 0,
        nb != 0,
        in_range(na as int),
        in_range(nb as int),
        div_fits(ExtValue::Finite { num: na as int, den: da as int }, ExtValue::Finite { num: nb as int, den: db as int }),
    ensures
        ratio(na * db, da * nb) == (ExtValue::Finite { num: r.0 as int, den: r.1 as int }),
        in_range(r.0 as int),
{
    proof {
        lemma_quotient_terms(na as int, da as int, nb as int, db as int);
    }
    let g1 = gcd(na, nb) as i128;
    let g2 = gcd(db, da) as i128;
    let num = div_exact(na, g1) * (db / g2);
    let den = div_exact(nb, g1) * (da / g2);
    proof {
        lemma_ratio_fits(num as int, den as int);
    }
    ExtFraction::reduce(num, den)
}

impl ExtFraction {
    #[verifier::type_invariant]
    spec fn well_formed(self) -> bool {
        if self.denominator == 0 {
            -1 <= self.numerator <= 1
        } else {
            representable(self@)
        }
    }

    /// The fraction that stores a representable value.
    pub closed spec fn from_value(v: ExtValue) -> ExtFraction {
        ExtFraction { numerator: numerator_of(v) as i128, denominator: denominator_of(v) as i128 }
    }

    /// The fraction of a representable value has that value.
    pub broadcast proof fn lemma_from_value(v: ExtValue)
        requires
            representable(v),
        ensures
            (#[trigger] ExtFraction::from_value(v))@ == v,
    {
    }

    /// `numerator / denominator` in lowest terms, with the sign on the numerator.
    fn reduce(numerator: i128, denominator: i128) -> (r: (i128, i128))
        requires
            denominator != 0,
            ratio_fits(numerator as int, denominator as int),
        ensures
            ratio(numerator as int, denominator as int) == (ExtValue::Finite {
                num: r.0 as int,
                den: r.1 as int,
            }),
            in_range(r.0 as int),
    {
        let num = magnitude(numerator);
        let den = magnitude(denominator);
        let g = gcd(numerator, denominator);
        proof {
            arith::lemma_gcd_divides(num as nat, den as nat);
            vstd::arithmetic::div_mod::lemma_div_is_ordered_by_denominator(num as int, 1, g as int);
        }
        let m = (num / g) as i128;
        let d = (den / g) as i128;
        if (numerator < 0) != (denominator < 0) {
            (-m, d)
        } else {
            (m, d)
        }
    }

    /// `numerator / denominator`: reduced to lowest terms with a positive
    /// denominator; NaN for `0 / 0` and a signed infinity for any other zero
    /// denominator.
    pub fn new(numerator: i128, denominator: i128) -> (r: Self)
        requires
            ratio_fits(numerator as int, denominator as int),
        ensures
            r@ == ratio(numerator as int, denominator as int),
    {
        if denominator == 0 {
            if numerator == 0 {
                ExtFraction { numerator: 0, denominator: 0 }
            } else if numerator > 0 {
                ExtFraction { numerator: 1, denominator: 0 }
            } else {
                ExtFraction { numerator: -1, denominator: 0 }
            }
        } else {
            proof {
                lemma_ratio_finite(numerator as int, denominator as int);
            }
            let (num, den) = Self::reduce(numerator, denominator);
            ExtFraction { numerator: num, denominator: den }
        }
    }

    /// The integer `n`.
    pub fn from_integer(n: i128) -> (r: Self)
        requires
            in_range(n as int),
        ensures
            r@ == (ExtValue::Finite { num: n as int, den: 1 }),
    {
        proof {
            lemma_ratio_finite(n as int, 1);
            arith::lemma_gcd_divides(abs(n as int), 1);
        }
        ExtFraction { numerator: n, denominator: 1 }
    }

    /// Positive infinity when `sign` holds, else negative infinity.
    pub fn infinity(sign: bool) -> (r: Self)
        ensures
            r@ == infinity_value(sign),
    {
        ExtFraction { numerator: if sign { 1 } else { -1 }, denominator: 0 }
    }

    /// Not a number.
    pub fn nan() -> (r: Self)
        ensures
            r@ == ExtValue::NaN,
    {
        ExtFraction { numerator: 0, denominator: 0 }
    }

    pub fn is_finite(&self) -> (r: bool)
        ensures
            r == (self@ is Finite),
    {
        self.denominator != 0
    }

    pub fn is_infinite(&self) -> (r: bool)
        ensures
            r == self@.is_infinite(),
    {
        self.denominator == 0 && self.numerator != 0
    }

    pub fn is_nan(&self) -> (r: bool)
        ensures
            r == (self@ is NaN),
    {
        self.denominator == 0 && self.numerator == 0
    }

    /// The stored numerator: that of the reduced fraction, or 1, -1 and 0 for
    /// positive infinity, negative infinity and NaN.
    pub fn numerator(&self) -> (r: i128)
        ensures
            r == numerator_of(self@),
    {
        proof {
            use_type_invariant(self);
        }
        self.numerator
    }

    /// The stored denominator: positive for a finite value, else 0.
    pub fn denominator(&self) -> (r: i128)
        ensures
            r == denominator_of(self@),
    {
        self.denominator
    }

    /// Finite with denominator 1.
    pub fn is_integer(&self) -> (r: bool)
        ensures
            r == (self@ is Finite && self@->den == 1),
    {
        self.denominator == 1
    }

    /// The stored numerator and denominator.
    pub fn as_integer_ratio(&self) -> (r: (i128, i128))
        ensures
            r.0 == numerator_of(self@),
            r.1 == denominator_of(self@),
    {
        proof {
            use_type_invariant(self);
        }
        (self.numerator, self.denominator)
    }
}


impl ExtFraction {
    /// `self` raised to the integer power `exp`; a negative power raises the
    /// reciprocal.
    pub fn pow(&self, exp: i32) -> (r: ExtFraction)
        requires
            pow_fits(self@, exp as int),
        ensures
            r@ == pow_value(self@, exp as int),
    {
        proof {
            use_type_invariant(self);
            lemma_ratio_finite(1, 1);
            lemma_ratio_finite(0, 1);
        }
        if self.is_nan() {
            return ExtFraction::nan();
        }
        if self.is_infinite() {
            if exp == 0 {
                return ExtFraction::from_integer(1);
            }
            return if exp > 0 {
                *self
            } else {
                ExtFraction::from_integer(0)
            };
        }
        let (num, den) = (self.numerator, self.denominator);
        if exp >= 0 {
            let k = exp as u32;
            proof {
                lemma_pow_positive(den as int, k as nat);
            }
            let top = int_pow(num, k);
            let bottom = int_pow(den, k);
            proof {
                lemma_ratio_fits(top as int, bottom as int);
                lemma_ratio_finite(top as int, bottom as int);
            }
            let (n, d) = ExtFraction::reduce(top, bottom);
            ExtFraction { numerator: n, denominator: d }
        } else {
            if num == 0 {
                return ExtFraction::infinity(true);
            }
            let k = (-(exp as i64)) as u32;
            let top = int_pow(den, k);
            let bottom = int_pow(num, k);
            proof {
                arith::lemma_pow_nonzero(num as int, k as nat);
                lemma_ratio_fits(top as int, bottom as int);
                lemma_ratio_finite(top as int, bottom as int);
            }
            let (n, d) = ExtFraction::reduce(top, bottom);
            ExtFraction { numerator: n, denominator: d }
        }
    }
}

impl ExtFraction {
    /// The closest fraction to `self` whose denominator is at most
    /// `max_denominator`, as `limit_value` states; NaN and the infinities pass
    /// through. Fails for a finite value when `max_denominator < 1`.
    pub fn limit_denominator(&self, max_denominator: i128) -> (r: Result<ExtFraction, String>)
        ensures
            r is Err <==> (self@ is Finite && max_denominator < 1),
            r is Ok ==> r->Ok_0@ == limit_value(self@, max_denominator as int),
            r is Ok && self@ is Finite ==> 0 < r->Ok_0@->den <= max_denominator,
    {
        proof {
            use_type_invariant(self);
        }
        if self.is_nan() || self.is_infinite() {
            return Ok(*self);
        }
        if max_denominator < 1 {
            return Err("max_denominator should be at least 1".to_owned());
        }
        if self.denominator <= max_denominator {
            return Ok(*self);
        }
        let big_n = self.numerator;
        let big_d = self.denominator;
        let ghost bound = max_denominator as int;
        proof {
            if big_n == 0 {
                arith::lemma_gcd_commutes(0, big_d as nat);
            }
        }
        let mut p0: i128 = 0;
        let mut q0: i128 = 1;
        let mut p1: i128 = 1;
        let mut q1: i128 = 0;
        let mut n: i128 = big_n;
        let mut d: i128 = big_d;
        loop
            invariant
                bound == max_denominator,
                walk_state(big_n as int, big_d as int, bound, p0 as int, q0 as int, p1 as int, q1 as int, n as int, d as int),
                convergent_walk(p0 as int, q0 as int, p1 as int, q1 as int, n as int, d as int, bound)
                    == convergent_walk(0, 1, 1, 0, big_n as int, big_d as int, bound),
            ensures
                walk_state(big_n as int, big_d as int, bound, p0 as int, q0 as int, p1 as int, q1 as int, n as int, d as int),
                d > 0,
                q0 + (n as int / d as int) * q1 > bound,
                convergent_walk(0, 1, 1, 0, big_n as int, big_d as int, bound)
                    == (p0 as int, q0 as int, p1 as int, q1 as int, n as int, d as int),
            decreases d,
        {
            proof {
                lemma_walk_positive(big_n as int, big_d as int, bound, p0 as int, q0 as int, p1 as int, q1 as int, n as int, d as int);
                lemma_walk_step(big_n as int, big_d as int, bound, p0 as int, q0 as int, p1 as int, q1 as int, n as int, d as int);
            }
            let (a, rem) = floor_div(n, d);
            let q2 = q0 + a * q1;
            if q2 > max_denominator {
                break;
            }
            let p2 = p0 + a * p1;
            p0 = p1;
            q0 = q1;
            p1 = p2;
            q1 = q2;
            n = d;
            d = rem;
        }
        proof {
            lemma_walk_end(big_n as int, big_d as int, bound, p0 as int, q0 as int, p1 as int, q1 as int, n as int, d as int);
        }
        let k = (max_denominator - q0) / q1;
        let qs = q0 + k * q1;
        if qs == 0 || d <= (big_d / 2) / qs {
            Ok(ExtFraction { numerator: p1, denominator: q1 })
        } else {
            Ok(ExtFraction { numerator: p0 + k * p1, denominator: qs })
        }
    }
}

impl ExtFraction {
    /// The sum, or none when the terms of the exact sum do not fit.
    pub fn checked_add(self, other: ExtFraction) -> (r: Option<ExtFraction>)
        ensures
            r is Some <==> add_fits(self@, other@),
            r is Some ==> r->0@ == add_value(self@, other@),
    {
        proof {
            use_type_invariant(&self);
            use_type_invariant(&other);
            lemma_results_representable(self@, other@, 0);
        }
        if self.is_finite() && other.is_finite() && !sum_fits_check(
            self.numerator,
            self.denominator,
            other.numerator,
            other.denominator,
        ) {
            return None;
        }
        let r = self + other;
        proof {
            ExtFraction::lemma_from_value(add_value(self@, other@));
        }
        Some(r)
    }

    /// The difference, or none when the terms of the exact difference do not
    /// fit.
    pub fn checked_sub(self, other: ExtFraction) -> (r: Option<ExtFraction>)
        ensures
            r is Some <==> sub_fits(self@, other@),
            r is Some ==> r->0@ == sub_value(self@, other@),
    {
        proof {
            use_type_invariant(&self);
            use_type_invariant(&other);
            lemma_results_representable(self@, other@, 0);
        }
        if self.is_finite() && other.is_finite() && !sum_fits_check(
            self.numerator,
            self.denominator,
            -other.numerator,
            other.denominator,
        ) {
            return None;
        }
        let r = self - other;
        proof {
            ExtFraction::lemma_from_value(sub_value(self@, other@));
        }
        Some(r)
    }

    /// The product, or none when the terms of the exact product do not fit.
    pub fn checked_mul(self, other: ExtFraction) -> (r: Option<ExtFraction>)
        ensures
            r is Some <==> mul_fits(self@, other@),
            r is Some ==> r->0@ == mul_value(self@, other@),
    {
        proof {
            use_type_invariant(&self);
            use_type_invariant(&other);
            lemma_results_representable(self@, other@, 0);
        }
        if self.is_finite() && other.is_finite() && !product_fits_check(
            self.numerator,
            self.denominator,
            other.numerator,
            other.denominator,
        ) {
            return None;
        }
        let r = self * other;
        proof {
            ExtFraction::lemma_from_value(mul_value(self@, other@));
        }
        Some(r)
    }

    /// The quotient, or none when the terms of the exact quotient do not fit.
    pub fn checked_div(self, other: ExtFraction) -> (r: Option<ExtFraction>)
        ensures
            r is Some <==> div_fits(self@, other@),
            r is Some ==> r->0@ == div_value(self@, other@),
    {
        proof {
            use_type_invariant(&self);
            use_type_invariant(&other);
            lemma_results_representable(self@, other@, 0);
        }
        if self.is_finite() && other.is_finite() && other.numerator != 0 && !quotient_fits_check(
            self.numerator,
            self.denominator,
            other.numerator,
            other.denominator,
        ) {
            return None;
        }
        let r = self / other;
        proof {
            ExtFraction::lemma_from_value(div_value(self@, other@));
        }
        Some(r)
    }

    /// The integer power, or none when the powers of the terms do not fit.
    pub fn checked_pow(&self, exp: i32) -> (r: Option<ExtFraction>)
        ensures
            r is Some <==> pow_fits(self@, exp as int),
            r is Some ==> r->0@ == pow_value(self@, exp as int),
    {
        proof {
            use_type_invariant(self);
        }
        if self.is_finite() {
            let (num, den) = (self.numerator, self.denominator);
            if exp >= 0 {
                let k = exp as u32;
                proof {
                    lemma_pow_positive(den as int, k as nat);
                }
                if checked_int_pow(num, k).is_none() || checked_int_pow(den, k).is_none() {
                    return None;
                }
            } else if num != 0 {
                let k = (-(exp as i64)) as u32;
                if checked_int_pow(num, k).is_none() || checked_int_pow(den, k).is_none() {
                    return None;
                }
            }
        }
        Some(self.pow(exp))
    }
}

impl PartialEq for ExtFraction {
    /// Equality as `eq_value` states: NaN equals nothing, not even itself.
    fn eq(&self, other: &ExtFraction) -> (r: bool) {
        proof {
            use_type_invariant(self);
            use_type_invariant(other);
        }
        if self.is_nan() || other.is_nan() {
            return false;
        }
        if self.is_infinite() && other.is_infinite() {
            return self.numerator == other.numerator;
        }
        if self.is_infinite() || other.is_infinite() {
            return false;
        }
        self.numerator == other.numerator && self.denominator == other.denominator
    }
}

impl vstd::std_specs::cmp::PartialEqSpecImpl for ExtFraction {
    open spec fn obeys_eq_spec() -> bool {
        true
    }

    open spec fn eq_spec(&self, other: &ExtFraction) -> bool {
        eq_value(self@, other@)
    }
}

impl PartialOrd for ExtFraction {
    /// The order as `compare_value` states: none when NaN is involved.
    fn partial_cmp(&self, other: &ExtFraction) -> (r: Option<Ordering>) {
        proof {
            use_type_invariant(self);
            use_type_invariant(other);
        }
        if self.is_nan() || other.is_nan() {
            return None;
        }
        if self.is_infinite() && other.is_infinite() {
            if self.numerator == other.numerator {
                return Some(Ordering::Equal);
            }
            return Some(
                if self.numerator > other.numerator {
                    Ordering::Greater
                } else {
                    Ordering::Less
                },
            );
        }
        if self.is_infinite() {
            return Some(
                if self.numerator > 0 {
                    Ordering::Greater
                } else {
                    Ordering::Less
                },
            );
        }
        if other.is_infinite() {
            return Some(
                if other.numerator > 0 {
                    Ordering::Less
                } else {
                    Ordering::Greater
                },
            );
        }
        Some(compare_fractions(self.numerator, self.denominator, other.numerator, other.denominator))
    }
}

impl vstd::std_specs::cmp::PartialOrdSpecImpl for ExtFraction {
    open spec fn obeys_partial_cmp_spec() -> bool {
        true
    }

    open spec fn partial_cmp_spec(&self, other: &ExtFraction) -> Option<Ordering> {
        compare_value(self@, other@)
    }
}

impl std::ops::Add for ExtFraction {
    type Output = ExtFraction;

    /// The sum, with the special values combined as `add_value` states.
    fn add(self, other: ExtFraction) -> (r: ExtFraction) {
        proof {
            use_type_invariant(&self);
            use_type_invariant(&other);
        }
        if self.is_nan() || other.is_nan() {
            return ExtFraction::nan();
        }
        if self.is_infinite() && other.is_infinite() {
            return if self.numerator == other.numerator {
                self
            } else {
                ExtFraction::nan()
            };
        }
        if self.is_infinite() || other.is_infinite() {
            return if self.is_infinite() {
                self
            } else {
                other
            };
        }
        let (num, den) = finite_sum(self.numerator, self.denominator, other.numerator, other.denominator);
        proof {
            lemma_ratio_finite(
                self.numerator * other.denominator + other.numerator * self.denominator,
                self.denominator * other.denominator,
            );
        }
        ExtFraction { numerator: num, denominator: den }
    }
}

impl vstd::std_specs::ops::AddSpecImpl for ExtFraction {
    open spec fn obeys_add_spec() -> bool {
        true
    }

    open spec fn add_req(self, other: ExtFraction) -> bool {
        add_fits(self@, other@)
    }

    open spec fn add_spec(self, other: ExtFraction) -> ExtFraction {
        ExtFraction::from_value(add_value(self@, other@))
    }
}

impl std::ops::Sub for ExtFraction {
    type Output = ExtFraction;

    /// The difference, with the special values combined as `sub_value` states.
    fn sub(self, other: ExtFraction) -> (r: ExtFraction) {
        proof {
            use_type_invariant(&self);
            use_type_invariant(&other);
        }
        if self.is_nan() || other.is_nan() {
            return ExtFraction::nan();
        }
        if self.is_infinite() && other.is_infinite() {
            let r = if self.numerator == other.numerator {
                ExtFraction::nan()
            } else {
                ExtFraction::infinity(true)
            };
            proof {
                use_type_invariant(&r);
            }
            return r;
        }
        if self.is_infinite() {
            return self;
        }
        if other.is_infinite() {
            let r = ExtFraction::infinity(other.numerator < 0);
            proof {
                use_type_invariant(&r);
            }
            return r;
        }
        let (na, da, nb, db) = (self.numerator, self.denominator, other.numerator, other.denominator);
        let (num, den) = finite_sum(na, da, -nb, db);
        proof {
            assert(na * db + (-nb) * da == na * db - nb * da) by (nonlinear_arith);
            lemma_ratio_finite(na * db - nb * da, da * db);
        }
        ExtFraction { numerator: num, denominator: den }
    }
}

impl vstd::std_specs::ops::SubSpecImpl for ExtFraction {
    open spec fn obeys_sub_spec() -> bool {
        true
    }

    open spec fn sub_req(self, other: ExtFraction) -> bool {
        sub_fits(self@, other@)
    }

    open spec fn sub_spec(self, other: ExtFraction) -> ExtFraction {
        ExtFraction::from_value(sub_value(self@, other@))
    }
}

impl std::ops::Mul for ExtFraction {
    type Output = ExtFraction;

    /// The product, with the special values combined as `mul_value` states.
    fn mul(self, other: ExtFraction) -> (r: ExtFraction) {
        proof {
            use_type_invariant(&self);
            use_type_invariant(&other);
        }
        if self.is_nan() || other.is_nan() {
            return ExtFraction::nan();
        }
        if self.is_infinite() || other.is_infinite() {
            if (self.is_infinite() && other.numerator == 0) || (other.is_infinite() && self.numerator == 0) {
                return ExtFraction::nan();
            }
            let r = ExtFraction::infinity((self.numerator > 0) == (other.numerator > 0));
            proof {
                use_type_invariant(&r);
            }
            return r;
        }
        let (na, da, nb, db) = (self.numerator, self.denominator, other.numerator, other.denominator);
        let (num, den) = finite_product(na, da, nb, db);
        proof {
            lemma_ratio_finite(na * nb, da * db);
        }
        ExtFraction { numerator: num, denominator: den }
    }
}

impl vstd::std_specs::ops::MulSpecImpl for ExtFraction {
    open spec fn obeys_mul_spec() -> bool {
        true
    }

    open spec fn mul_req(self, other: ExtFraction) -> bool {
        mul_fits(self@, other@)
    }

    open spec fn mul_spec(self, other: ExtFraction) -> ExtFraction {
        ExtFraction::from_value(mul_value(self@, other@))
    }
}

impl std::ops::Div for ExtFraction {
    type Output = ExtFraction;

    /// The quotient, with the special values combined as `div_value` states.
    fn div(self, other: ExtFraction) -> (r: ExtFraction) {
        proof {
            use_type_invariant(&self);
            use_type_invariant(&other);
            lemma_ratio_finite(0, 1);
        }
        if self.is_nan() || other.is_nan() {
            return ExtFraction::nan();
        }
        if other.is_infinite() {
            return ExtFraction::from_integer(0);
        }
        if self.is_infinite() {
            return self;
        }
        if other.numerator == 0 {
            if self.numerator == 0 {
                return ExtFraction::nan();
            }
            let r = ExtFraction::infinity(self.numerator > 0);
            proof {
                use_type_invariant(&r);
            }
            return r;
        }
        let (na, da, nb, db) = (self.numerator, self.denominator, other.numerator, other.denominator);
        let (num, den) = finite_quotient(na, da, nb, db);
        proof {
            lemma_ratio_finite(na * db, da * nb);
        }
        ExtFraction { numerator: num, denominator: den }
    }
}

impl vstd::std_specs::ops::DivSpecImpl for ExtFraction {
    open spec fn obeys_div_spec() -> bool {
        true
    }

    open spec fn div_req(self, other: ExtFraction) -> bool {
        div_fits(self@, other@)
    }

    open spec fn div_spec(self, other: ExtFraction) -> ExtFraction {
        ExtFraction::from_value(div_value(self@, other@))
    }
}

impl std::ops::Neg for ExtFraction {
    type Output = ExtFraction;

    /// The negation; NaN stays NaN and an infinity changes sign.
    fn neg(self) -> (r: ExtFraction) {
        proof {
            use_type_invariant(&self);
        }
        if self.is_nan() {
            return ExtFraction::nan();
        }
        if self.is_infinite() {
            let r = ExtFraction::infinity(self.numerator < 0);
            proof {
                use_type_invariant(&r);
            }
            return r;
        }
        proof {
            assert(abs(-self.numerator) == abs(self.numerator as int));
        }
        ExtFraction { numerator: -self.numerator, denominator: self.denominator }
    }
}

impl vstd::std_specs::ops::NegSpecImpl for ExtFraction {
    open spec fn obeys_neg_spec() -> bool {
        true
    }

    open spec fn neg_req(self) -> bool {
        true
    }

    open spec fn neg_spec(self) -> ExtFraction {
        ExtFraction::from_value(neg_value(self@))
    }
}

impl std::ops::Add<i128> for ExtFraction {
    type Output = ExtFraction;

    /// `self + other` with `other` taken as an integer.
    fn add(self, other: i128) -> (r: ExtFraction) {
        self + ExtFraction::from_integer(other)
    }
}

impl vstd::std_specs::ops::AddSpecImpl<i128> for ExtFraction {
    open spec fn obeys_add_spec() -> bool {
        true
    }

    open spec fn add_req(self, other: i128) -> bool {
        in_range(other as int) && add_fits(self@, int_value(other as int))
    }

    open spec fn add_spec(self, other: i128) -> ExtFraction {
        ExtFraction::from_value(add_value(self@, int_value(other as int)))
    }
}

impl std::ops::Add<ExtFraction> for i128 {
    type Output = ExtFraction;

    /// `self + other` with `self` taken as an integer.
    fn add(self, other: ExtFraction) -> (r: ExtFraction) {
        ExtFraction::from_integer(self) + other
    }
}

impl vstd::std_specs::ops::AddSpecImpl<ExtFraction> for i128 {
    open spec fn obeys_add_spec() -> bool {
        true
    }

    open spec fn add_req(self, other: ExtFraction) -> bool {
        in_range(self as int) && add_fits(int_value(self as int), other@)
    }

    open spec fn add_spec(self, other: ExtFraction) -> ExtFraction {
        ExtFraction::from_value(add_value(int_value(self as int), other@))
    }
}

impl std::ops::Sub<i128> for ExtFraction {
    type Output = ExtFraction;

    /// `self - other` with `other` taken as an integer.
    fn sub(self, other: i128) -> (r: ExtFraction) {
        self - ExtFraction::from_integer(other)
    }
}

impl vstd::std_specs::ops::SubSpecImpl<i128> for ExtFraction {
    open spec fn obeys_sub_spec() -> bool {
        true
    }

    open spec fn sub_req(self, other: i128) -> bool {
        in_range(other as int) && sub_fits(self@, int_value(other as int))
    }

    open spec fn sub_spec(self, other: i128) -> ExtFraction {
        ExtFraction::from_value(sub_value(self@, int_value(other as int)))
    }
}

impl std::ops::Sub<ExtFraction> for i128 {
    type Output = ExtFraction;

    /// `self - other` with `self` taken as an integer.
    fn sub(self, other: ExtFraction) -> (r: ExtFraction) {
        ExtFraction::from_integer(self) - other
    }
}

impl vstd::std_specs::ops::SubSpecImpl<ExtFraction> for i128 {
    open spec fn obeys_sub_spec() -> bool {
        true
    }

    open spec fn sub_req(self, other: ExtFraction) -> bool {
        in_range(self as int) && sub_fits(int_value(self as int), other@)
    }

    open spec fn sub_spec(self, other: ExtFraction) -> ExtFraction {
        ExtFraction::from_value(sub_value(int_value(self as int), other@))
    }
}

impl std::ops::Mul<i128> for ExtFraction {
    type Output = ExtFraction;

    /// `self * other` with `other` taken as an integer.
    fn mul(self, other: i128) -> (r: ExtFraction) {
        self * ExtFraction::from_integer(other)
    }
}

impl vstd::std_specs::ops::MulSpecImpl<i128> for ExtFraction {
    open spec fn obeys_mul_spec() -> bool {
        true
    }

    open spec fn mul_req(self, other: i128) -> bool {
        in_range(other as int) && mul_fits(self@, int_value(other as int))
    }

    open spec fn mul_spec(self, other: i128) -> ExtFraction {
        ExtFraction::from_value(mul_value(self@, int_value(other as int)))
    }
}

impl std::ops::Mul<ExtFraction> for i128 {
    type Output = ExtFraction;

    /// `self * other` with `self` taken as an integer.
    fn mul(self, other: ExtFraction) -> (r: ExtFraction) {
        ExtFraction::from_integer(self) * other
    }
}

impl vstd::std_specs::ops::MulSpecImpl<ExtFraction> for i128 {
    open spec fn obeys_mul_spec() -> bool {
        true
    }

    open spec fn mul_req(self, other: ExtFraction) -> bool {
        in_range(self as int) && mul_fits(int_value(self as int), other@)
    }

    open spec fn mul_spec(self, other: ExtFraction) -> ExtFraction {
        ExtFraction::from_value(mul_value(int_value(self as int), other@))
    }
}

impl std::ops::Div<i128> for ExtFraction {
    type Output = ExtFraction;

    /// `self / other` with `other` taken as an integer.
    fn div(self, other: i128) -> (r: ExtFraction) {
        self / ExtFraction::from_integer(other)
    }
}

impl vstd::std_specs::ops::DivSpecImpl<i128> for ExtFraction {
    open spec fn obeys_div_spec() -> bool {
        true
    }

    open spec fn div_req(self, other: i128) -> bool {
        in_range(other as int) && div_fits(self@, int_value(other as int))
    }

    open spec fn div_spec(self, other: i128) -> ExtFraction {
        ExtFraction::from_value(div_value(self@, int_value(other as int)))
    }
}

impl std::ops::Div<ExtFraction> for i128 {
    type Output = ExtFraction;

    /// `self / other` with `self` taken as an integer.
    fn div(self, other: ExtFraction) -> (r: ExtFraction) {
        ExtFraction::from_integer(self) / other
    }
}

impl vstd::std_specs::ops::DivSpecImpl<ExtFraction> for i128 {
    open spec fn obeys_div_spec() -> bool {
        true
    }

    open spec fn div_req(self, other: ExtFraction) -> bool {
        in_range(self as int) && div_fits(int_value(self as int), other@)
    }

    open spec fn div_spec(self, other: ExtFraction) -> ExtFraction {
        ExtFraction::from_value(div_value(int_value(self as int), other@))
    }
}

} // verus!
