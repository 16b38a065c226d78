//! The mathematical model of an extended fraction: a rational number in lowest
//! terms, one of the two signed infinities, or NaN; and the arithmetic on it.
use crate::arith::{
    abs, gcd, lemma_gcd_bounds, lemma_gcd_divides, lemma_gcd_quotients_coprime,
    lemma_lowest_terms_unique, lemma_multiple, lemma_pow_nonzero, lemma_quotient,
};
use std::cmp::Ordering;
use vstd::arithmetic::div_mod::*;
use vstd::arithmetic::power::{lemma_pow_positive, pow};
use vstd::prelude::*;

verus! {

/// An extended rational value.
pub ghost enum ExtValue {
    NaN,
    PosInf,
    NegInf,
    Finite { num: int, den: int },
}

impl ExtValue {
    /// Finite values are in lowest terms with a positive denominator.
    pub open spec fn is_valid(self) -> bool {
        match self {
            ExtValue::Finite { num, den } => den > 0 && gcd(abs(num), den as nat) == 1,
            _ => true,
        }
    }

    pub open spec fn is_infinite(self) -> bool {
        self is PosInf || self is NegInf
    }

    /// Finite and equal to zero.
    pub open spec fn is_zero(self) -> bool {
        self is Finite && self->num == 0
    }

    /// Strictly positive, counting positive infinity.
    pub open spec fn is_positive(self) -> bool {
        self is PosInf || (self is Finite && self->num > 0)
    }
}

/// The integer zero.
pub open spec fn zero_value() -> ExtValue {
    ExtValue::Finite { num: 0, den: 1 }
}

/// The integer one.
pub open spec fn one_value() -> ExtValue {
    ExtValue::Finite { num: 1, den: 1 }
}

/// The integer `n`.
pub open spec fn int_value(n: int) -> ExtValue {
    ExtValue::Finite { num: n, den: 1 }
}

/// The infinity of the given sign.
pub open spec fn infinity_value(positive: bool) -> ExtValue {
    if positive {
        ExtValue::PosInf
    } else {
        ExtValue::NegInf
    }
}

/// Integers whose negation is an `i128` as well.
pub open spec fn in_range(x: int) -> bool {
    -(i128::MAX as int) <= x <= i128::MAX as int
}

/// The value of `n / d`: in lowest terms with the sign on the numerator when
/// `d != 0`; NaN for `0 / 0`; otherwise the infinity of the sign of `n`.
pub open spec fn ratio(n: int, d: int) -> ExtValue {
    if d == 0 {
        if n == 0 {
            ExtValue::NaN
        } else {
            infinity_value(n > 0)
        }
    } else {
        let g = gcd(abs(n), abs(d)) as int;
        let m = abs(n) as int / g;
        ExtValue::Finite { num: if (n < 0) != (d < 0) { -m } else { m }, den: abs(d) as int / g }
    }
}

/// The numerator that stores `v`: its own for a finite value; 1, -1 and 0 for
/// positive infinity, negative infinity and NaN.
pub open spec fn numerator_of(v: ExtValue) -> int {
    match v {
        ExtValue::Finite { num, den } => num,
        ExtValue::PosInf => 1,
        ExtValue::NegInf => -1,
        ExtValue::NaN => 0,
    }
}

/// The denominator that stores `v`: its own for a finite value, else 0.
pub open spec fn denominator_of(v: ExtValue) -> int {
    match v {
        ExtValue::Finite { num, den } => den,
        _ => 0,
    }
}

/// The value stored as the pair `(n, d)`.
pub open spec fn decode(n: int, d: int) -> ExtValue {
    if d != 0 {
        ExtValue::Finite { num: n, den: d }
    } else if n == 0 {
        ExtValue::NaN
    } else {
        infinity_value(n > 0)
    }
}

/// A valid value whose terms fit the representation.
pub open spec fn representable(v: ExtValue) -> bool {
    v.is_valid() && (v is Finite ==> in_range(v->num) && v->den <= i128::MAX)
}

/// The terms of `ratio(n, d)` fit the representation.
pub open spec fn ratio_fits(n: int, d: int) -> bool {
    let v = ratio(n, d);
    v is Finite ==> in_range(v->num) && v->den <= i128::MAX
}

pub open spec fn neg_value(a: ExtValue) -> ExtValue {
    match a {
        ExtValue::NaN => ExtValue::NaN,
        ExtValue::PosInf => ExtValue::NegInf,
        ExtValue::NegInf => ExtValue::PosInf,
        ExtValue::Finite { num, den } => ExtValue::Finite { num: -num, den },
    }
}

/// Sum: NaN absorbs; infinities of one sign add to that infinity and of
/// opposite signs to NaN; an infinity beside a finite value wins.
pub open spec fn add_value(a: ExtValue, b: ExtValue) -> ExtValue {
    if a is NaN || b is NaN {
        ExtValue::NaN
    } else if a is Finite && b is Finite {
        ratio(a->num * b->den + b->num * a->den, a->den * b->den)
    } else if a is Finite {
        b
    } else if b is Finite {
        a
    } else if a == b {
        a
    } else {
        ExtValue::NaN
    }
}

/// Difference: NaN absorbs; equal infinities give NaN and unequal ones the
/// larger, positive infinity; an infinite minuend wins and an infinite
/// subtrahend is negated.
pub open spec fn sub_value(a: ExtValue, b: ExtValue) -> ExtValue {
    if a is NaN || b is NaN {
        ExtValue::NaN
    } else if a is Finite && b is Finite {
        ratio(a->num * b->den - b->num * a->den, a->den * b->den)
    } else if a is Finite {
        neg_value(b)
    } else if b is Finite {
        a
    } else if a == b {
        ExtValue::NaN
    } else {
        ExtValue::PosInf
    }
}

/// Product: NaN absorbs; zero times an infinity is NaN; otherwise an infinite
/// operand gives the infinity of the combined sign.
pub open spec fn mul_value(a: ExtValue, b: ExtValue) -> ExtValue {
    if a is NaN || b is NaN {
        ExtValue::NaN
    } else if a is Finite && b is Finite {
        ratio(a->num * b->num, a->den * b->den)
    } else if a.is_zero() || b.is_zero() {
        ExtValue::NaN
    } else {
        infinity_value(a.is_positive() == b.is_positive())
    }
}

/// Quotient: NaN absorbs; an infinite divisor gives zero; an infinite dividend
/// is kept; a zero divisor gives NaN for a zero dividend and otherwise the
/// infinity of the dividend's sign.
pub open spec fn div_value(a: ExtValue, b: ExtValue) -> ExtValue {
    if a is NaN || b is NaN {
        ExtValue::NaN
    } else if b.is_infinite() {
        zero_value()
    } else if a.is_infinite() {
        a
    } else if b->num == 0 {
        if a->num == 0 {
            ExtValue::NaN
        } else {
            infinity_value(a->num > 0)
        }
    } else {
        ratio(a->num * b->den, a->den * b->num)
    }
}

/// Integer power: NaN stays NaN; an infinity gives one, itself or zero as the
/// exponent is zero, positive or negative; zero to a negative power is
/// positive infinity.
pub open spec fn pow_value(a: ExtValue, e: int) -> ExtValue {
    if a is NaN {
        ExtValue::NaN
    } else if a.is_infinite() {
        if e == 0 {
            one_value()
        } else if e > 0 {
            a
        } else {
            zero_value()
        }
    } else if e >= 0 {
        ratio(pow(a->num, e as nat), pow(a->den, e as nat))
    } else if a->num == 0 {
        ExtValue::PosInf
    } else {
        ratio(pow(a->den, (-e) as nat), pow(a->num, (-e) as nat))
    }
}

/// Order: none when NaN is involved; infinities by sign; finite values by
/// cross-multiplication.
pub open spec fn compare_value(a: ExtValue, b: ExtValue) -> Option<Ordering> {
    if a is NaN || b is NaN {
        None
    } else if a == b {
        Some(Ordering::Equal)
    } else if a is PosInf || b is NegInf {
        Some(Ordering::Greater)
    } else if a is NegInf || b is PosInf {
        Some(Ordering::Less)
    } else {
        Some(int_order(a->num * b->den, b->num * a->den))
    }
}

/// The order of two integers.
pub open spec fn int_order(x: int, y: int) -> Ordering {
    if x < y {
        Ordering::Less
    } else if x == y {
        Ordering::Equal
    } else {
        Ordering::Greater
    }
}

/// Equality: NaN equals nothing; other values are equal when identical.
pub open spec fn eq_value(a: ExtValue, b: ExtValue) -> bool {
    !(a is NaN) && !(b is NaN) && a == b
}

/// The intermediate terms of the finite sum `na/da + nb/db`, taken over the
/// common factor of the denominators, fit the representation.
pub open spec fn sum_fits(na: int, da: int, nb: int, db: int) -> bool {
    let g = gcd(da as nat, db as nat) as int;
    let t1 = na * (db / g);
    let t2 = nb * (da / g);
    let g2 = gcd(abs(t1 + t2), g as nat) as int;
    &&& in_range(t1)
    &&& in_range(t2)
    &&& in_range(t1 + t2)
    &&& (da / g) * (db / g2) <= i128::MAX
}

pub open spec fn add_fits(a: ExtValue, b: ExtValue) -> bool {
    a is Finite && b is Finite ==> sum_fits(a->num, a->den, b->num, b->den)
}

pub open spec fn sub_fits(a: ExtValue, b: ExtValue) -> bool {
    a is Finite && b is Finite ==> sum_fits(a->num, a->den, -b->num, b->den)
}

/// The terms of the finite product fit once each numerator is cancelled
/// against the other operand's denominator.
pub open spec fn mul_fits(a: ExtValue, b: ExtValue) -> bool {
    a is Finite && b is Finite ==> {
        let g1 = gcd(abs(a->num), b->den as nat) as int;
        let g2 = gcd(abs(b->num), a->den as nat) as int;
        &&& in_range((a->num / g1) * (b->num / g2))
        &&& (b->den / g1) * (a->den / g2) <= i128::MAX
    }
}

/// The terms of the finite quotient fit once the numerators and the
/// denominators are cancelled against each other.
pub open spec fn div_fits(a: ExtValue, b: ExtValue) -> bool {
    a is Finite && b is Finite && b->num != 0 ==> {
        let g1 = gcd(abs(a->num), abs(b->num)) as int;
        let g2 = gcd(b->den as nat, a->den as nat) as int;
        &&& in_range((a->num / g1) * (b->den / g2))
        &&& in_range((b->num / g1) * (a->den / g2))
    }
}

/// The powers of the finite terms fit.
pub open spec fn pow_fits(a: ExtValue, e: int) -> bool {
    a is Finite ==> if e >= 0 {
        in_range(pow(a->num, e as nat)) && pow(a->den, e as nat) <= i128::MAX
    } else {
        a->num != 0 ==> in_range(pow(a->num, (-e) as nat)) && in_range(pow(a->den, (-e) as nat))
    }
}

/// `ratio(n, d)` for `d != 0` is a valid finite value equal to `n / d`, with
/// terms no larger than `n` and `d`.
pub proof fn lemma_ratio_finite(n: int, d: int)
    requires
        d != 0,
    ensures
        ratio(n, d) is Finite,
        ratio(n, d).is_valid(),
        ratio(n, d)->num * d == n * ratio(n, d)->den,
        abs(ratio(n, d)->num) <= abs(n),
        ratio(n, d)->den <= abs(d),
{
    lemma_gcd_quotients_coprime(abs(n), abs(d));
    lemma_gcd_divides(abs(n), abs(d));
    let g = gcd(abs(n), abs(d)) as int;
    let m = abs(n) as int / g;
    let e = abs(d) as int / g;
    lemma_quotient(abs(n) as int, g);
    lemma_quotient(abs(d) as int, g);
    lemma_div_is_ordered_by_denominator(abs(n) as int, 1, g);
    lemma_div_is_ordered_by_denominator(abs(d) as int, 1, g);
    lemma_div_pos_is_pos(abs(n) as int, g);
    let num = ratio(n, d)->num;
    assert(e > 0) by (nonlinear_arith)
        requires
            abs(d) as int == e * g,
            abs(d) > 0,
            g > 0,
    ;
    assert(abs(num) == m);
    assert(num * d == n * e) by (nonlinear_arith)
        requires
            abs(n) as int == m * g,
            abs(d) as int == e * g,
            num == (if (n < 0) != (d < 0) { -m } else { m }),
            n < 0 ==> abs(n) == -n,
            n >= 0 ==> abs(n) == n,
            d < 0 ==> abs(d) == -d,
            d >= 0 ==> abs(d) == d,
    ;
}

/// A fraction in lowest terms that equals `n / d` is `ratio(n, d)`.
pub proof fn lemma_ratio_of_lowest(p: int, q: int, n: int, d: int)
    requires
        q > 0,
        gcd(abs(p), q as nat) == 1,
        d != 0,
        p * d == n * q,
    ensures
        ratio(n, d) == (ExtValue::Finite { num: p, den: q }),
{
    lemma_ratio_finite(n, d);
    let r = ratio(n, d);
    let (p2, q2) = (r->num, r->den);
    assert(p * q2 == p2 * q) by (nonlinear_arith)
        requires
            p * d == n * q,
            p2 * d == n * q2,
            d != 0,
    ;
    lemma_lowest_terms_unique(p, q, p2, q2);
}

/// Fractions that are equal as rationals have the same value.
pub proof fn lemma_ratio_eq(n1: int, d1: int, n2: int, d2: int)
    requires
        d1 != 0,
        d2 != 0,
        n1 * d2 == n2 * d1,
    ensures
        ratio(n1, d1) == ratio(n2, d2),
{
    lemma_ratio_finite(n1, d1);
    let r = ratio(n1, d1);
    let (p, q) = (r->num, r->den);
    assert(p * d2 == n2 * q) by (nonlinear_arith)
        requires
            p * d1 == n1 * q,
            n1 * d2 == n2 * d1,
            d1 != 0,
    ;
    lemma_ratio_of_lowest(p, q, n2, d2);
}

/// A valid finite value is the ratio of its own terms.
pub proof fn lemma_ratio_of_valid(v: ExtValue)
    requires
        v is Finite,
        v.is_valid(),
    ensures
        ratio(v->num, v->den) == v,
{
    lemma_ratio_of_lowest(v->num, v->den, v->num, v->den);
}

/// Terms in range give a ratio whose terms fit.
pub proof fn lemma_ratio_fits(n: int, d: int)
    requires
        in_range(n),
        in_range(d),
    ensures
        ratio_fits(n, d),
{
    if d != 0 {
        lemma_ratio_finite(n, d);
    }
}

/// Zero and one are valid values.
pub proof fn lemma_unit_values()
    ensures
        zero_value().is_valid(),
        one_value().is_valid(),
{
    assert(gcd(1, 0) == 1);
    assert(gcd(0, 1) == gcd(1, 0));
    assert(gcd(1, 1) == gcd(1, 0));
}

/// The finite sum taken over the common factor `g` of the denominators: with
/// `t = na * (db / g) + nb * (da / g)` and `g2 = gcd(t, g)`, the fraction
/// `(t / g2) / ((da / g) * (db / g2))` has the sum's value and terms that fit.
pub proof fn lemma_sum_terms(na: int, da: int, nb: int, db: int)
    requires
        da > 0,
        db > 0,
        sum_fits(na, da, nb, db),
    ensures
        ({
            let g = gcd(da as nat, db as nat) as int;
            let t = na * (db / g) + nb * (da / g);
            let g2 = gcd(abs(t), g as nat) as int;
            &&& 0 < g <= da
            &&& 0 < g2 <= g
            &&& t % g2 == 0
            &&& in_range(t / g2)
            &&& 0 < (da / g) * (db / g2) <= i128::MAX
            &&& ratio(na * db + nb * da, da * db) == ratio(t / g2, (da / g) * (db / g2))
            &&& ratio_fits(na * db + nb * da, da * db)
        }),
{
    let g = gcd(da as nat, db as nat) as int;
    lemma_gcd_bounds(da, db);
    let s = da / g;
    let e = db / g;
    let t = na * e + nb * s;
    let g2 = gcd(abs(t), g as nat) as int;
    lemma_gcd_bounds(t, g);
    lemma_quotient(da, g);
    lemma_quotient(db, g);
    lemma_quotient(g, g2);
    lemma_quotient(t, g2);
    let h = g / g2;
    assert(db == (e * h) * g2) by (nonlinear_arith)
        requires
            db == e * g,
            g == h * g2,
    ;
    lemma_multiple(e * h, g2);
    let num = t / g2;
    let q = db / g2;
    let den = s * q;
    assert(abs(num) <= abs(t)) by (nonlinear_arith)
        requires
            t == num * g2,
            g2 >= 1,
    ;
    assert(den > 0) by (nonlinear_arith)
        requires
            den == s * q,
            da == s * g,
            db == q * g2,
            da > 0,
            db > 0,
            g > 0,
            g2 > 0,
    ;
    lemma_ratio_fits(num, den);
    let big_n = na * db + nb * da;
    let big_d = da * db;
    assert(big_n == g * (num * g2)) by (nonlinear_arith)
        requires
            da == s * g,
            db == e * g,
            t == num * g2,
            t == na * e + nb * s,
            big_n == na * db + nb * da,
    ;
    assert(big_d == (s * e) * (g * g)) by (nonlinear_arith)
        requires
            da == s * g,
            db == e * g,
            big_d == da * db,
    ;
    assert(den * g2 == (s * e) * g) by (nonlinear_arith)
        requires
            den == s * q,
            q == e * h,
            g == h * g2,
    ;
    assert(num * big_d == big_n * den) by (nonlinear_arith)
        requires
            big_n == g * (num * g2),
            big_d == (s * e) * (g * g),
            den * g2 == (s * e) * g,
    ;
    assert(big_d != 0) by (nonlinear_arith)
        requires
            big_d == da * db,
            da > 0,
            db > 0,
    ;
    lemma_ratio_eq(num, den, big_n, big_d);
}

/// The finite product with each numerator cancelled against the other
/// denominator: `(na / g1) * (nb / g2)` over `(db / g1) * (da / g2)` has the
/// product's value and terms that fit.
pub proof fn lemma_product_terms(na: int, da: int, nb: int, db: int)
    requires
        da > 0,
        db > 0,
        mul_fits(ExtValue::Finite { num: na, den: da }, ExtValue::Finite { num: nb, den: db }),
    ensures
        ({
            let g1 = gcd(abs(na), db as nat) as int;
            let g2 = gcd(abs(nb), da as nat) as int;
            &&& 0 < g1 <= db
            &&& 0 < g2 <= da
            &&& na % g1 == 0
            &&& nb % g2 == 0
            &&& in_range((na / g1) * (nb / g2))
            &&& 0 < (db / g1) * (da / g2) <= i128::MAX
            &&& ratio(na * nb, da * db) == ratio((na / g1) * (nb / g2), (db / g1) * (da / g2))
            &&& ratio_fits(na * nb, da * db)
        }),
{
    let g1 = gcd(abs(na), db as nat) as int;
    let g2 = gcd(abs(nb), da as nat) as int;
    lemma_gcd_bounds(na, db);
    lemma_gcd_bounds(nb, da);
    lemma_quotient(na, g1);
    lemma_quotient(db, g1);
    lemma_quotient(nb, g2);
    lemma_quotient(da, g2);
    let (na2, db2, nb2, da2) = (na / g1, db / g1, nb / g2, da / g2);
    let num = na2 * nb2;
    let den = db2 * da2;
    assert(den > 0) by (nonlinear_arith)
        requires
            den == db2 * da2,
            db == db2 * g1,
            da == da2 * g2,
            da > 0,
            db > 0,
            g1 > 0,
            g2 > 0,
    ;
    lemma_ratio_fits(num, den);
    let big_n = na * nb;
    let big_d = da * db;
    let c = g1 * g2;
    assert(big_n == num * c && big_d == den * c && c > 0) by (nonlinear_arith)
        requires
            na == na2 * g1,
            db == db2 * g1,
            nb == nb2 * g2,
            da == da2 * g2,
            num == na2 * nb2,
            den == db2 * da2,
            big_n == na * nb,
            big_d == da * db,
            c == g1 * g2,
            g1 > 0,
            g2 > 0,
    ;
    assert(num * big_d == big_n * den && big_d > 0) by (nonlinear_arith)
        requires
            big_n == num * c,
            big_d == den * c,
            den > 0,
            c > 0,
    ;
    lemma_ratio_eq(num, den, big_n, big_d);
}

/// The finite quotient with the numerators cancelled against each other and
/// the denominators against each other: `(na / g1) * (db / g2)` over
/// `(nb / g1) * (da / g2)` has the quotient's value and terms that fit.
pub proof fn lemma_quotient_terms(na: int, da: int, nb: int, db: int)
    requires
        da > 0,
        db > 0,
        nb != 0,
        div_fits(ExtValue::Finite { num: na, den: da }, ExtValue::Finite { num: nb, den: db }),
    ensures
        ({
            let g1 = gcd(abs(na), abs(nb)) as int;
            let g2 = gcd(db as nat, da as nat) as int;
            &&& 0 < g1 <= abs(nb)
            &&& 0 < g2 <= da
            &&& g2 <= db
            &&& na % g1 == 0
            &&& nb % g1 == 0
            &&& in_range((na / g1) * (db / g2))
            &&& in_range((nb / g1) * (da / g2))
            &&& (nb / g1) * (da / g2) != 0
            &&& ratio(na * db, da * nb) == ratio((na / g1) * (db / g2), (nb / g1) * (da / g2))
            &&& ratio_fits(na * db, da * nb)
        }),
{
    let g1 = gcd(abs(na), abs(nb)) as int;
    let g2 = gcd(db as nat, da as nat) as int;
    lemma_gcd_bounds(na, nb);
    lemma_gcd_bounds(db, da);
    lemma_quotient(na, g1);
    lemma_quotient(nb, g1);
    lemma_quotient(db, g2);
    lemma_quotient(da, g2);
    let (na2, nb2, da2, db2) = (na / g1, nb / g1, da / g2, db / g2);
    let num = na2 * db2;
    let den = nb2 * da2;
    let big_n = na * db;
    let big_d = da * nb;
    let c = g1 * g2;
    assert(big_n == num * c && big_d == den * c && c > 0) by (nonlinear_arith)
        requires
            na == na2 * g1,
            nb == nb2 * g1,
            db == db2 * g2,
            da == da2 * g2,
            num == na2 * db2,
            den == nb2 * da2,
            big_n == na * db,
            big_d == da * nb,
            c == g1 * g2,
            g1 > 0,
            g2 > 0,
    ;
    assert(big_d != 0 && den != 0) by (nonlinear_arith)
        requires
            big_d == da * nb,
            big_d == den * c,
            da > 0,
            nb != 0,
    ;
    lemma_ratio_fits(num, den);
    assert(num * big_d == big_n * den) by (nonlinear_arith)
        requires
            big_n == num * c,
            big_d == den * c,
    ;
    lemma_ratio_eq(num, den, big_n, big_d);
}

/// The result of an operation on representable values is representable
/// whenever the operation's terms fit, so the fraction it returns has exactly
/// the value that the operation's contract names.
pub proof fn lemma_results_representable(a: ExtValue, b: ExtValue, e: int)
    requires
        representable(a),
        representable(b),
    ensures
        add_fits(a, b) ==> representable(add_value(a, b)),
        sub_fits(a, b) ==> representable(sub_value(a, b)),
        mul_fits(a, b) ==> representable(mul_value(a, b)),
        div_fits(a, b) ==> representable(div_value(a, b)),
        pow_fits(a, e) ==> representable(pow_value(a, e)),
        representable(neg_value(a)),
{
    lemma_unit_values();
    if a is Finite {
        assert(abs(-a->num) == abs(a->num));
    }
    if a is Finite && b is Finite {
        let (na, da, nb, db) = (a->num, a->den, b->num, b->den);
        assert(da * db != 0) by (nonlinear_arith)
            requires
                da > 0,
                db > 0,
        ;
        if add_fits(a, b) {
            lemma_sum_terms(na, da, nb, db);
            lemma_ratio_finite(na * db + nb * da, da * db);
        }
        if sub_fits(a, b) {
            lemma_sum_terms(na, da, -nb, db);
            assert(na * db + (-nb) * da == na * db - nb * da) by (nonlinear_arith);
            lemma_ratio_finite(na * db - nb * da, da * db);
        }
        if mul_fits(a, b) {
            lemma_product_terms(na, da, nb, db);
            lemma_ratio_finite(na * nb, da * db);
        }
        if div_fits(a, b) && nb != 0 {
            lemma_quotient_terms(na, da, nb, db);
            lemma_ratio_finite(na * db, da * nb);
        }
    }
    if a is Finite && pow_fits(a, e) {
        let (n, d) = (a->num, a->den);
        if e >= 0 {
            lemma_pow_positive(d, e as nat);
            lemma_ratio_fits(pow(n, e as nat), pow(d, e as nat));
            lemma_ratio_finite(pow(n, e as nat), pow(d, e as nat));
        } else if n != 0 {
            lemma_pow_nonzero(n, (-e) as nat);
            lemma_ratio_fits(pow(d, (-e) as nat), pow(n, (-e) as nat));
            lemma_ratio_finite(pow(d, (-e) as nat), pow(n, (-e) as nat));
        }
    }
}

} // verus!
