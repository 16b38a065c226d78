//! Algebraic laws of extended fractions, stated over the value model that the
//! operations' contracts use.
use crate::arith::{abs, gcd, lemma_pow_step};
use crate::text::{
    count_char, format_value, int_text, lemma_count_absent, lemma_count_concat,
    lemma_find_between, lemma_int_text, lemma_no_keyword, lemma_trimmed_unchanged, parse_text,
    trimmed,
};
use crate::value::{
    add_value, compare_value, div_value, eq_value, lemma_ratio_eq, lemma_ratio_finite,
    lemma_ratio_of_valid, mul_value, neg_value, one_value, pow_value, ratio, representable,
    zero_value, ExtValue,
};
use std::cmp::Ordering;
use vstd::arithmetic::power::{lemma_pow0, lemma_pow_distributes, lemma_pow_positive, pow};
use vstd::prelude::*;

verus! {

/// Sums of equal fractions are equal.
proof fn lemma_add_congruent(p1: int, q1: int, n1: int, d1: int, p2: int, q2: int, n2: int, d2: int)
    requires
        q1 != 0,
        d1 != 0,
        q2 != 0,
        d2 != 0,
        p1 * d1 == n1 * q1,
        p2 * d2 == n2 * q2,
    ensures
        ratio(p1 * q2 + p2 * q1, q1 * q2) == ratio(n1 * d2 + n2 * d1, d1 * d2),
{
    let (x, y) = (p1 * q2 + p2 * q1, q1 * q2);
    let (u, v) = (n1 * d2 + n2 * d1, d1 * d2);
    assert(x * v == (p1 * q2) * v + (p2 * q1) * v) by (nonlinear_arith)
        requires
            x == p1 * q2 + p2 * q1,
    ;
    assert((p1 * q2) * v == (p1 * d1) * (q2 * d2)) by (nonlinear_arith)
        requires
            v == d1 * d2,
    ;
    assert((p2 * q1) * v == (p2 * d2) * (q1 * d1)) by (nonlinear_arith)
        requires
            v == d1 * d2,
    ;
    assert(u * y == (n1 * d2) * y + (n2 * d1) * y) by (nonlinear_arith)
        requires
            u == n1 * d2 + n2 * d1,
    ;
    assert((n1 * d2) * y == (n1 * q1) * (q2 * d2)) by (nonlinear_arith)
        requires
            y == q1 * q2,
    ;
    assert((n2 * d1) * y == (n2 * q2) * (q1 * d1)) by (nonlinear_arith)
        requires
            y == q1 * q2,
    ;
    assert(y != 0 && v != 0) by (nonlinear_arith)
        requires
            y == q1 * q2,
            v == d1 * d2,
            q1 != 0,
            q2 != 0,
            d1 != 0,
            d2 != 0,
    ;
    lemma_ratio_eq(x, y, u, v);
}

/// Products of equal fractions are equal.
proof fn lemma_mul_congruent(p1: int, q1: int, n1: int, d1: int, p2: int, q2: int, n2: int, d2: int)
    requires
        q1 != 0,
        d1 != 0,
        q2 != 0,
        d2 != 0,
        p1 * d1 == n1 * q1,
        p2 * d2 == n2 * q2,
    ensures
        ratio(p1 * p2, q1 * q2) == ratio(n1 * n2, d1 * d2),
{
    assert((p1 * p2) * (d1 * d2) == (n1 * n2) * (q1 * q2)) by (nonlinear_arith)
        requires
            p1 * d1 == n1 * q1,
            p2 * d2 == n2 * q2,
    ;
    assert(q1 * q2 != 0 && d1 * d2 != 0) by (nonlinear_arith)
        requires
            q1 != 0,
            q2 != 0,
            d1 != 0,
            d2 != 0,
    ;
    lemma_ratio_eq(p1 * p2, q1 * q2, n1 * n2, d1 * d2);
}

/// Every nonzero integer pair reduces to lowest terms with a positive
/// denominator, and reducing the result again changes nothing.
pub proof fn lemma_construct_reduced(n: int, d: int)
    requires
        d != 0,
    ensures
        ratio(n, d) is Finite,
        ratio(n, d)->den > 0,
        gcd(abs(ratio(n, d)->num), ratio(n, d)->den as nat) == 1,
        ratio(ratio(n, d)->num, ratio(n, d)->den) == ratio(n, d),
{
    lemma_ratio_finite(n, d);
    lemma_ratio_of_valid(ratio(n, d));
}

/// Addition of finite values commutes.
pub proof fn lemma_add_commutative(a: ExtValue, b: ExtValue)
    requires
        a is Finite,
        b is Finite,
        a.is_valid(),
        b.is_valid(),
    ensures
        add_value(a, b) == add_value(b, a),
{
    assert(a->num * b->den + b->num * a->den == b->num * a->den + a->num * b->den);
    assert(a->den * b->den == b->den * a->den) by (nonlinear_arith);
}

/// Addition of finite values associates.
pub proof fn lemma_add_associative(a: ExtValue, b: ExtValue, c: ExtValue)
    requires
        a is Finite,
        b is Finite,
        c is Finite,
        a.is_valid(),
        b.is_valid(),
        c.is_valid(),
    ensures
        add_value(add_value(a, b), c) == add_value(a, add_value(b, c)),
{
    let (na, da, nb, db, nc, dc) = (a->num, a->den, b->num, b->den, c->num, c->den);
    assert(da * db != 0 && db * dc != 0) by (nonlinear_arith)
        requires
            da > 0,
            db > 0,
            dc > 0,
    ;
    lemma_ratio_finite(na * db + nb * da, da * db);
    lemma_ratio_finite(nb * dc + nc * db, db * dc);
    let x = add_value(a, b);
    let y = add_value(b, c);
    lemma_add_congruent(x->num, x->den, na * db + nb * da, da * db, nc, dc, nc, dc);
    lemma_add_congruent(na, da, na, da, y->num, y->den, nb * dc + nc * db, db * dc);
    assert((na * db + nb * da) * dc == na * (db * dc) + nb * (da * dc)) by (nonlinear_arith);
    assert((nb * dc + nc * db) * da == nb * (da * dc) + nc * (da * db)) by (nonlinear_arith);
    assert((da * db) * dc == da * (db * dc)) by (nonlinear_arith);
}

/// Multiplication of finite values commutes.
pub proof fn lemma_mul_commutative(a: ExtValue, b: ExtValue)
    requires
        a is Finite,
        b is Finite,
    ensures
        mul_value(a, b) == mul_value(b, a),
{
    assert(a->num * b->num == b->num * a->num && a->den * b->den == b->den * a->den)
        by (nonlinear_arith);
}

/// Multiplication of finite values associates.
pub proof fn lemma_mul_associative(a: ExtValue, b: ExtValue, c: ExtValue)
    requires
        a is Finite,
        b is Finite,
        c is Finite,
        a.is_valid(),
        b.is_valid(),
        c.is_valid(),
    ensures
        mul_value(mul_value(a, b), c) == mul_value(a, mul_value(b, c)),
{
    let (na, da, nb, db, nc, dc) = (a->num, a->den, b->num, b->den, c->num, c->den);
    assert(da * db != 0 && db * dc != 0) by (nonlinear_arith)
        requires
            da > 0,
            db > 0,
            dc > 0,
    ;
    lemma_ratio_finite(na * nb, da * db);
    lemma_ratio_finite(nb * nc, db * dc);
    let x = mul_value(a, b);
    let y = mul_value(b, c);
    lemma_mul_congruent(x->num, x->den, na * nb, da * db, nc, dc, nc, dc);
    lemma_mul_congruent(na, da, na, da, y->num, y->den, nb * nc, db * dc);
    assert((na * nb) * nc == na * (nb * nc) && (da * db) * dc == da * (db * dc)) by (nonlinear_arith);
}

/// Multiplication distributes over addition of finite values.
pub proof fn lemma_distributive(a: ExtValue, b: ExtValue, c: ExtValue)
    requires
        a is Finite,
        b is Finite,
        c is Finite,
        a.is_valid(),
        b.is_valid(),
        c.is_valid(),
    ensures
        mul_value(a, add_value(b, c)) == add_value(mul_value(a, b), mul_value(a, c)),
{
    let (na, da, nb, db, nc, dc) = (a->num, a->den, b->num, b->den, c->num, c->den);
    assert(da * db != 0 && db * dc != 0 && da * dc != 0) by (nonlinear_arith)
        requires
            da > 0,
            db > 0,
            dc > 0,
    ;
    lemma_ratio_finite(nb * dc + nc * db, db * dc);
    lemma_ratio_finite(na * nb, da * db);
    lemma_ratio_finite(na * nc, da * dc);
    let y = add_value(b, c);
    let u = mul_value(a, b);
    let v = mul_value(a, c);
    lemma_mul_congruent(na, da, na, da, y->num, y->den, nb * dc + nc * db, db * dc);
    lemma_add_congruent(u->num, u->den, na * nb, da * db, v->num, v->den, na * nc, da * dc);
    let (n1, d1) = (na * (nb * dc + nc * db), da * (db * dc));
    let (n2, d2) = ((na * nb) * (da * dc) + (na * nc) * (da * db), (da * db) * (da * dc));
    assert(n1 == na * nb * dc + na * nc * db) by (nonlinear_arith)
        requires
            n1 == na * (nb * dc + nc * db),
    ;
    assert((na * nb) * (da * dc) == da * (na * nb * dc)) by (nonlinear_arith);
    assert((na * nc) * (da * db) == da * (na * nc * db)) by (nonlinear_arith);
    assert(n2 == da * n1) by (nonlinear_arith)
        requires
            n1 == na * nb * dc + na * nc * db,
            n2 == da * (na * nb * dc) + da * (na * nc * db),
    ;
    assert(d2 == da * d1) by (nonlinear_arith)
        requires
            d1 == da * (db * dc),
            d2 == (da * db) * (da * dc),
    ;
    assert(n1 * d2 == n2 * d1 && d1 != 0 && d2 != 0) by (nonlinear_arith)
        requires
            n2 == da * n1,
            d2 == da * d1,
            da > 0,
            db * dc != 0,
            d1 == da * (db * dc),
    ;
    lemma_ratio_eq(n1, d1, n2, d2);
}

/// Zero is the additive identity and one the multiplicative identity of the
/// finite values.
pub proof fn lemma_identities(a: ExtValue)
    requires
        a is Finite,
        a.is_valid(),
    ensures
        add_value(a, zero_value()) == a,
        add_value(zero_value(), a) == a,
        mul_value(a, one_value()) == a,
        mul_value(one_value(), a) == a,
{
    lemma_ratio_of_valid(a);
    assert(a->num * 1 + 0 * a->den == a->num && a->den * 1 == a->den && 0 * a->den + a->num * 1
        == a->num && 1 * a->den == a->den && 1 * a->num == a->num) by (nonlinear_arith);
}

/// Every finite value has an additive inverse, its negation, and every
/// nonzero finite value a multiplicative inverse, one divided by it.
pub proof fn lemma_inverses(a: ExtValue)
    requires
        a is Finite,
        a.is_valid(),
    ensures
        add_value(a, neg_value(a)) == zero_value(),
        a->num != 0 ==> mul_value(a, div_value(one_value(), a)) == one_value(),
{
    let (n, d) = (a->num, a->den);
    assert(n * d + (-n) * d == 0 && d * d > 0) by (nonlinear_arith)
        requires
            d > 0,
    ;
    lemma_ratio_eq(0, d * d, 0, 1);
    crate::value::lemma_unit_values();
        lemma_ratio_of_valid(zero_value());
    if n != 0 {
        lemma_ratio_finite(1 * d, 1 * n);
        let r = div_value(one_value(), a);
        lemma_mul_congruent(n, d, n, d, r->num, r->den, 1 * d, 1 * n);
        assert(n * (1 * d) == d * (1 * n)) by (nonlinear_arith);
        assert(n * (1 * d) * 1 == 1 * (d * (1 * n)) && d * (1 * n) != 0) by (nonlinear_arith)
            requires
                n * (1 * d) == d * (1 * n),
                n != 0,
                d > 0,
        ;
        lemma_ratio_eq(n * (1 * d), d * (1 * n), 1, 1);
        crate::value::lemma_unit_values();
        lemma_ratio_of_valid(one_value());
    }
}

/// Values other than NaN are totally ordered: comparison always answers,
/// and answers "equal" exactly for equal values.
pub proof fn lemma_order_total(a: ExtValue, b: ExtValue)
    requires
        a.is_valid(),
        b.is_valid(),
        !(a is NaN),
        !(b is NaN),
    ensures
        compare_value(a, b) is Some,
        compare_value(a, b) == Some(Ordering::Equal) <==> eq_value(a, b),
        compare_value(a, b) == Some(Ordering::Less) <==> compare_value(b, a) == Some(Ordering::Greater),
{
    if a is Finite && b is Finite && a != b && a->num * b->den == b->num * a->den {
        crate::arith::lemma_lowest_terms_unique(a->num, a->den, b->num, b->den);
    }
}

/// The order is transitive.
pub proof fn lemma_order_transitive(a: ExtValue, b: ExtValue, c: ExtValue)
    requires
        a.is_valid(),
        b.is_valid(),
        c.is_valid(),
        compare_value(a, b) == Some(Ordering::Less),
        compare_value(b, c) == Some(Ordering::Less),
    ensures
        compare_value(a, c) == Some(Ordering::Less),
{
    if a is Finite && b is Finite && c is Finite {
        let (na, da, nb, db, nc, dc) = (a->num, a->den, b->num, b->den, c->num, c->den);
        assert(na * dc < nc * da) by (nonlinear_arith)
            requires
                na * db < nb * da,
                nb * dc < nc * db,
                da > 0,
                db > 0,
                dc > 0,
        ;
    }
}

/// NaN equals nothing, itself included, and is ordered against nothing.
pub proof fn lemma_nan_unordered(a: ExtValue)
    ensures
        !eq_value(ExtValue::NaN, a),
        !eq_value(a, ExtValue::NaN),
        compare_value(ExtValue::NaN, a) is None,
        compare_value(a, ExtValue::NaN) is None,
{
}

/// `a` multiplied by itself `n` times, starting from one.
pub open spec fn repeated_product(a: ExtValue, n: nat) -> ExtValue
    decreases n,
{
    if n == 0 {
        one_value()
    } else {
        mul_value(repeated_product(a, (n - 1) as nat), a)
    }
}

/// Any value but NaN to the power zero is one.
pub proof fn lemma_pow_zero(a: ExtValue)
    requires
        !(a is NaN),
    ensures
        pow_value(a, 0) == one_value(),
{
    if a is Finite {
        lemma_pow0(a->num);
        lemma_pow0(a->den);
        crate::value::lemma_unit_values();
        lemma_ratio_of_valid(one_value());
    }
}

/// A power with a natural exponent is the repeated product. This fails for
/// NaN to the power zero, which stays NaN, and for negative infinity to a
/// power of two or more, which stays negative.
pub proof fn lemma_pow_repeated(a: ExtValue, n: nat)
    requires
        a.is_valid(),
        !(a is NaN && n == 0),
        !(a is NegInf && n >= 2),
    ensures
        pow_value(a, n as int) == repeated_product(a, n),
    decreases n,
{
    if n == 0 {
        lemma_pow_zero(a);
    } else if a is Finite {
        lemma_pow_repeated(a, (n - 1) as nat);
        let (na, da) = (a->num, a->den);
        let m = (n - 1) as nat;
        lemma_pow_positive(da, m);
        lemma_pow_positive(da, n);
        lemma_ratio_finite(pow(na, m), pow(da, m));
        let x = pow_value(a, m as int);
        lemma_mul_congruent(x->num, x->den, pow(na, m), pow(da, m), na, da, na, da);
        lemma_pow_step(na, m);
        lemma_pow_step(da, m);
    } else if a is NaN {
    } else {
        if n >= 2 {
            lemma_pow_repeated(a, (n - 1) as nat);
        } else {
            assert(repeated_product(a, 0) == one_value());
        }
    }
}

/// A negative power is the same power of the reciprocal.
pub proof fn lemma_pow_negative(a: ExtValue, n: nat)
    requires
        a.is_valid(),
    ensures
        pow_value(a, -n) == pow_value(div_value(one_value(), a), n as int),
{
    let r = div_value(one_value(), a);
    if n == 0 {
        if !(a is NaN) {
            lemma_pow_zero(a);
            if a is Finite && a->num != 0 {
                lemma_ratio_finite(1 * a->den, 1 * a->num);
            }
            if !(r is NaN) {
                lemma_pow_zero(r);
            }
        }
    } else if a is Finite && a->num != 0 {
        let (na, da) = (a->num, a->den);
        lemma_ratio_finite(1 * da, 1 * na);
        let (p, q) = (r->num, r->den);
        assert(p * na == da * q) by (nonlinear_arith)
            requires
                p * (1 * na) == (1 * da) * q,
        ;
        lemma_pow_distributes(p, na, n);
        lemma_pow_distributes(da, q, n);
        crate::arith::lemma_pow_nonzero(na, n);
        lemma_pow_positive(q, n);
        assert(pow(p, n) * pow(na, n) == pow(da, n) * pow(q, n));
        lemma_ratio_eq(pow(p, n), pow(q, n), pow(da, n), pow(na, n));
    } else if a.is_infinite() {
        vstd::arithmetic::power::lemma0_pow(n);
        vstd::arithmetic::power::lemma1_pow(n);
        crate::value::lemma_unit_values();
        lemma_ratio_of_valid(zero_value());
    }
}

/// Formatting a finite value and parsing the text back gives the value.
pub proof fn lemma_format_parse(v: ExtValue, float_bits: Option<u64>)
    requires
        v is Finite,
        representable(v),
    ensures
        parse_text(trimmed(format_value(v)), float_bits) == Ok::<ExtValue, Seq<char>>(v),
{
    let (n, d) = (v->num, v->den);
    lemma_int_text(n);
    let a = int_text(n);
    lemma_count_absent(a, '/');
    lemma_count_absent(a, '.');
    if d == 1 {
        let t = a;
        lemma_trimmed_unchanged(t);
        lemma_no_keyword(t);
    } else {
        lemma_int_text(d);
        let b = int_text(d);
        let t = a + seq!['/'] + b;
        assert(t[0] == a[0]);
        assert(t.len() > 1 ==> t[1] == (a + seq!['/'])[1]);
        if a.len() > 1 {
            assert(t[1] == a[1]);
        }
        assert(t.last() == b.last());
        lemma_trimmed_unchanged(t);
        lemma_no_keyword(t);
        lemma_count_absent(b, '/');
        lemma_count_concat(a, seq!['/'], '/');
        lemma_count_concat(a + seq!['/'], b, '/');
        assert(seq!['/'].drop_last() =~= Seq::<char>::empty());
        assert(count_char(Seq::<char>::empty(), '/') == 0);
        assert(count_char(seq!['/'], '/') == 1);
        lemma_find_between(a, b, '/');
        assert(t.subrange(0, a.len() as int) =~= a);
        assert(t.subrange(a.len() as int + 1, t.len() as int) =~= b);
        lemma_ratio_of_valid(v);
    }
}

} // verus!
