//! Integer facts behind canonical fractions: the greatest common divisor and
//! the uniqueness of lowest terms.
use vstd::arithmetic::div_mod::*;
use vstd::arithmetic::power::{lemma_pow_positive, pow};
use vstd::prelude::*;

verus! {

/// Absolute value of an integer.
pub open spec fn abs(x: int) -> nat {
    if x < 0 {
        (-x) as nat
    } else {
        x as nat
    }
}

/// Greatest common divisor, by Euclid's recursion (`gcd(0, 0) == 0`).
pub open spec fn gcd(a: nat, b: nat) -> nat
    decreases b,
{
    if b == 0 {
        a
    } else {
        gcd(b, a % b)
    }
}

/// `k * d` is a multiple of `d`, and dividing it by `d` gives back `k`.
pub proof fn lemma_multiple(k: int, d: int)
    requires
        d > 0,
    ensures
        (k * d) % d == 0,
        (k * d) / d == k,
{
    lemma_mod_multiples_basic(k, d);
    assert(k * d == d * k) by (nonlinear_arith);
    lemma_div_multiples_vanish(k, d);
}

/// A multiple of `d` is `d` times its quotient.
pub proof fn lemma_quotient(x: int, d: int)
    requires
        d > 0,
        x % d == 0,
    ensures
        x == (x / d) * d,
{
    lemma_fundamental_div_mod(x, d);
    assert(d * (x / d) == (x / d) * d) by (nonlinear_arith);
}

/// A sum of multiples of `g` is a multiple of `g`.
pub proof fn lemma_combination(x: int, y: int, a: int, b: int, g: int)
    requires
        g > 0,
        x % g == 0,
        y % g == 0,
    ensures
        (a * x + b * y) % g == 0,
{
    lemma_quotient(x, g);
    lemma_quotient(y, g);
    let k = a * (x / g) + b * (y / g);
    assert(a * x + b * y == k * g) by (nonlinear_arith)
        requires
            x == (x / g) * g,
            y == (y / g) * g,
            k == a * (x / g) + b * (y / g),
    ;
    lemma_multiple(k, g);
}

/// The gcd is positive unless both arguments are zero, and divides both.
pub proof fn lemma_gcd_divides(a: nat, b: nat)
    requires
        a > 0 || b > 0,
    ensures
        gcd(a, b) > 0,
        a % gcd(a, b) == 0,
        b % gcd(a, b) == 0,
    decreases b,
{
    if b == 0 {
        lemma_multiple(1, a as int);
        lemma_multiple(0, a as int);
    } else {
        let r = a % b;
        lemma_mod_pos_bound(a as int, b as int);
        lemma_gcd_divides(b, r);
        let g = gcd(b, r) as int;
        lemma_fundamental_div_mod(a as int, b as int);
        lemma_combination(b as int, r as int, (a / b) as int, 1, g);
        assert((a / b) as int * b + 1 * r == a as int) by (nonlinear_arith)
            requires
                a as int == b * (a / b) as int + r,
        ;
    }
}

/// Every common divisor of `a` and `b` divides their gcd.
pub proof fn lemma_gcd_greatest(a: nat, b: nat, d: int)
    requires
        d > 0,
        (a as int) % d == 0,
        (b as int) % d == 0,
    ensures
        (gcd(a, b) as int) % d == 0,
    decreases b,
{
    if b != 0 {
        let r = a % b;
        lemma_mod_pos_bound(a as int, b as int);
        lemma_fundamental_div_mod(a as int, b as int);
        lemma_combination(a as int, b as int, 1, -((a / b) as int), d);
        assert(1 * a + (-((a / b) as int)) * b == r as int) by (nonlinear_arith)
            requires
                a as int == b * (a / b) as int + r,
        ;
        lemma_gcd_greatest(b, r, d);
    }
}

/// Scaling both arguments scales the gcd.
pub proof fn lemma_gcd_scale(a: nat, b: nat, c: nat)
    requires
        c > 0,
    ensures
        gcd(a * c, b * c) == gcd(a, b) * c,
    decreases b,
{
    if b == 0 {
        assert(b * c == 0);
    } else {
        let r = a % b;
        lemma_mod_pos_bound(a as int, b as int);
        lemma_fundamental_div_mod(a as int, b as int);
        let q = (a / b) as int;
        assert(a * c == q * (b * c) + r * c && 0 <= r * c < b * c && b * c > 0) by (nonlinear_arith)
            requires
                a as int == b * q + r,
                0 <= r < b,
                c > 0,
        ;
        lemma_fundamental_div_mod_converse((a * c) as int, (b * c) as int, q, (r * c) as int);
        lemma_gcd_scale(b, r, c);
    }
}

/// Dividing both arguments by their gcd leaves no common factor.
pub proof fn lemma_gcd_quotients_coprime(a: nat, b: nat)
    requires
        a > 0 || b > 0,
    ensures
        gcd(a, b) > 0,
        gcd(a / gcd(a, b), b / gcd(a, b)) == 1,
{
    lemma_gcd_divides(a, b);
    let g = gcd(a, b);
    lemma_quotient(a as int, g as int);
    lemma_quotient(b as int, g as int);
    let x = a / g;
    let y = b / g;
    lemma_gcd_scale(x, y, g);
    assert(x * g == a && y * g == b);
    let h = gcd(x, y);
    assert(h * g == g);
    assert(h == 1) by (nonlinear_arith)
        requires
            h * g == g,
            g > 0,
    ;
}

/// Euclid's lemma: a divisor of `a * c` that shares no factor with `a`
/// divides `c`.
pub proof fn lemma_coprime_divides(a: nat, b: nat, c: nat)
    requires
        b > 0,
        gcd(a, b) == 1,
        ((a * c) as int) % (b as int) == 0,
    ensures
        c % b == 0,
{
    if c == 0 {
        lemma_multiple(0, b as int);
    } else {
        lemma_gcd_scale(a, b, c);
        lemma_multiple(c as int, b as int);
        assert(b * c == c * b) by (nonlinear_arith);
        lemma_gcd_greatest(a * c, b * c, b as int);
    }
}

/// Two integers that divide each other and are positive are equal.
pub proof fn lemma_mutual_divisors(x: int, y: int)
    requires
        x > 0,
        y > 0,
        x % y == 0,
        y % x == 0,
    ensures
        x == y,
{
    lemma_quotient(x, y);
    lemma_quotient(y, x);
    let i = x / y;
    let j = y / x;
    assert(x == y) by (nonlinear_arith)
        requires
            x == i * y,
            y == j * x,
            x > 0,
            y > 0,
    ;
}

/// The gcd does not depend on the order of its arguments.
pub proof fn lemma_gcd_commutes(a: nat, b: nat)
    ensures
        gcd(a, b) == gcd(b, a),
{
    if a == 0 && b == 0 {
    } else {
        lemma_gcd_divides(a, b);
        lemma_gcd_divides(b, a);
        lemma_gcd_greatest(b, a, gcd(a, b) as int);
        lemma_gcd_greatest(a, b, gcd(b, a) as int);
        lemma_mutual_divisors(gcd(a, b) as int, gcd(b, a) as int);
    }
}

/// If `d` divides both arguments, the gcd is 1 only when `d` is 1.
pub proof fn lemma_coprime_common_divisor(a: nat, b: nat, d: int)
    requires
        d > 0,
        (a as int) % d == 0,
        (b as int) % d == 0,
        gcd(a, b) == 1,
    ensures
        d == 1,
{
    lemma_gcd_greatest(a, b, d);
    if d > 1 {
        lemma_small_mod(1, d as nat);
    }
}

/// Lowest terms are unique: two fractions with positive denominators and no
/// common factors that are equal as rationals are equal term by term.
pub proof fn lemma_lowest_terms_unique(p1: int, q1: int, p2: int, q2: int)
    requires
        q1 > 0,
        q2 > 0,
        gcd(abs(p1), q1 as nat) == 1,
        gcd(abs(p2), q2 as nat) == 1,
        p1 * q2 == p2 * q1,
    ensures
        p1 == p2,
        q1 == q2,
{
    assert(abs(p1) * q2 == abs(p2) * q1) by (nonlinear_arith)
        requires
            p1 * q2 == p2 * q1,
            q1 > 0,
            q2 > 0,
    ;
    lemma_multiple(abs(p2) as int, q1);
    lemma_multiple(abs(p1) as int, q2);
    lemma_coprime_divides(abs(p1), q1 as nat, q2 as nat);
    lemma_coprime_divides(abs(p2), q2 as nat, q1 as nat);
    lemma_mutual_divisors(q1, q2);
    assert(p1 == p2) by (nonlinear_arith)
        requires
            p1 * q2 == p2 * q1,
            q1 == q2,
            q1 > 0,
    ;
}

/// A unimodular relation `p * y - q * x == ±1` leaves `p` and `q` without a
/// common factor.
pub proof fn lemma_unimodular_coprime(p: int, q: int, x: int, y: int)
    requires
        q > 0,
        p * y - q * x == 1 || p * y - q * x == -1,
    ensures
        gcd(abs(p), q as nat) == 1,
{
    lemma_gcd_divides(abs(p), q as nat);
    let g = gcd(abs(p), q as nat) as int;
    assert(p % g == 0) by {
        if p < 0 {
            lemma_combination(abs(p) as int, 0, -1, 0, g);
        }
    }
    lemma_combination(p, q, y, -x, g);
    let s = p * y - q * x;
    assert(y * p + (-x) * q == s) by (nonlinear_arith)
        requires
            s == p * y - q * x,
    ;
    if s == -1 {
        lemma_combination(s, 0, -1, 0, g);
    }
    if g > 1 {
        lemma_small_mod(1, g as nat);
    }
}

/// The magnitude of a product is the product of the magnitudes.
pub proof fn lemma_abs_mul(x: int, y: int)
    ensures
        abs(x * y) == abs(x) * abs(y),
{
    if x >= 0 && y >= 0 {
        assert(x * y >= 0) by (nonlinear_arith)
            requires
                x >= 0,
                y >= 0,
        ;
    } else if x >= 0 {
        assert(x * y <= 0 && -(x * y) == x * (-y)) by (nonlinear_arith)
            requires
                x >= 0,
                y < 0,
        ;
    } else if y >= 0 {
        assert(x * y <= 0 && -(x * y) == (-x) * y) by (nonlinear_arith)
            requires
                x < 0,
                y >= 0,
        ;
    } else {
        assert(x * y > 0 && x * y == (-x) * (-y)) by (nonlinear_arith)
            requires
                x < 0,
                y < 0,
        ;
    }
}

/// One more factor: `b^(e+1) == b^e * b`.
pub proof fn lemma_pow_step(b: int, e: nat)
    ensures
        pow(b, e + 1) == pow(b, e) * b,
{
    reveal(pow);
    assert(pow(b, e + 1) == b * pow(b, e));
    assert(b * pow(b, e) == pow(b, e) * b) by (nonlinear_arith);
}

/// The magnitude of a power is the power of the magnitude.
pub proof fn lemma_pow_abs(b: int, e: nat)
    ensures
        abs(pow(b, e)) == pow(abs(b) as int, e),
    decreases e,
{
    reveal(pow);
    if e > 0 {
        lemma_pow_abs(b, (e - 1) as nat);
        lemma_abs_mul(b, pow(b, (e - 1) as nat));
    }
}

/// A power of a nonzero integer is nonzero.
pub proof fn lemma_pow_nonzero(b: int, e: nat)
    requires
        b != 0,
    ensures
        pow(b, e) != 0,
{
    lemma_pow_abs(b, e);
    lemma_pow_positive(abs(b) as int, e);
}

/// Powers of minus one alternate in sign.
pub proof fn lemma_pow_minus_one(e: nat)
    ensures
        pow(-1, e) == (if e % 2 == 0 {
            1int
        } else {
            -1int
        }),
    decreases e,
{
    reveal(pow);
    if e > 0 {
        lemma_pow_minus_one((e - 1) as nat);
    }
}

/// The gcd of a nonzero argument is positive, divides both arguments, and is
/// at most the magnitude of each nonzero one.
pub proof fn lemma_gcd_bounds(a: int, b: int)
    requires
        a != 0 || b != 0,
    ensures
        gcd(abs(a), abs(b)) > 0,
        (abs(a) as int) % (gcd(abs(a), abs(b)) as int) == 0,
        (abs(b) as int) % (gcd(abs(a), abs(b)) as int) == 0,
        a != 0 ==> gcd(abs(a), abs(b)) <= abs(a),
        b != 0 ==> gcd(abs(a), abs(b)) <= abs(b),
        a % (gcd(abs(a), abs(b)) as int) == 0,
        b % (gcd(abs(a), abs(b)) as int) == 0,
{
    lemma_gcd_divides(abs(a), abs(b));
    let g = gcd(abs(a), abs(b)) as int;
    lemma_quotient(abs(a) as int, g);
    lemma_quotient(abs(b) as int, g);
    if a != 0 {
        vstd::arithmetic::div_mod::lemma_div_pos_is_pos(abs(a) as int, g);
        assert(abs(a) >= g) by (nonlinear_arith)
            requires
                abs(a) as int == (abs(a) as int / g) * g,
                abs(a) > 0,
                g > 0,
                abs(a) as int / g >= 0,
        ;
    }
    if b != 0 {
        vstd::arithmetic::div_mod::lemma_div_pos_is_pos(abs(b) as int, g);
        assert(abs(b) >= g) by (nonlinear_arith)
            requires
                abs(b) as int == (abs(b) as int / g) * g,
                abs(b) > 0,
                g > 0,
                abs(b) as int / g >= 0,
        ;
    }
    if a < 0 {
        lemma_combination(abs(a) as int, 0, -1, 0, g);
    }
    if b < 0 {
        lemma_combination(abs(b) as int, 0, -1, 0, g);
    }
}

} // verus!
