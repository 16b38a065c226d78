//! Best rational approximation under a bound on the denominator, by the
//! continued-fraction expansion of the value and its convergents.
use crate::arith::{
    abs, gcd, lemma_abs_mul, lemma_coprime_common_divisor, lemma_multiple, lemma_unimodular_coprime,
};
use crate::value::{in_range, ExtValue};
use vstd::arithmetic::div_mod::{lemma_fundamental_div_mod, lemma_mod_bound};
use vstd::prelude::*;

verus! {

/// The continued-fraction expansion of `n / d` carried forward while the next
/// convergent's denominator stays within `bound`. The state holds the last two
/// convergents `p0/q0` and `p1/q1` and the remaining pair `(n, d)`; each step
/// takes the partial quotient `a = floor(n / d)`.
pub open spec fn convergent_walk(
    p0: int,
    q0: int,
    p1: int,
    q1: int,
    n: int,
    d: int,
    bound: int,
) -> (int, int, int, int, int, int)
    decreases (if d > 0 { d } else { 0 }),
{
    if d <= 0 {
        (p0, q0, p1, q1, n, d)
    } else {
        let a = n / d;
        if q0 + a * q1 > bound {
            (p0, q0, p1, q1, n, d)
        } else {
            convergent_walk(p1, q1, p0 + a * p1, q0 + a * q1, d, n % d, bound)
        }
    }
}

/// The closest fraction to `v` with denominator at most `bound`: `v` itself
/// when it is not finite or already fits; otherwise the last convergent that
/// fits or the largest semiconvergent beyond it, whichever is nearer (the
/// convergent on a tie).
pub open spec fn limit_value(v: ExtValue, bound: int) -> ExtValue {
    if !(v is Finite) || v->den <= bound {
        v
    } else {
        let (p0, q0, p1, q1, n, d) = convergent_walk(0, 1, 1, 0, v->num, v->den, bound);
        let k = (bound - q0) / q1;
        if 2 * d * (q0 + k * q1) <= v->den {
            ExtValue::Finite { num: p1, den: q1 }
        } else {
            ExtValue::Finite { num: p0 + k * p1, den: q0 + k * q1 }
        }
    }
}

/// What the walk over `big_n / big_d` keeps true from one step to the next.
pub open spec fn walk_state(
    big_n: int,
    big_d: int,
    bound: int,
    p0: int,
    q0: int,
    p1: int,
    q1: int,
    n: int,
    d: int,
) -> bool {
    &&& big_n != 0
    &&& 1 <= bound < big_d
    &&& in_range(big_n)
    &&& big_d <= i128::MAX
    &&& gcd(abs(big_n), big_d as nat) == 1
    &&& 0 <= q0 <= bound
    &&& 0 <= q1 <= bound
    &&& (q1 == 0 ==> p0 == 0 && q0 == 1 && p1 == 1 && n == big_n && d == big_d)
    &&& (q1 > 0 ==> 0 <= d < n <= big_d)
    &&& (q0 == 0 ==> q1 == 1)
    &&& big_d == q1 * n + q0 * d
    &&& big_n == p1 * n + p0 * d
    &&& (p1 * q0 - p0 * q1 == 1 || p1 * q0 - p0 * q1 == -1)
    &&& abs(p0) <= abs(big_n)
    &&& abs(p1) <= abs(big_n)
    &&& (q1 == 0 || p0 * p1 >= 0 || (p0 == 1 && q0 == 0))
}

/// A numerator whose fraction is within `r / (q * big_d)` of `big_n / big_d`,
/// with `q < big_d` and `r <= big_d`, is no larger than `big_n`.
proof fn lemma_numerator_bound(big_n: int, big_d: int, p: int, q: int, r: int)
    requires
        big_n != 0,
        0 <= q < big_d,
        0 <= r <= big_d,
        p * big_d - big_n * q == r || p * big_d - big_n * q == -r,
    ensures
        abs(p) <= abs(big_n),
{
    lemma_abs_mul(p, big_d);
    lemma_abs_mul(big_n, q);
    let (ap, an) = (abs(p) as int, abs(big_n) as int);
    assert(ap * big_d <= an * q + r) by (nonlinear_arith)
        requires
            abs(p * big_d) == ap * big_d,
            abs(big_n * q) == an * q,
            p * big_d - big_n * q == r || p * big_d - big_n * q == -r,
            r >= 0,
            abs(p * big_d) == (if p * big_d < 0 { -(p * big_d) } else { p * big_d }),
            abs(big_n * q) == (if big_n * q < 0 { -(big_n * q) } else { big_n * q }),
    ;
    assert(ap <= an) by (nonlinear_arith)
        requires
            ap * big_d <= an * q + r,
            0 <= q <= big_d - 1,
            r <= big_d,
            an >= 1,
            ap >= 0,
            big_d > 0,
    ;
}

/// Within the walk the remainder `d` never reaches zero, since a zero would
/// make `n` a common divisor of `big_n` and `big_d`.
pub proof fn lemma_walk_positive(
    big_n: int,
    big_d: int,
    bound: int,
    p0: int,
    q0: int,
    p1: int,
    q1: int,
    n: int,
    d: int,
)
    requires
        walk_state(big_n, big_d, bound, p0, q0, p1, q1, n, d),
    ensures
        d > 0,
{
    if d == 0 {
        assert(big_n == p1 * n && big_d == q1 * n) by (nonlinear_arith)
            requires
                d == 0,
                big_d == q1 * n + q0 * d,
                big_n == p1 * n + p0 * d,
        ;
        lemma_abs_mul(p1, n);
        lemma_multiple(abs(p1) as int, n);
        lemma_multiple(q1, n);
        lemma_coprime_common_divisor(abs(big_n), big_d as nat, n);
        assert(big_d == q1);
    }
}

/// Facts about one step of the walk: the next denominator stays below
/// `big_d`, and when it stays within `bound` the next numerator fits and the
/// state carries over.
pub proof fn lemma_walk_step(
    big_n: int,
    big_d: int,
    bound: int,
    p0: int,
    q0: int,
    p1: int,
    q1: int,
    n: int,
    d: int,
)
    requires
        walk_state(big_n, big_d, bound, p0, q0, p1, q1, n, d),
        d > 0,
    ensures
        0 <= (n / d) * q1 <= big_d,
        q0 + (n / d) * q1 <= big_d,
        in_range(n / d),
        q0 + (n / d) * q1 <= bound ==> {
            &&& i128::MIN <= (n / d) * p1 <= i128::MAX
            &&& in_range(p0 + (n / d) * p1)
            &&& walk_state(big_n, big_d, bound, p1, q1, p0 + (n / d) * p1, q0 + (n / d) * q1, d, n % d)
        },
{
    let a = n / d;
    let r = n % d;
    lemma_fundamental_div_mod(n, d);
    lemma_mod_bound(n, d);
    assert(n == a * d + r) by (nonlinear_arith)
        requires
            n == d * a + r,
    ;
    if q1 == 0 {
        // the first step: a is the floor of big_n / big_d
        assert(abs(a) <= abs(big_n)) by (nonlinear_arith)
            requires
                big_n == a * big_d + r,
                0 <= r < big_d,
                big_d >= 2,
                big_n != 0,
                abs(a) == (if a < 0 { -a } else { a }),
                abs(big_n) == (if big_n < 0 { -big_n } else { big_n }),
        ;
        assert(a * q1 == 0 && a * p1 == a) by (nonlinear_arith)
            requires
                q1 == 0,
                p1 == 1,
        ;
    } else {
        assert(a >= 1) by (nonlinear_arith)
            requires
                n == a * d + r,
                0 <= r < d,
                d < n,
        ;
        assert(a * q1 >= 0 && (q0 + a * q1) * d <= big_d) by (nonlinear_arith)
            requires
                a >= 1,
                q1 >= 1,
                q0 >= 0,
                d >= 1,
                n == a * d + r,
                r >= 0,
                big_d == q1 * n + q0 * d,
        ;
        assert(q0 + a * q1 <= big_d) by (nonlinear_arith)
            requires
                (q0 + a * q1) * d <= big_d,
                d >= 1,
                q0 + a * q1 >= 0,
        ;
        assert(a <= big_d) by (nonlinear_arith)
            requires
                a >= 1,
                q1 >= 1,
                a * q1 <= big_d,
        ;
    }
    let q2 = q0 + a * q1;
    let p2 = p0 + a * p1;
    if q2 <= bound {
        let det = p1 * q0 - p0 * q1;
        // the relations carry over to the new state
        assert(big_d == q2 * d + q1 * r && big_n == p2 * d + p1 * r) by (nonlinear_arith)
            requires
                n == a * d + r,
                big_d == q1 * n + q0 * d,
                big_n == p1 * n + p0 * d,
                q2 == q0 + a * q1,
                p2 == p0 + a * p1,
        ;
        assert(p2 * q1 - p1 * q2 == -det) by (nonlinear_arith)
            requires
                q2 == q0 + a * q1,
                p2 == p0 + a * p1,
                det == p1 * q0 - p0 * q1,
        ;
        assert(p2 * big_d - big_n * q2 == r * (-det)) by (nonlinear_arith)
            requires
                big_d == q2 * d + q1 * r,
                big_n == p2 * d + p1 * r,
                p2 * q1 - p1 * q2 == -det,
        ;
        assert(q2 >= 1) by (nonlinear_arith)
            requires
                q2 == q0 + a * q1,
                q1 == 0 ==> q0 == 1,
                q1 > 0 ==> a >= 1,
                q0 >= 0,
                q1 >= 0,
        ;
        assert(r < big_d);
        assert(p2 * big_d - big_n * q2 == r || p2 * big_d - big_n * q2 == -r) by (nonlinear_arith)
            requires
                p2 * big_d - big_n * q2 == r * (-det),
                det == 1 || det == -1,
        ;
        lemma_numerator_bound(big_n, big_d, p2, q2, r);
        // signs keep the product a * p1 within reach of p2
        if q1 == 0 {
        } else if p0 * p1 >= 0 {
            assert(abs(a * p1) <= abs(p2) && p1 * p2 >= 0) by (nonlinear_arith)
                requires
                    p0 * p1 >= 0,
                    a >= 1,
                    p2 == p0 + a * p1,
                    abs(a * p1) == (if a * p1 < 0 { -(a * p1) } else { a * p1 }),
                    abs(p2) == (if p2 < 0 { -p2 } else { p2 }),
            ;
        } else {
            assert(p0 == 1 && q0 == 0);
            assert(p1 * p2 >= 0 && a * p1 == p2 - 1) by (nonlinear_arith)
                requires
                    p0 == 1,
                    a >= 1,
                    p2 == p0 + a * p1,
            ;
        }
    }
}

/// `x * q <= m` exactly when `x <= m / q`.
pub proof fn lemma_mul_le_iff(x: int, q: int, m: int)
    requires
        q > 0,
    ensures
        x * q <= m <==> x <= m / q,
{
    lemma_fundamental_div_mod(m, q);
    lemma_mod_bound(m, q);
    let f = m / q;
    if x <= f {
        assert(x * q <= m) by (nonlinear_arith)
            requires
                x <= f,
                q > 0,
                m == q * f + m % q,
                m % q >= 0,
        ;
    } else {
        assert(x * q > m) by (nonlinear_arith)
            requires
                x >= f + 1,
                q > 0,
                m == q * f + m % q,
                m % q < q,
        ;
    }
}

/// Facts about the end of the walk: the semiconvergent's terms fit, both
/// candidates are in lowest terms, and the closeness test can be made with a
/// division in place of the product.
pub proof fn lemma_walk_end(
    big_n: int,
    big_d: int,
    bound: int,
    p0: int,
    q0: int,
    p1: int,
    q1: int,
    n: int,
    d: int,
)
    requires
        walk_state(big_n, big_d, bound, p0, q0, p1, q1, n, d),
        d > 0,
        q0 + (n / d) * q1 > bound,
    ensures
        q1 >= 1,
        gcd(abs(p1), q1 as nat) == 1,
        0 <= (bound - q0) / q1,
        0 <= ((bound - q0) / q1) * q1 <= bound - q0,
        i128::MIN <= ((bound - q0) / q1) * p1 <= i128::MAX,
        in_range(p0 + ((bound - q0) / q1) * p1),
        q0 + ((bound - q0) / q1) * q1 > 0 ==> gcd(
            abs(p0 + ((bound - q0) / q1) * p1),
            (q0 + ((bound - q0) / q1) * q1) as nat,
        ) == 1,
        q0 + ((bound - q0) / q1) * q1 > 0 ==> (2 * d * (q0 + ((bound - q0) / q1) * q1) <= big_d
            <==> d <= (big_d / 2) / (q0 + ((bound - q0) / q1) * q1)),
{
    let a = n / d;
    let r = n % d;
    lemma_fundamental_div_mod(n, d);
    lemma_mod_bound(n, d);
    assert(n == a * d + r) by (nonlinear_arith)
        requires
            n == d * a + r,
    ;
    if q1 == 0 {
        assert(a * q1 == 0) by (nonlinear_arith)
            requires
                q1 == 0,
        ;
    }
    let det = p1 * q0 - p0 * q1;
    lemma_unimodular_coprime(p1, q1, p0, q0);
    let m = bound - q0;
    let k = m / q1;
    lemma_fundamental_div_mod(m, q1);
    lemma_mod_bound(m, q1);
    assert(0 <= k && 0 <= k * q1 <= m) by (nonlinear_arith)
        requires
            m == q1 * k + m % q1,
            0 <= m % q1 < q1,
            m >= 0,
            q1 >= 1,
    ;
    let ps = p0 + k * p1;
    let qs = q0 + k * q1;
    // k stays below the partial quotient a
    assert(a >= 1) by (nonlinear_arith)
        requires
            n == a * d + r,
            0 <= r < d,
            d < n,
    ;
    assert(k < a) by (nonlinear_arith)
        requires
            q0 + a * q1 > bound,
            k * q1 <= bound - q0,
            q1 >= 1,
    ;
    assert(0 <= n - k * d <= n) by (nonlinear_arith)
        requires
            k < a,
            k >= 0,
            n == a * d + r,
            r >= 0,
            d > 0,
    ;
    assert(p0 * big_d - big_n * q0 == -(n * det)) by (nonlinear_arith)
        requires
            big_d == q1 * n + q0 * d,
            big_n == p1 * n + p0 * d,
            det == p1 * q0 - p0 * q1,
    ;
    assert(p1 * big_d - big_n * q1 == d * det) by (nonlinear_arith)
        requires
            big_d == q1 * n + q0 * d,
            big_n == p1 * n + p0 * d,
            det == p1 * q0 - p0 * q1,
    ;
    assert(ps * big_d == p0 * big_d + k * (p1 * big_d)) by (nonlinear_arith)
        requires
            ps == p0 + k * p1,
    ;
    assert(big_n * qs == big_n * q0 + k * (big_n * q1)) by (nonlinear_arith)
        requires
            qs == q0 + k * q1,
    ;
    assert(k * (p1 * big_d) - k * (big_n * q1) == k * (p1 * big_d - big_n * q1)) by (nonlinear_arith);

    assert(ps * big_d - big_n * qs == det * (k * d - n)) by (nonlinear_arith)
        requires
            ps * big_d - big_n * qs == (p0 * big_d - big_n * q0) + k * (p1 * big_d - big_n * q1),
            p0 * big_d - big_n * q0 == -(n * det),
            p1 * big_d - big_n * q1 == d * det,
    ;
    assert(ps * big_d - big_n * qs == n - k * d || ps * big_d - big_n * qs == -(n - k * d)) by (nonlinear_arith)
        requires
            ps * big_d - big_n * qs == det * (k * d - n),
            det == 1 || det == -1,
    ;
    lemma_numerator_bound(big_n, big_d, ps, qs, n - k * d);
    if p0 * p1 >= 0 {
        assert(abs(k * p1) <= abs(ps)) by (nonlinear_arith)
            requires
                p0 * p1 >= 0,
                k >= 0,
                ps == p0 + k * p1,
                abs(k * p1) == (if k * p1 < 0 { -(k * p1) } else { k * p1 }),
                abs(ps) == (if ps < 0 { -ps } else { ps }),
        ;
    } else {
        assert(p0 == 1 && q0 == 0);
        assert(k * p1 == ps - 1);
    }
    assert(ps * q1 - qs * p1 == -det) by (nonlinear_arith)
        requires
            ps == p0 + k * p1,
            qs == q0 + k * q1,
            det == p1 * q0 - p0 * q1,
    ;
    if qs > 0 {
        lemma_unimodular_coprime(ps, qs, p1, q1);
        lemma_mul_le_iff(d, qs, big_d / 2);
        lemma_mul_le_iff(d * qs, 2, big_d);
        assert(2 * d * qs == (d * qs) * 2) by (nonlinear_arith);
    }
}

/// `p/q` is at least as close to `n/d` as `p2/q2` is, for positive `d`, `q`
/// and `q2`: the errors `|p/q - n/d|` compared by cross-multiplying.
pub open spec fn no_farther(n: int, d: int, p: int, q: int, p2: int, q2: int) -> bool {
    abs(p * d - n * q) * q2 <= abs(p2 * d - n * q2) * q
}

/// The walk ends in a state that keeps its invariant, where the next
/// denominator would exceed `bound`.
pub proof fn lemma_walk_reaches_end(
    big_n: int,
    big_d: int,
    bound: int,
    p0: int,
    q0: int,
    p1: int,
    q1: int,
    n: int,
    d: int,
)
    requires
        walk_state(big_n, big_d, bound, p0, q0, p1, q1, n, d),
    ensures
        ({
            let w = convergent_walk(p0, q0, p1, q1, n, d, bound);
            &&& walk_state(big_n, big_d, bound, w.0, w.1, w.2, w.3, w.4, w.5)
            &&& w.5 > 0
            &&& w.1 + (w.4 / w.5) * w.3 > bound
        }),
    decreases d,
{
    lemma_walk_positive(big_n, big_d, bound, p0, q0, p1, q1, n, d);
    lemma_walk_step(big_n, big_d, bound, p0, q0, p1, q1, n, d);
    let a = n / d;
    if q0 + a * q1 <= bound {
        lemma_mod_bound(n, d);
        lemma_walk_reaches_end(big_n, big_d, bound, p1, q1, p0 + a * p1, q0 + a * q1, d, n % d);
    }
}

/// No fraction with denominator at most `bound` is closer to `big_n/big_d`
/// than the one the final state of the walk selects.
proof fn lemma_walk_end_best(
    big_n: int,
    big_d: int,
    bound: int,
    p0: int,
    q0: int,
    p1: int,
    q1: int,
    n: int,
    d: int,
    p: int,
    q: int,
)
    requires
        walk_state(big_n, big_d, bound, p0, q0, p1, q1, n, d),
        d > 0,
        q0 + (n / d) * q1 > bound,
        1 <= q <= bound,
    ensures
        ({
            let k = (bound - q0) / q1;
            let (ps, qs) = (p0 + k * p1, q0 + k * q1);
            if 2 * d * qs <= big_d {
                no_farther(big_n, big_d, p1, q1, p, q)
            } else {
                no_farther(big_n, big_d, ps, qs, p, q)
            }
        }),
{
    lemma_walk_end(big_n, big_d, bound, p0, q0, p1, q1, n, d);
    let a = n / d;
    let r = n % d;
    lemma_fundamental_div_mod(n, d);
    lemma_mod_bound(n, d);
    assert(n == a * d + r) by (nonlinear_arith)
        requires
            n == d * a + r,
    ;
    let det = p1 * q0 - p0 * q1;
    let m = bound - q0;
    let k = m / q1;
    lemma_fundamental_div_mod(m, q1);
    lemma_mod_bound(m, q1);
    let ps = p0 + k * p1;
    let qs = q0 + k * q1;
    // the next semiconvergent would not fit
    assert(qs + q1 > bound) by (nonlinear_arith)
        requires
            m == q1 * k + m % q1,
            m % q1 < q1,
            m == bound - q0,
            qs == q0 + k * q1,
    ;
    assert(qs >= 1) by (nonlinear_arith)
        requires
            qs == q0 + k * q1,
            q0 == 0 ==> q1 == 1,
            q0 >= 0,
            k >= 0,
            q1 >= 1,
            q0 == 0 ==> k == bound,
            bound >= 1,
    ;
    assert(a >= 1) by (nonlinear_arith)
        requires
            n == a * d + r,
            0 <= r < d,
            d < n,
    ;
    assert(k < a) by (nonlinear_arith)
        requires
            q0 + a * q1 > bound,
            k * q1 <= bound - q0,
            q1 >= 1,
    ;
    let gap = n - k * d;
    assert(gap >= d) by (nonlinear_arith)
        requires
            k <= a - 1,
            n == a * d + r,
            r >= 0,
            d > 0,
            gap == n - k * d,
    ;
    // the errors of the two candidates, scaled by big_d
    let e1 = p1 * big_d - big_n * q1;
    let es = ps * big_d - big_n * qs;
    assert(e1 == d * det) by (nonlinear_arith)
        requires
            big_d == q1 * n + q0 * d,
            big_n == p1 * n + p0 * d,
            det == p1 * q0 - p0 * q1,
            e1 == p1 * big_d - big_n * q1,
    ;
    assert(p0 * big_d - big_n * q0 == -(n * det)) by (nonlinear_arith)
        requires
            big_d == q1 * n + q0 * d,
            big_n == p1 * n + p0 * d,
            det == p1 * q0 - p0 * q1,
    ;
    assert(ps * big_d == p0 * big_d + k * (p1 * big_d)) by (nonlinear_arith)
        requires
            ps == p0 + k * p1,
    ;
    assert(big_n * qs == big_n * q0 + k * (big_n * q1)) by (nonlinear_arith)
        requires
            qs == q0 + k * q1,
    ;
    assert(k * (p1 * big_d) - k * (big_n * q1) == k * e1) by (nonlinear_arith)
        requires
            e1 == p1 * big_d - big_n * q1,
    ;
    assert(es == -(gap * det)) by (nonlinear_arith)
        requires
            es == (p0 * big_d - big_n * q0) + k * e1,
            p0 * big_d - big_n * q0 == -(n * det),
            e1 == d * det,
            gap == n - k * d,
    ;
    assert(abs(e1) == d && abs(es) == gap) by (nonlinear_arith)
        requires
            e1 == d * det,
            es == -(gap * det),
            det == 1 || det == -1,
            d > 0,
            gap > 0,
            abs(e1) == (if e1 < 0 { -e1 } else { e1 }),
            abs(es) == (if es < 0 { -es } else { es }),
    ;
    // (p, q) in the basis of the two candidates
    let delta = ps * q1 - qs * p1;
    assert(delta == -det) by (nonlinear_arith)
        requires
            ps == p0 + k * p1,
            qs == q0 + k * q1,
            det == p1 * q0 - p0 * q1,
            delta == ps * q1 - qs * p1,
    ;
    let u = ps * q - p * qs;
    let w = p * q1 - p1 * q;
    let alpha = delta * u;
    let beta = delta * w;
    assert(u * p1 == (ps * q) * p1 - (p * qs) * p1) by (nonlinear_arith)
        requires
            u == ps * q - p * qs,
    ;
    assert(w * ps == (p * q1) * ps - (p1 * q) * ps) by (nonlinear_arith)
        requires
            w == p * q1 - p1 * q,
    ;
    assert((ps * q) * p1 == (p1 * q) * ps) by (nonlinear_arith);
    assert((p * q1) * ps - (p * qs) * p1 == p * (ps * q1 - qs * p1)) by (nonlinear_arith);
    assert(u * q1 == (ps * q) * q1 - (p * qs) * q1) by (nonlinear_arith)
        requires
            u == ps * q - p * qs,
    ;
    assert(w * qs == (p * q1) * qs - (p1 * q) * qs) by (nonlinear_arith)
        requires
            w == p * q1 - p1 * q,
    ;
    assert((p * qs) * q1 == (p * q1) * qs) by (nonlinear_arith);
    assert((ps * q) * q1 - (p1 * q) * qs == q * (ps * q1 - qs * p1)) by (nonlinear_arith);
    assert(alpha * p1 + beta * ps == delta * (u * p1 + w * ps)) by (nonlinear_arith)
        requires
            alpha == delta * u,
            beta == delta * w,
    ;
    assert(alpha * q1 + beta * qs == delta * (u * q1 + w * qs)) by (nonlinear_arith)
        requires
            alpha == delta * u,
            beta == delta * w,
    ;
    assert(delta * (p * delta) == p && delta * (q * delta) == q) by (nonlinear_arith)
        requires
            delta == 1 || delta == -1,
    ;
    assert(p == alpha * p1 + beta * ps && q == alpha * q1 + beta * qs);
    let e = p * big_d - big_n * q;
    assert(p * big_d == alpha * (p1 * big_d) + beta * (ps * big_d)) by (nonlinear_arith)
        requires
            p == alpha * p1 + beta * ps,
    ;
    assert(big_n * q == alpha * (big_n * q1) + beta * (big_n * qs)) by (nonlinear_arith)
        requires
            q == alpha * q1 + beta * qs,
    ;
    assert(alpha * (p1 * big_d) - alpha * (big_n * q1) == alpha * e1) by (nonlinear_arith)
        requires
            e1 == p1 * big_d - big_n * q1,
    ;
    assert(beta * (ps * big_d) - beta * (big_n * qs) == beta * es) by (nonlinear_arith)
        requires
            es == ps * big_d - big_n * qs,
    ;
    assert(e == alpha * e1 + beta * es);
    // one coefficient is positive and the other is not
    assert((alpha >= 1 && beta <= 0) || (alpha <= 0 && beta >= 1)) by (nonlinear_arith)
        requires
            q == alpha * q1 + beta * qs,
            1 <= q <= bound,
            qs + q1 > bound,
            q1 >= 1,
            qs >= 1,
    ;
    // so (p, q) is no closer than one of the candidates
    if alpha >= 1 && beta <= 0 {
        assert(abs(e) == alpha * d + (-beta) * gap) by (nonlinear_arith)
            requires
                e == alpha * e1 + beta * es,
                e1 == d * det,
                es == -(gap * det),
                det == 1 || det == -1,
                alpha >= 1,
                beta <= 0,
                d > 0,
                gap > 0,
                abs(e) == (if e < 0 { -e } else { e }),
        ;
        assert(abs(e1) * q <= abs(e) * q1) by (nonlinear_arith)
            requires
                abs(e) == alpha * d + (-beta) * gap,
                abs(e1) == d,
                q == alpha * q1 + beta * qs,
                beta <= 0,
                gap > 0,
                qs >= 1,
                q1 >= 1,
                d > 0,
        ;
    } else {
        assert(abs(e) == (-alpha) * d + beta * gap) by (nonlinear_arith)
            requires
                e == alpha * e1 + beta * es,
                e1 == d * det,
                es == -(gap * det),
                det == 1 || det == -1,
                alpha <= 0,
                beta >= 1,
                d > 0,
                gap > 0,
                abs(e) == (if e < 0 { -e } else { e }),
        ;
        assert(abs(es) * q <= abs(e) * qs) by (nonlinear_arith)
            requires
                abs(e) == (-alpha) * d + beta * gap,
                abs(es) == gap,
                q == alpha * q1 + beta * qs,
                alpha <= 0,
                d > 0,
                qs >= 1,
                q1 >= 1,
        ;
    }
    // the closeness test picks the nearer candidate
    assert(big_d == 2 * (d * qs) + (gap * q1 - d * qs)) by (nonlinear_arith)
        requires
            big_d == q1 * n + q0 * d,
            gap == n - k * d,
            qs == q0 + k * q1,
    ;
    assert(2 * d * qs == 2 * (d * qs)) by (nonlinear_arith);
    if 2 * d * qs <= big_d {
        assert(abs(e1) * qs <= abs(es) * q1);
        if !(alpha >= 1 && beta <= 0) {
            assert(abs(e1) * q <= abs(e) * q1) by (nonlinear_arith)
                requires
                    abs(e1) * qs <= abs(es) * q1,
                    abs(es) * q <= abs(e) * qs,
                    qs >= 1,
                    q >= 1,
                    q1 >= 1,
                    abs(e1) >= 0,
                    abs(es) >= 0,
                    abs(e) >= 0,
            ;
        }
    } else {
        assert(abs(es) * q1 <= abs(e1) * qs);
        if alpha >= 1 && beta <= 0 {
            assert(abs(es) * q <= abs(e) * qs) by (nonlinear_arith)
                requires
                    abs(es) * q1 <= abs(e1) * qs,
                    abs(e1) * q <= abs(e) * q1,
                    qs >= 1,
                    q >= 1,
                    q1 >= 1,
                    abs(e1) >= 0,
                    abs(es) >= 0,
                    abs(e) >= 0,
            ;
        }
    }
}

/// `limit_value` gives a closest fraction: its denominator is within `bound`
/// and no fraction with a denominator from 1 to `bound` is nearer to `v`.
pub proof fn lemma_limit_is_best(v: ExtValue, bound: int, p: int, q: int)
    requires
        v is Finite,
        v.is_valid(),
        in_range(v->num),
        v->den <= i128::MAX,
        1 <= q <= bound,
    ensures
        limit_value(v, bound) is Finite,
        limit_value(v, bound)->den <= bound,
        no_farther(v->num, v->den, limit_value(v, bound)->num, limit_value(v, bound)->den, p, q),
{
    let (big_n, big_d) = (v->num, v->den);
    if big_d <= bound {
        let z = big_n * big_d - big_n * big_d;
        assert(z == 0);
        assert(abs(z) * q == 0) by (nonlinear_arith)
            requires
                abs(z) == 0,
        ;
        assert(abs(p * big_d - big_n * q) * big_d >= 0) by (nonlinear_arith)
            requires
                big_d > 0,
        ;
    } else {
        if big_n == 0 {
            crate::arith::lemma_gcd_commutes(0, big_d as nat);
        }
        assert(walk_state(big_n, big_d, bound, 0, 1, 1, 0, big_n, big_d)) by (nonlinear_arith)
            requires
                big_n != 0,
                1 <= bound < big_d,
                in_range(big_n),
                big_d <= i128::MAX,
                gcd(abs(big_n), big_d as nat) == 1,
        ;
        lemma_walk_reaches_end(big_n, big_d, bound, 0, 1, 1, 0, big_n, big_d);
        let w = convergent_walk(0, 1, 1, 0, big_n, big_d, bound);
        lemma_walk_end(big_n, big_d, bound, w.0, w.1, w.2, w.3, w.4, w.5);
        lemma_walk_end_best(big_n, big_d, bound, w.0, w.1, w.2, w.3, w.4, w.5, p, q);
        let k = (bound - w.1) / w.3;
        assert(w.1 + k * w.3 >= 1) by (nonlinear_arith)
            requires
                w.1 >= 0,
                k >= 0,
                w.3 >= 1,
                w.1 == 0 ==> w.3 == 1,
                w.1 == 0 ==> k == bound,
                bound >= 1,
        ;
    }
}

} // verus!
