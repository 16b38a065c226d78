//! Exact conversion of an IEEE-754 double, given by its bit pattern.
use crate::arith::{
    gcd, lemma_coprime_common_divisor, lemma_coprime_divides, lemma_gcd_commutes,
    lemma_gcd_divides, lemma_multiple, lemma_quotient,
};
use crate::fraction::ExtFraction;
use crate::value::{
    infinity_value, int_value, lemma_ratio_eq, lemma_ratio_finite, lemma_ratio_fits,
    lemma_ratio_of_lowest, ratio, ExtValue,
};
use vstd::arithmetic::power2::{
    lemma2_to64, lemma2_to64_rest, lemma_pow2_adds, lemma_pow2_pos, lemma_pow2_strictly_increases,
    lemma_pow2_unfold, pow2,
};
use vstd::prelude::*;

verus! {

/// The value of the double with bit pattern `bits`: NaN or a signed infinity
/// for the special patterns; otherwise `±m * 2^e` for the significand `m`
/// (with the implicit leading bit of a normal number) and the unbiased
/// exponent `e`, exact where its terms fit an `i128`. A magnitude too large is
/// clamped to `i128::MAX`; a denominator too large is replaced by `i128::MAX`.
pub open spec fn float_value(bits: u64) -> ExtValue {
    let negative = bits >= 0x8000_0000_0000_0000;
    let field = (bits / 0x10_0000_0000_0000) % 0x800;
    let frac = bits % 0x10_0000_0000_0000;
    if field == 0x7ff {
        if frac == 0 {
            infinity_value(!negative)
        } else {
            ExtValue::NaN
        }
    } else {
        let m: int = if field == 0 {
            frac as int
        } else {
            frac + 0x10_0000_0000_0000
        };
        let e: int = if field == 0 {
            -1074
        } else {
            field - 1075
        };
        let s: int = if negative {
            -m
        } else {
            m
        };
        if e >= 0 {
            if m * pow2(e as nat) <= i128::MAX {
                int_value(s * pow2(e as nat))
            } else {
                int_value(
                    if negative {
                        -(i128::MAX as int)
                    } else {
                        i128::MAX as int
                    },
                )
            }
        } else {
            let v = ratio(s, pow2((-e) as nat) as int);
            if v->den <= i128::MAX {
                v
            } else {
                ratio(v->num, i128::MAX as int)
            }
        }
    }
}

/// `d` divides `x` when it divides a divisor of `x`.
proof fn lemma_divides_trans(d: int, g: int, x: int)
    requires
        d > 0,
        g > 0,
        g % d == 0,
        x % g == 0,
    ensures
        x % d == 0,
{
    lemma_quotient(g, d);
    lemma_quotient(x, g);
    let u = g / d;
    let v = x / g;
    assert(x == (u * v) * d) by (nonlinear_arith)
        requires
            g == u * d,
            x == v * g,
    ;
    lemma_multiple(u * v, d);
}

/// A number coprime to two others is coprime to their product.
proof fn lemma_coprime_product(a: nat, b: nat, c: nat)
    requires
        a > 0,
        gcd(a, b) == 1,
        gcd(a, c) == 1,
    ensures
        gcd(a, b * c) == 1,
{
    lemma_gcd_divides(a, b * c);
    let g = gcd(a, b * c);
    if b > 0 {
        lemma_gcd_divides(g, b);
        let h = gcd(g, b);
        lemma_divides_trans(h as int, g as int, a as int);
        lemma_coprime_common_divisor(a, b, h as int);
        lemma_gcd_commutes(g, b);
        assert((b * c) as int == (b * c) as int);
        lemma_coprime_divides(b, g, c);
        lemma_coprime_common_divisor(a, c, g as int);
    } else {
        assert(b * c == 0);
        lemma_coprime_common_divisor(a, b, g as int);
    }
}

/// An odd number shares no factor with a power of two.
proof fn lemma_odd_coprime_pow2(m: nat, k: nat)
    requires
        m % 2 == 1,
    ensures
        gcd(m, pow2(k)) == 1,
    decreases k,
{
    assert(m % 1 == 0);
    assert(gcd(1, 0) == 1);
    assert(gcd(m, 1) == gcd(1, 0));
    if k == 0 {
        lemma2_to64();
    } else {
        lemma_odd_coprime_pow2(m, (k - 1) as nat);
        lemma_pow2_unfold(k);
        assert(2nat % 1 == 0);
        assert(gcd(2, 1) == gcd(1, 0));
        assert(gcd(m, 2) == gcd(2, 1));
        lemma_coprime_product(m, 2, pow2((k - 1) as nat));
    }
}

/// `2^k` for `k <= 126`.
fn power_of_two(k: u32) -> (r: i128)
    requires
        k <= 126,
    ensures
        r == pow2(k as nat),
{
    let mut p: i128 = 1;
    let mut j: u32 = 0;
    proof {
        lemma2_to64();
        lemma2_to64_rest();
        lemma_pow2_adds(63, 63);
    }
    while j < k
        invariant
            j <= k <= 126,
            p == pow2(j as nat),
            pow2(126) < i128::MAX,
        decreases k - j,
    {
        proof {
            lemma_pow2_unfold((j + 1) as nat);
            if j + 1 < 126 {
                lemma_pow2_strictly_increases((j + 1) as nat, 126);
            }
        }
        p = p * 2;
        j = j + 1;
    }
    p
}

impl ExtFraction {
    /// The exact value of the double with bit pattern `bits`, as
    /// `float_value` states.
    pub fn from_float_bits(bits: u64) -> (r: ExtFraction)
        ensures
            r@ == float_value(bits),
    {
        let negative = bits >= 0x8000_0000_0000_0000u64;
        let field = (bits / 0x10_0000_0000_0000u64) % 0x800u64;
        let frac = bits % 0x10_0000_0000_0000u64;
        if field == 0x7ff {
            return if frac == 0 {
                ExtFraction::infinity(!negative)
            } else {
                ExtFraction::nan()
            };
        }
        let m: i128 = if field == 0 {
            frac as i128
        } else {
            frac as i128 + 0x10_0000_0000_0000i128
        };
        proof {
            lemma2_to64();
            lemma2_to64_rest();
            lemma_pow2_adds(63, 63);
            lemma_pow2_adds(64, 63);
        }
        let ghost expected = float_value(bits);
        let ghost sm: int = if negative {
            -(m as int)
        } else {
            m as int
        };
        if field >= 1075 {
            let e = (field - 1075) as u32;
            proof {
                assert(expected == (if m * pow2(e as nat) <= i128::MAX {
                    int_value(sm * pow2(e as nat))
                } else {
                    int_value(if negative { -(i128::MAX as int) } else { i128::MAX as int })
                }));
            }
            let mut v: i128 = m;
            let mut i: u32 = 0;
            while i < e
                invariant
                    i <= e,
                    e == field - 1075,
                    0 <= m,
                    v == m * pow2(i as nat),
                    v <= i128::MAX,
                    expected == float_value(bits),
                    expected == (if m * pow2(e as nat) <= i128::MAX {
                        int_value(sm * pow2(e as nat))
                    } else {
                        int_value(if negative { -(i128::MAX as int) } else { i128::MAX as int })
                    }),
                    sm == (if negative { -(m as int) } else { m as int }),
                decreases e - i,
            {
                proof {
                    lemma_pow2_unfold((i + 1) as nat);
                    assert(m * pow2((i + 1) as nat) == 2 * (m * pow2(i as nat))) by (nonlinear_arith)
                        requires
                            pow2((i + 1) as nat) == 2 * pow2(i as nat),
                    ;
                }
                if v > i128::MAX / 2 {
                    proof {
                        let rest = (e - i - 1) as nat;
                        lemma_pow2_adds((i + 1) as nat, rest);
                        lemma_pow2_pos(rest);
                        assert((i + 1) as nat + rest == e as nat);
                        assert(m * pow2(e as nat) >= m * pow2((i + 1) as nat)) by (nonlinear_arith)
                            requires
                                pow2(e as nat) == pow2((i + 1) as nat) * pow2(rest),
                                pow2(rest) >= 1,
                                m >= 0,
                                pow2((i + 1) as nat) >= 0,
                        ;
                    }
                    return ExtFraction::from_integer(
                        if negative {
                            -i128::MAX
                        } else {
                            i128::MAX
                        },
                    );
                }
                v = v * 2;
                i = i + 1;
            }
            proof {
                assert((if negative { -(m as int) } else { m as int }) * pow2(e as nat) == (if negative { -(v as int) } else { v as int })) by (nonlinear_arith)
                    requires
                        v == m * pow2(e as nat),
            ;
            }
            return ExtFraction::from_integer(
                if negative {
                    -v
                } else {
                    v
                },
            );
        }
        let k0: u32 = if field == 0 {
            1074
        } else {
            (1075 - field) as u32
        };
        let mut mm: i128 = m;
        let mut k: u32 = k0;
        proof {
            assert(expected == ({
                let v = ratio(sm, pow2(k0 as nat) as int);
                if v->den <= i128::MAX {
                    v
                } else {
                    ratio(v->num, i128::MAX as int)
                }
            }));
            assert(pow2(0) == 1);
            assert(mm * pow2((k0 - k) as nat) == m) by (nonlinear_arith)
                requires
                    pow2((k0 - k) as nat) == 1,
                    mm == m,
            ;
        }
        while k > 126 && mm % 2 == 0
            invariant
                expected == float_value(bits),
                expected == ({
                    let v = ratio(sm, pow2(k0 as nat) as int);
                    if v->den <= i128::MAX {
                        v
                    } else {
                        ratio(v->num, i128::MAX as int)
                    }
                }),
                sm == (if negative { -(m as int) } else { m as int }),
                0 <= mm <= m,
                k <= k0,
                mm * pow2((k0 - k) as nat) == m,
            decreases k,
        {
            proof {
                lemma_quotient(mm as int, 2);
                lemma_pow2_unfold((k0 - k + 1) as nat);
                assert((mm / 2) * pow2((k0 - k + 1) as nat) == m) by (nonlinear_arith)
                    requires
                        mm == (mm / 2) * 2,
                        pow2((k0 - k + 1) as nat) == 2 * pow2((k0 - k) as nat),
                        mm * pow2((k0 - k) as nat) == m,
                ;
            }
            mm = mm / 2;
            k = k - 1;
        }
        let s: i128 = if negative {
            -mm
        } else {
            mm
        };
        proof {
            lemma_pow2_pos(k as nat);
            lemma_pow2_pos(k0 as nat);
            lemma_pow2_adds((k0 - k) as nat, k as nat);
            assert((k0 - k) as nat + k as nat == k0 as nat);
            assert(s * pow2(k0 as nat) == sm * pow2(k as nat)) by (nonlinear_arith)
                requires
                    mm * pow2((k0 - k) as nat) == m,
                    pow2(k0 as nat) == pow2((k0 - k) as nat) * pow2(k as nat),
                    s == (if negative { -(mm as int) } else { mm as int }),
                    sm == (if negative { -(m as int) } else { m as int }),
            ;
            lemma_ratio_eq(s as int, pow2(k as nat) as int, sm, pow2(k0 as nat) as int);
        }
        if k <= 126 {
            let den = power_of_two(k);
            proof {
                lemma_ratio_fits(s as int, den as int);
                lemma_ratio_finite(s as int, den as int);
            }
            ExtFraction::new(s, den)
        } else {
            proof {
                assert(mm % 2 == 1);
                lemma_odd_coprime_pow2(mm as nat, k as nat);
                assert(crate::arith::abs(s as int) == mm);
                lemma_ratio_of_lowest(s as int, pow2(k as nat) as int, s as int, pow2(k as nat) as int);
                if k > 127 {
                    lemma_pow2_strictly_increases(127, k as nat);
                }
                lemma_ratio_fits(s as int, i128::MAX as int);
            }
            ExtFraction::new(s, i128::MAX)
        }
    }
}

} // verus!
