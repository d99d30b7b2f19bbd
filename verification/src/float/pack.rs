//! From an exact quotient to the pattern it rounds to.

use vstd::prelude::*;
use vstd::arithmetic::power2::{
    pow2,
    lemma_pow2_pos,
    lemma_pow2_unfold,
    lemma_pow2_adds,
    lemma_pow2_strictly_increases,
    lemma2_to64,
};
use crate::float::pattern::{
    HIDDEN_BIT,
    SIGNIFICAND_LIMIT,
    INFINITY_PATTERN,
    pattern_value,
    lemma_pattern_compose,
};
use crate::float::rounding::{
    round_nearest_even,
    lemma_floor_is,
    lemma_round_congruent,
    lemma_round_exact,
};

verus! {

/// Powers of two multiply by adding exponents; those up to the 128th are named.
pub proof fn lemma_pow2_128()
    ensures
        pow2(64) == 0x1_0000_0000_0000_0000,
        pow2(52) == HIDDEN_BIT,
        pow2(53) == SIGNIFICAND_LIMIT,
        pow2(120) == 0x100_0000_0000_0000_0000_0000_0000_0000,
        pow2(126) == 0x4000_0000_0000_0000_0000_0000_0000_0000,
        pow2(127) == 0x8000_0000_0000_0000_0000_0000_0000_0000,
        pow2(128) == 0x1_0000_0000_0000_0000_0000_0000_0000_0000,
{
    lemma2_to64();
    lemma_pow2_adds(32, 20);
    lemma_pow2_adds(32, 21);
    lemma_pow2_adds(64, 56);
    lemma_pow2_adds(32, 24);
    lemma_pow2_adds(64, 62);
    lemma_pow2_adds(32, 30);
    lemma_pow2_adds(64, 63);
    lemma_pow2_adds(32, 31);
    lemma_pow2_adds(64, 64);
}

proof fn lemma_shift_is_power(e: u32)
    requires
        e < 128,
    ensures
        (1u128 << e) == pow2(e as nat),
    decreases e,
{
    if e == 0 {
        assert((1u128 << 0u32) == 1) by (bit_vector);
        lemma2_to64();
    } else {
        let f = (e - 1) as u32;
        lemma_shift_is_power(f);
        assert((1u128 << e) == 2 * (1u128 << f)) by (bit_vector)
            requires
                0 < e < 128,
                f == e - 1,
        ;
        lemma_pow2_unfold(e as nat);
    }
}

/// Two to the `e`.
pub(crate) fn power_of_two(e: u32) -> (r: u128)
    requires
        e < 128,
    ensures
        r == pow2(e as nat),
{
    proof {
        lemma_shift_is_power(e);
    }
    1u128 << e
}

/// The number of binary digits of `p`: zero for zero, and otherwise the `l`
/// with `2^(l-1) <= p < 2^l`.
pub(crate) fn bit_length(p: u128) -> (l: u32)
    ensures
        l <= 128,
        p < pow2(l as nat),
        l > 0 ==> pow2((l - 1) as nat) <= p,
        (l == 0) == (p == 0),
{
    let mut rest: u128 = p;
    let mut l: u32 = 0;
    proof {
        lemma2_to64();
    }
    while rest > 0
        invariant
            l <= 128,
            rest * pow2(l as nat) <= p,
            p < (rest + 1) * pow2(l as nat),
            l > 0 ==> pow2((l - 1) as nat) <= p,
            (l == 0) ==> rest == p,
        decreases rest,
    {
        proof {
            let w = pow2(l as nat);
            lemma_pow2_unfold((l + 1) as nat);
            lemma_pow2_128();
            assert(w <= p) by (nonlinear_arith)
                requires
                    rest * w <= p,
                    rest >= 1,
            ;
            if l >= 128 {
                if l > 128 {
                    lemma_pow2_strictly_increases(128, l as nat);
                }
            }
            let half = rest / 2;
            assert(half * (2 * w) <= rest * w) by (nonlinear_arith)
                requires
                    2 * half <= rest,
            ;
            assert((rest + 1) * w <= (half + 1) * (2 * w)) by (nonlinear_arith)
                requires
                    rest + 1 <= 2 * (half + 1),
            ;
        }
        rest = rest / 2;
        l = l + 1;
    }
    proof {
        assert((0 + 1) * pow2(l as nat) == pow2(l as nat)) by (nonlinear_arith);
        if l > 0 {
            lemma_pow2_pos((l - 1) as nat);
        }
    }
    l
}

/// The pattern of the quotient `m` at exponent `k`: one more where the
/// remainder is more than half the divisor, or is half of it under an odd
/// quotient.
pub open spec fn packed(m: nat, rem: nat, den: nat, k: nat) -> int {
    if 2 * rem > den || (2 * rem == den && m % 2 == 1) {
        k * HIDDEN_BIT + m + 1
    } else {
        k * HIDDEN_BIT + m
    }
}

/// A quotient of 53 digits or fewer at an exponent rounds by its remainder.
pub proof fn lemma_round_quotient(m: nat, rem: nat, den: nat, k: nat)
    requires
        rem < den,
        m < SIGNIFICAND_LIMIT,
        k == 0 || m >= HIDDEN_BIT,
        k <= 2045,
    ensures
        round_nearest_even(((m * den + rem) * pow2(k)) as nat, den) == packed(m, rem, den, k),
{
    let w = pow2(k);
    let num = m * den + rem;
    let n = (num * w) as nat;
    let lo = (k * HIDDEN_BIT + m) as u64;
    let hi = (lo + 1) as u64;
    lemma_pow2_pos(k);
    lemma_pattern_compose(k, m);
    lemma_pattern_compose(k, m + 1);
    assert(pattern_value(lo) == m * w);
    assert((m * w) * den + rem * w == num * w) by (nonlinear_arith)
        requires
            num == m * den + rem,
    ;
    assert(((m + 1) * w) * den == num * w + (den - rem) * w) by (nonlinear_arith)
        requires
            num == m * den + rem,
    ;
    assert((den - rem) * w > 0) by (nonlinear_arith)
        requires
            den - rem > 0,
            w > 0,
    ;
    assert(rem * w >= 0) by (nonlinear_arith)
        requires
            rem >= 0,
            w > 0,
    ;
    lemma_floor_is(n, den, lo);
    let below = n - pattern_value(lo) * den;
    let above = pattern_value(hi) * den - n;
    assert((below < above) == (2 * rem < den) && (below == above) == (2 * rem == den))
        by (nonlinear_arith)
        requires
            below == rem * w,
            above == (den - rem) * w,
            w > 0,
    ;
}

/// Rounds `num / den` at exponent `k`: the quotient is the significand, and the
/// remainder decides whether it goes one up.
pub(crate) fn round_pack(num: u128, den: u128, k: u64) -> (r: u64)
    requires
        0 < den < 0x4000_0000_0000_0000_0000_0000_0000_0000,
        num / den < SIGNIFICAND_LIMIT,
        k == 0 || num / den >= HIDDEN_BIT,
    ensures
        r == round_nearest_even((num * pow2(k as nat)) as nat, den as nat),
        r <= INFINITY_PATTERN,
{
    let m: u64 = (num / den) as u64;
    let rem: u128 = num % den;
    proof {
        assert(num == m * den + rem) by (nonlinear_arith)
            requires
                m == num / den,
                rem == num % den,
                den > 0,
        ;
    }
    if k >= 2046 {
        proof {
            let w = pow2(k as nat);
            lemma_pow2_pos(k as nat);
            if k > 2046 {
                lemma_pow2_strictly_increases(2046, k as nat);
            }
            lemma_pattern_compose(2046, HIDDEN_BIT as nat);
            assert(HIDDEN_BIT * den <= num) by (nonlinear_arith)
                requires
                    num == m * den + rem,
                    m >= HIDDEN_BIT,
                    rem >= 0,
                    den > 0,
            ;
            assert((HIDDEN_BIT * pow2(2046)) * den <= num * w) by (nonlinear_arith)
                requires
                    HIDDEN_BIT * den <= num,
                    pow2(2046) <= w,
            ;
            lemma_floor_is((num * w) as nat, den as nat, INFINITY_PATTERN);
        }
        return INFINITY_PATTERN;
    }
    proof {
        lemma_round_quotient(m as nat, rem as nat, den as nat, k as nat);
    }
    let lo: u64 = k * HIDDEN_BIT + m;
    let twice: u128 = 2 * rem;
    if twice > den || (twice == den && m % 2 == 1) {
        lo + 1
    } else {
        lo
    }
}

/// A fraction `n / d`, as long division finds it at `s` digits below the
/// unit: with `n * 2^s = m * d + rem` and `m` of 53 digits, it rounds to the
/// pattern of `m` at the exponent `1074 - s`.
pub proof fn lemma_fraction_pattern(n: nat, d: nat, s: nat, m: nat, rem: nat)
    requires
        rem < d,
        HIDDEN_BIT <= m < SIGNIFICAND_LIMIT,
        s <= 1074,
        n * pow2(s) == m * d + rem,
    ensures
        round_nearest_even(n * pow2(1074), d) == packed(m, rem, d, (1074 - s) as nat),
{
    let k = (1074 - s) as nat;
    lemma_round_quotient(m, rem, d, k);
    lemma_pow2_adds(s, k);
    assert((n * pow2(s)) * pow2(k) == n * pow2(1074)) by (nonlinear_arith)
        requires
            pow2(1074) == pow2(s) * pow2(k),
    ;
}

/// The numerator of the fraction that stands for `p * 2^t`.
pub open spec fn dyadic_numerator(p: nat, t: int) -> nat {
    if t >= 0 {
        p * pow2(t as nat)
    } else {
        p
    }
}

/// The denominator of the fraction that stands for `p * 2^t`.
pub open spec fn dyadic_denominator(t: int) -> nat {
    if t >= 0 {
        1
    } else {
        pow2((-t) as nat)
    }
}

/// A quotient by a power of two lies between the powers that bound the dividend.
proof fn lemma_quotient_bounds(p: nat, s: nat, l: nat)
    requires
        p < pow2(l),
        l <= s + 53,
    ensures
        p / pow2(s) < SIGNIFICAND_LIMIT,
        (l == s + 53 && pow2((l - 1) as nat) <= p) ==> p / pow2(s) >= HIDDEN_BIT,
{
    let d = pow2(s);
    lemma_pow2_pos(s);
    lemma_pow2_128();
    lemma_pow2_adds(s, 53);
    if l < s + 53 {
        lemma_pow2_strictly_increases(l, s + 53);
    }
    assert(p / d < SIGNIFICAND_LIMIT) by (nonlinear_arith)
        requires
            p < SIGNIFICAND_LIMIT * d,
            d > 0,
    ;
    if l == s + 53 && pow2((l - 1) as nat) <= p {
        lemma_pow2_adds(s, 52);
        assert(p / d >= HIDDEN_BIT) by (nonlinear_arith)
            requires
                p >= d * HIDDEN_BIT,
                d > 0,
        ;
    }
}

/// Rounds `p * 2^t`, counted in units of 2^-1074.
pub(crate) fn round_dyadic(p: u128, t: i64) -> (r: u64)
    requires
        p < 0x100_0000_0000_0000_0000_0000_0000_0000,
        -5000 <= t <= 5000,
    ensures
        r == round_nearest_even(dyadic_numerator(p as nat, t as int), dyadic_denominator(t as int)),
        r <= INFINITY_PATTERN,
{
    let ghost n = dyadic_numerator(p as nat, t as int);
    let ghost d = dyadic_denominator(t as int);
    proof {
        lemma_pow2_128();
        if t < 0 {
            lemma_pow2_pos((-t) as nat);
        }
    }
    if p == 0 {
        proof {
            crate::float::pattern::lemma_pattern_value_start();
            lemma_round_exact(0, d);
        }
        return 0;
    }
    let l: i64 = bit_length(p) as i64;
    proof {
        if l > 120 {
            lemma_pow2_strictly_increases(120, (l - 1) as nat);
        }
    }
    let top: i64 = l + t;
    let k: i64 = if top > 53 {
        top - 53
    } else {
        0
    };
    let s: i64 = k - t;
    if s <= 0 {
        let up: u128 = power_of_two((-s) as u32);
        proof {
            lemma_pow2_pos((-s) as nat);
            lemma_pow2_adds(l as nat, (-s) as nat);
            lemma_pow2_adds((l - 1) as nat, (-s) as nat);
            if l - s < 53 {
                lemma_pow2_strictly_increases((l - s) as nat, 53);
            }
            assert(p * up < pow2((l - s) as nat)) by (nonlinear_arith)
                requires
                    p < pow2(l as nat),
                    up > 0,
                    pow2((l - s) as nat) == pow2(l as nat) * up,
            ;
            if k > 0 {
                assert(p * up >= pow2(52)) by (nonlinear_arith)
                    requires
                        p >= pow2((l - 1) as nat),
                        up > 0,
                        pow2(52) == pow2((l - 1) as nat) * up,
                ;
            }
        }
        let num: u128 = p * up;
        let r = round_pack(num, 1, k as u64);
        proof {
            lemma_pow2_adds((t - k) as nat, k as nat);
            assert((p * up) * pow2(k as nat) == p * pow2(t as nat)) by (nonlinear_arith)
                requires
                    pow2(t as nat) == up * pow2(k as nat),
            ;
        }
        r
    } else if s >= 126 {
        proof {
            if s > 126 {
                lemma_pow2_strictly_increases(126, s as nat);
            }
            crate::float::pattern::lemma_pattern_value_start();
            crate::float::pattern::lemma_pattern_value_start();
            assert(pattern_value(1) * d == d);
            lemma_floor_is(n, d, 0);
        }
        0
    } else {
        let den: u128 = power_of_two(s as u32);
        proof {
            if s <= 125 {
                lemma_pow2_strictly_increases(s as nat, 126);
            }
            lemma_quotient_bounds(p as nat, s as nat, l as nat);
            if t >= 0 {
                lemma_pow2_adds(t as nat, s as nat);
                assert((p * pow2(t as nat)) * den == (p * pow2(k as nat)) * 1) by (nonlinear_arith)
                    requires
                        pow2(k as nat) == pow2(t as nat) * den,
                ;
            } else {
                lemma_pow2_adds(k as nat, (-t) as nat);
                assert(p * den == (p * pow2(k as nat)) * pow2((-t) as nat)) by (nonlinear_arith)
                    requires
                        den == pow2(k as nat) * pow2((-t) as nat),
                ;
            }
            lemma_pow2_pos(s as nat);
            lemma_round_congruent(n, d, (p * pow2(k as nat)) as nat, den as nat);
        }
        round_pack(p, den, k as u64)
    }
}

} // verus!
