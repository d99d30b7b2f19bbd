//! Rounding to nearest, ties to even.
//!
//! The number to round is a fraction `n / d` in units of 2^-1074. Its floor is
//! the largest pattern whose value does not exceed it; the rounding is the
//! floor or the pattern after it, whichever is nearer, and the even one of the
//! two where the number lies midway. A number at or beyond the value of
//! `INFINITY_PATTERN` less half a step rounds to infinity.

use vstd::prelude::*;
use crate::float::pattern::{INFINITY_PATTERN, pattern_value, lemma_pattern_value_increasing};

verus! {

/// `p` is the largest pattern with `pattern_value(p) <= n / d`.
pub open spec fn is_floor(n: nat, d: nat, p: u64) -> bool {
    &&& p <= INFINITY_PATTERN
    &&& pattern_value(p) * d <= n
    &&& (p < INFINITY_PATTERN ==> n < pattern_value((p + 1) as u64) * d)
}

/// The largest pattern whose value does not exceed `n / d`.
pub open spec fn floor_pattern(n: nat, d: nat) -> u64 {
    choose|p: u64| is_floor(n, d, p)
}

/// The pattern nearest to `n / d`; of two equally near, the even one.
pub open spec fn round_nearest_even(n: nat, d: nat) -> u64 {
    let lo = floor_pattern(n, d);
    if lo >= INFINITY_PATTERN {
        INFINITY_PATTERN
    } else {
        let below = n - pattern_value(lo) * d;
        let above = pattern_value((lo + 1) as u64) * d - n;
        if below < above || (below == above && lo % 2 == 0) {
            lo
        } else {
            (lo + 1) as u64
        }
    }
}

/// Comparing `v` with `n1 / d1` is comparing it with any equal fraction `n2 / d2`.
pub proof fn lemma_cross_compare(v: nat, n1: nat, d1: nat, n2: nat, d2: nat)
    requires
        d1 > 0,
        d2 > 0,
        n1 * d2 == n2 * d1,
    ensures
        (v * d1 <= n1) == (v * d2 <= n2),
        (v * d1 < n1) == (v * d2 < n2),
{
    assert((v * d1) * d2 == (v * d2) * d1) by (nonlinear_arith);
    assert((v * d1 <= n1) == ((v * d1) * d2 <= n1 * d2)) by (nonlinear_arith)
        requires
            d2 > 0,
    ;
    assert((v * d2 <= n2) == ((v * d2) * d1 <= n2 * d1)) by (nonlinear_arith)
        requires
            d1 > 0,
    ;
    assert((v * d1 < n1) == ((v * d1) * d2 < n1 * d2)) by (nonlinear_arith)
        requires
            d2 > 0,
    ;
    assert((v * d2 < n2) == ((v * d2) * d1 < n2 * d1)) by (nonlinear_arith)
        requires
            d1 > 0,
    ;
}

/// A fraction has at most one floor.
pub proof fn lemma_floor_unique(n: nat, d: nat, p: u64, q: u64)
    requires
        d > 0,
        is_floor(n, d, p),
        is_floor(n, d, q),
    ensures
        p == q,
{
    if p < q {
        if p + 1 < q {
            lemma_pattern_value_increasing((p + 1) as u64, q);
        }
        assert(pattern_value((p + 1) as u64) * d <= pattern_value(q) * d) by (nonlinear_arith)
            requires
                pattern_value((p + 1) as u64) <= pattern_value(q),
        ;
    } else if q < p {
        if q + 1 < p {
            lemma_pattern_value_increasing((q + 1) as u64, p);
        }
        assert(pattern_value((q + 1) as u64) * d <= pattern_value(p) * d) by (nonlinear_arith)
            requires
                pattern_value((q + 1) as u64) <= pattern_value(p),
        ;
    }
}

/// A pattern shown to be a floor is the floor.
pub proof fn lemma_floor_is(n: nat, d: nat, p: u64)
    requires
        d > 0,
        is_floor(n, d, p),
    ensures
        floor_pattern(n, d) == p,
{
    lemma_floor_unique(n, d, p, floor_pattern(n, d));
}

proof fn lemma_floor_search(n: nat, d: nat, p: u64)
    requires
        d > 0,
        p <= INFINITY_PATTERN,
        pattern_value(p) * d <= n,
    ensures
        is_floor(n, d, floor_pattern(n, d)),
    decreases INFINITY_PATTERN - p,
{
    if p < INFINITY_PATTERN && pattern_value((p + 1) as u64) * d <= n {
        lemma_floor_search(n, d, (p + 1) as u64);
    } else {
        assert(is_floor(n, d, p));
    }
}

/// Every fraction has a floor.
pub proof fn lemma_floor_exists(n: nat, d: nat)
    requires
        d > 0,
    ensures
        is_floor(n, d, floor_pattern(n, d)),
{
    crate::float::pattern::lemma_pattern_value_start();
    lemma_floor_search(n, d, 0);
}

/// Equal fractions round alike.
pub proof fn lemma_round_congruent(n1: nat, d1: nat, n2: nat, d2: nat)
    requires
        d1 > 0,
        d2 > 0,
        n1 * d2 == n2 * d1,
    ensures
        floor_pattern(n1, d1) == floor_pattern(n2, d2),
        round_nearest_even(n1, d1) == round_nearest_even(n2, d2),
{
    let lo = floor_pattern(n1, d1);
    lemma_floor_exists(n1, d1);
    lemma_cross_compare(pattern_value(lo), n1, d1, n2, d2);
    if lo < INFINITY_PATTERN {
        let hi = (lo + 1) as u64;
        lemma_cross_compare(pattern_value(hi), n1, d1, n2, d2);
        lemma_floor_is(n2, d2, lo);
        let sum = pattern_value(lo) + pattern_value(hi);
        assert((2 * n1) * d2 == (2 * n2) * d1) by (nonlinear_arith)
            requires
                n1 * d2 == n2 * d1,
        ;
        lemma_cross_compare(sum, 2 * n1, d1, 2 * n2, d2);
        let a = pattern_value(lo);
        let b = pattern_value(hi);
        assert((a + b) * d1 == a * d1 + b * d1) by (nonlinear_arith);
        assert((a + b) * d2 == a * d2 + b * d2) by (nonlinear_arith);
    } else {
        lemma_floor_is(n2, d2, lo);
    }
}

/// The value of a pattern rounds to that pattern.
pub proof fn lemma_round_exact(p: u64, d: nat)
    requires
        p <= INFINITY_PATTERN,
        d > 0,
    ensures
        round_nearest_even((pattern_value(p) * d) as nat, d) == p,
{
    let n = (pattern_value(p) * d) as nat;
    if p < INFINITY_PATTERN {
        let hi = (p + 1) as u64;
        lemma_pattern_value_increasing(p, hi);
        assert(pattern_value(p) * d < pattern_value(hi) * d) by (nonlinear_arith)
            requires
                pattern_value(p) < pattern_value(hi),
                d > 0,
        ;
    }
    lemma_floor_is(n, d, p);
}

/// A fraction that does not exceed the value of `c` does not round beyond `c`.
pub proof fn lemma_round_upper(n: nat, d: nat, c: u64)
    requires
        d > 0,
        c <= INFINITY_PATTERN,
        n <= pattern_value(c) * d,
    ensures
        round_nearest_even(n, d) <= c,
{
    let lo = floor_pattern(n, d);
    lemma_floor_exists(n, d);
    if lo > c {
        lemma_pattern_value_increasing(c, lo);
        assert(pattern_value(c) * d < pattern_value(lo) * d) by (nonlinear_arith)
            requires
                pattern_value(c) < pattern_value(lo),
                d > 0,
        ;
    }
    if lo == c && c < INFINITY_PATTERN {
        lemma_pattern_value_increasing(c, (c + 1) as u64);
    }
}

/// A fraction that reaches the value of `c` does not round below `c`.
pub proof fn lemma_round_lower(n: nat, d: nat, c: u64)
    requires
        d > 0,
        c <= INFINITY_PATTERN,
        pattern_value(c) * d <= n,
    ensures
        round_nearest_even(n, d) >= c,
        round_nearest_even(n, d) <= INFINITY_PATTERN,
{
    let lo = floor_pattern(n, d);
    lemma_floor_exists(n, d);
    if lo < c {
        if lo + 1 < c {
            lemma_pattern_value_increasing((lo + 1) as u64, c);
        }
        assert(pattern_value((lo + 1) as u64) * d <= pattern_value(c) * d) by (nonlinear_arith)
            requires
                pattern_value((lo + 1) as u64) <= pattern_value(c),
        ;
    }
}

/// How far the value of `p` lies from `n / d`, times `d`.
pub open spec fn distance(n: nat, d: nat, p: u64) -> int {
    if pattern_value(p) * d >= n {
        pattern_value(p) * d - n
    } else {
        n - pattern_value(p) * d
    }
}

/// The rounding is nearest: no pattern up to that of infinity lies nearer to
/// the fraction, and a pattern that lies as near is the odd one of the two.
pub proof fn lemma_round_is_nearest(n: nat, d: nat, q: u64)
    requires
        d > 0,
        q <= INFINITY_PATTERN,
    ensures
        distance(n, d, round_nearest_even(n, d)) <= distance(n, d, q),
        (distance(n, d, round_nearest_even(n, d)) == distance(n, d, q) && q != round_nearest_even(
            n,
            d,
        )) ==> round_nearest_even(n, d) % 2 == 0,
{
    let lo = floor_pattern(n, d);
    lemma_floor_exists(n, d);
    if q < lo {
        lemma_pattern_value_increasing(q, lo);
        assert(pattern_value(q) * d < pattern_value(lo) * d) by (nonlinear_arith)
            requires
                pattern_value(q) < pattern_value(lo),
                d > 0,
        ;
    }
    if lo < INFINITY_PATTERN {
        let hi = (lo + 1) as u64;
        if q > hi {
            lemma_pattern_value_increasing(hi, q);
            assert(pattern_value(hi) * d < pattern_value(q) * d) by (nonlinear_arith)
                requires
                    pattern_value(hi) < pattern_value(q),
                    d > 0,
            ;
        }
    }
}

/// The rounding lies within half a step of the fraction: twice its distance
/// is at most the distance between the floor and the pattern after it.
pub proof fn lemma_round_half_step(n: nat, d: nat)
    requires
        d > 0,
        floor_pattern(n, d) < INFINITY_PATTERN,
    ensures
        2 * distance(n, d, round_nearest_even(n, d)) <= (pattern_value(
            (floor_pattern(n, d) + 1) as u64,
        ) - pattern_value(floor_pattern(n, d))) * d,
{
    let lo = floor_pattern(n, d);
    let hi = (lo + 1) as u64;
    lemma_floor_exists(n, d);
    assert((pattern_value(hi) - pattern_value(lo)) * d == pattern_value(hi) * d - pattern_value(
        lo,
    ) * d) by (nonlinear_arith);
}

} // verus!
