//! Rounding of natural numbers to 24 significant bits, to nearest, ties to
//! even: the rounding that every binary32 operation ends with.
//!
//! The numbers rounded here are magnitudes counted in a fixed unit, so the
//! results are natural numbers too: those with at most 24 significant bits.

use vstd::arithmetic::div_mod::{
    lemma_div_denominator,
    lemma_div_multiples_vanish_quotient,
    lemma_fundamental_div_mod,
    lemma_fundamental_div_mod_converse,
    lemma_mod_multiples_basic,
    lemma_truncate_middle,
};
use vstd::arithmetic::mul::{lemma_mul_is_associative, lemma_mul_is_commutative};
use vstd::arithmetic::power2::{
    lemma2_to64,
    lemma_pow2_adds,
    lemma_pow2_pos,
    lemma_pow2_strictly_increases,
    lemma_pow2_unfold,
    pow2,
};
use vstd::prelude::*;

verus! {

/// The first number that needs more than 24 bits.
pub const SIGNIFICAND_LIMIT: u32 = 0x100_0000;

/// The exponent of the spacing of representable numbers around `n`: zero up
/// to 24 bits, and one more for each further bit of `n`.
pub open spec fn ulp_exponent(n: nat) -> nat
    decreases n,
{
    if n < SIGNIFICAND_LIMIT {
        0
    } else {
        1 + ulp_exponent(n / 2)
    }
}

/// `n` rounded to the nearest multiple of `step`; halfway between two
/// multiples, to the even one.
pub open spec fn round_to_step(n: nat, step: nat) -> nat {
    let below = n / step;
    let rest = n % step;
    if 2 * rest < step || (2 * rest == step && below % 2 == 0) {
        below * step
    } else {
        (below + 1) * step
    }
}

/// `n` rounded to 24 significant bits, to nearest, ties to even.
pub open spec fn round_nearest_even(n: nat) -> nat {
    round_to_step(n, pow2(ulp_exponent(n)))
}

/// Returns `n` rounded to 24 significant bits, to nearest, ties to even.
pub fn round_to_nearest_even(n: u128) -> (rounded: u128)
    requires
        n <= u128::MAX / 4,
    ensures
        rounded == round_nearest_even(n as nat),
        rounded <= 2 * n,
{
    let mut k: u32 = 0;
    let mut step: u128 = 1;
    proof {
        lemma2_to64();
    }
    while n / step >= SIGNIFICAND_LIMIT as u128
        invariant
            step == pow2(k as nat),
            step > 0,
            step <= n || k == 0,
            k <= 128,
            n <= u128::MAX / 4,
            ulp_exponent(n as nat) == k + ulp_exponent((n / step) as nat),
        decreases n - step,
    {
        proof {
            lemma2_to64();
            lemma_fundamental_div_mod(n as int, step as int);
            assert(2 * step <= n) by (nonlinear_arith)
                requires
                    n == step * (n / step) + n % step,
                    n / step >= 0x100_0000,
                    n % step >= 0,
                    step > 0,
            ;
            lemma_pow2_unfold((k + 1) as nat);
            lemma_div_denominator(n as int, step as int, 2);
            assert(step * 2 == 2 * step);
            if k >= 127 {
                lemma_pow2_monotone(127, k as nat);
                lemma_pow2_adds(64, 63);
                lemma_pow2_unfold(64);
                assert(pow2(127) == pow2(64) * pow2(63));
                assert(pow2(127) > u128::MAX / 4) by (nonlinear_arith)
                    requires
                        pow2(127) == pow2(64) * pow2(63),
                        pow2(64) == 0x1_0000_0000_0000_0000,
                        pow2(63) * 2 == 0x1_0000_0000_0000_0000,
                ;
            }
        }
        step = step * 2;
        k = k + 1;
    }
    let below: u128 = n / step;
    let rest: u128 = n % step;
    proof {
        lemma_fundamental_div_mod(n as int, step as int);
        assert(below * step <= n && (below + 1) * step <= 2 * n || below == 0) by (nonlinear_arith)
            requires
                n == step * below + rest,
                0 <= rest < step,
                0 <= below,
        ;
        assert(below == 0 ==> (below + 1) * step == step && below * step == 0)
            by (nonlinear_arith);
    }
    if 2 * rest < step || (2 * rest == step && below % 2 == 0) {
        below * step
    } else {
        (below + 1) * step
    }
}

/// `pow2` does not decrease.
pub proof fn lemma_pow2_monotone(i: nat, j: nat)
    requires
        i <= j,
    ensures
        pow2(i) <= pow2(j),
{
    if i < j {
        lemma_pow2_strictly_increases(i, j);
    }
}

/// The spacing around `n` brackets `n`: `n` has fewer than `24 + k` bits, and
/// exactly `24 + k` of them where `k` is positive.
pub proof fn lemma_ulp_exponent_bounds(n: nat)
    ensures
        n < pow2(24 + ulp_exponent(n)),
        ulp_exponent(n) > 0 ==> pow2(23 + ulp_exponent(n)) <= n,
    decreases n,
{
    lemma2_to64();
    if n >= SIGNIFICAND_LIMIT {
        let k = ulp_exponent(n / 2);
        lemma_ulp_exponent_bounds(n / 2);
        lemma_pow2_unfold(24 + k + 1);
        if k > 0 {
            lemma_pow2_unfold(23 + k + 1);
        }
        assert(ulp_exponent(n) == k + 1);
    }
}

/// The bracket of `lemma_ulp_exponent_bounds` fits one exponent only.
pub proof fn lemma_ulp_exponent_unique(n: nat, k: nat)
    requires
        n < pow2(24 + k),
        k > 0 ==> pow2(23 + k) <= n,
    ensures
        ulp_exponent(n) == k,
{
    let found = ulp_exponent(n);
    lemma_ulp_exponent_bounds(n);
    if found < k {
        lemma_pow2_monotone(24 + found, 23 + k);
    } else if found > k {
        lemma_pow2_monotone(24 + k, 23 + found);
    }
}

/// Scaling a number and the step alike scales the rounded number.
pub proof fn lemma_round_to_step_scales(n: nat, step: nat, c: nat)
    requires
        step > 0,
        c > 0,
    ensures
        round_to_step(n * c, step * c) == round_to_step(n, step) * c,
{
    let below = n / step;
    let rest = n % step;
    lemma_mul_is_commutative(n as int, c as int);
    lemma_mul_is_commutative(step as int, c as int);
    lemma_div_multiples_vanish_quotient(c as int, n as int, step as int);
    lemma_truncate_middle(n as int, c as int, step as int);
    assert((n * c) / (step * c) == below);
    assert((n * c) % (step * c) == c * rest);
    assert(2 * (c * rest) < step * c <==> 2 * rest < step) by (nonlinear_arith)
        requires
            c > 0,
    ;
    assert(2 * (c * rest) == step * c <==> 2 * rest == step) by (nonlinear_arith)
        requires
            c > 0,
    ;
    lemma_mul_is_associative(below as int, step as int, c as int);
    lemma_mul_is_associative((below + 1) as int, step as int, c as int);
}

/// A multiple of the step is left as it is.
pub proof fn lemma_round_to_step_of_multiple(m: nat, step: nat)
    requires
        step > 0,
    ensures
        round_to_step(m * step, step) == m * step,
{
    lemma_fundamental_div_mod_converse((m * step) as int, step as int, m as int, 0);
}

/// Rounding to 24 significant bits commutes with scaling by a power of two.
pub proof fn lemma_round_scales(n: nat, j: nat)
    ensures
        round_nearest_even(n * pow2(j)) == round_nearest_even(n) * pow2(j),
{
    let k = ulp_exponent(n);
    let scaled = n * pow2(j);
    lemma_pow2_pos(j);
    lemma_pow2_pos(k);
    lemma_ulp_exponent_bounds(n);
    if n == 0 {
        assert(scaled == 0) by (nonlinear_arith)
            requires
                scaled == n * pow2(j),
                n == 0,
        ;
        lemma_round_to_step_of_multiple(0, pow2(0));
        assert(round_nearest_even(0) == 0);
        assert(round_nearest_even(0) * pow2(j) == 0) by (nonlinear_arith)
            requires
                round_nearest_even(0) == 0,
        ;
    } else if k == 0 {
        // Fewer than 24 + j bits after scaling: the spacing divides the
        // scaled number, which is therefore kept, as `n` is.
        lemma2_to64();
        lemma_round_to_step_of_multiple(n, 1);
        assert(round_nearest_even(n) == n);
        lemma_pow2_adds(24, j);
        assert(scaled < pow2(24 + j)) by (nonlinear_arith)
            requires
                scaled == n * pow2(j),
                n < pow2(24),
                pow2(24 + j) == pow2(24) * pow2(j),
                pow2(j) > 0,
        ;
        let found = ulp_exponent(scaled);
        lemma_ulp_exponent_bounds(scaled);
        if found > j {
            lemma_pow2_monotone(24 + j, 23 + found);
        }
        assert(found <= j);
        let spare = (j - found) as nat;
        lemma_pow2_adds(spare, found);
        lemma_pow2_pos(found);
        lemma_mul_is_associative(n as int, pow2(spare) as int, pow2(found) as int);
        assert(scaled == (n * pow2(spare)) * pow2(found));
        lemma_round_to_step_of_multiple(n * pow2(spare), pow2(found));
    } else {
        lemma_pow2_adds(24 + k, j);
        lemma_pow2_adds(23 + k, j);
        assert(scaled < pow2(24 + k + j) && pow2(23 + k + j) <= scaled) by (nonlinear_arith)
            requires
                scaled == n * pow2(j),
                n < pow2(24 + k),
                pow2(23 + k) <= n,
                pow2(24 + k + j) == pow2(24 + k) * pow2(j),
                pow2(23 + k + j) == pow2(23 + k) * pow2(j),
                pow2(j) > 0,
        ;
        lemma_ulp_exponent_unique(scaled, k + j);
        lemma_pow2_adds(k, j);
        lemma_round_to_step_scales(n, pow2(k), pow2(j));
    }
}

/// A number of at most 24 bits, scaled by a power of two, is representable:
/// rounding keeps it.
pub proof fn lemma_round_exact(m: nat, j: nat)
    requires
        m <= SIGNIFICAND_LIMIT,
    ensures
        round_nearest_even(m * pow2(j)) == m * pow2(j),
{
    lemma2_to64();
    if m < SIGNIFICAND_LIMIT {
        lemma_round_to_step_of_multiple(m, 1);
    } else {
        assert(ulp_exponent(m) == 1) by {
            reveal_with_fuel(ulp_exponent, 2);
        }
        lemma_round_to_step_of_multiple(0x80_0000, 2);
    }
    assert(round_nearest_even(m) == m);
    lemma_round_scales(m, j);
}

/// Rounding does not cross a power of two: not downwards, and from 24 bits
/// on not upwards.
pub proof fn lemma_round_bounds(n: nat, i: nat)
    ensures
        pow2(i) <= n ==> pow2(i) <= round_nearest_even(n),
        i >= 24 && n <= pow2(i) ==> round_nearest_even(n) <= pow2(i),
{
    let k = ulp_exponent(n);
    let step = pow2(k);
    let below = n / step;
    let rest = n % step;
    lemma2_to64();
    lemma_pow2_pos(k);
    lemma_ulp_exponent_bounds(n);
    lemma_fundamental_div_mod(n as int, step as int);
    lemma_pow2_adds(24, k);
    lemma_pow2_adds(23, k);
    if k == 0 {
        lemma_round_to_step_of_multiple(n, 1);
        assert(round_nearest_even(n) == n);
        if i >= 24 {
            lemma_pow2_monotone(24, i);
        }
    } else {
        // 2^23 <= below < 2^24, so the result lies between 2^(23 + k) and
        // 2^(24 + k), and no power of two lies strictly between those.
        assert(pow2(23) <= below < pow2(24)) by (nonlinear_arith)
            requires
                n == step * below + rest,
                0 <= rest < step,
                pow2(23) * step <= n < pow2(24) * step,
        ;
        let rounded = round_nearest_even(n);
        assert(rounded == below * step || rounded == (below + 1) * step);
        assert(pow2(23 + k) <= rounded <= pow2(24 + k)) by (nonlinear_arith)
            requires
                rounded == below * step || rounded == (below + 1) * step,
                pow2(23) <= below < pow2(24),
                step > 0,
                pow2(23 + k) == pow2(23) * step,
                pow2(24 + k) == pow2(24) * step,
        ;
        if pow2(i) <= n {
            if i > 23 + k {
                lemma_pow2_monotone(24 + k, i);
            }
            lemma_pow2_monotone(i, 23 + k);
        }
        if i >= 24 && n <= pow2(i) {
            if i < 24 + k {
                lemma_pow2_monotone(i, 23 + k);
                assert(n == pow2(23 + k));
                assert(i == 23 + k) by {
                    if i < 23 + k {
                        lemma_pow2_strictly_increases(i, 23 + k);
                    }
                }
                lemma_round_to_step_of_multiple(pow2(23), step);
            } else {
                lemma_pow2_monotone(24 + k, i);
            }
        }
    }
}

/// Rounding moves a number by at most half the spacing around it.
pub proof fn lemma_round_is_near(n: nat)
    ensures
        2 * (round_nearest_even(n) - n) <= pow2(ulp_exponent(n)),
        2 * (n - round_nearest_even(n)) <= pow2(ulp_exponent(n)),
{
    let step = pow2(ulp_exponent(n));
    let below = n / step;
    let rest = n % step;
    lemma_pow2_pos(ulp_exponent(n));
    lemma_fundamental_div_mod(n as int, step as int);
    assert(below * step == n - rest && (below + 1) * step == n - rest + step) by (nonlinear_arith)
        requires
            n == step * below + rest,
    ;
}

/// What rounding gives, rounding keeps.
pub proof fn lemma_round_is_kept(n: nat)
    ensures
        round_nearest_even(round_nearest_even(n)) == round_nearest_even(n),
{
    let k = ulp_exponent(n);
    let step = pow2(k);
    let below = n / step;
    lemma2_to64();
    lemma_pow2_pos(k);
    lemma_ulp_exponent_bounds(n);
    lemma_fundamental_div_mod(n as int, step as int);
    lemma_pow2_adds(24, k);
    assert(below < SIGNIFICAND_LIMIT) by (nonlinear_arith)
        requires
            n == step * below + n % step,
            n % step >= 0,
            n < pow2(24) * step,
            pow2(24) == SIGNIFICAND_LIMIT,
            step > 0,
    ;
    lemma_round_exact(below, k);
    lemma_round_exact(below + 1, k);
}

/// The spacing does not shrink as the number grows.
pub proof fn lemma_ulp_exponent_monotone(n: nat, m: nat)
    requires
        n <= m,
    ensures
        ulp_exponent(n) <= ulp_exponent(m),
{
    lemma_ulp_exponent_bounds(n);
    lemma_ulp_exponent_bounds(m);
    if ulp_exponent(n) > ulp_exponent(m) {
        lemma_pow2_monotone(24 + ulp_exponent(m), 23 + ulp_exponent(n));
    }
}

/// A number that rounding keeps is a multiple of the spacing around it.
pub proof fn lemma_kept_is_multiple(m: nat)
    requires
        round_nearest_even(m) == m,
    ensures
        m % pow2(ulp_exponent(m)) == 0,
{
    let step = pow2(ulp_exponent(m));
    let below = m / step;
    lemma_pow2_pos(ulp_exponent(m));
    lemma_mod_multiples_basic(below as int, step as int);
    lemma_mod_multiples_basic((below + 1) as int, step as int);
}

/// Rounding does not cross a number that it keeps: what lies at or below such
/// a number is rounded to at most it, and what lies at or above it to at
/// least it.
pub proof fn lemma_round_keeps_side(n: nat, m: nat)
    requires
        round_nearest_even(m) == m,
    ensures
        n <= m ==> round_nearest_even(n) <= m,
        n >= m ==> round_nearest_even(n) >= m,
{
    let kn = ulp_exponent(n);
    let km = ulp_exponent(m);
    let step = pow2(kn);
    let below = n / step;
    let rest = n % step;
    let rounded = round_nearest_even(n);
    lemma_pow2_pos(kn);
    lemma_pow2_pos(km);
    lemma_fundamental_div_mod(n as int, step as int);
    lemma_fundamental_div_mod(m as int, pow2(km) as int);
    lemma_kept_is_multiple(m);
    assert(rounded == below * step || (rounded == (below + 1) * step && rest > 0));
    if n <= m {
        lemma_ulp_exponent_monotone(n, m);
        let spare = (km - kn) as nat;
        let count = (m / pow2(km)) * pow2(spare);
        lemma_pow2_adds(spare, kn);
        lemma_mul_is_associative((m / pow2(km)) as int, pow2(spare) as int, step as int);
        assert(m == count * step) by (nonlinear_arith)
            requires
                m == pow2(km) * (m / pow2(km)) + m % pow2(km),
                m % pow2(km) == 0,
                pow2(km) == pow2(spare) * step,
                count == (m / pow2(km)) * pow2(spare),
                (m / pow2(km)) * pow2(spare) * step == (m / pow2(km)) * (pow2(spare) * step),
        ;
        assert(rounded <= m) by (nonlinear_arith)
            requires
                n == step * below + rest,
                0 <= rest < step,
                m == count * step,
                n <= m,
                rounded == below * step || (rounded == (below + 1) * step && rest > 0),
        ;
    }
    if n >= m {
        lemma_ulp_exponent_monotone(m, n);
        if km == kn {
            let count = m / step;
            assert(rounded >= m) by (nonlinear_arith)
                requires
                    n == step * below + rest,
                    0 <= rest < step,
                    m == step * count + m % step,
                    m % step == 0,
                    n >= m,
                    rounded == below * step || rounded == (below + 1) * step,
            ;
        } else {
            lemma_ulp_exponent_bounds(n);
            lemma_ulp_exponent_bounds(m);
            lemma_round_bounds(n, 23 + kn);
            lemma_pow2_monotone(24 + km, 23 + kn);
        }
    }
}

/// A whole number from 1 to 255, counted in units of 2^-149, absorbs an addend
/// of at most `pow2(116)` units: the sum and the difference round back to it.
pub proof fn lemma_round_absorbs(a: nat, d: nat)
    requires
        1 <= a < 0x100,
        d <= pow2(116),
    ensures
        round_nearest_even(a * pow2(149) + d) == a * pow2(149),
        round_nearest_even((a * pow2(149) - d) as nat) == a * pow2(149),
{
    let unit = pow2(149);
    let big = a * unit;
    let k = ulp_exponent(big);
    lemma2_to64();
    lemma_pow2_pos(149);
    lemma_ulp_exponent_bounds(big);
    lemma_pow2_adds(8, 149);
    assert(unit <= big < pow2(157)) by (nonlinear_arith)
        requires
            big == a * unit,
            1 <= a < pow2(8),
            pow2(157) == pow2(8) * unit,
            unit > 0,
    ;
    // The spacing around `big` is 2^126 at least and 2^133 at most.
    lemma_pow2_monotone(24, 149);
    if k >= 134 {
        lemma_pow2_monotone(157, 23 + k);
    }
    if k <= 125 {
        lemma_pow2_monotone(24 + k, 149);
    }
    assert(126 <= k <= 133);
    let step = pow2(k);
    let up = (149 - k) as nat;
    let q0 = a * pow2(up);
    lemma_pow2_pos(k);
    lemma_pow2_adds(up, k);
    lemma_mul_is_associative(a as int, pow2(up) as int, step as int);
    assert(big == q0 * step);
    lemma_pow2_adds(24, k);
    lemma_pow2_adds(23, k);
    assert(pow2(23) <= q0 < pow2(24)) by (nonlinear_arith)
        requires
            big == q0 * step,
            pow2(23) * step <= big < pow2(24) * step,
            step > 0,
    ;
    // The addend is less than a quarter of the spacing.
    lemma_pow2_adds(2, 116);
    lemma_pow2_strictly_increases(118, k);
    assert(4 * d < step);
    let sum = big + d;
    assert(sum < pow2(24 + k)) by (nonlinear_arith)
        requires
            sum == q0 * step + d,
            d < step,
            q0 < pow2(24),
            pow2(24 + k) == pow2(24) * step,
    ;
    lemma_ulp_exponent_unique(sum, k);
    lemma_fundamental_div_mod_converse(sum as int, step as int, q0 as int, d as int);
    assert(round_nearest_even(sum) == big);
    if d > 0 {
        let n = (big - d) as nat;
        if q0 > pow2(23) {
            assert(n >= pow2(23 + k) && n == (q0 - 1) * step + (step - d)) by (nonlinear_arith)
                requires
                    n == q0 * step - d,
                    d < step,
                    q0 > pow2(23),
                    pow2(23 + k) == pow2(23) * step,
            ;
            lemma_ulp_exponent_unique(n, k);
            lemma_fundamental_div_mod_converse(n as int, step as int, q0 - 1, step - d);
            assert(n / step == q0 - 1);
            assert(n % step == step - d);
            assert(round_nearest_even(n) == (((q0 - 1) as nat + 1) as nat) * step);
            assert(round_nearest_even(n) == big);
        } else {
            // `big` is a power of two: below it the spacing is half as wide.
            let half = pow2((k - 1) as nat);
            lemma_pow2_unfold(k);
            lemma_pow2_pos((k - 1) as nat);
            lemma_pow2_adds(24, (k - 1) as nat);
            lemma_pow2_adds(23, (k - 1) as nat);
            let top: nat = 0xff_ffff;
            assert(n == top * half + (half - d) && n < pow2(24) * half && pow2(23) * half <= n
                && (top + 1) * half == big) by (nonlinear_arith)
                requires
                    n == big - d,
                    big == q0 * step,
                    q0 == pow2(23),
                    step == 2 * half,
                    pow2(23) == 0x80_0000,
                    pow2(24) == 0x100_0000,
                    top == 0xff_ffff,
                    0 < d,
                    2 * d < half,
            ;
            lemma_ulp_exponent_unique(n, (k - 1) as nat);
            lemma_fundamental_div_mod_converse(n as int, half as int, top as int, half - d);
            assert(n / half == top);
            assert(n % half == half - d);
            assert(round_nearest_even(n) == (top + 1) * half);
        }
    }
}

} // verus!
