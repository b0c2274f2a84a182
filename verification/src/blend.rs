//! Blending of one 8-bit channel toward another by a binary32 blend factor.
//!
//! The blend is `a + extent * (b - a)`, computed as binary32 arithmetic
//! computes it: the product is rounded, the sum is rounded, and the result is
//! cut to a whole number. The contracts state this over natural numbers; the
//! executable code gets the same number from machine integers.

use crate::extent::{
    infinity_units,
    lemma_value_of_half_and_one,
    lemma_value_within_unit,
    lemma_value_of_zero,
    Binary32,
    Extent,
};
use crate::rounding::{
    lemma_pow2_monotone,
    lemma_round_absorbs,
    lemma_round_bounds,
    lemma_round_exact,
    lemma_round_keeps_side,
    lemma_round_scales,
    round_nearest_even,
    round_to_nearest_even,
};
use vstd::arithmetic::div_mod::{
    lemma_basic_div,
    lemma_div_by_multiple,
    lemma_div_is_ordered,
    lemma_div_multiples_vanish_quotient,
    lemma_div_nonincreasing,
};
use vstd::arithmetic::mul::{lemma_mul_is_associative, lemma_mul_is_commutative};
use vstd::arithmetic::power2::{
    lemma2_to64,
    lemma2_to64_rest,
    lemma_pow2_adds,
    lemma_pow2_pos,
    lemma_pow2_strictly_increases,
    lemma_pow2_unfold,
    pow2,
};
use vstd::prelude::*;

verus! {

/// The binary32 number of the given sign and magnitude, where the magnitude is
/// representable: infinity from `infinity_units()` on.
pub open spec fn finite_or_infinite(negative: bool, units: nat) -> Binary32 {
    if units >= infinity_units() {
        Binary32::Infinite { negative }
    } else {
        Binary32::Finite { negative, units }
    }
}

/// The binary32 number nearest to the exact magnitude `exact`, with the given
/// sign.
pub open spec fn rounded(negative: bool, exact: nat) -> Binary32 {
    finite_or_infinite(negative, round_nearest_even(exact))
}

/// The binary32 product of `x` and the whole number `factor`.
///
/// Infinity times zero is no number. The sign of the product is negative
/// where exactly one of the two signs is, also for a product of zero.
pub open spec fn scaled(x: Binary32, factor: int) -> Binary32 {
    match x {
        Binary32::NotANumber => Binary32::NotANumber,
        Binary32::Infinite { negative } => if factor == 0 {
            Binary32::NotANumber
        } else {
            Binary32::Infinite { negative: negative != (factor < 0) }
        },
        Binary32::Finite { negative, units } => rounded(
            negative != (factor < 0),
            units * (if factor < 0 {
                -factor
            } else {
                factor
            }) as nat,
        ),
    }
}

/// The binary32 sum of the channel value `base` and `x`.
pub open spec fn offset(base: u8, x: Binary32) -> Binary32 {
    match x {
        Binary32::NotANumber => Binary32::NotANumber,
        Binary32::Infinite { negative } => Binary32::Infinite { negative },
        Binary32::Finite { negative, units } => {
            let exact: int = base * pow2(149) + (if negative {
                -(units as int)
            } else {
                units as int
            });
            if exact < 0 {
                rounded(true, (-exact) as nat)
            } else {
                rounded(false, exact as nat)
            }
        },
    }
}

/// `x` cut to an unsigned 32-bit whole number: the fraction is dropped, what
/// lies below zero becomes zero, what lies above the largest value becomes
/// the largest value, and what is no number becomes zero.
pub open spec fn truncated(x: Binary32) -> u32 {
    match x {
        Binary32::NotANumber => 0,
        Binary32::Infinite { negative } => if negative {
            0
        } else {
            u32::MAX
        },
        Binary32::Finite { negative, units } => if negative {
            0
        } else if units / pow2(149) >= u32::MAX {
            u32::MAX
        } else {
            (units / pow2(149)) as u32
        },
    }
}

/// The blend of `a` toward `b` by `extent`, as an unsigned 32-bit number:
/// `a + extent * (b - a)` in binary32 arithmetic, cut to a whole number.
pub open spec fn interpolated(a: u8, b: u8, extent: Extent) -> u32 {
    truncated(offset(a, scaled(extent.value(), b - a)))
}

/// The channel that the blend of `a` toward `b` by `extent` gives: the low
/// eight bits of `interpolated`.
pub open spec fn mixed(a: u8, b: u8, extent: Extent) -> u8 {
    (interpolated(a, b, extent) % 0x100) as u8
}

/// Returns the channel that the blend of `a` toward `b` by `extent` gives.
pub fn mix(a: u8, b: u8, extent: Extent) -> (channel: u8)
    ensures
        channel == mixed(a, b, extent),
{
    (interpolate(a, b, extent) % 0x100) as u8
}

/// Returns the blend of `a` toward `b` by `extent`, as an unsigned 32-bit
/// number.
pub fn interpolate(a: u8, b: u8, extent: Extent) -> (value: u32)
    ensures
        value == interpolated(a, b, extent),
{
    let bits = extent.bits;
    let sign: bool = bits >= 0x8000_0000;
    let exponent: u32 = bits / 0x80_0000 % 0x100;
    let fraction: u32 = bits % 0x80_0000;
    let (falling, range): (bool, u32) = if b >= a {
        (false, (b - a) as u32)
    } else {
        (true, (a - b) as u32)
    };
    let negative = sign != falling;
    if exponent == 0xff {
        if fraction != 0 || range == 0 {
            return 0;
        }
        return if negative {
            0
        } else {
            u32::MAX
        };
    }
    // The factor is `significand * pow2(shift)` units, and so the exact
    // product `product * pow2(shift)`.
    let (significand, shift): (u32, u32) = if exponent == 0 {
        (fraction, 0)
    } else {
        (fraction + 0x80_0000, (exponent - 1) as u32)
    };
    assert(significand as u128 * range as u128 <= 0xff_ffff * 0xff) by (nonlinear_arith)
        requires
            significand <= 0xff_ffff,
            range <= 0xff,
    ;
    let product: u128 = significand as u128 * range as u128;
    proof {
        let units: nat = significand as nat * pow2(shift as nat);
        lemma2_to64();
        assert(exponent == 0 ==> units == fraction) by (nonlinear_arith)
            requires
                units == significand as nat * pow2(shift as nat),
                exponent == 0 ==> significand == fraction && pow2(shift as nat) == 1,
        ;
        assert(extent.value() == (Binary32::Finite { negative: sign, units }));
        lemma_mul_is_associative(significand as int, pow2(shift as nat) as int, range as int);
        lemma_mul_is_commutative(pow2(shift as nat) as int, range as int);
        lemma_mul_is_associative(significand as int, range as int, pow2(shift as nat) as int);
        assert(units * range as nat == product * pow2(shift as nat));
        lemma_round_scales(product as nat, shift as nat);
        assert(scaled(extent.value(), b - a) == finite_or_infinite(
            negative,
            round_nearest_even(product as nat) * pow2(shift as nat),
        ));
    }
    if product == 0 {
        proof {
            lemma_round_exact(0, 0);
            assert(round_nearest_even(0) * pow2(shift as nat) == 0) by (nonlinear_arith)
                requires
                    round_nearest_even(0) == 0,
            ;
            lemma_blend_of_nothing(a, negative);
        }
        return a as u32;
    }
    let delta = round_to_nearest_even(product);
    proof {
        lemma_round_bounds(product as nat, 0);
        lemma_round_bounds(product as nat, 32);
    }
    add_and_truncate(a, negative, delta, shift)
}

/// Adds to the channel value `a` the binary32 number of magnitude
/// `delta * pow2(shift)` units and cuts the sum to a whole number.
fn add_and_truncate(a: u8, negative: bool, delta: u128, shift: u32) -> (value: u32)
    requires
        1 <= delta <= 0x1_0000_0000,
        shift <= 253,
    ensures
        value == truncated(
            offset(a, finite_or_infinite(negative, (delta * pow2(shift as nat)) as nat)),
        ),
{
    if shift >= 182 {
        proof {
            lemma_addend_beyond_range(a, negative, delta as nat, shift as nat);
        }
        return if negative {
            0
        } else {
            u32::MAX
        };
    }
    if shift < 85 {
        proof {
            lemma_addend_beneath_notice(a, negative, delta as nat, shift as nat);
        }
        return a as u32;
    }
    // Both numbers are whole multiples of `pow2(low)` units.
    let low: u32 = if shift < 149 {
        shift
    } else {
        149
    };
    let scale_base: u128 = power_of_two(149 - low);
    let scale_addend: u128 = power_of_two(shift - low);
    proof {
        lemma2_to64();
        lemma_pow2_monotone((shift - low) as nat, 32);
        assert(scale_base * a <= 0x1_0000_0000_0000_0000 * 0xff) by (nonlinear_arith)
            requires
                scale_base <= 0x1_0000_0000_0000_0000,
                a <= 0xff,
        ;
        assert(scale_addend * delta <= 0x1_0000_0000 * 0x1_0000_0000) by (nonlinear_arith)
            requires
                scale_addend <= 0x1_0000_0000,
                delta <= 0x1_0000_0000,
        ;
        lemma_mul_is_commutative(scale_base as int, a as int);
        lemma_mul_is_commutative(scale_addend as int, delta as int);
        lemma_aligned_sum(a, negative, delta as nat, shift as nat);
    }
    let base: u128 = scale_base * (a as u128);
    let addend: u128 = scale_addend * delta;
    if negative && addend >= base {
        return 0;
    }
    let sum: u128 = if negative {
        base - addend
    } else {
        base + addend
    };
    let whole: u128 = round_to_nearest_even(sum) / scale_base;
    proof {
        lemma_truncated_rounded(sum as nat, low as nat);
    }
    if whole >= u32::MAX as u128 {
        u32::MAX
    } else {
        whole as u32
    }
}

/// Returns `pow2(k)`.
fn power_of_two(k: u32) -> (power: u128)
    requires
        k <= 64,
    ensures
        power == pow2(k as nat),
        1 <= power <= 0x1_0000_0000_0000_0000,
{
    let mut power: u128 = 1;
    let mut i: u32 = 0;
    proof {
        lemma2_to64();
    }
    while i < k
        invariant
            i <= k <= 64,
            power == pow2(i as nat),
            1 <= power <= 0x1_0000_0000_0000_0000,
        decreases k - i,
    {
        proof {
            lemma2_to64();
            lemma_pow2_unfold((i + 1) as nat);
            lemma_pow2_monotone((i + 1) as nat, 64);
        }
        power = power * 2;
        i = i + 1;
    }
    power
}

/// A channel value is fewer than `pow2(157)` units.
proof fn lemma_channel_units(a: u8)
    ensures
        a as nat * pow2(149) < pow2(157),
        a >= 1 ==> a as nat * pow2(149) >= pow2(149),
{
    lemma2_to64();
    lemma_pow2_pos(149);
    lemma_pow2_adds(8, 149);
    assert(a as nat * pow2(149) < pow2(157) && (a >= 1 ==> a as nat * pow2(149) >= pow2(149)))
        by (nonlinear_arith)
        requires
            a < pow2(8),
            pow2(157) == pow2(8) * pow2(149),
            pow2(149) > 0,
    ;
}

/// An addend of `pow2(182)` units or more decides the sum alone: the result
/// is the largest value, or zero where the addend is negative.
proof fn lemma_addend_beyond_range(a: u8, negative: bool, delta: nat, shift: nat)
    requires
        delta >= 1,
        shift >= 182,
    ensures
        truncated(offset(a, finite_or_infinite(negative, delta * pow2(shift)))) == if negative {
            0
        } else {
            u32::MAX
        },
{
    let units = delta * pow2(shift);
    lemma_channel_units(a);
    lemma_pow2_monotone(182, shift);
    lemma_pow2_monotone(157, 182);
    assert(units >= pow2(182)) by (nonlinear_arith)
        requires
            units == delta * pow2(shift),
            delta >= 1,
            pow2(shift) >= pow2(182),
    ;
    if units < infinity_units() && !negative {
        let sum = round_nearest_even(a as nat * pow2(149) + units);
        lemma_round_bounds(a as nat * pow2(149) + units, 182);
        if sum < infinity_units() {
            lemma2_to64();
            lemma_pow2_pos(149);
            lemma_pow2_adds(33, 149);
            lemma_pow2_unfold(33);
            lemma_div_is_ordered(pow2(182) as int, sum as int, pow2(149) as int);
            lemma_div_by_multiple(pow2(33) as int, pow2(149) as int);
        }
    }
}

/// An addend of at most `pow2(116)` units is lost in the sum: the result is
/// the channel value.
proof fn lemma_addend_beneath_notice(a: u8, negative: bool, delta: nat, shift: nat)
    requires
        1 <= delta <= 0x1_0000_0000,
        shift < 85,
    ensures
        truncated(offset(a, finite_or_infinite(negative, delta * pow2(shift)))) == a,
{
    let units = delta * pow2(shift);
    lemma2_to64();
    lemma_channel_units(a);
    lemma_pow2_pos(shift);
    lemma_pow2_pos(149);
    lemma_pow2_monotone(shift, 84);
    lemma_pow2_adds(32, 84);
    lemma_pow2_strictly_increases(116, 149);
    lemma_pow2_strictly_increases(116, 277);
    lemma_pow2_strictly_increases(157, 277);
    assert(0 < units <= pow2(116)) by (nonlinear_arith)
        requires
            units == delta * pow2(shift),
            1 <= delta <= pow2(32),
            0 < pow2(shift) <= pow2(84),
            pow2(116) == pow2(32) * pow2(84),
    ;
    if a == 0 {
        if !negative {
            lemma_round_bounds(units, 116);
            lemma_basic_div(round_nearest_even(units) as int, pow2(149) as int);
        }
    } else {
        lemma_round_absorbs(a as nat, units);
        lemma_div_by_multiple(a as int, pow2(149) as int);
    }
}

/// An addend in between is finite, and the exact sum is a whole multiple of
/// `pow2(low)` units, where `low` is the lesser of `shift` and 149: either it
/// is not above zero, and the result is zero, or it is the difference or the
/// sum of the two numbers counted in that multiple.
proof fn lemma_aligned_sum(a: u8, negative: bool, delta: nat, shift: nat)
    requires
        1 <= delta <= 0x1_0000_0000,
        85 <= shift < 182,
    ensures
        ({
            let low = if shift < 149 {
                shift
            } else {
                149
            };
            let base = a as nat * pow2((149 - low) as nat);
            let addend = delta * pow2((shift - low) as nat);
            let x = finite_or_infinite(negative, delta * pow2(shift));
            if negative && addend >= base {
                truncated(offset(a, x)) == 0
            } else if negative {
                offset(a, x) == rounded(false, (base - addend) as nat * pow2(low))
            } else {
                offset(a, x) == rounded(false, (base + addend) * pow2(low))
            }
        }),
{
    let low = if shift < 149 {
        shift
    } else {
        149
    };
    let step = pow2(low);
    let base = a as nat * pow2((149 - low) as nat);
    let addend = delta * pow2((shift - low) as nat);
    let base_units = a as nat * pow2(149);
    let units = delta * pow2(shift);
    lemma2_to64();
    lemma_pow2_pos(low);
    lemma_pow2_adds((149 - low) as nat, low);
    lemma_pow2_adds((shift - low) as nat, low);
    lemma_mul_is_associative(a as int, pow2((149 - low) as nat) as int, step as int);
    lemma_mul_is_associative(delta as int, pow2((shift - low) as nat) as int, step as int);
    assert(base_units == base * step);
    assert(units == addend * step);
    // The addend is finite.
    lemma_pow2_monotone(shift, 181);
    lemma_pow2_adds(32, 181);
    lemma_pow2_strictly_increases(213, 277);
    assert(units <= pow2(213)) by (nonlinear_arith)
        requires
            units == delta * pow2(shift),
            delta <= pow2(32),
            pow2(shift) <= pow2(181),
            pow2(213) == pow2(32) * pow2(181),
    ;
    if negative && addend >= base {
        assert(units >= base_units) by (nonlinear_arith)
            requires
                units == addend * step,
                base_units == base * step,
                addend >= base,
        ;
        if units == base_units {
            lemma_blend_of_nothing(0, false);
        }
    } else if negative {
        assert(base_units - units == (base - addend) * step) by (nonlinear_arith)
            requires
                units == addend * step,
                base_units == base * step,
        ;
        assert(base_units - units >= 0) by (nonlinear_arith)
            requires
                base_units - units == (base - addend) * step,
                base >= addend,
                step > 0,
        ;
    } else {
        assert(base_units + units == (base + addend) * step) by (nonlinear_arith)
            requires
                units == addend * step,
                base_units == base * step,
        ;
    }
}

/// A positive exact sum, held as `n * pow2(shift)`, is cut to the rounded `n`
/// without its lowest `149 - shift` bits.
proof fn lemma_truncated_rounded(n: nat, shift: nat)
    requires
        n <= u128::MAX / 4,
        shift <= 149,
    ensures
        ({
            let whole = round_nearest_even(n) / pow2((149 - shift) as nat);
            truncated(rounded(false, n * pow2(shift))) == if whole >= u32::MAX {
                u32::MAX
            } else {
                whole as u32
            }
        }),
{
    let r = round_nearest_even(n);
    let up = (149 - shift) as nat;
    lemma_round_scales(n, shift);
    lemma2_to64();
    lemma2_to64_rest();
    lemma_pow2_pos(shift);
    lemma_pow2_pos(up);
    lemma_pow2_adds(shift, up);
    // The rounded sum stays finite.
    lemma_round_bounds(n, 126);
    lemma_pow2_adds(64, 62);
    assert(n <= pow2(126)) by (nonlinear_arith)
        requires
            n <= u128::MAX / 4,
            pow2(126) == pow2(64) * pow2(62),
            pow2(64) == 0x1_0000_0000_0000_0000,
            pow2(62) == 0x4000_0000_0000_0000,
    ;
    lemma_pow2_adds(126, 149);
    lemma_pow2_monotone(shift, 149);
    lemma_pow2_strictly_increases(275, 277);
    assert(r * pow2(shift) <= pow2(275)) by (nonlinear_arith)
        requires
            r <= pow2(126),
            pow2(shift) <= pow2(149),
            pow2(275) == pow2(126) * pow2(149),
    ;
    // Dividing by the unit drops the common factor.
    lemma_mul_is_commutative(r as int, pow2(shift) as int);
    lemma_div_multiples_vanish_quotient(pow2(shift) as int, r as int, pow2(up) as int);
}

/// Adding a product of zero, of either sign, gives the channel value back.
pub proof fn lemma_blend_of_nothing(a: u8, negative: bool)
    ensures
        rounded(negative, 0) == (Binary32::Finite { negative, units: 0 }),
        truncated(offset(a, rounded(negative, 0))) == a,
{
    lemma_round_exact(0, 0);
    lemma_pow2_pos(277);
    lemma_pow2_pos(149);
    lemma_sum_of_units(a as nat, 149);
    lemma_div_by_multiple(a as int, pow2(149) as int);
}

/// An exact sum of fewer than 2^24 times a power of two is representable, and
/// cut by dropping the fraction.
pub proof fn lemma_sum_of_units(n: nat, shift: nat)
    requires
        n < 0x100_0000,
        shift <= 149,
    ensures
        rounded(false, n * pow2(shift)) == (Binary32::Finite {
            negative: false,
            units: n * pow2(shift),
        }),
        truncated(rounded(false, n * pow2(shift))) == n / pow2((149 - shift) as nat),
        (n * pow2(shift)) / pow2(149) == n / pow2((149 - shift) as nat),
{
    let up = (149 - shift) as nat;
    lemma2_to64();
    lemma_pow2_pos(shift);
    lemma_pow2_pos(up);
    lemma_pow2_adds(shift, up);
    lemma_round_exact(n, shift);
    lemma_round_exact(n, 0);
    lemma_truncated_rounded(n, shift);
    lemma_mul_is_commutative(n as int, pow2(shift) as int);
    lemma_div_multiples_vanish_quotient(pow2(shift) as int, n as int, pow2(up) as int);
    lemma_div_nonincreasing(n as int, pow2(up) as int);
    // The sum is finite.
    lemma_pow2_adds(24, 149);
    lemma_pow2_monotone(shift, 149);
    lemma_pow2_monotone(173, 277);
    assert(n * pow2(shift) < pow2(173)) by (nonlinear_arith)
        requires
            n < pow2(24),
            0 < pow2(shift) <= pow2(149),
            pow2(173) == pow2(24) * pow2(149),
    ;
}

/// Blending a channel toward itself by a finite factor leaves it as it is.
pub proof fn lemma_mixed_with_itself(a: u8, extent: Extent)
    requires
        extent.is_finite(),
    ensures
        interpolated(a, a, extent) == a,
        mixed(a, a, extent) == a,
{
    let negative = extent.value()->Finite_negative;
    let units = extent.value()->Finite_units;
    assert(units * 0 == 0) by (nonlinear_arith);
    lemma_blend_of_nothing(a, negative);
}

/// Blending by zero, of either sign, leaves the channel as it is.
pub proof fn lemma_mixed_by_zero(a: u8, b: u8, extent: Extent)
    requires
        extent.is_zero(),
    ensures
        interpolated(a, b, extent) == a,
        mixed(a, b, extent) == a,
{
    let range: nat = if b < a {
        (a - b) as nat
    } else {
        (b - a) as nat
    };
    lemma_value_of_zero(extent);
    assert(0 * range == 0) by (nonlinear_arith);
    lemma_blend_of_nothing(a, extent.sign() != (b < a));
}

/// Blending by one gives the target channel.
pub proof fn lemma_mixed_by_one(a: u8, b: u8, extent: Extent)
    requires
        extent.is_one(),
    ensures
        interpolated(a, b, extent) == b,
        mixed(a, b, extent) == b,
{
    let range: nat = if b < a {
        (a - b) as nat
    } else {
        (b - a) as nat
    };
    let unit = pow2(149);
    lemma_value_of_half_and_one(extent);
    lemma_pow2_pos(149);
    lemma_mul_is_commutative(unit as int, range as int);
    lemma_sum_of_units(range, 149);
    assert(scaled(extent.value(), b - a) == (Binary32::Finite {
        negative: b < a,
        units: range * unit,
    }));
    assert(a * unit + (if b < a {
        -((range * unit) as int)
    } else {
        (range * unit) as int
    }) == b * unit) by (nonlinear_arith)
        requires
            range == (if b < a {
                a - b
            } else {
                b - a
            }),
    ;
    lemma_sum_of_units(b as nat, 149);
    lemma_div_by_multiple(b as int, unit as int);
}

/// Blending by one half gives the mean of the two channels, rounded down.
pub proof fn lemma_mixed_by_half(a: u8, b: u8, extent: Extent)
    requires
        extent.is_half(),
    ensures
        interpolated(a, b, extent) == (a + b) / 2,
        mixed(a, b, extent) == (a + b) / 2,
{
    let range: nat = if b < a {
        (a - b) as nat
    } else {
        (b - a) as nat
    };
    let half = pow2(148);
    lemma2_to64();
    lemma_value_of_half_and_one(extent);
    lemma_pow2_pos(148);
    lemma_pow2_unfold(149);
    lemma_mul_is_commutative(half as int, range as int);
    lemma_sum_of_units(range, 148);
    assert(scaled(extent.value(), b - a) == (Binary32::Finite {
        negative: b < a,
        units: range * half,
    }));
    assert(a * (2 * half) + (if b < a {
        -((range * half) as int)
    } else {
        (range * half) as int
    }) == (a + b) * half) by (nonlinear_arith)
        requires
            range == (if b < a {
                a - b
            } else {
                b - a
            }),
    ;
    lemma_sum_of_units((a + b) as nat, 148);
}

/// By a factor from zero to one the blend lies between the two channels, so
/// that no bit of it is lost when it is cut to eight bits.
pub proof fn lemma_mixed_stays_between(a: u8, b: u8, extent: Extent)
    requires
        extent.is_within_unit(),
    ensures
        a <= b ==> a <= mixed(a, b, extent) <= b,
        b <= a ==> b <= mixed(a, b, extent) <= a,
        mixed(a, b, extent) == interpolated(a, b, extent),
{
    let range: nat = if b < a {
        (a - b) as nat
    } else {
        (b - a) as nat
    };
    let unit = pow2(149);
    let units = extent.value()->Finite_units;
    let from = a as nat * unit;
    let to = b as nat * unit;
    let most = range * unit;
    lemma_value_within_unit(extent);
    lemma_pow2_pos(149);
    // The product is at most the whole range, which is finite.
    let delta = round_nearest_even(units * range);
    assert(units * range <= most) by (nonlinear_arith)
        requires
            units <= unit,
            most == range * unit,
    ;
    lemma_sum_of_units(range, 149);
    lemma_round_keeps_side(units * range, most);
    assert(delta <= most);
    if units == 0 {
        assert(units * range == 0) by (nonlinear_arith)
            requires
                units == 0,
        ;
        lemma_blend_of_nothing(a, extent.value()->Finite_negative != (b < a));
    } else {
        assert(scaled(extent.value(), b - a) == (Binary32::Finite { negative: b < a, units: delta }));
        // The sum lies between the two channels, which rounding keeps.
        lemma_sum_of_units(a as nat, 149);
        lemma_sum_of_units(b as nat, 149);
        lemma_div_by_multiple(a as int, unit as int);
        lemma_div_by_multiple(b as int, unit as int);
        let exact: nat = if b < a {
            (from - delta) as nat
        } else {
            from + delta
        };
        assert(if b < a {
            to <= from - delta <= from
        } else {
            from <= from + delta <= to
        }) by (nonlinear_arith)
            requires
                delta <= most,
                most == range * unit,
                from == a as nat * unit,
                to == b as nat * unit,
                range == (if b < a {
                    a - b
                } else {
                    b - a
                }),
        ;
        lemma_round_keeps_side(exact, from);
        lemma_round_keeps_side(exact, to);
        let sum = round_nearest_even(exact);
        if b < a {
            lemma_div_is_ordered(to as int, sum as int, unit as int);
            lemma_div_is_ordered(sum as int, from as int, unit as int);
        } else {
            lemma_div_is_ordered(from as int, sum as int, unit as int);
            lemma_div_is_ordered(sum as int, to as int, unit as int);
        }
        assert(offset(a, scaled(extent.value(), b - a)) == rounded(false, exact));
    }
}

} // verus!
