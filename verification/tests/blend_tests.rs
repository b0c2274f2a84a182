use argb_color::blend::{interpolate, mix};
use argb_color::rounding::round_to_nearest_even;
use argb_color::Extent;

fn extent(value: f32) -> Extent {
    Extent::from_bits(value.to_bits())
}

fn machine_interpolate(a: u8, b: u8, extent: f32) -> u32 {
    let (a32, b32) = (a as i32, b as i32);
    let range = b32 - a32;
    let delta = extent * range as f32;
    (a32 as f32 + delta) as u32
}

fn next(state: &mut u32) -> u32 {
    *state = state.wrapping_mul(1664525).wrapping_add(1013904223);
    *state
}

fn check_all_pairs(bits: u32) {
    let value = f32::from_bits(bits);
    let mut a: u32 = 0;
    while a < 256 {
        let mut b: u32 = 0;
        while b < 256 {
            assert_eq!(
                machine_interpolate(a as u8, b as u8, value),
                interpolate(a as u8, b as u8, Extent::from_bits(bits)),
                "a = {}, b = {}, bits = {:#x}",
                a,
                b,
                bits
            );
            b += 1;
        }
        a += 1;
    }
}

#[test]
fn mix_gives_exact_values() {
    assert_eq!(127, mix(0, 255, extent(0.5)));
    assert_eq!(127, mix(255, 0, extent(0.5)));
    assert_eq!(2, mix(1, 3, extent(0.5)));
    assert_eq!(2, mix(3, 1, extent(0.5)));
    assert_eq!(2, mix(2, 3, extent(0.5)));
    assert_eq!(2, mix(3, 2, extent(0.5)));
    // 10 + 0.1 * 90 = 19.000000357..., 10 + 0.3 * 90 = 37.00000107...
    assert_eq!(19, mix(10, 100, extent(0.1)));
    assert_eq!(37, mix(10, 100, extent(0.3)));
    // 0.7 and 0.9 as binary32 lie below seven and nine tenths, but the products
    // round to 7 and to 90
    assert_eq!(7, mix(0, 10, extent(0.7)));
    assert_eq!(10, mix(100, 0, extent(0.9)));
    assert_eq!(85, mix(0, 255, extent(1.0 / 3.0)));
    assert_eq!(170, mix(255, 0, extent(1.0 / 3.0)));
}

#[test]
fn mix_truncates_and_does_not_round() {
    // 0 + 0.999 * 1 = 0.999
    assert_eq!(0, mix(0, 1, extent(0.999)));
    // 0 + 0.75 * 2 = 1.5
    assert_eq!(1, mix(0, 2, extent(0.75)));
    // 1 - 0.25 * 1 = 0.75
    assert_eq!(0, mix(1, 0, extent(0.25)));
}

#[test]
fn mix_rounds_the_sum_before_it_truncates() {
    // 255 - 2^-30 is not a binary32 number: the sum rounds to 255
    assert_eq!(255, mix(255, 254, extent(f32::from_bits(0x3080_0000))));
    // 1 - 2^-25 lies halfway between two binary32 numbers and rounds to the even one, 1
    assert_eq!(1, mix(1, 0, extent(f32::from_bits(0x3300_0000))));
    // 1 - 2^-24 is a binary32 number
    assert_eq!(0, mix(1, 0, extent(f32::from_bits(0x3380_0000))));
    // 255 + 0.99999994 rounds to 256, of which the low eight bits are zero
    assert_eq!(256, interpolate(255, 0, extent(f32::from_bits(0xbb80_8080))));
    assert_eq!(0, mix(255, 0, extent(f32::from_bits(0xbb80_8080))));
}

#[test]
fn interpolate_saturates() {
    assert_eq!(u32::MAX, interpolate(0, 255, extent(3.0e38)));
    assert_eq!(u32::MAX, interpolate(0, 1, extent(4294967296.0)));
    assert_eq!(4294967040, interpolate(0, 1, extent(4294967040.0)));
    assert_eq!(0, interpolate(0, 255, extent(-3.0e38)));
    assert_eq!(0, interpolate(255, 0, extent(3.0e38)));
    assert_eq!(u32::MAX, interpolate(255, 0, extent(-3.0e38)));
    assert_eq!(u32::MAX, interpolate(7, 8, extent(f32::INFINITY)));
    assert_eq!(0, interpolate(7, 8, extent(f32::NEG_INFINITY)));
    assert_eq!(0, interpolate(7, 7, extent(f32::INFINITY)));
    assert_eq!(0, interpolate(7, 8, extent(f32::NAN)));
    assert_eq!(0, interpolate(7, 7, extent(f32::NAN)));
    assert_eq!(0xff, mix(7, 8, extent(f32::INFINITY)));
}

#[test]
fn interpolate_with_tiny_extents_keeps_the_channel() {
    for bits in [1u32, 0x8000_0001, 0x007f_ffff, 0x0080_0000, 0x8080_0000, 0x0000_0000, 0x8000_0000]
    {
        let mut a: u32 = 0;
        while a < 256 {
            assert_eq!(a, interpolate(a as u8, 255, Extent::from_bits(bits)));
            assert_eq!(a, interpolate(a as u8, 0, Extent::from_bits(bits)));
            a += 1;
        }
    }
}

#[test]
fn mix_with_itself_is_identity_for_finite_extents() {
    let mut state: u32 = 7;
    for _ in 0..20000 {
        let bits = next(&mut state);
        if f32::from_bits(bits).is_finite() {
            let a = (next(&mut state) >> 24) as u8;
            assert_eq!(a, mix(a, a, Extent::from_bits(bits)));
        }
    }
}

#[test]
fn mix_by_zero_one_and_half() {
    let mut a: u32 = 0;
    while a < 256 {
        let mut b: u32 = 0;
        while b < 256 {
            assert_eq!(a as u8, mix(a as u8, b as u8, Extent::zero()));
            assert_eq!(a as u8, mix(a as u8, b as u8, extent(-0.0)));
            assert_eq!(b as u8, mix(a as u8, b as u8, Extent::one()));
            assert_eq!(((a + b) / 2) as u8, mix(a as u8, b as u8, Extent::half()));
            b += 1;
        }
        a += 1;
    }
}

#[test]
fn interpolate_agrees_with_machine_arithmetic_on_special_extents() {
    let specials = [
        0.0f32,
        -0.0,
        1.0,
        -1.0,
        0.5,
        0.25,
        0.75,
        0.1,
        0.2,
        0.3,
        1.0 / 3.0,
        2.0 / 3.0,
        0.9,
        0.99,
        0.999999,
        0.99999994,
        1.0000001,
        2.0,
        1.5,
        -0.5,
        255.0,
        256.0,
        16777216.0,
        16843009.0,
        4294967296.0,
        1.0e10,
        1.0e20,
        f32::MAX,
        f32::MIN,
        f32::MIN_POSITIVE,
        f32::EPSILON,
        f32::INFINITY,
        f32::NEG_INFINITY,
        f32::NAN,
    ];
    for value in specials {
        check_all_pairs(value.to_bits());
    }
}

#[test]
fn interpolate_agrees_with_machine_arithmetic_on_every_exponent() {
    let mut exponent: u32 = 0;
    while exponent < 256 {
        let mut state: u32 = exponent + 1;
        for fraction in [0u32, 1, 0x40_0000, 0x7f_ffff, next(&mut state) & 0x7f_ffff] {
            for sign in [0u32, 0x8000_0000] {
                let bits = sign | (exponent << 23) | fraction;
                let value = f32::from_bits(bits);
                for _ in 0..40 {
                    let a = (next(&mut state) >> 24) as u8;
                    let b = (next(&mut state) >> 24) as u8;
                    assert_eq!(
                        machine_interpolate(a, b, value),
                        interpolate(a, b, Extent::from_bits(bits)),
                        "a = {}, b = {}, bits = {:#x}",
                        a,
                        b,
                        bits
                    );
                }
            }
        }
        exponent += 1;
    }
}

#[test]
fn interpolate_agrees_with_machine_arithmetic_on_scattered_extents() {
    let mut state: u32 = 2024;
    for _ in 0..100000 {
        let bits = next(&mut state);
        let a = (next(&mut state) >> 24) as u8;
        let b = (next(&mut state) >> 24) as u8;
        assert_eq!(
            machine_interpolate(a, b, f32::from_bits(bits)),
            interpolate(a, b, Extent::from_bits(bits)),
            "a = {}, b = {}, bits = {:#x}",
            a,
            b,
            bits
        );
    }
}

#[test]
fn interpolate_agrees_with_machine_arithmetic_between_zero_and_one() {
    let mut state: u32 = 99;
    for _ in 0..100000 {
        // bit patterns up to that of one are the numbers from zero to one
        let bits = next(&mut state) % 0x3f80_0001;
        let a = (next(&mut state) >> 24) as u8;
        let b = (next(&mut state) >> 24) as u8;
        let value = interpolate(a, b, Extent::from_bits(bits));
        assert_eq!(machine_interpolate(a, b, f32::from_bits(bits)), value);
        assert!(value >= a.min(b) as u32 && value <= a.max(b) as u32);
    }
}

#[test]
fn interpolate_agrees_with_machine_arithmetic_near_whole_results() {
    // extents around k / range, where the exact blend is close to a whole number
    let mut range: u32 = 1;
    while range < 256 {
        let mut k: u32 = 0;
        while k <= range {
            let centre = (k as f32 / range as f32).to_bits();
            for bits in [centre.wrapping_sub(1), centre, centre + 1] {
                let value = f32::from_bits(bits);
                assert_eq!(
                    machine_interpolate(0, range as u8, value),
                    interpolate(0, range as u8, Extent::from_bits(bits))
                );
                assert_eq!(
                    machine_interpolate(255, (255 - range) as u8, value),
                    interpolate(255, (255 - range) as u8, Extent::from_bits(bits))
                );
            }
            k += 1;
        }
        range += 1;
    }
}

#[test]
fn round_to_nearest_even_gives_exact_values() {
    assert_eq!(0, round_to_nearest_even(0));
    assert_eq!(1, round_to_nearest_even(1));
    assert_eq!(0xff_ffff, round_to_nearest_even(0xff_ffff));
    assert_eq!(0x100_0000, round_to_nearest_even(0x100_0000));
    // halfway, to the even neighbour
    assert_eq!(0x100_0000, round_to_nearest_even(0x100_0001));
    assert_eq!(0x100_0002, round_to_nearest_even(0x100_0002));
    assert_eq!(0x100_0004, round_to_nearest_even(0x100_0003));
    assert_eq!(0x200_0000, round_to_nearest_even(0x1ff_ffff));
    // below and above halfway
    assert_eq!(0x200_0000, round_to_nearest_even(0x200_0001));
    assert_eq!(0x200_0000, round_to_nearest_even(0x200_0002));
    assert_eq!(0x200_0004, round_to_nearest_even(0x200_0003));
    assert_eq!(0x200_0008, round_to_nearest_even(0x200_0006));
    assert_eq!(1 << 100, round_to_nearest_even((1 << 100) + 1));
    assert_eq!(1 << 100, round_to_nearest_even((1 << 100) - 1));
}

#[test]
fn round_to_nearest_even_agrees_with_machine_conversion() {
    let mut state: u32 = 5;
    for _ in 0..50000 {
        let high = next(&mut state) as u64;
        let low = next(&mut state) as u64;
        let width = next(&mut state) % 64;
        let n = ((high << 32) | low) >> width;
        assert_eq!((n as f32) as u128, round_to_nearest_even(n as u128), "n = {}", n);
    }
}
