use argb_color::{Color, Extent};

fn extent(value: f32) -> Extent {
    Extent::from_bits(value.to_bits())
}

#[test]
fn weaken_moves_opaque_to_transparent() {
    let result = Color::White.weaken(extent(1.0));
    assert_eq!(0x00ffffff, result.to_argb())
}

#[test]
fn strengthen_moves_transparent_to_opaque() {
    let result = Color::Custom(0x00ffffff).strengthen(extent(1.0));
    assert_eq!(0xffffffff, result.to_argb())
}

#[test]
fn lighten_half_moves_black_to_grey() {
    let result = Color::Black.lighten(extent(0.5));
    assert_eq!(Color::Grey.to_argb(), result.to_argb())
}

#[test]
fn lighten_zero_moves_black_to_black() {
    let result = Color::Black.lighten(extent(0.0));
    assert_eq!(Color::Black.to_argb(), result.to_argb())
}

#[test]
fn darken_half_moves_white_to_grey() {
    let result = Color::White.darken(extent(0.5));
    assert_eq!(Color::Grey.to_argb(), result.to_argb())
}

#[test]
fn darken_zero_moves_white_to_white() {
    let result = Color::White.darken(extent(0.0));
    assert_eq!(Color::White.to_argb(), result.to_argb())
}

#[test]
fn mix_rgb_averages_rgb_components() {
    let a = Color::Custom(0x00010203);
    let b = Color::Custom(0xff030201);
    let result = a.mix_rgb(b, extent(0.5));
    assert_eq!(0x00020202, result.to_argb())
}

#[test]
fn to_argb_produces_value_for_red_color() {
    let result = Color::Red.to_argb();
    assert_eq!(0xffff0000, result)
}

#[test]
fn to_argb_produces_value_for_custom_color() {
    let result = Color::Custom(0x01020304).to_argb();
    assert_eq!(0x01020304, result)
}

#[test]
fn to_argb_gives_each_preset_its_value() {
    assert_eq!(0xff000000, Color::Black.to_argb());
    assert_eq!(0xff7f7f7f, Color::Grey.to_argb());
    assert_eq!(0xffffffff, Color::White.to_argb());
    assert_eq!(0xffff0000, Color::Red.to_argb());
    assert_eq!(0xff00ff00, Color::Green.to_argb());
    assert_eq!(0xff0000ff, Color::Blue.to_argb());
    assert_eq!(0xffff00ff, Color::Magenta.to_argb());
    assert_eq!(0xff00ffff, Color::Cyan.to_argb());
    assert_eq!(0xffffff00, Color::Yellow.to_argb());
    assert_eq!(0xff7f00ff, Color::Violet.to_argb());
    assert_eq!(0xffff007f, Color::Rose.to_argb());
    assert_eq!(0xffff7f00, Color::Orange.to_argb());
    assert_eq!(0xff7fff00, Color::ChartreuseGreen.to_argb());
    assert_eq!(0xff00ff7f, Color::SpringGreen.to_argb());
    assert_eq!(0xff007fff, Color::Azure.to_argb());
}

#[test]
fn to_argb_gives_custom_values_back() {
    for value in [0u32, 1, 0x7fffffff, 0x80000000, 0xdeadbeef, u32::MAX] {
        assert_eq!(value, Color::Custom(value).to_argb());
    }
}

#[test]
fn presets_are_opaque() {
    let presets = [
        Color::Black,
        Color::Grey,
        Color::White,
        Color::Red,
        Color::Green,
        Color::Blue,
        Color::Magenta,
        Color::Cyan,
        Color::Yellow,
        Color::Violet,
        Color::Rose,
        Color::Orange,
        Color::ChartreuseGreen,
        Color::SpringGreen,
        Color::Azure,
    ];
    for preset in presets {
        assert_eq!(0xff, preset.to_argb() >> 24);
    }
}

#[test]
fn transformations_return_custom_colors() {
    let grey = Color::Black.lighten(extent(0.5));
    assert!(matches!(grey, Color::Custom(0xff7f7f7f)));
    let same = Color::Red.darken(extent(0.0));
    assert!(matches!(same, Color::Custom(0xffff0000)));
    let clear = Color::Red.weaken(extent(1.0));
    assert!(matches!(clear, Color::Custom(0x00ff0000)));
}

#[test]
fn mix_rgb_keeps_alpha_of_receiver() {
    let a = Color::Custom(0x12345678);
    let b = Color::Custom(0xfedcba98);
    for value in [0.0f32, 0.25, 0.5, 0.75, 1.0] {
        let result = a.mix_rgb(b, extent(value)).to_argb();
        assert_eq!(0x12, result >> 24);
    }
}

#[test]
fn mix_rgb_by_one_takes_rgb_of_other() {
    let a = Color::Custom(0x12345678);
    let b = Color::Custom(0xfedcba98);
    assert_eq!(0x12dcba98, a.mix_rgb(b, extent(1.0)).to_argb());
    assert_eq!(0x12dcba98, a.mix_rgb(b, Extent::one()).to_argb());
}

#[test]
fn mix_rgb_by_quarter_truncates() {
    // 0x10 + 0.25 * (0x1f - 0x10) = 19.75, 0x80 - 0.25 * 0x7d = 96.75, 0xff stays
    let a = Color::Custom(0x801080ff);
    let b = Color::Custom(0x001f03ff);
    assert_eq!(0x801360ff, a.mix_rgb(b, extent(0.25)).to_argb());
}

#[test]
fn mix_rgb_with_itself_is_identity() {
    let colors = [
        Color::Custom(0x00000000),
        Color::Custom(0x12345678),
        Color::Custom(0xffffffff),
        Color::Orange,
        Color::Azure,
    ];
    let extents = [0.0f32, -0.0, 0.5, 1.0, -3.5, 1.0e-40, 3.0e38, -3.0e38, 0.1, 1234.5678];
    for color in colors {
        for value in extents {
            assert_eq!(color.to_argb(), color.mix_rgb(color, extent(value)).to_argb());
        }
    }
}

#[test]
fn mix_rgb_with_itself_by_no_number_clears_rgb() {
    let color = Color::Custom(0x12345678);
    assert_eq!(0x12000000, color.mix_rgb(color, extent(f32::NAN)).to_argb());
    assert_eq!(0x12000000, color.mix_rgb(color, extent(f32::INFINITY)).to_argb());
}

#[test]
fn lighten_by_one_gives_white_rgb() {
    assert_eq!(0x40ffffff, Color::Custom(0x40102030).lighten(extent(1.0)).to_argb());
}

#[test]
fn darken_by_one_gives_black_rgb() {
    assert_eq!(0x40000000, Color::Custom(0x40102030).darken(extent(1.0)).to_argb());
}

#[test]
fn lighten_and_darken_by_half() {
    // 0x10 + 0.5 * 0xef = 135.5, 0x20 + 0.5 * 0xdf = 143.5, 0x30 + 0.5 * 0xcf = 151.5
    assert_eq!(0x40878f97, Color::Custom(0x40102030).lighten(Extent::half()).to_argb());
    assert_eq!(0x40081018, Color::Custom(0x40102030).darken(Extent::half()).to_argb());
}

#[test]
fn strengthen_and_weaken_keep_rgb() {
    let color = Color::Custom(0x80123456);
    // 128 + 0.5 * 127 = 191.5, 128 - 0.5 * 128 = 64
    assert_eq!(0xbf123456, color.strengthen(extent(0.5)).to_argb());
    assert_eq!(0x40123456, color.weaken(extent(0.5)).to_argb());
    assert_eq!(0x80123456, color.strengthen(extent(0.0)).to_argb());
    assert_eq!(0x80123456, color.weaken(Extent::zero()).to_argb());
    assert_eq!(0xff123456, color.strengthen(extent(1.0)).to_argb());
    assert_eq!(0x00123456, color.weaken(extent(1.0)).to_argb());
}

#[test]
fn extent_beyond_one_wraps_into_the_channel() {
    // 0 + 2 * 255 = 510, of which the low eight bits are 254
    assert_eq!(0xfffefefe, Color::Black.lighten(extent(2.0)).to_argb());
    // 255 - 2 * 255 is below zero, which is cut to zero
    assert_eq!(0xff000000, Color::White.darken(extent(2.0)).to_argb());
    // 200 + 1.5 * 55 = 282.5, of which the low eight bits are 26
    assert_eq!(0xff1a1a1a, Color::Custom(0xffc8c8c8).lighten(extent(1.5)).to_argb());
}

#[test]
fn negative_extent_moves_away_from_the_target() {
    // 100 - 0.5 * (200 - 100) = 50
    let a = Color::Custom(0xff646464);
    let b = Color::Custom(0xffc8c8c8);
    assert_eq!(0xff323232, a.mix_rgb(b, extent(-0.5)).to_argb());
    // 100 - 1 * 155 is below zero
    assert_eq!(0xff000000, a.lighten(extent(-1.0)).to_argb());
}

#[test]
fn extent_that_is_no_number_gives_zero_channels() {
    let color = Color::Custom(0x80402010);
    assert_eq!(0x80000000, color.lighten(extent(f32::NAN)).to_argb());
    assert_eq!(0x00402010, color.strengthen(extent(f32::NAN)).to_argb());
}

#[test]
fn infinite_extent_saturates() {
    let color = Color::Custom(0x80402010);
    // plus infinity becomes the largest 32-bit value, whose low eight bits are 0xff
    assert_eq!(0x80ffffff, color.lighten(extent(f32::INFINITY)).to_argb());
    assert_eq!(0x80000000, color.lighten(extent(f32::NEG_INFINITY)).to_argb());
    // toward black the range is negative, so the signs swap
    assert_eq!(0x80000000, color.darken(extent(f32::INFINITY)).to_argb());
    assert_eq!(0x80ffffff, color.darken(extent(f32::NEG_INFINITY)).to_argb());
}

#[test]
fn extent_from_bits_round_trips() {
    for bits in [0u32, 1, 0x3f000000, 0x3f800000, 0x7f800000, 0x80000000, u32::MAX] {
        assert_eq!(bits, Extent::from_bits(bits).to_bits());
    }
}

#[test]
fn extent_constants_are_the_named_numbers() {
    assert_eq!(0.0f32.to_bits(), Extent::zero().to_bits());
    assert_eq!(0.5f32.to_bits(), Extent::half().to_bits());
    assert_eq!(1.0f32.to_bits(), Extent::one().to_bits());
}
