//! The color value: a named preset or a custom packed ARGB value.

use crate::blend::{
    lemma_mixed_by_half,
    lemma_mixed_by_one,
    lemma_mixed_by_zero,
    lemma_mixed_with_itself,
    mix,
    mixed,
};
use crate::channel::{
    alpha_of,
    blue_of,
    green_of,
    lemma_pack_of_unpack,
    lemma_unpack_of_pack,
    pack,
    red_of,
    to_argb,
    to_argb_components,
    to_rgb_components,
};
use crate::extent::Extent;
use vstd::prelude::*;

verus! {

/// A color: one of fifteen named presets, or any packed ARGB value.
#[derive(Copy, Clone, Debug)]
pub enum Color {
    Black,
    Grey,
    White,
    Red,
    Green,
    Blue,
    Magenta,
    Cyan,
    Yellow,
    Violet,
    Rose,
    Orange,
    ChartreuseGreen,
    SpringGreen,
    Azure,
    Custom(u32),
}

impl Color {
    /// The packed ARGB value that a color stands for.
    ///
    /// Each preset has a fixed, fully opaque value; a custom color stands for
    /// the value it holds.
    pub open spec fn argb(self) -> u32 {
        match self {
            Color::Black => 0xff00_0000,
            Color::Grey => 0xff7f_7f7f,
            Color::White => 0xffff_ffff,
            Color::Blue => 0xff00_00ff,
            Color::Violet => 0xff7f_00ff,
            Color::Magenta => 0xffff_00ff,
            Color::Rose => 0xffff_007f,
            Color::Red => 0xffff_0000,
            Color::Orange => 0xffff_7f00,
            Color::Yellow => 0xffff_ff00,
            Color::ChartreuseGreen => 0xff7f_ff00,
            Color::Green => 0xff00_ff00,
            Color::SpringGreen => 0xff00_ff7f,
            Color::Cyan => 0xff00_ffff,
            Color::Azure => 0xff00_7fff,
            Color::Custom(value) => value,
        }
    }

    /// Returns the packed ARGB value of the color.
    pub fn to_argb(&self) -> (argb: u32)
        ensures
            argb == self.argb(),
            *self matches Color::Custom(value) ==> argb == value,
    {
        match *self {
            Color::Black => 0xff00_0000,
            Color::Grey => 0xff7f_7f7f,
            Color::White => 0xffff_ffff,
            Color::Blue => 0xff00_00ff,
            Color::Violet => 0xff7f_00ff,
            Color::Magenta => 0xffff_00ff,
            Color::Rose => 0xffff_007f,
            Color::Red => 0xffff_0000,
            Color::Orange => 0xffff_7f00,
            Color::Yellow => 0xffff_ff00,
            Color::ChartreuseGreen => 0xff7f_ff00,
            Color::Green => 0xff00_ff00,
            Color::SpringGreen => 0xff00_ff7f,
            Color::Cyan => 0xff00_ffff,
            Color::Azure => 0xff00_7fff,
            Color::Custom(value) => value,
        }
    }

    /// The color with the alpha channel of `self` and each of red, green and
    /// blue blended from `self` toward `other` by `extent`.
    pub open spec fn mixed_rgb(self, other: Color, extent: Extent) -> Color {
        Color::Custom(
            pack(
                alpha_of(self.argb()),
                mixed(red_of(self.argb()), red_of(other.argb()), extent),
                mixed(green_of(self.argb()), green_of(other.argb()), extent),
                mixed(blue_of(self.argb()), blue_of(other.argb()), extent),
            ),
        )
    }

    /// The color with the red, green and blue channels of `self` and its alpha
    /// channel blended toward `target` by `extent`.
    pub open spec fn mixed_alpha(self, target: u8, extent: Extent) -> Color {
        Color::Custom(
            pack(
                mixed(alpha_of(self.argb()), target, extent),
                red_of(self.argb()),
                green_of(self.argb()),
                blue_of(self.argb()),
            ),
        )
    }

    /// Blends red, green and blue toward those of `other` by `extent`. The
    /// alpha channel of `self` is kept; that of `other` plays no part.
    pub fn mix_rgb(&self, other: Color, extent: Extent) -> (result: Color)
        ensures
            result == self.mixed_rgb(other, extent),
    {
        let (other_r, other_g, other_b) = to_rgb_components(other.to_argb());
        let (my_a, my_r, my_g, my_b) = to_argb_components(self.to_argb());
        let new_r = mix(my_r, other_r, extent);
        let new_g = mix(my_g, other_g, extent);
        let new_b = mix(my_b, other_b, extent);
        Color::Custom(to_argb(my_a as u32, new_r as u32, new_g as u32, new_b as u32))
    }

    /// Blends red, green and blue toward white by `extent`.
    pub fn lighten(&self, extent: Extent) -> (result: Color)
        ensures
            result == self.mixed_rgb(Color::White, extent),
    {
        self.mix_rgb(Color::White, extent)
    }

    /// Blends red, green and blue toward black by `extent`.
    pub fn darken(&self, extent: Extent) -> (result: Color)
        ensures
            result == self.mixed_rgb(Color::Black, extent),
    {
        self.mix_rgb(Color::Black, extent)
    }

    /// Blends the alpha channel toward fully opaque by `extent`.
    pub fn strengthen(&self, extent: Extent) -> (result: Color)
        ensures
            result == self.mixed_alpha(0xff, extent),
    {
        self.mix_a(0xff, extent)
    }

    /// Blends the alpha channel toward fully transparent by `extent`.
    pub fn weaken(&self, extent: Extent) -> (result: Color)
        ensures
            result == self.mixed_alpha(0x00, extent),
    {
        self.mix_a(0x00, extent)
    }

    fn mix_a(&self, a: u8, extent: Extent) -> (result: Color)
        ensures
            result == self.mixed_alpha(a, extent),
    {
        let (my_a, my_r, my_g, my_b) = to_argb_components(self.to_argb());
        let new_a = mix(my_a, a, extent);
        Color::Custom(to_argb(new_a as u32, my_r as u32, my_g as u32, my_b as u32))
    }
}

/// Every preset is fully opaque.
pub proof fn lemma_presets_are_opaque(color: Color)
    requires
        !(color is Custom),
    ensures
        alpha_of(color.argb()) == 0xff,
{
}

/// Blending red, green and blue keeps the alpha channel and blends each of the
/// three others on its own.
pub proof fn lemma_mixed_rgb_channels(color: Color, other: Color, extent: Extent)
    ensures
        ({
            let from = color.argb();
            let to = other.argb();
            let result = color.mixed_rgb(other, extent).argb();
            &&& alpha_of(result) == alpha_of(from)
            &&& red_of(result) == mixed(red_of(from), red_of(to), extent)
            &&& green_of(result) == mixed(green_of(from), green_of(to), extent)
            &&& blue_of(result) == mixed(blue_of(from), blue_of(to), extent)
        }),
{
    let from = color.argb();
    let to = other.argb();
    lemma_unpack_of_pack(
        alpha_of(from),
        mixed(red_of(from), red_of(to), extent),
        mixed(green_of(from), green_of(to), extent),
        mixed(blue_of(from), blue_of(to), extent),
    );
}

/// Blending the alpha channel keeps red, green and blue.
pub proof fn lemma_mixed_alpha_channels(color: Color, target: u8, extent: Extent)
    ensures
        ({
            let from = color.argb();
            let result = color.mixed_alpha(target, extent).argb();
            &&& alpha_of(result) == mixed(alpha_of(from), target, extent)
            &&& red_of(result) == red_of(from)
            &&& green_of(result) == green_of(from)
            &&& blue_of(result) == blue_of(from)
        }),
{
    let from = color.argb();
    lemma_unpack_of_pack(
        mixed(alpha_of(from), target, extent),
        red_of(from),
        green_of(from),
        blue_of(from),
    );
}

/// Blending a color with itself, by any finite factor, gives its own value.
pub proof fn lemma_mixed_with_itself_is_identity(color: Color, extent: Extent)
    requires
        extent.is_finite(),
    ensures
        color.mixed_rgb(color, extent).argb() == color.argb(),
{
    let from = color.argb();
    lemma_mixed_with_itself(red_of(from), extent);
    lemma_mixed_with_itself(green_of(from), extent);
    lemma_mixed_with_itself(blue_of(from), extent);
    lemma_pack_of_unpack(from);
}

/// Blending by zero changes nothing, whatever the target.
pub proof fn lemma_zero_extent_is_identity(color: Color, other: Color, target: u8, extent: Extent)
    requires
        extent.is_zero(),
    ensures
        color.mixed_rgb(other, extent).argb() == color.argb(),
        color.mixed_alpha(target, extent).argb() == color.argb(),
{
    let from = color.argb();
    let to = other.argb();
    lemma_mixed_by_zero(red_of(from), red_of(to), extent);
    lemma_mixed_by_zero(green_of(from), green_of(to), extent);
    lemma_mixed_by_zero(blue_of(from), blue_of(to), extent);
    lemma_mixed_by_zero(alpha_of(from), target, extent);
    lemma_pack_of_unpack(from);
}

/// Blending by one reaches the target: red, green and blue become those of
/// the other color under the alpha channel of the first, and a blended alpha
/// channel becomes the target over unchanged red, green and blue.
pub proof fn lemma_full_extent_reaches_target(
    color: Color,
    other: Color,
    target: u8,
    extent: Extent,
)
    requires
        extent.is_one(),
    ensures
        color.mixed_rgb(other, extent).argb() == pack(
            alpha_of(color.argb()),
            red_of(other.argb()),
            green_of(other.argb()),
            blue_of(other.argb()),
        ),
        color.mixed_alpha(target, extent).argb() == pack(
            target,
            red_of(color.argb()),
            green_of(color.argb()),
            blue_of(color.argb()),
        ),
{
    let from = color.argb();
    let to = other.argb();
    lemma_mixed_by_one(red_of(from), red_of(to), extent);
    lemma_mixed_by_one(green_of(from), green_of(to), extent);
    lemma_mixed_by_one(blue_of(from), blue_of(to), extent);
    lemma_mixed_by_one(alpha_of(from), target, extent);
}

/// Blending by one half takes the mean of each of red, green and blue, rounded
/// down, and keeps the alpha channel of the first color.
pub proof fn lemma_half_extent_averages(color: Color, other: Color, extent: Extent)
    requires
        extent.is_half(),
    ensures
        color.mixed_rgb(other, extent).argb() == pack(
            alpha_of(color.argb()),
            ((red_of(color.argb()) + red_of(other.argb())) / 2) as u8,
            ((green_of(color.argb()) + green_of(other.argb())) / 2) as u8,
            ((blue_of(color.argb()) + blue_of(other.argb())) / 2) as u8,
        ),
{
    let from = color.argb();
    let to = other.argb();
    lemma_mixed_by_half(red_of(from), red_of(to), extent);
    lemma_mixed_by_half(green_of(from), green_of(to), extent);
    lemma_mixed_by_half(blue_of(from), blue_of(to), extent);
}

} // verus!
