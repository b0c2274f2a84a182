//! Packing and unpacking of the four 8-bit channels of an ARGB value.
//!
//! A packed value holds alpha in its highest byte, then red, then green, and
//! blue in its lowest byte.

use vstd::prelude::*;

verus! {

/// The alpha channel of a packed value: its highest byte.
pub open spec fn alpha_of(argb: u32) -> u8 {
    (argb / 0x100_0000) as u8
}

/// The red channel of a packed value: its second highest byte.
pub open spec fn red_of(argb: u32) -> u8 {
    (argb / 0x1_0000 % 0x100) as u8
}

/// The green channel of a packed value: its second lowest byte.
pub open spec fn green_of(argb: u32) -> u8 {
    (argb / 0x100 % 0x100) as u8
}

/// The blue channel of a packed value: its lowest byte.
pub open spec fn blue_of(argb: u32) -> u8 {
    (argb % 0x100) as u8
}

/// The packed value whose four channels are `a`, `r`, `g` and `b`.
pub open spec fn pack(a: u8, r: u8, g: u8, b: u8) -> u32 {
    (a * 0x100_0000 + r * 0x1_0000 + g * 0x100 + b) as u32
}

/// Splits a packed value into its red, green and blue channels.
pub fn to_rgb_components(argb: u32) -> (rgb: (u8, u8, u8))
    ensures
        rgb.0 == red_of(argb),
        rgb.1 == green_of(argb),
        rgb.2 == blue_of(argb),
{
    let r: u32 = (argb >> 16) & 0xff;
    let g: u32 = (argb >> 8) & 0xff;
    let b: u32 = argb & 0xff;
    assert(r == argb / 0x1_0000 % 0x100 && g == argb / 0x100 % 0x100 && b == argb % 0x100) by (bit_vector)
        requires
            r == (argb >> 16) & 0xff,
            g == (argb >> 8) & 0xff,
            b == argb & 0xff,
    ;
    (r as u8, g as u8, b as u8)
}

/// Splits a packed value into its alpha, red, green and blue channels.
pub fn to_argb_components(argb: u32) -> (argb_parts: (u8, u8, u8, u8))
    ensures
        argb_parts.0 == alpha_of(argb),
        argb_parts.1 == red_of(argb),
        argb_parts.2 == green_of(argb),
        argb_parts.3 == blue_of(argb),
        pack(argb_parts.0, argb_parts.1, argb_parts.2, argb_parts.3) == argb,
{
    let a: u32 = argb >> 24;
    assert(a == argb / 0x100_0000 && a < 0x100) by (bit_vector)
        requires
            a == argb >> 24,
    ;
    let (r, g, b) = to_rgb_components(argb);
    (a as u8, r, g, b)
}

/// Joins four channel values into one packed value.
///
/// Each argument is shifted to its byte and the four are joined bit by bit.
/// Arguments below 256 are channels, and the result is the packed value that
/// holds exactly them. Nothing is masked: the bits of a larger argument
/// reach into the bytes above its own, or are shifted out at the top.
pub fn to_argb(a: u32, r: u32, g: u32, b: u32) -> (argb: u32)
    ensures
        argb == (a << 24) | (r << 16) | (g << 8) | b,
        a < 0x100 && r < 0x100 && g < 0x100 && b < 0x100 ==> argb == pack(
            a as u8,
            r as u8,
            g as u8,
            b as u8,
        ),
{
    let argb: u32 = (a << 24) | (r << 16) | (g << 8) | b;
    assert(a < 0x100 && r < 0x100 && g < 0x100 && b < 0x100 ==> argb == a * 0x100_0000 + r
        * 0x1_0000 + g * 0x100 + b) by (bit_vector)
        requires
            argb == (a << 24) | (r << 16) | (g << 8) | b,
    ;
    argb
}

/// Unpacking what was packed gives the four channels back.
pub proof fn lemma_unpack_of_pack(a: u8, r: u8, g: u8, b: u8)
    ensures
        alpha_of(pack(a, r, g, b)) == a,
        red_of(pack(a, r, g, b)) == r,
        green_of(pack(a, r, g, b)) == g,
        blue_of(pack(a, r, g, b)) == b,
{
    let v: int = a * 0x100_0000 + r * 0x1_0000 + g * 0x100 + b;
    assert(pack(a, r, g, b) == v);
    assert(v / 0x100_0000 == a);
    assert(v / 0x1_0000 == a * 0x100 + r);
    assert(v / 0x100 == a * 0x1_0000 + r * 0x100 + g);
    assert(v % 0x100 == b);
}

/// Packing the four channels of a value gives the value back.
pub proof fn lemma_pack_of_unpack(argb: u32)
    ensures
        pack(alpha_of(argb), red_of(argb), green_of(argb), blue_of(argb)) == argb,
{
}

} // verus!
