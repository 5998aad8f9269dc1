use vstd::prelude::*;

use crate::calc::{clamp, CMID};

verus! {

/// A color split into its red, green and blue channels.
#[allow(non_snake_case)]
#[derive(Clone, Copy, Debug, PartialEq, Eq, Structural)]
pub struct RGB {
    pub R: u32,
    pub G: u32,
    pub B: u32,
}

/// The 8-bit channel of `hex` that starts at bit `shift`.
pub open spec fn channel(hex: u32, shift: int) -> int {
    (hex as int / shift) % 256
}

/// The packed value `0xRRGGBB` of three channels, each reduced to its low byte.
pub open spec fn packed(r: int, g: int, b: int) -> int {
    (r % 256) * 65536 + (g % 256) * 256 + b % 256
}

/// Splits a packed `0xRRGGBB` value into channels, each scaled from `0..=255`
/// to whole units of full intensity (1 for a full channel, 0 otherwise).
pub fn hex_to_rgb(hex: u32) -> (ret: RGB)
    ensures
        ret.R == channel(hex, 65536) / 255,
        ret.G == channel(hex, 256) / 255,
        ret.B == channel(hex, 1) / 255,
{
    let r = (hex >> 16) & 0xFF;
    let g = (hex >> 8) & 0xFF;
    let b = hex & 0xFF;
    proof {
        assert(r == (hex / 65536) % 256) by (bit_vector)
            requires r == (hex >> 16) & 0xFF;
        assert(g == (hex / 256) % 256) by (bit_vector)
            requires g == (hex >> 8) & 0xFF;
        assert(b == hex % 256) by (bit_vector)
            requires b == hex & 0xFF;
    }
    RGB { R: r / 255, G: g / 255, B: b / 255 }
}

/// Packs the low byte of each channel into `0xRRGGBB`.
pub fn rgb_to_hex(rgb: RGB) -> (r: u32)
    ensures
        r == packed(rgb.R as int, rgb.G as int, rgb.B as int),
{
    let (rr, gg, bb) = (rgb.R, rgb.G, rgb.B);
    let hi = (rr & 0xFF) << 16;
    let mid = (gg & 0xFF) << 8;
    let lo = bb & 0xFF;
    assert(hi == (rr % 256) * 65536 && hi <= 0xFF0000) by (bit_vector)
        requires hi == (rr & 0xFF) << 16;
    assert(mid == (gg % 256) * 256 && mid <= 0xFF00) by (bit_vector)
        requires mid == (gg & 0xFF) << 8;
    assert(lo == bb % 256) by (bit_vector)
        requires lo == bb & 0xFF;
    hi + mid + lo
}

/// The packed color of three channel intensities, each first clamped to `0..=255`.
pub fn rgb_clamped(r: i32, g: i32, b: i32) -> (c: u32)
    ensures
        c == clamp(r as int, 0, 255) * 65536 + clamp(g as int, 0, 255) * 256 + clamp(
            b as int,
            0,
            255,
        ),
{
    let rgb = RGB { R: CMID(r, 0, 255) as u32, G: CMID(g, 0, 255) as u32, B: CMID(b, 0, 255) as u32 };
    rgb_to_hex(rgb)
}

} // verus!
