//! From a colour and an amount of light to the bytes of a pixel.

use crate::fixed::{floor_div, SCALE_SQUARED};
use crate::sphere::Color;
use vstd::prelude::*;

verus! {

/// The byte for one channel under the given light: the product of channel,
/// light and 255, rounded down and held between 0 and 255.
pub open spec fn channel_byte(channel: int, light: int) -> u8 {
    let v = (channel * light * 255) / (SCALE_SQUARED as int);
    if v < 0 {
        0u8
    } else if v > 255 {
        255u8
    } else {
        v as u8
    }
}

/// The pixel for a surface of the given colour under the given light: red,
/// green and blue scaled by the light, and full opacity whatever the
/// colour's own alpha.
pub open spec fn shaded(color: Color, light: int) -> Seq<u8> {
    seq![
        channel_byte(color@[0] as int, light),
        channel_byte(color@[1] as int, light),
        channel_byte(color@[2] as int, light),
        255u8,
    ]
}

/// The pixel where a ray meets nothing: opaque black.
pub open spec fn background() -> Seq<u8> {
    seq![0u8, 0u8, 0u8, 255u8]
}

/// The byte for one channel under the given light.
pub fn quantize(channel: i32, light: i128) -> (byte: u8)
    ensures
        byte == channel_byte(channel as int, light as int),
{
    let capped: i128 = if light > 1_000_000_000_000 {
        1_000_000_000_000
    } else if light < -1_000_000_000_000 {
        -1_000_000_000_000
    } else {
        light
    };
    proof {
        lemma_capped_light(channel as int, light as int, capped as int);
        assert(-0x8000_0000 * 1_000_000_000_000 <= channel * capped <= 0x8000_0000
            * 1_000_000_000_000) by (nonlinear_arith)
            requires
                -0x8000_0000 <= channel <= 0x8000_0000,
                -1_000_000_000_000 <= capped <= 1_000_000_000_000,
        ;
    }
    let v: i128 = floor_div((channel as i128) * capped * 255, 1_000_000_000_000);
    if v < 0 {
        0
    } else if v > 255 {
        255
    } else {
        v as u8
    }
}

/// The pixel for a surface of the given colour under the given light.
pub fn shade(color: &Color, light: i128) -> (px: [u8; 4])
    ensures
        px@ == shaded(*color, light as int),
{
    let px: [u8; 4] = [
        quantize(color[0], light),
        quantize(color[1], light),
        quantize(color[2], light),
        255,
    ];
    assert(px@ =~= shaded(*color, light as int));
    px
}

/// Light beyond one squared unit, either way, gives the byte that one
/// squared unit gives.
proof fn lemma_capped_light(channel: int, light: int, capped: int)
    requires
        capped == if light > 1_000_000_000_000 {
            1_000_000_000_000
        } else if light < -1_000_000_000_000 {
            -1_000_000_000_000
        } else {
            light
        },
    ensures
        channel_byte(channel, light) == channel_byte(channel, capped),
{
    let v = (channel * light * 255) / 1_000_000_000_000;
    let w = (channel * capped * 255) / 1_000_000_000_000;
    if light > 1_000_000_000_000 {
        assert(channel > 0 ==> v >= 255 && w >= 255) by (nonlinear_arith)
            requires
                light > 1_000_000_000_000,
                capped == 1_000_000_000_000,
                v == (channel * light * 255) / 1_000_000_000_000,
                w == (channel * capped * 255) / 1_000_000_000_000,
        ;
        assert(channel < 0 ==> v < 0 && w < 0) by (nonlinear_arith)
            requires
                light > 1_000_000_000_000,
                capped == 1_000_000_000_000,
                v == (channel * light * 255) / 1_000_000_000_000,
                w == (channel * capped * 255) / 1_000_000_000_000,
        ;
        assert(channel == 0 ==> v == 0 && w == 0) by (nonlinear_arith)
            requires
                v == (channel * light * 255) / 1_000_000_000_000,
                w == (channel * capped * 255) / 1_000_000_000_000,
        ;
    } else if light < -1_000_000_000_000 {
        assert(channel < 0 ==> v >= 255 && w >= 255) by (nonlinear_arith)
            requires
                light < -1_000_000_000_000,
                capped == -1_000_000_000_000,
                v == (channel * light * 255) / 1_000_000_000_000,
                w == (channel * capped * 255) / 1_000_000_000_000,
        ;
        assert(channel > 0 ==> v < 0 && w < 0) by (nonlinear_arith)
            requires
                light < -1_000_000_000_000,
                capped == -1_000_000_000_000,
                v == (channel * light * 255) / 1_000_000_000_000,
                w == (channel * capped * 255) / 1_000_000_000_000,
        ;
        assert(channel == 0 ==> v == 0 && w == 0) by (nonlinear_arith)
            requires
                v == (channel * light * 255) / 1_000_000_000_000,
                w == (channel * capped * 255) / 1_000_000_000_000,
        ;
    }
}

} // verus!
