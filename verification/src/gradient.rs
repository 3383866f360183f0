//! The coordinate gradient that colours both rasters.

use vstd::prelude::*;

verus! {

/// One pixel: three 8-bit channels.
#[derive(Clone, Copy, Debug, PartialEq, Eq, Structural)]
pub struct Color {
    pub red: u8,
    pub green: u8,
    pub blue: u8,
}

/// Three tenths of `v`, rounded down, then reduced to eight bits by
/// wrapping around at 256 (not by clamping at 255).
pub open spec fn gradient_level(v: nat) -> nat {
    ((3 * v) / 10) % 256
}

/// The gradient's colour at `(x, y)`: red follows `x`, blue follows `y`,
/// and green follows the bitwise exclusive-or of the two.
pub open spec fn gradient_color(x: u32, y: u32) -> Color {
    Color {
        red: gradient_level(x as nat) as u8,
        green: gradient_level((x ^ y) as nat) as u8,
        blue: gradient_level(y as nat) as u8,
    }
}

/// Computes one channel of the gradient from a coordinate, or from a
/// combination of coordinates.
pub fn gradient_channel(v: u32) -> (level: u8)
    ensures
        level == gradient_level(v as nat),
{
    let tenths: u64 = (v as u64) * 3 / 10;
    (tenths % 256) as u8
}

/// Computes the gradient's colour at `(x, y)`.
pub fn gradient_pixel(x: u32, y: u32) -> (color: Color)
    ensures
        color == gradient_color(x, y),
{
    Color { red: gradient_channel(x), green: gradient_channel(x ^ y), blue: gradient_channel(y) }
}

} // verus!
