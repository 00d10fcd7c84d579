//! Helpers for showing an image on screen: colours as the 32-bit values that
//! a frame buffer takes.

use vstd::prelude::*;

verus! {

/// The sum of `x` and `y` in 32 bits: what is left of it below `2^32`.
pub fn sum_wrap(x: u32, y: u32) -> (sum: u32)
    ensures
        sum == (x + y) % 0x1_0000_0000,
{
    if x > u32::MAX - y {
        x - (u32::MAX - y) - 1
    } else {
        x + y
    }
}

/// An opaque colour as a frame buffer value.
pub fn from_rgb(r: u8, g: u8, b: u8) -> (colour: u32)
    ensures
        colour == 255 * 0x100_0000 + r * 0x1_0000 + g * 0x100 + b,
{
    from_rgba(r, g, b, 255)
}

/// A colour as a frame buffer value: alpha in the highest byte, then red,
/// green, and blue in the lowest.
pub fn from_rgba(r: u8, g: u8, b: u8, a: u8) -> (colour: u32)
    ensures
        colour == a * 0x100_0000 + r * 0x1_0000 + g * 0x100 + b,
{
    a as u32 * 0x100_0000 + r as u32 * 0x1_0000 + g as u32 * 0x100 + b as u32
}

} // verus!
