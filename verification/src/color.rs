//! Colors as authored by users: straight-alpha 8-bit sRGB. The pixel code
//! converts them to its internal linear-premultiplied form at draw time; this
//! module only carries and parses the value, it never interprets pixels.

use vstd::prelude::*;

verus! {

/// Straight-alpha sRGB color, 8 bits per channel.
#[derive(Debug, Clone, Copy, PartialEq, Eq, Hash, Structural)]
pub struct Rgba8 {
    pub r: u8,
    pub g: u8,
    pub b: u8,
    pub a: u8,
}

/// Alpha of a color whose alpha was not given: fully opaque.
pub fn opaque() -> (a: u8)
    ensures
        a == 255,
{
    255
}

impl Rgba8 {
    pub fn new(r: u8, g: u8, b: u8, a: u8) -> (c: Rgba8)
        ensures
            c == (Rgba8 { r, g, b, a }),
    {
        Rgba8 { r, g, b, a }
    }

    /// Opaque color from its three channels.
    pub fn rgb(r: u8, g: u8, b: u8) -> (c: Rgba8)
        ensures
            c == (Rgba8 { r, g, b, a: 255 }),
    {
        Rgba8 { r, g, b, a: 255 }
    }
}

} // verus!
