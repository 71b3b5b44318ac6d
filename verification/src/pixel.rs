//! The 4-channel 8-bit color value that images are made of.

use vstd::prelude::*;

verus! {

/// An immutable RGBA color value; two pixels are equal exactly when all
/// four channels match.
#[derive(PartialEq, Eq, Structural, Clone, Copy, Hash, Debug)]
pub struct Pixel {
    pub r: u8,
    pub g: u8,
    pub b: u8,
    pub a: u8,
}

/// The reserved background pixel: all channels zero.
pub open spec fn spec_background() -> Pixel {
    Pixel { r: 0, g: 0, b: 0, a: 0 }
}

impl Pixel {
    /// Whether this pixel is the reserved background value.
    pub open spec fn is_background(self) -> bool {
        self == spec_background()
    }

    /// Builds a pixel from its four channel bytes, in R, G, B, A order.
    pub fn from_bytes(data: [u8; 4]) -> (p: Pixel)
        ensures
            p == (Pixel { r: data[0], g: data[1], b: data[2], a: data[3] }),
    {
        Pixel { r: data[0], g: data[1], b: data[2], a: data[3] }
    }

    /// Opaque pure red.
    pub fn red() -> (p: Pixel)
        ensures
            p == (Pixel { r: 255, g: 0, b: 0, a: 255 }),
    {
        Pixel { r: 255, g: 0, b: 0, a: 255 }
    }

    /// Opaque pure green.
    pub fn green() -> (p: Pixel)
        ensures
            p == (Pixel { r: 0, g: 255, b: 0, a: 255 }),
    {
        Pixel { r: 0, g: 255, b: 0, a: 255 }
    }

    /// Opaque pure blue.
    pub fn blue() -> (p: Pixel)
        ensures
            p == (Pixel { r: 0, g: 0, b: 255, a: 255 }),
    {
        Pixel { r: 0, g: 0, b: 255, a: 255 }
    }

    /// The background pixel: transparent black.
    pub fn transparent_black() -> (p: Pixel)
        ensures
            p == spec_background(),
            p.is_background(),
    {
        Pixel { r: 0, g: 0, b: 0, a: 0 }
    }
}

} // verus!
