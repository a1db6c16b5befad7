//! Pixel atom types: a three-channel 8-bit color atom.

use vstd::prelude::*;

verus! {

/// Basic RGB pixel: three independent 8-bit channels.
#[derive(Clone, Copy, Debug, PartialEq, Eq, Structural)]
pub struct Pixel {
    pub r: u8,
    pub g: u8,
    pub b: u8,
}

impl Pixel {
    /// The all-zero atom.
    pub fn black() -> (p: Pixel)
        ensures
            p == (Pixel { r: 0, g: 0, b: 0 }),
    {
        Pixel { r: 0, g: 0, b: 0 }
    }

    /// The atom with every channel at one, handy for intensity scaling.
    pub fn unit() -> (p: Pixel)
        ensures
            p == (Pixel { r: 1, g: 1, b: 1 }),
    {
        Pixel { r: 1, g: 1, b: 1 }
    }

    pub fn white() -> (p: Pixel)
        ensures
            p == (Pixel { r: 255, g: 255, b: 255 }),
    {
        Pixel { r: 255, g: 255, b: 255 }
    }

    pub fn red() -> (p: Pixel)
        ensures
            p == (Pixel { r: 255, g: 0, b: 0 }),
    {
        Pixel { r: 255, g: 0, b: 0 }
    }

    pub fn green() -> (p: Pixel)
        ensures
            p == (Pixel { r: 0, g: 255, b: 0 }),
    {
        Pixel { r: 0, g: 255, b: 0 }
    }

    pub fn blue() -> (p: Pixel)
        ensures
            p == (Pixel { r: 0, g: 0, b: 255 }),
    {
        Pixel { r: 0, g: 0, b: 255 }
    }

    pub fn purple() -> (p: Pixel)
        ensures
            p == (Pixel { r: 255, g: 0, b: 255 }),
    {
        Pixel { r: 255, g: 0, b: 255 }
    }

    pub fn new(r: u8, g: u8, b: u8) -> (p: Pixel)
        ensures
            p == (Pixel { r, g, b }),
    {
        Pixel { r, g, b }
    }

    /// Scales each channel independently, wrapping around on overflow as
    /// fixed-width arithmetic does.
    pub fn mul(self, rhs: u8) -> (p: Pixel)
        ensures
            p.r == (self.r * rhs) % 256,
            p.g == (self.g * rhs) % 256,
            p.b == (self.b * rhs) % 256,
    {
        Pixel {
            r: self.r.wrapping_mul(rhs),
            g: self.g.wrapping_mul(rhs),
            b: self.b.wrapping_mul(rhs),
        }
    }
}

} // verus!
