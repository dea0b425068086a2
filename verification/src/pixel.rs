//! A single RGBA sample and its brightness.

use vstd::prelude::*;

verus! {

/// One pixel of four eight-bit channels.
#[derive(Clone, Copy, Debug, PartialEq, Eq, Structural)]
pub struct Pixel {
    pub r: u8,
    pub g: u8,
    pub b: u8,
    pub a: u8,
}

/// Brightness of a pixel: the sRGB weighting of its three colour channels,
/// in integer arithmetic, rounded down. The alpha channel plays no part.
pub open spec fn luma(p: Pixel) -> u8 {
    ((2126 * p.r + 7152 * p.g + 722 * p.b) / 10000) as u8
}

/// Calls `image::Pixel::to_luma` on an `image::Rgba<u8>` made of the pixel's
/// four channels. The contract claims that the single channel of the result is
/// `(2126 r + 7152 g + 722 b) / 10000`, which is what that conversion computes
/// for eight-bit samples.
#[verifier::external_body]
fn rgba_to_luma(p: Pixel) -> (l: u8)
    ensures
        l == luma(p),
{
    image::Pixel::to_luma(&image::Rgba([p.r, p.g, p.b, p.a])).0[0]
}

impl Pixel {
    /// The transparent black pixel that a fresh raster is filled with.
    pub open spec fn zero() -> Pixel {
        Pixel { r: 0, g: 0, b: 0, a: 0 }
    }

    /// Brightness of this pixel, the key by which pixels are compared and sorted.
    pub fn luma(&self) -> (l: u8)
        ensures
            l == luma(*self),
    {
        rgba_to_luma(*self)
    }
}

/// A grey pixel, whose three colour channels agree, has that common value as
/// its brightness.
pub proof fn lemma_luma_of_grey(p: Pixel)
    requires
        p.r == p.g,
        p.g == p.b,
    ensures
        luma(p) == p.r,
{
}

} // verus!
