//! The gradient pixel buffer: an owned grid of RGBA8 pixels.

use vstd::prelude::*;

verus! {

/// A rectangular grid of 8-bit RGBA pixels, row-major, four bytes per
/// pixel.  A buffer is produced fresh by the gradient synthesizers and
/// never mutated in place.
pub struct Image {
    pub pixels: Vec<u8>,
    pub width: usize,
    pub height: usize,
}

impl Image {
    /// The buffer holds exactly four bytes for every pixel.
    pub open spec fn wf(self) -> bool {
        self.pixels@.len() == 4 * self.width * self.height
    }

    /// The four bytes of the pixel at column `x` of row `y`.
    pub open spec fn pixel_at(self, x: int, y: int) -> Seq<u8> {
        let i = 4 * (y * self.width + x);
        seq![self.pixels@[i], self.pixels@[i + 1], self.pixels@[i + 2], self.pixels@[i + 3]]
    }

    /// Assemble an image from its parts.
    pub fn new(pixels: Vec<u8>, width: usize, height: usize) -> (img: Image)
        requires
            pixels@.len() == 4 * width * height,
        ensures
            img.wf(),
            img.pixels == pixels,
            img.width == width,
            img.height == height,
    {
        Image { pixels, width, height }
    }
}

} // verus!
