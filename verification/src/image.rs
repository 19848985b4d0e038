use vstd::prelude::*;

verus! {

/// An in-memory raster image: `width * height` pixels stored row-major, four
/// bytes per pixel in the order red, green, blue, alpha.
///
/// The pixel layout is the plain byte-vector form that common decoders hand
/// out, so a decoded file converts into an `ImageData` by moving its fields.
pub struct ImageData {
    /// Width of the image in pixels.
    pub width: usize,
    /// Height of the image in pixels.
    pub height: usize,
    /// The pixel bytes: one red, green, blue, alpha quadruple per pixel.
    pub bytes: Vec<u8>,
}

impl ImageData {
    /// The byte vector holds exactly one four-byte quadruple per pixel.
    pub open spec fn wf(self) -> bool {
        self.bytes@.len() == 4 * (self.width * self.height)
    }

    /// Index of the first byte of the pixel at column `x`, row `y`.
    pub open spec fn spec_pixel_base(self, x: int, y: int) -> int {
        4 * (y * self.width + x)
    }

    /// The (red, green, blue, alpha) value of the pixel at column `x`, row `y`.
    pub open spec fn spec_pixel(self, x: int, y: int) -> (u8, u8, u8, u8) {
        let base = self.spec_pixel_base(x, y);
        (self.bytes@[base], self.bytes@[base + 1], self.bytes@[base + 2], self.bytes@[base + 3])
    }

    /// Builds an image from its dimensions and pixel bytes, refusing a byte
    /// vector whose length does not match the dimensions.
    pub fn new(width: usize, height: usize, bytes: Vec<u8>) -> (r: Option<ImageData>)
        ensures
            r is Some <==> bytes@.len() == 4 * (width * height),
            r is Some ==> r->0 == (ImageData { width, height, bytes }) && r->0.wf(),
    {
        let len = bytes.len();
        let expected = match width.checked_mul(height) {
            Some(p) => p.checked_mul(4),
            None => None,
        };
        match expected {
            Some(total) => if len == total {
                Some(ImageData { width, height, bytes })
            } else {
                None
            },
            // The true byte count would exceed usize, so no vector can hold it.
            None => None,
        }
    }

    /// Reads the pixel at column `x`, row `y`, or `None` when the coordinates
    /// fall outside the image.
    pub fn get_pixel(&self, x: usize, y: usize) -> (r: Option<(u8, u8, u8, u8)>)
        requires
            self.wf(),
        ensures
            r is Some <==> (x < self.width && y < self.height),
            x < self.width && y < self.height ==> r == Some(self.spec_pixel(x as int, y as int)),
    {
        if x < self.width && y < self.height {
            let len = self.bytes.len();
            proof {
                assert(y * self.width + x < self.width * self.height) by (nonlinear_arith)
                    requires
                        x < self.width,
                        y < self.height,
                ;
            }
            let base = 4 * (y * self.width + x);
            Some((self.bytes[base], self.bytes[base + 1], self.bytes[base + 2], self.bytes[base + 3]))
        } else {
            None
        }
    }
}

} // verus!
