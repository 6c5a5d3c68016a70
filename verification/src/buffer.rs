//! The pixel buffer that the transform works on: an 8-bit-per-channel RGBA
//! raster, stored as an `image::RgbaImage` behind a small trusted boundary.
//!
//! The buffer is modelled by two uninterpreted names: `dims_of`, the
//! width/height pair, and `pixels_of`, the table that maps each in-bounds
//! coordinate to the pixel stored there. Every other contract of the crate
//! speaks of the buffer through these two names.

use vstd::prelude::*;

verus! {

/// One pixel value: the four 8-bit channels red, green, blue, alpha.
#[derive(Clone, Copy, PartialEq, Eq, Structural, Debug)]
pub struct Color {
    pub red: u8,
    pub green: u8,
    pub blue: u8,
    pub alpha: u8,
}

/// A width × height grid of RGBA pixels. The underlying storage is an
/// `image::RgbaImage`; the four accessors below are the whole interface the
/// transform needs.
#[verifier::external_body]
pub struct PixelBuffer {
    img: image::RgbaImage,
}

/// The width and height of a buffer, in pixels.
pub uninterp spec fn dims_of(buffer: PixelBuffer) -> (u32, u32);

/// The pixel table of a buffer: each in-bounds coordinate maps to the pixel
/// stored there.
pub uninterp spec fn pixels_of(buffer: PixelBuffer) -> Map<(int, int), Color>;

/// The coordinate `p` lies inside a buffer of dimensions `dims`.
pub open spec fn in_bounds(p: (int, int), dims: (u32, u32)) -> bool {
    0 <= p.0 < dims.0 && 0 <= p.1 < dims.1
}

impl PixelBuffer {
    /// Relies on `image::ImageBuffer::new`: allocates a width × height
    /// buffer with every channel of every pixel zero. It panics when the
    /// byte count overflows `usize`, so that is required away.
    #[verifier::external_body]
    pub fn new(width: u32, height: u32) -> (r: PixelBuffer)
        requires
            4 * width * height <= usize::MAX,
        ensures
            dims_of(r) == (width, height),
            forall|p: (int, int)|
                in_bounds(p, (width, height)) ==> pixels_of(r)[p] == (Color {
                    red: 0,
                    green: 0,
                    blue: 0,
                    alpha: 0,
                }),
    {
        PixelBuffer { img: image::RgbaImage::new(width, height) }
    }

    /// Relies on `image::ImageBuffer::width`: returns the buffer's width.
    #[verifier::external_body]
    pub fn width(&self) -> (r: u32)
        ensures
            r == dims_of(*self).0,
    {
        self.img.width()
    }

    /// Relies on `image::ImageBuffer::height`: returns the buffer's height.
    #[verifier::external_body]
    pub fn height(&self) -> (r: u32)
        ensures
            r == dims_of(*self).1,
    {
        self.img.height()
    }

    /// Relies on `image::ImageBuffer::get_pixel`: returns the pixel stored
    /// at (x, y). It panics out of bounds, so the bounds are required.
    #[verifier::external_body]
    pub fn get_pixel(&self, x: u32, y: u32) -> (r: Color)
        requires
            x < dims_of(*self).0,
            y < dims_of(*self).1,
        ensures
            r == pixels_of(*self)[(x as int, y as int)],
    {
        let p = self.img.get_pixel(x, y).0;
        Color { red: p[0], green: p[1], blue: p[2], alpha: p[3] }
    }

    /// Relies on `image::ImageBuffer::put_pixel`: stores the pixel at
    /// (x, y) exactly, leaving the dimensions and every other pixel
    /// unchanged. It panics out of bounds, so the bounds are required.
    #[verifier::external_body]
    pub fn put_pixel(&mut self, x: u32, y: u32, pixel: Color)
        requires
            x < dims_of(*old(self)).0,
            y < dims_of(*old(self)).1,
        ensures
            dims_of(*final(self)) == dims_of(*old(self)),
            pixels_of(*final(self)) == pixels_of(*old(self)).insert(
                (x as int, y as int),
                pixel,
            ),
    {
        self.img.put_pixel(x, y, image::Rgba([pixel.red, pixel.green, pixel.blue, pixel.alpha]));
    }
}

} // verus!
