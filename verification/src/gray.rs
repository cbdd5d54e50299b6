//! Greyscale pixel buffers, held in an `image::GrayImage`.
//!
//! `GrayBuffer` keeps the image in a private field.  Its contents are
//! described by two names, the pixel grid and the size, and each operation
//! that the library uses is one wrapper of the matching `image` method.
use image::{GrayImage, Luma};
use vstd::prelude::*;

verus! {

/// A single-channel 8-bit image.
#[verifier::external_body]
pub struct GrayBuffer {
    img: GrayImage,
}

/// The value of every pixel, keyed by `(x, y)`.  Its domain is the grid
/// `x < width, y < height` (see `GrayBuffer::dimensions`).
pub uninterp spec fn gray_grid(img: GrayBuffer) -> Map<(u32, u32), u8>;

/// The `(width, height)` that the image was made with, and the length of its
/// raw row-major buffer.
pub uninterp spec fn gray_dims(img: GrayBuffer) -> (u32, u32, nat);

/// The grid of all coordinates `x < width, y < height`.
pub open spec fn grid_domain(width: u32, height: u32) -> Set<(u32, u32)> {
    Set::new(|p: (u32, u32)| p.0 < width && p.1 < height)
}

/// The image's width.
pub open spec fn width_of(img: GrayBuffer) -> u32 {
    gray_dims(img).0
}

/// The image's height.
pub open spec fn height_of(img: GrayBuffer) -> u32 {
    gray_dims(img).1
}

/// The length of the image's raw buffer.
pub open spec fn raw_len_of(img: GrayBuffer) -> nat {
    gray_dims(img).2
}

/// The value of the pixel at `(x, y)`.
pub open spec fn pixel_of(img: GrayBuffer, x: u32, y: u32) -> u8 {
    gray_grid(img)[(x, y)]
}

impl GrayBuffer {
    /// `ImageBuffer::new`: an all-black (zero) image of the given size, over a
    /// buffer of exactly `width * height` bytes.  The `image` crate panics when
    /// `width * height` overflows `usize`.
    #[verifier::external_body]
    pub(crate) fn new(width: u32, height: u32) -> (img: GrayBuffer)
        requires
            width as int * height as int <= usize::MAX,
        ensures
            gray_dims(img) == (width, height, (width * height) as nat),
            gray_grid(img) == Map::new(
                |p: (u32, u32)| p.0 < width && p.1 < height,
                |p: (u32, u32)| 0u8,
            ),
    {
        GrayBuffer { img: GrayImage::new(width, height) }
    }

    /// `ImageBuffer::dimensions`: the `(width, height)` of the image; the
    /// image holds one pixel at every coordinate of that grid, and its raw
    /// buffer holds at least `width * height` bytes.
    #[verifier::external_body]
    pub fn dimensions(&self) -> (dims: (u32, u32))
        ensures
            dims.0 == width_of(*self),
            dims.1 == height_of(*self),
            gray_grid(*self).dom() == grid_domain(dims.0, dims.1),
            dims.0 as int * dims.1 as int <= raw_len_of(*self),
            dims.0 as int * dims.1 as int <= usize::MAX,
    {
        self.img.dimensions()
    }

    /// `ImageBuffer::get_pixel`, reading the single channel of the `Luma`
    /// pixel.  The `image` crate panics out of bounds.
    #[verifier::external_body]
    pub(crate) fn get_pixel(&self, x: u32, y: u32) -> (v: u8)
        requires
            x < width_of(*self),
            y < height_of(*self),
        ensures
            v == pixel_of(*self, x, y),
    {
        self.img.get_pixel(x, y).0[0]
    }

    /// `ImageBuffer::put_pixel` with a `Luma` pixel of value `v`: sets the
    /// pixel at `(x, y)` and nothing else.  The `image` crate panics out of
    /// bounds.
    #[verifier::external_body]
    pub(crate) fn put_pixel(&mut self, x: u32, y: u32, v: u8)
        requires
            x < width_of(*old(self)),
            y < height_of(*old(self)),
        ensures
            gray_dims(*final(self)) == gray_dims(*old(self)),
            gray_grid(*final(self)) == gray_grid(*old(self)).insert((x, y), v),
    {
        self.img.put_pixel(x, y, Luma([v]))
    }

    /// `ImageBuffer::from_raw`: an image of the given size over a row-major
    /// buffer, kept as it is, the pixel `(x, y)` at index `y * width + x`.  It
    /// is refused
    /// (`None`) when the buffer holds fewer than `width * height` bytes or
    /// that product overflows `usize`.
    #[verifier::external_body]
    pub fn from_raw(width: u32, height: u32, data: Vec<u8>) -> (img: Option<GrayBuffer>)
        ensures
            img is Some <==> width as int * height as int <= data@.len(),
            img matches Some(b) ==> gray_dims(b) == (width, height, data@.len()),
            img matches Some(b) ==> gray_grid(b) == Map::new(
                |p: (u32, u32)| p.0 < width && p.1 < height,
                |p: (u32, u32)| data@[p.1 as int * width as int + p.0 as int],
            ),
    {
        match GrayImage::from_raw(width, height, data) {
            Some(img) => Some(GrayBuffer { img }),
            None => None,
        }
    }

    /// `ImageBuffer::into_raw`: the row-major buffer, the pixel `(x, y)` at
    /// index `y * width + x`.  Its length is stated; the values of bytes past
    /// `width * height`, which only a longer buffer given to `from_raw` has,
    /// are not.
    #[verifier::external_body]
    pub fn into_raw(self) -> (data: Vec<u8>)
        ensures
            data@.len() == raw_len_of(self),
            forall|x: u32, y: u32|
                x < width_of(self) && y < height_of(self) ==> data@[y as int * width_of(self) as int
                    + x as int] == #[trigger] gray_grid(self)[(x, y)],
    {
        self.img.into_raw()
    }
}

} // verus!
