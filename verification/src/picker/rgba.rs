//! Pixel images, held by the `image` crate.

use vstd::prelude::*;

verus! {

/// An image with four bytes per pixel (red, green, blue, alpha), row by row
/// from the top.
///
/// What the image holds is named by [`image_bytes`] and [`image_size`]; the
/// functions of this module that call the `image` crate say how its methods
/// act on those.
#[verifier::external_body]
pub struct RgbaImage {
    inner: image::RgbaImage,
}

/// The bytes that an image holds.
pub uninterp spec fn image_bytes(img: RgbaImage) -> Seq<u8>;

/// Width and height of an image in pixels.
pub uninterp spec fn image_size(img: RgbaImage) -> (u32, u32);

/// Whether so many bytes are enough for an image of the given size, and a row
/// of it can be counted in bytes.
pub open spec fn can_hold(bytes: int, width: u32, height: u32) -> bool {
    4 * width <= usize::MAX && 4 * width * height <= bytes
}

/// Where the bytes of a pixel begin.
pub open spec fn pixel_offset(width: int, x: int, y: int) -> int {
    4 * (y * width + x)
}

impl Clone for RgbaImage {
    /// `image::RgbaImage::clone`: an image of the same size with the same bytes.
    #[verifier::external_body]
    fn clone(&self) -> (r: Self)
        ensures
            image_bytes(r) == image_bytes(*self),
            image_size(r) == image_size(*self),
    {
        RgbaImage { inner: self.inner.clone() }
    }
}

impl RgbaImage {
    /// Width in pixels.
    pub open spec fn width(self) -> int {
        image_size(self).0 as int
    }

    /// Height in pixels.
    pub open spec fn height(self) -> int {
        image_size(self).1 as int
    }

    /// The red, green and blue bytes of a pixel.
    pub open spec fn rgb(self, x: int, y: int) -> (u8, u8, u8) {
        let at = pixel_offset(self.width(), x, y);
        (image_bytes(self)[at], image_bytes(self)[at + 1], image_bytes(self)[at + 2])
    }

    /// The alpha byte of a pixel.
    pub open spec fn alpha(self, x: int, y: int) -> u8 {
        image_bytes(self)[pixel_offset(self.width(), x, y) + 3]
    }

    /// Whether a coordinate lies in the image.
    pub open spec fn has(self, x: int, y: int) -> bool {
        0 <= x < self.width() && 0 <= y < self.height()
    }

    /// Whether the bytes of a pixel are there: its column is in range, and the
    /// bytes do not end before it.
    pub open spec fn holds(self, x: int, y: int) -> bool {
        &&& 0 <= x < self.width()
        &&& 0 <= y
        &&& pixel_offset(self.width(), x, y) + 4 <= image_bytes(self).len()
    }

    /// `image::RgbaImage::from_raw`: takes the bytes as they are, unless they
    /// are too few for the size or a row is longer than memory can be.
    #[verifier::external_body]
    fn from_raw(width: u32, height: u32, bytes: Vec<u8>) -> (r: Option<RgbaImage>)
        ensures
            (r is Some) == can_hold(bytes@.len() as int, width, height),
            r matches Some(img) ==> image_bytes(img) == bytes@ && image_size(img) == (
                width,
                height,
            ),
    {
        image::RgbaImage::from_raw(width, height, bytes).map(|inner| RgbaImage { inner })
    }

    /// `image::RgbaImage::dimensions`: width and height; the image holds the
    /// bytes of all its pixels.
    #[verifier::external_body]
    fn dimensions(&self) -> (r: (u32, u32))
        ensures
            r == image_size(*self),
            4 * r.0 * r.1 <= image_bytes(*self).len(),
    {
        self.inner.dimensions()
    }

    /// `image::RgbaImage::as_raw`: all bytes that the image holds.
    #[verifier::external_body]
    fn as_raw(&self) -> (r: &Vec<u8>)
        ensures
            r@ == image_bytes(*self),
    {
        self.inner.as_raw()
    }

    /// `image::RgbaImage::get_pixel_checked`: the four bytes of a pixel. A
    /// column out of range has none; a row has none where the bytes end before
    /// it.
    #[verifier::external_body]
    fn get_pixel_checked(&self, x: u32, y: u32) -> (r: Option<(u8, u8, u8, u8)>)
        ensures
            (r is Some) == self.holds(x as int, y as int),
            r matches Some(p) ==> (p.0, p.1, p.2) == self.rgb(x as int, y as int) && p.3
                == self.alpha(x as int, y as int),
    {
        self.inner.get_pixel_checked(x, y).map(|p| (p[0], p[1], p[2], p[3]))
    }

    /// `image::imageops::crop_imm`, made an image of its own by
    /// `SubImage::to_image`: the pixels of a rectangle inside the image.
    #[verifier::external_body]
    fn crop_imm(&self, x: u32, y: u32, width: u32, height: u32) -> (r: RgbaImage)
        requires
            x + width <= self.width(),
            y + height <= self.height(),
        ensures
            image_size(r) == (width, height),
            image_bytes(r).len() == 4 * width * height,
            forall|i: int, j: int|
                0 <= i < width && 0 <= j < height ==> #[trigger] r.rgb(i, j) == self.rgb(
                    x + i,
                    y + j,
                ),
            forall|i: int, j: int|
                0 <= i < width && 0 <= j < height ==> #[trigger] r.alpha(i, j) == self.alpha(
                    x + i,
                    y + j,
                ),
    {
        RgbaImage { inner: image::imageops::crop_imm(&self.inner, x, y, width, height).to_image() }
    }

    /// An image of the given size from its bytes; `None` if they are too few.
    pub fn new(width: u32, height: u32, bytes: Vec<u8>) -> (r: Option<RgbaImage>)
        ensures
            (r is Some) == can_hold(bytes@.len() as int, width, height),
            r matches Some(img) ==> image_bytes(img) == bytes@ && image_size(img) == (
                width,
                height,
            ),
    {
        Self::from_raw(width, height, bytes)
    }

    /// Width and height in pixels.
    pub fn size(&self) -> (r: (u32, u32))
        ensures
            r == image_size(*self),
    {
        self.dimensions()
    }

    /// A copy of the bytes.
    pub fn to_bytes(&self) -> (r: Vec<u8>)
        ensures
            r@ == image_bytes(*self),
    {
        let raw = self.as_raw();
        let mut bytes: Vec<u8> = Vec::new();
        bytes.extend_from_slice(raw.as_slice());
        assert(bytes@ =~= raw@);
        bytes
    }

    /// The red, green and blue bytes of a pixel; `None` if the coordinate is out
    /// of range.
    pub fn pixel(&self, x: u32, y: u32) -> (r: Option<(u8, u8, u8)>)
        ensures
            r == if self.has(x as int, y as int) {
                Some(self.rgb(x as int, y as int))
            } else {
                None
            },
    {
        let (width, height) = self.dimensions();
        if y >= height {
            return None;
        }
        proof {
            if x < width {
                let (w, h) = (width as int, height as int);
                assert(pixel_offset(w, x as int, y as int) + 4 <= 4 * w * h) by (nonlinear_arith)
                    requires
                        pixel_offset(w, x as int, y as int) == 4 * (y * w + x),
                        x + 1 <= w,
                        y + 1 <= h,
                        0 <= x,
                        0 <= y,
                ;
            }
        }
        match self.get_pixel_checked(x, y) {
            Some(p) => Some((p.0, p.1, p.2)),
            None => None,
        }
    }

    /// The pixels of a rectangle inside the image, as an image of its own.
    pub fn cropped(&self, x: u32, y: u32, width: u32, height: u32) -> (r: RgbaImage)
        requires
            x + width <= self.width(),
            y + height <= self.height(),
        ensures
            image_size(r) == (width, height),
            image_bytes(r).len() == 4 * width * height,
            forall|i: int, j: int|
                r.has(i, j) ==> #[trigger] r.rgb(i, j) == self.rgb(x + i, y + j),
            forall|i: int, j: int|
                r.has(i, j) ==> #[trigger] r.alpha(i, j) == self.alpha(x + i, y + j),
    {
        self.crop_imm(x, y, width, height)
    }
}

} // verus!
