//! A captured output.

use crate::picker::rgba::{image_bytes, image_size, RgbaImage};
use vstd::prelude::*;

verus! {

/// Pixel data from a single captured output.
///
/// All position / size fields are in **logical** (compositor) coordinates
/// unless stated otherwise.  Multiply by the per-axis scale factor
/// (`width / logical_width`) to obtain buffer-pixel coordinates.
pub struct CapturedOutput {
    /// Connector name (e.g. `"DP-1"`, `"eDP-1"`).
    pub name: String,
    /// RGBA pixel data (R, G, B, A bytes, row-major, top-left origin).
    pub rgba: RgbaImage,
    /// Key of the GPU texture handle for this output.
    pub image_handle: u64,
    /// Pixel width of the captured image.
    pub width: u32,
    /// Pixel height of the captured image.
    pub height: u32,
    /// Width of this output in logical (compositor) coordinates.
    ///
    /// Together with `width` this defines the scale factor for
    /// cursor-to-pixel mapping.
    pub logical_width: u32,
    /// Height of this output in logical (compositor) coordinates.
    pub logical_height: u32,
    /// X offset of this output in compositor (logical) coordinate space.
    pub pos_x: i32,
    /// Y offset of this output in compositor (logical) coordinate space.
    pub pos_y: i32,
}

impl Clone for CapturedOutput {
    fn clone(&self) -> (r: Self)
        ensures
            image_bytes(r.rgba) == image_bytes(self.rgba),
            image_size(r.rgba) == image_size(self.rgba),
            r == (CapturedOutput { rgba: r.rgba, ..*self }),
    {
        CapturedOutput {
            name: self.name.clone(),
            rgba: self.rgba.clone(),
            image_handle: self.image_handle,
            width: self.width,
            height: self.height,
            logical_width: self.logical_width,
            logical_height: self.logical_height,
            pos_x: self.pos_x,
            pos_y: self.pos_y,
        }
    }
}

impl CapturedOutput {
    /// The pixel at a coordinate, if it is in range.
    pub open spec fn pixel(self, x: int, y: int) -> Option<(u8, u8, u8)> {
        if self.rgba.has(x, y) {
            Some(self.rgba.rgb(x, y))
        } else {
            None
        }
    }

    /// Sample a pixel at the given buffer-local (x, y) coordinate.
    ///
    /// Returns `None` if the coordinate is out of range.  Returns the pixel
    /// as `(R, G, B)`.
    pub fn pixel_at(&self, x: u32, y: u32) -> (r: Option<(u8, u8, u8)>)
        ensures
            r == self.pixel(x as int, y as int),
    {
        self.rgba.pixel(x, y)
    }
}

/// A pixel is there if and only if its column and row are in the image, and is
/// then the image's own.
pub proof fn law_pixels_are_in_the_image(capture: CapturedOutput, x: int, y: int)
    ensures
        0 <= x < capture.rgba.width() && 0 <= y < capture.rgba.height() ==> capture.pixel(x, y)
            == Some(capture.rgba.rgb(x, y)),
        x < 0 || capture.rgba.width() <= x || y < 0 || capture.rgba.height() <= y
            ==> capture.pixel(x, y) is None,
{
}

} // verus!
