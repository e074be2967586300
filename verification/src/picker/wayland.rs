//! Cropping the full-desktop screenshot per output.
//!
//! The portal returns one image of the whole desktop. It is cropped per output
//! by the output geometry that [`CaptureHelper`] keeps; each output gets its
//! own [`CapturedOutput`].

use crate::float::{Double, Value};
use crate::machine::{signed32, to_signed};
use crate::picker::capture::{CaptureHelper, OutputInfo, PortalOutputInfo};
use crate::picker::color::double;
use crate::picker::output::CapturedOutput;
use crate::picker::rgba::{image_size, RgbaImage};
use crate::text::{decimal, push_decimal};
use vstd::prelude::*;

verus! {

/// Name and logical rectangle of an output.
pub struct Geometry {
    pub name: Seq<char>,
    pub pos_x: int,
    pub pos_y: int,
    pub log_w: int,
    pub log_h: int,
}

/// The geometries of the outputs that are known, and the corners of the area
/// that they cover.
pub struct Layout {
    pub geoms: Seq<Geometry>,
    pub min_x: int,
    pub min_y: int,
    pub max_x: int,
    pub max_y: int,
}

/// The logical size of an output: a guess where none was announced.
pub open spec fn logical_size(info: OutputInfo) -> (int, int) {
    match info.logical_size {
        Some((w, h)) => (w as int, h as int),
        None => (signed32(info.location.0 + 1920), signed32(info.location.1 + 1080)),
    }
}

/// The name of an output, or one made from its place.
pub open spec fn output_name(info: OutputInfo, place: int) -> Seq<char> {
    match info.name {
        Some(name) => name@,
        None => "monitor-"@ + decimal(place),
    }
}

/// A layout with one more output.
pub open spec fn extended(layout: Layout, info: OutputInfo) -> Layout {
    let (px, py) = (info.location.0 as int, info.location.1 as int);
    let (lw, lh) = logical_size(info);
    Layout {
        geoms: layout.geoms.push(
            Geometry {
                name: output_name(info, layout.geoms.len() as int),
                pos_x: px,
                pos_y: py,
                log_w: vstd::math::max(lw, 0),
                log_h: vstd::math::max(lh, 0),
            },
        ),
        min_x: vstd::math::min(layout.min_x, px),
        min_y: vstd::math::min(layout.min_y, py),
        max_x: vstd::math::max(layout.max_x, signed32(px + lw)),
        max_y: vstd::math::max(layout.max_y, signed32(py + lh)),
    }
}

/// The layout of the listed outputs of which something is known.
pub open spec fn gathered(outputs: Seq<u64>, infos: Map<u64, OutputInfo>) -> Layout
    decreases outputs.len(),
{
    if outputs.len() == 0 {
        Layout {
            geoms: Seq::empty(),
            min_x: i32::MAX as int,
            min_y: i32::MAX as int,
            max_x: i32::MIN as int,
            max_y: i32::MIN as int,
        }
    } else {
        let before = gathered(outputs.drop_last(), infos);
        if infos.dom().contains(outputs.last()) {
            extended(before, infos[outputs.last()])
        } else {
            before
        }
    }
}

/// Screenshot pixels per logical pixel along one axis.
pub open spec fn shot_scale(full: int, min: int, max: int) -> Value<true> {
    double(full).over(double(vstd::math::max(signed32(max - min), 1)))
}

/// A logical length in screenshot pixels, to the nearest.
pub open spec fn shot_pixels(length: int, scale: Value<true>) -> int {
    double(length).times(scale).nearest()
}

/// Where an output begins in the screenshot along one axis, and how many pixels
/// of it are there.
pub open spec fn crop_span(full: int, min: int, max: int, pos: int, length: int) -> (int, int) {
    let scale = shot_scale(full, min, max);
    let from = shot_pixels(signed32(pos - min), scale);
    let count = shot_pixels(length, scale);
    (from, vstd::math::min(count, vstd::math::max(full - from, 0)))
}

/// The part of the screenshot that shows an output.
pub struct Region {
    pub geom: Geometry,
    pub x: int,
    pub y: int,
    pub w: int,
    pub h: int,
}

/// The part of a screenshot of the given size that shows an output.
pub open spec fn region(layout: Layout, geom: Geometry, full_w: int, full_h: int) -> Region {
    let (x, w) = crop_span(full_w, layout.min_x, layout.max_x, geom.pos_x, geom.log_w);
    let (y, h) = crop_span(full_h, layout.min_y, layout.max_y, geom.pos_y, geom.log_h);
    Region { geom, x, y, w, h }
}

/// The parts of a screenshot for the first `n` outputs of a layout, without
/// those that are empty.
pub open spec fn regions(layout: Layout, n: int, full_w: int, full_h: int) -> Seq<Region>
    decreases n,
{
    if n <= 0 {
        Seq::empty()
    } else {
        let before = regions(layout, n - 1, full_w, full_h);
        let next = region(layout, layout.geoms[n - 1], full_w, full_h);
        if next.w == 0 || next.h == 0 {
            before
        } else {
            before.push(next)
        }
    }
}

/// Whether a captured output is the given part of a screenshot.
pub open spec fn is_crop(out: CapturedOutput, part: Region, full: RgbaImage, index: int) -> bool {
    &&& out.name@ == part.geom.name
    &&& out.image_handle == index
    &&& out.width == part.w
    &&& out.height == part.h
    &&& out.logical_width == part.geom.log_w
    &&& out.logical_height == part.geom.log_h
    &&& out.pos_x == part.geom.pos_x
    &&& out.pos_y == part.geom.pos_y
    &&& image_size(out.rgba) == (out.width, out.height)
    &&& forall|i: int, j: int|
        out.rgba.has(i, j) ==> #[trigger] out.rgba.rgb(i, j) == full.rgb(part.x + i, part.y + j)
    &&& forall|i: int, j: int|
        out.rgba.has(i, j) ==> #[trigger] out.rgba.alpha(i, j) == full.alpha(
            part.x + i,
            part.y + j,
        )
}

/// Whether a captured output is a whole screenshot.
pub open spec fn is_whole(out: CapturedOutput, full: RgbaImage) -> bool {
    &&& out.name@ == "screenshot"@
    &&& out.image_handle == 0
    &&& out.rgba == full
    &&& (out.width, out.height) == image_size(full)
    &&& (out.logical_width, out.logical_height) == image_size(full)
    &&& out.pos_x == 0
    &&& out.pos_y == 0
}

/// The corners of an area, as it grows.
struct Corners {
    min_x: i32,
    min_y: i32,
    max_x: i32,
    max_y: i32,
}

/// A stored geometry.
spec fn geometry(info: PortalOutputInfo) -> Geometry {
    Geometry {
        name: info.name@,
        pos_x: info.pos_x as int,
        pos_y: info.pos_y as int,
        log_w: info.logical_width as int,
        log_h: info.logical_height as int,
    }
}

/// Whether stored geometries and corners are a layout.
spec fn stores(geoms: Seq<PortalOutputInfo>, corners: Corners, layout: Layout) -> bool {
    &&& geoms.len() == layout.geoms.len()
    &&& forall|i: int| 0 <= i < geoms.len() ==> geometry(#[trigger] geoms[i]) == layout.geoms[i]
    &&& corners.min_x == layout.min_x
    &&& corners.min_y == layout.min_y
    &&& corners.max_x == layout.max_x
    &&& corners.max_y == layout.max_y
}

fn smaller(a: i32, b: i32) -> (r: i32)
    ensures
        r == vstd::math::min(a as int, b as int),
{
    if a <= b {
        a
    } else {
        b
    }
}

fn larger(a: i32, b: i32) -> (r: i32)
    ensures
        r == vstd::math::max(a as int, b as int),
{
    if a > b {
        a
    } else {
        b
    }
}

/// The layout of the outputs of a helper.
fn gather(helper: &CaptureHelper) -> (r: (Vec<PortalOutputInfo>, Corners))
    ensures
        stores(r.0@, r.1, gathered(helper.listed(), helper.infos())),
{
    let outputs = helper.outputs();
    let mut geoms: Vec<PortalOutputInfo> = Vec::new();
    let mut corners = Corners {
        min_x: i32::MAX,
        min_y: i32::MAX,
        max_x: i32::MIN,
        max_y: i32::MIN,
    };
    let mut i: usize = 0;
    while i < outputs.len()
        invariant
            i <= outputs@.len(),
            outputs@ == helper.listed(),
            stores(geoms@, corners, gathered(outputs@.take(i as int), helper.infos())),
            geoms@.len() <= i,
        decreases outputs@.len() - i,
    {
        assert(outputs@.take(i + 1).drop_last() =~= outputs@.take(i as int));
        let ghost layout = gathered(outputs@.take(i as int), helper.infos());
        let ghost before = geoms@;
        if let Some(info) = helper.output_info(outputs[i]) {
            let (px, py) = info.location;
            let (lw, lh): (i32, i32) = match info.logical_size {
                Some(size) => size,
                None => (to_signed(px as i64 + 1920), to_signed(py as i64 + 1080)),
            };
            corners = Corners {
                min_x: smaller(corners.min_x, px),
                min_y: smaller(corners.min_y, py),
                max_x: larger(corners.max_x, to_signed(px as i64 + lw as i64)),
                max_y: larger(corners.max_y, to_signed(py as i64 + lh as i64)),
            };
            let ghost place = geoms@.len();
            let name: String = match info.name {
                Some(name) => name,
                None => {
                    let mut made = String::new();
                    made.append("monitor-");
                    push_decimal(&mut made, geoms.len());
                    assert(made@ =~= "monitor-"@ + decimal(place as int));
                    made
                },
            };
            geoms.push(
                PortalOutputInfo {
                    name,
                    pos_x: px,
                    pos_y: py,
                    logical_width: larger(lw, 0) as u32,
                    logical_height: larger(lh, 0) as u32,
                },
            );
            proof {
                let next = extended(layout, info);
                assert(geometry(geoms@.last()) == next.geoms.last());
                assert forall|k: int| 0 <= k < geoms@.len() implies geometry(#[trigger] geoms@[k])
                    == next.geoms[k] by {
                    if k < before.len() {
                        assert(geoms@[k] == before[k]);
                    }
                }
            }
        }
        i = i + 1;
    }
    assert(outputs@.take(outputs@.len() as int) =~= outputs@);
    (geoms, corners)
}

/// Where an output begins in the screenshot along one axis, and how many pixels
/// of it are there.
fn span(full: u32, min: i32, max: i32, pos: i32, length: u32) -> (r: (u32, u32))
    ensures
        (r.0 as int, r.1 as int) == crop_span(
            full as int,
            min as int,
            max as int,
            pos as int,
            length as int,
        ),
{
    let area: i32 = larger(to_signed(max as i64 - min as i64), 1);
    let scale = Double::from_u32(full).over(Double::ratio(area, 1));
    let from: u32 = Double::ratio(to_signed(pos as i64 - min as i64), 1).times(scale).nearest();
    let count: u32 = Double::from_u32(length).times(scale).nearest();
    let rest: u32 = if full > from {
        full - from
    } else {
        0
    };
    (
        from,
        if count < rest {
            count
        } else {
            rest
        },
    )
}

/// Crops a full-desktop screenshot to the known outputs.
///
/// Without outputs the whole screenshot stands for one. An output of which no
/// pixel is in the screenshot is left out.
pub fn crop_outputs(full: RgbaImage, helper: &CaptureHelper) -> (r: Vec<CapturedOutput>)
    ensures
        helper.listed().len() == 0 ==> r@.len() == 1 && is_whole(r@[0], full),
        helper.listed().len() > 0 ==> ({
            let layout = gathered(helper.listed(), helper.infos());
            let parts = regions(layout, layout.geoms.len() as int, full.width(), full.height());
            &&& r@.len() == parts.len()
            &&& forall|i: int| 0 <= i < parts.len() ==> is_crop(#[trigger] r@[i], parts[i], full, i)
        }),
{
    let (full_width, full_height) = full.size();
    if helper.outputs().len() == 0 {
        let mut all: Vec<CapturedOutput> = Vec::new();
        all.push(
            CapturedOutput {
                name: "screenshot".to_owned(),
                rgba: full,
                image_handle: 0,
                width: full_width,
                height: full_height,
                logical_width: full_width,
                logical_height: full_height,
                pos_x: 0,
                pos_y: 0,
            },
        );
        return all;
    }
    let (geoms, corners) = gather(helper);
    let ghost layout = gathered(helper.listed(), helper.infos());
    let mut results: Vec<CapturedOutput> = Vec::new();
    let mut k: usize = 0;
    while k < geoms.len()
        invariant
            k <= geoms@.len(),
            stores(geoms@, corners, layout),
            image_size(full) == (full_width, full_height),
            results@.len() <= k,
            ({
                let parts = regions(layout, k as int, full_width as int, full_height as int);
                &&& results@.len() == parts.len()
                &&& forall|i: int|
                    0 <= i < parts.len() ==> is_crop(#[trigger] results@[i], parts[i], full, i)
            }),
        decreases geoms@.len() - k,
    {
        let g = &geoms[k];
        let ghost before = results@;
        let ghost parts = regions(layout, k as int, full_width as int, full_height as int);
        let ghost part = region(layout, layout.geoms[k as int], full_width as int, full_height as int);
        assert(geometry(*g) == layout.geoms[k as int]);
        // Crop region in screenshot pixel coordinates, clamped to the image.
        let (crop_x, crop_w) = span(
            full_width,
            corners.min_x,
            corners.max_x,
            g.pos_x,
            g.logical_width,
        );
        let (crop_y, crop_h) = span(
            full_height,
            corners.min_y,
            corners.max_y,
            g.pos_y,
            g.logical_height,
        );
        if crop_w != 0 && crop_h != 0 {
            let cropped = full.cropped(crop_x, crop_y, crop_w, crop_h);
            let handle: u64 = results.len() as u64;
            results.push(
                CapturedOutput {
                    name: g.name.clone(),
                    rgba: cropped,
                    image_handle: handle,
                    width: crop_w,
                    height: crop_h,
                    logical_width: g.logical_width,
                    logical_height: g.logical_height,
                    pos_x: g.pos_x,
                    pos_y: g.pos_y,
                },
            );
            proof {
                assert(is_crop(results@.last(), part, full, before.len() as int));
                let now = parts.push(part);
                assert forall|i: int| 0 <= i < now.len() implies is_crop(
                    #[trigger] results@[i],
                    now[i],
                    full,
                    i,
                ) by {
                    if i < before.len() {
                        assert(results@[i] == before[i]);
                    }
                }
            }
        }
        k = k + 1;
    }
    results
}

/// Why a capture failed, with what the failing part said.
#[derive(Debug, PartialEq, Eq)]
pub enum CaptureFailure {
    /// The portal did not take the request.
    Request(String),
    /// The portal answered with an error.
    Response(String),
    /// The portal's answer names no file.
    Uri(String),
    /// The screenshot could not be read.
    Open(String),
    /// The thread that reads and crops the screenshot panicked.
    Panicked(String),
    /// That thread went away without an answer.
    Cancelled,
}

impl CaptureFailure {
    /// The message that is shown.
    pub open spec fn text(self) -> Seq<char> {
        match self {
            CaptureFailure::Request(e) => "Screenshot request failed: "@ + e@,
            CaptureFailure::Response(e) => "Screenshot response error: "@ + e@,
            CaptureFailure::Uri(e) => "Cannot convert screenshot URI to file path: "@ + e@,
            CaptureFailure::Open(e) => "Failed to open screenshot image: "@ + e@,
            CaptureFailure::Panicked(e) => "Capture thread panicked: "@ + e@,
            CaptureFailure::Cancelled => "Capture thread was cancelled"@,
        }
    }

    /// The message that is shown.
    pub fn message(&self) -> (r: String)
        ensures
            r@ == self.text(),
    {
        match self {
            CaptureFailure::Request(e) => joined("Screenshot request failed: ", e.as_str()),
            CaptureFailure::Response(e) => joined("Screenshot response error: ", e.as_str()),
            CaptureFailure::Uri(e) => joined(
                "Cannot convert screenshot URI to file path: ",
                e.as_str(),
            ),
            CaptureFailure::Open(e) => joined("Failed to open screenshot image: ", e.as_str()),
            CaptureFailure::Panicked(e) => joined("Capture thread panicked: ", e.as_str()),
            CaptureFailure::Cancelled => "Capture thread was cancelled".to_owned(),
        }
    }
}

/// The message of a failure ends with what the failing part said, and begins with
/// what failed.
pub proof fn law_message_tells_the_cause(cause: String)
    ensures
        ({
            let request = CaptureFailure::Request(cause).text();
            let response = CaptureFailure::Response(cause).text();
            let uri = CaptureFailure::Uri(cause).text();
            let open = CaptureFailure::Open(cause).text();
            let panicked = CaptureFailure::Panicked(cause).text();
            &&& request.skip("Screenshot request failed: "@.len() as int) == cause@
            &&& response.skip("Screenshot response error: "@.len() as int) == cause@
            &&& uri.skip("Cannot convert screenshot URI to file path: "@.len() as int) == cause@
            &&& open.skip("Failed to open screenshot image: "@.len() as int) == cause@
            &&& panicked.skip("Capture thread panicked: "@.len() as int) == cause@
        }),
{
    assert(CaptureFailure::Request(cause).text().skip("Screenshot request failed: "@.len() as int)
        =~= cause@);
    assert(CaptureFailure::Response(cause).text().skip("Screenshot response error: "@.len() as int)
        =~= cause@);
    assert(CaptureFailure::Uri(cause).text().skip(
        "Cannot convert screenshot URI to file path: "@.len() as int,
    ) =~= cause@);
    assert(CaptureFailure::Open(cause).text().skip(
        "Failed to open screenshot image: "@.len() as int,
    ) =~= cause@);
    assert(CaptureFailure::Panicked(cause).text().skip("Capture thread panicked: "@.len() as int)
        =~= cause@);
}

/// Two texts as one.
fn joined(a: &str, b: &str) -> (r: String)
    ensures
        r@ == a@ + b@,
{
    let mut text = a.to_owned();
    text.append(b);
    text
}

/// A human-readable message from a panic's payload: the payload's text, whether
/// it was a literal or an owned one.
pub fn panic_message(literal: Option<String>, owned: Option<String>) -> (r: String)
    ensures
        r@ == match (literal, owned) {
            (Some(text), _) => text@,
            (None, Some(text)) => text@,
            (None, None) => "unknown panic"@,
        },
{
    match literal {
        Some(text) => text,
        None => match owned {
            Some(text) => text,
            None => "unknown panic".to_owned(),
        },
    }
}

} // verus!
