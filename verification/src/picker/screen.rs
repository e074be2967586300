//! The colour that is picked is the one on the screen.

use crate::float::Value;
use crate::picker::color::Color;
use crate::picker::controller::{buffer_pixel, color_at};
use crate::picker::cropping::{is_nearest_to, is_span, law_region_shows_output, law_whole_scale_span};
use crate::picker::output::CapturedOutput;
use crate::picker::rgba::RgbaImage;
use crate::order::whole;
use crate::picker::sampling::{
    is_on_axis, law_pixel_is_at_cursor, law_pixel_is_captured, law_pixel_under_cursor,
};
use crate::picker::wayland::{is_crop, is_whole, region, Geometry, Layout, Region};
use crate::rounding::{exp2, lemma_exp2_pos};
use vstd::math::abs;
use vstd::prelude::*;

verus! {

/// Whether an output lies in the area of a layout, is not empty, and is not
/// larger than 2^16 logical pixels.
pub open spec fn is_placed_in(geom: Geometry, layout: Layout) -> bool {
    &&& i32::MIN <= layout.min_x <= geom.pos_x
    &&& geom.pos_x + geom.log_w <= layout.max_x <= i32::MAX
    &&& i32::MIN <= layout.min_y <= geom.pos_y
    &&& geom.pos_y + geom.log_h <= layout.max_y <= i32::MAX
    &&& layout.max_x - layout.min_x <= i32::MAX
    &&& layout.max_y - layout.min_y <= i32::MAX
    &&& 0 < geom.log_w <= 0x1_0000
    &&& 0 < geom.log_h <= 0x1_0000
}

/// The screenshot pixel at a distance from an output's edge: as many pixels
/// further than the output's own edge as the scaled distance has.
pub open spec fn screen_pixel(pos: int, min: int, factor: int, x: Value<false>) -> int {
    factor * (pos - min) + (x.units() * factor) / exp2(149)
}

/// On a screenshot with a whole number of pixels per logical pixel, the colour
/// under a cursor on a cropped output is that of the screenshot's pixel at the
/// cursor.
pub proof fn law_picked_color_is_on_screen(
    full: RgbaImage,
    layout: Layout,
    geom: Geometry,
    out: CapturedOutput,
    index: int,
    factor: (u32, u32),
    x: Value<false>,
    y: Value<false>,
)
    requires
        is_placed_in(geom, layout),
        0 < factor.0 <= 0x1_0000,
        0 < factor.1 <= 0x1_0000,
        full.width() == factor.0 * (layout.max_x - layout.min_x),
        full.height() == factor.1 * (layout.max_y - layout.min_y),
        is_crop(out, region(layout, geom, full.width(), full.height()), full, index),
        is_on_axis(x, out.logical_width),
        is_on_axis(y, out.logical_height),
    ensures
        ({
            let px = screen_pixel(geom.pos_x, layout.min_x, factor.0 as int, x);
            let py = screen_pixel(geom.pos_y, layout.min_y, factor.1 as int, y);
            let (r, g, b) = full.rgb(px, py);
            &&& full.has(px, py)
            &&& color_at(out, x, y) == Some(Color { r, g, b, a: 255 })
        }),
{
    let (fx, fy) = (factor.0 as int, factor.1 as int);
    law_whole_scale_span(fx, layout.min_x, layout.max_x, geom.pos_x, geom.log_w);
    law_whole_scale_span(fy, layout.min_y, layout.max_y, geom.pos_y, geom.log_h);
    lemma_crop_size(fx, geom.log_w, geom.pos_x - layout.min_x, layout.max_x - layout.min_x);
    lemma_crop_size(fy, geom.log_h, geom.pos_y - layout.min_y, layout.max_y - layout.min_y);
    law_pixel_under_cursor(x, out.logical_width, factor.0);
    law_pixel_under_cursor(y, out.logical_height, factor.1);
    law_pixel_is_captured(x, out.width, out.logical_width);
    law_pixel_is_captured(y, out.height, out.logical_height);
    let i = buffer_pixel(x, out.width, out.logical_width);
    let j = buffer_pixel(y, out.height, out.logical_height);
    assert(out.rgba.has(i, j));
    let part = region(layout, geom, full.width(), full.height());
    assert(out.rgba.rgb(i, j) == full.rgb(part.x + i, part.y + j));
}

/// A crop is as long as its output is scaled, and lies in the screenshot.
proof fn lemma_crop_size(factor: int, length: int, from: int, total: int)
    requires
        0 < factor,
        0 < length,
        0 <= from,
        from + length <= total,
    ensures
        0 < factor * length,
        factor * length == length * factor,
        0 <= factor * from,
        factor * from + factor * length <= factor * total,
{
    assert(0 < factor * length && factor * length == length * factor && 0 <= factor * from
        && factor * from + factor * length <= factor * total) by (nonlinear_arith)
        requires
            0 < factor,
            0 < length,
            0 <= from,
            from + length <= total,
    ;
}

/// A crop is the part of the screenshot that it stands for, pixel by pixel, and
/// keeps the name and the logical rectangle of its output.
pub proof fn law_crop_holds_its_part(
    out: CapturedOutput,
    part: Region,
    full: RgbaImage,
    index: int,
    i: int,
    j: int,
)
    requires
        is_crop(out, part, full, index),
        0 <= i < part.w,
        0 <= j < part.h,
    ensures
        out.rgba.width() == part.w && out.width == part.w,
        out.rgba.height() == part.h && out.height == part.h,
        out.rgba.rgb(i, j) == full.rgb(part.x + i, part.y + j),
        out.rgba.alpha(i, j) == full.alpha(part.x + i, part.y + j),
        out.name@ == part.geom.name,
        out.pos_x == part.geom.pos_x && out.pos_y == part.geom.pos_y,
        out.logical_width == part.geom.log_w && out.logical_height == part.geom.log_h,
        out.image_handle == index,
{
    assert(out.rgba.has(i, j));
}

/// Whether a pixel of a screenshot is the one at a distance from the edge of the
/// desktop, in logical pixels `away` and units `u`, on an axis of `full` pixels
/// for `total` logical ones. The edges of a crop are whole pixels, so that up to
/// two pixels are left open to one side and one to the other.
pub open spec fn is_at_screen(pixel: int, away: int, u: int, full: int, total: int) -> bool {
    let off = pixel * whole(total) - (whole(away) + u) * full;
    -17 * whole(total) <= 8 * off <= 9 * whole(total)
}

/// The pixel of the crop and the crop's own edge add up to the screenshot's.
proof fn lemma_at_screen(
    from: int,
    count: int,
    i: int,
    k: int,
    l: int,
    u: int,
    full: int,
    total: int,
)
    requires
        0 <= k,
        0 < l,
        k + l <= total,
        0 <= full,
        0 <= i,
        0 <= count,
        0 <= u < whole(l),
        is_span((from, count), full, total, k, l),
        i * whole(l) * 0x4_0000_0000_0000 <= u * count * 0x4_0000_0000_0001,
        u * count * 0x4_0000_0000_0000 < (i + 1) * whole(l) * 0x4_0000_0000_0001,
        count <= 0xffff_ffff,
        i < count,
    ensures
        is_at_screen(from + i, k, u, full, total),
{
    let o = exp2(149);
    lemma_exp2_pos(149);
    let wl = l * o;
    let (kf, lf) = (k * full, l * full);
    // The number of pixels is right to one half.
    if !is_nearest_to(count, lf, total) {
        assert(kf + lf <= total * full) by (nonlinear_arith)
            requires
                kf == k * full,
                lf == l * full,
                k + l <= total,
                0 <= full,
        ;
        assert(count * total == full * total - from * total) by (nonlinear_arith)
            requires
                from + count == full,
        ;
        assert(full * total == total * full) by (nonlinear_arith);
    }
    assert(2 * abs(count * total - lf) * 0x4_0000 <= total * 0x4_0001);
    // The pixel of the crop, counted from its edge.
    let uc = u * count;
    let il = i * wl;
    let c = count * total - lf;
    let ut = uc * total;
    assert(ut == (u * full) * l + u * c) by (nonlinear_arith)
        requires
            ut == (u * count) * total,
            c == count * total - l * full,
    ;
    let uf = u * full;
    assert(abs(u * c) * 0x8_0000 <= (wl * total) * 0x4_0001) by (nonlinear_arith)
        requires
            0 <= u < wl,
            2 * abs(c) * 0x4_0000 <= total * 0x4_0001,
    ;
    assert(0 <= uc && uc <= wl * 0xffff_ffff) by (nonlinear_arith)
        requires
            uc == u * count,
            0 <= u < wl,
            0 <= count <= 0xffff_ffff,
    ;
    assert((i + 1) * wl == il + wl) by (nonlinear_arith)
        requires
            il == i * wl,
    ;
    assert(il <= uc + wl) by {
        assert(il * 0x4_0000_0000_0000 <= uc * 0x4_0000_0000_0001);
    }
    assert(0x1_0000 * (il - uc) <= wl);
    assert(il <= wl * 0xffff_ffff) by (nonlinear_arith)
        requires
            il == i * wl,
            0 <= i <= 0xffff_ffff,
            0 <= wl,
    ;
    assert(0x1_0000 * (uc - il - wl) <= wl);
    let e = il - uc;
    let it = i * total;
    assert(it * wl == ut + e * total) by (nonlinear_arith)
        requires
            it == i * total,
            il == i * wl,
            e == il - uc,
            ut == uc * total,
    ;
    let wt = wl * total;
    assert(0x1_0000 * (e * total) <= wt && -0x1_0001 * wt <= 0x1_0000 * (e * total))
        by (nonlinear_arith)
        requires
            0x1_0000 * e <= wl,
            0x1_0000 * (-e - wl) <= wl,
            wt == wl * total,
            0 < total,
    ;
    // Both together, over the length.
    let d = from * total - kf;
    let off = (from + i) * whole(total) - (whole(k) + u) * full;
    let ft = from * total;
    assert((from + i) * (total * o) == (ft + it) * o) by (nonlinear_arith)
        requires
            ft == from * total,
            it == i * total,
    ;
    assert((k * o + u) * full == kf * o + uf) by (nonlinear_arith)
        requires
            kf == k * full,
            uf == u * full,
    ;
    assert((ft + it) * o - kf * o == (d + it) * o) by (nonlinear_arith)
        requires
            d == ft - kf,
    ;
    let sum = d + it;
    assert((sum * o - uf) * l == d * wl + it * wl - uf * l) by (nonlinear_arith)
        requires
            sum == d + it,
            wl == l * o,
    ;
    assert(off == sum * o - uf);
    assert(abs(d * wl) * 0x8_0000 <= wt * 0x4_0001) by (nonlinear_arith)
        requires
            2 * abs(d) * 0x4_0000 <= total * 0x4_0001,
            wt == wl * total,
            0 <= wl,
    ;
    assert(off * l == d * wl + u * c + e * total);
    assert(0 < wt) by (nonlinear_arith)
        requires
            wt == wl * total,
            0 < wl,
            0 < total,
    ;
    assert(-17 * wt <= 8 * (off * l) && 8 * (off * l) <= 9 * wt);
    let t = whole(total);
    assert(-17 * t <= 8 * off <= 9 * t) by (nonlinear_arith)
        requires
            -17 * wt <= 8 * (off * l),
            8 * (off * l) <= 9 * wt,
            wt == (l * o) * total,
            t == total * o,
            0 < l,
    ;
}

/// On any screenshot the colour under a cursor on a cropped output is that of the
/// screenshot's pixel at the cursor.
pub proof fn law_picked_color_is_at_cursor(
    full: RgbaImage,
    layout: Layout,
    geom: Geometry,
    out: CapturedOutput,
    index: int,
    x: Value<false>,
    y: Value<false>,
)
    requires
        is_placed_in(geom, layout),
        is_crop(out, region(layout, geom, full.width(), full.height()), full, index),
        0 < out.width,
        0 < out.height,
        is_on_axis(x, out.logical_width),
        is_on_axis(y, out.logical_height),
    ensures
        exists|px: int, py: int|
            {
                let (width, height) = (
                    layout.max_x - layout.min_x,
                    layout.max_y - layout.min_y,
                );
                &&& is_at_screen(px, geom.pos_x - layout.min_x, x.units(), full.width(), width)
                &&& is_at_screen(py, geom.pos_y - layout.min_y, y.units(), full.height(), height)
                &&& full.has(px, py)
                &&& color_at(out, x, y) == Some(
                    Color {
                        r: (#[trigger] full.rgb(px, py)).0,
                        g: full.rgb(px, py).1,
                        b: full.rgb(px, py).2,
                        a: 255,
                    },
                )
            },
{
    let part = region(layout, geom, full.width(), full.height());
    law_region_shows_output(layout, geom, full.width(), full.height());
    law_pixel_is_at_cursor(x, out.width, out.logical_width);
    law_pixel_is_at_cursor(y, out.height, out.logical_height);
    law_pixel_is_captured(x, out.width, out.logical_width);
    law_pixel_is_captured(y, out.height, out.logical_height);
    let i = buffer_pixel(x, out.width, out.logical_width);
    let j = buffer_pixel(y, out.height, out.logical_height);
    law_crop_holds_its_part(out, part, full, index, i, j);
    lemma_at_screen(
        part.x,
        part.w,
        i,
        geom.pos_x - layout.min_x,
        geom.log_w,
        x.units(),
        full.width(),
        layout.max_x - layout.min_x,
    );
    lemma_at_screen(
        part.y,
        part.h,
        j,
        geom.pos_y - layout.min_y,
        geom.log_h,
        y.units(),
        full.height(),
        layout.max_y - layout.min_y,
    );
    let (px, py) = (part.x + i, part.y + j);
    assert(full.has(px, py));
    assert(color_at(out, x, y) == Some(
        Color { r: full.rgb(px, py).0, g: full.rgb(px, py).1, b: full.rgb(px, py).2, a: 255 },
    ));
}

/// Where no output is known, the whole screenshot stands for one at the origin,
/// with a logical pixel for each pixel.
pub proof fn law_whole_screenshot_stands(out: CapturedOutput, full: RgbaImage)
    requires
        is_whole(out, full),
    ensures
        out.rgba == full,
        out.width == full.width() && out.height == full.height(),
        out.logical_width == full.width() && out.logical_height == full.height(),
        out.pos_x == 0 && out.pos_y == 0,
{
}

} // verus!
