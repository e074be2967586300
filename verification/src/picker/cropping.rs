//! What holds of cropping the screenshot.

use crate::float::Value;
use crate::machine::signed32;
use crate::near::{lemma_double_whole, lemma_steps, one};
use crate::picker::capture::OutputInfo;
use crate::picker::color::double;
use crate::picker::wayland::{
    crop_span, gathered, region, regions, shot_pixels, shot_scale, Geometry, Layout,
};
use crate::rounding::{
    exp2, lemma_error_both, lemma_exp2_add, lemma_exp2_lt, lemma_exp2_pos, lemma_round_error,
    lemma_round_nonnegative, round_bits,
};
use crate::text::{decimal, is_number, law_decimal_reads_back, number};
use vstd::math::abs;
use vstd::prelude::*;

verus! {

/// A part of the screenshot that is not empty lies inside it.
pub proof fn law_region_is_inside(layout: Layout, geom: Geometry, full_w: int, full_h: int)
    requires
        0 <= full_w <= u32::MAX,
        0 <= full_h <= u32::MAX,
    ensures
        ({
            let part = region(layout, geom, full_w, full_h);
            part.w != 0 && part.h != 0 ==> {
                &&& 0 <= part.x && part.x + part.w <= full_w
                &&& 0 <= part.y && part.y + part.h <= full_h
            }
        }),
{
    let (dx, dy) = (signed32(geom.pos_x - layout.min_x), signed32(geom.pos_y - layout.min_y));
    lemma_pixels_nonnegative(dx, full_w, layout.min_x, layout.max_x);
    lemma_pixels_nonnegative(geom.log_w, full_w, layout.min_x, layout.max_x);
    lemma_pixels_nonnegative(dy, full_h, layout.min_y, layout.max_y);
    lemma_pixels_nonnegative(geom.log_h, full_h, layout.min_y, layout.max_y);
}

/// No length comes out negative in screenshot pixels.
proof fn lemma_pixels_nonnegative(k: int, full: int, from: int, to: int)
    requires
        0 <= full <= u32::MAX,
    ensures
        0 <= shot_pixels(k, shot_scale(full, from, to)),
{
    let total = vstd::math::max(signed32(to - from), 1);
    let scale = shot_scale(full, from, to);
    let o = one();
    lemma_steps();
    lemma_exp2_pos(1074);
    lemma_double_whole(full);
    lemma_double_whole(total);
    lemma_product_nonnegative(full * o, o);
    lemma_product_nonnegative(total, o);
    assert(0 < total * o) by (nonlinear_arith)
        requires
            0 < total,
            1 <= o,
    ;
    lemma_round_nonnegative(53, (full * o) * o, total * o);
    let size = abs(k) as int;
    lemma_product_nonnegative(size, o);
    assert(-k * o == (-k) * o) by (nonlinear_arith);
    lemma_round_nonnegative(53, size * o, 1);
    let value = double(k);
    if value is Finite && scale is Finite {
        lemma_product_nonnegative(value->Finite_mag, scale->Finite_mag);
        let n = value->Finite_mag * scale->Finite_mag;
        lemma_round_nonnegative(53, n, o);
        let r = round_bits(53, n, o);
        vstd::arithmetic::div_mod::lemma_div_pos_is_pos(2 * r + o, 2 * o);
    }
}

proof fn lemma_product_nonnegative(a: int, b: int)
    requires
        0 <= a,
        0 <= b,
    ensures
        0 <= a * b,
{
    assert(0 <= a * b) by (nonlinear_arith)
        requires
            0 <= a,
            0 <= b,
    ;
}

/// How far the two roundings of a scaled length lead, in units.
proof fn lemma_scaled_error(k: int, full: int, total: int, q: int, r: int, o: int, p: int)
    requires
        0 <= k <= 0x7fff_ffff,
        0 <= full,
        0 < total <= 0x7fff_ffff,
        0 <= q,
        p == 0x20_0000_0000_0000,
        0x1_0000_0000_0000_0000 * 0x10_0000_0000_0000 <= o,
        abs(q * total - full * o) * p <= full * o + total * p,
        abs(r - k * q) * p <= k * q + p,
    ensures
        abs(r * total - k * full * o) * p <= 3 * (k * full * o) + o,
{
    let w = full * o;
    let e1 = abs(q * total - w) as int;
    let e2 = abs(r - k * q) as int;
    let x = k * (q * total);
    let y = k * w;
    let kt = k * total;
    assert(0 <= w && 0 <= y && 0 <= x && 0 <= kt) by (nonlinear_arith)
        requires
            w == full * o,
            y == k * w,
            x == k * (q * total),
            kt == k * total,
            0 <= full,
            0 <= o,
            0 <= k,
            0 <= q,
            0 < total,
    ;
    assert(k * full * o == y) by (nonlinear_arith)
        requires
            y == k * w,
            w == full * o,
    ;
    let off = abs(r * total - y) as int;
    assert(off <= e2 * total + k * e1) by (nonlinear_arith)
        requires
            off == abs(r * total - y),
            y == k * w,
            e1 == abs(q * total - w),
            e2 == abs(r - k * q),
            0 < total,
            0 <= k,
    ;
    assert((e2 * total) * p <= x + total * p) by (nonlinear_arith)
        requires
            e2 * p <= k * q + p,
            x == k * (q * total),
            0 < total,
    ;
    assert((k * e1) * p <= y + kt * p) by (nonlinear_arith)
        requires
            e1 * p <= w + total * p,
            y == k * w,
            kt == k * total,
            0 <= k,
    ;
    assert(off * p <= (e2 * total) * p + (k * e1) * p) by (nonlinear_arith)
        requires
            off <= e2 * total + k * e1,
            0 <= p,
    ;
    // The scaled length itself is off by the first rounding.
    assert(x <= y + k * e1) by (nonlinear_arith)
        requires
            x == k * (q * total),
            y == k * w,
            e1 == abs(q * total - w),
            0 <= k,
    ;
    assert(k * e1 <= y + kt) by (nonlinear_arith)
        requires
            (k * e1) * p <= y + kt * p,
            0 <= y,
            1 <= p,
    ;
    assert(kt <= 0x7fff_ffff * 0x7fff_ffff) by (nonlinear_arith)
        requires
            kt == k * total,
            0 <= k <= 0x7fff_ffff,
            0 < total <= 0x7fff_ffff,
    ;
}

/// A length scaled by a rounded fraction and rounded to a whole number is the
/// whole number nearest to the exact one, up to what the roundings lose.
proof fn lemma_scaled_nearest(k: int, full: int, total: int)
    requires
        0 <= k <= total,
        0 <= full <= u32::MAX,
        0 < total <= i32::MAX,
    ensures
        double(full).over(double(total)) is Finite,
        ({
            let x = double(k).times(double(full).over(double(total))).nearest();
            &&& 0 <= x <= full
            &&& 2 * abs(x * total - k * full) * 0x20_0000_0000_0000 <= total
                * 0x20_0000_0000_0000 + 6 * (k * full) + 2
        }),
{
    let o = one();
    let p = exp2(53);
    lemma_steps();
    lemma_exp2_pos(53);
    lemma_exp2_pos(1074);
    lemma_double_whole(full);
    lemma_double_whole(total);
    lemma_double_whole(k);
    vstd::arithmetic::power2::lemma2_to64();
    vstd::arithmetic::power2::lemma2_to64_rest();
    assert(p == 0x20_0000_0000_0000);
    // One is far above what the errors add up to.
    lemma_exp2_add(116, 958);
    lemma_exp2_add(64, 52);
    assert(exp2(64) == 0x1_0000_0000_0000_0000);
    assert(exp2(52) == 0x10_0000_0000_0000);
    lemma_exp2_pos(958);
    assert(o >= 0x1_0000_0000_0000_0000 * 0x10_0000_0000_0000) by (nonlinear_arith)
        requires
            o == exp2(116) * exp2(958),
            exp2(116) == 0x1_0000_0000_0000_0000 * 0x10_0000_0000_0000,
            1 <= exp2(958),
    ;
    // The scale.
    let n = (full * o) * o;
    let d = total * o;
    assert(0 < d && 0 <= n) by (nonlinear_arith)
        requires
            n == (full * o) * o,
            d == total * o,
            0 <= full,
            1 <= total,
            1 <= o,
    ;
    let q = round_bits(53, n, d);
    lemma_round_error(53, n, d);
    lemma_error_both(q, n, d, p);
    lemma_round_nonnegative(53, n, d);
    let want = full * o;
    assert(abs(q * total - want) * p <= want + total * p) by (nonlinear_arith)
        requires
            abs(q * d - n) * p <= n + d * p,
            n == want * o,
            d == total * o,
            1 <= o,
            1 <= p,
    ;
    assert(0 <= want <= 0xffff_ffff * o) by (nonlinear_arith)
        requires
            want == full * o,
            0 <= full <= 0xffff_ffff,
            1 <= o,
    ;
    assert(q * total <= 0x2_0000_0000 * o) by (nonlinear_arith)
        requires
            abs(q * total - want) * p <= want + total * p,
            0 <= want <= 0xffff_ffff * o,
            total <= 0x7fff_ffff,
            p == 0x20_0000_0000_0000,
            o >= 0x1_0000_0000_0000_0000 * 0x10_0000_0000_0000,
    ;
    assert(q <= q * total && k * q <= q * total && 0 <= k * q) by (nonlinear_arith)
        requires
            0 <= q,
            1 <= total,
            0 <= k <= total,
    ;
    lemma_exp2_add(34, 1074);
    lemma_exp2_lt(1108, 2098);
    assert(exp2(34) == 0x4_0000_0000);
    // The product, rounded once more.
    let exact = k * q;
    let top = (k * o) * q;
    assert(top == exact * o) by (nonlinear_arith)
        requires
            top == (k * o) * q,
            exact == k * q,
    ;
    lemma_product_nonnegative(exact, o);
    let r = round_bits(53, top, o);
    lemma_round_error(53, top, o);
    lemma_error_both(r, top, o, p);
    lemma_round_nonnegative(53, top, o);
    assert(abs(r - exact) * p <= exact + p) by (nonlinear_arith)
        requires
            abs(r * o - top) * p <= top + o * p,
            top == exact * o,
            1 <= o,
            1 <= p,
    ;
    assert(r < 0x4_0000_0000 * o) by (nonlinear_arith)
        requires
            abs(r - exact) * p <= exact + p,
            0 <= exact <= 0x2_0000_0000 * o,
            p == 0x20_0000_0000_0000,
            o >= 0x1_0000_0000_0000_0000 * 0x10_0000_0000_0000,
    ;
    lemma_scaled_error(k, full, total, q, r, o, p);
    // The nearest whole number.
    let x = (2 * r + o) / (2 * o);
    let rest = (2 * r + o) % (2 * o);
    vstd::arithmetic::div_mod::lemma_fundamental_div_mod(2 * r + o, 2 * o);
    vstd::arithmetic::div_mod::lemma_div_pos_is_pos(2 * r + o, 2 * o);
    let kf = k * full;
    lemma_product_nonnegative(k, full);
    assert(abs(2 * r - 2 * (x * o)) <= o) by (nonlinear_arith)
        requires
            2 * r + o == (2 * o) * x + rest,
            0 <= rest < 2 * o,
    ;
    lemma_whole_error(x, r, kf, total, o, p);
    assert(kf <= total * full) by (nonlinear_arith)
        requires
            kf == k * full,
            0 <= k <= total,
            0 <= full,
    ;
    assert(x <= full) by (nonlinear_arith)
        requires
            2 * abs(x * total - kf) * p <= total * p + 6 * kf + 2,
            kf <= total * full,
            0 <= full <= 0xffff_ffff,
            1 <= total,
            p == 0x20_0000_0000_0000,
    ;
}

/// The error of a whole number near a count of units.
proof fn lemma_whole_error(x: int, r: int, kf: int, total: int, o: int, p: int)
    requires
        0 < total,
        1 <= o,
        1 <= p,
        abs(2 * r - 2 * (x * o)) <= o,
        abs(r * total - kf * o) * p <= 3 * (kf * o) + o,
    ensures
        2 * abs(x * total - kf) * p <= total * p + 6 * kf + 2,
{
    let y = abs(x * total - kf) as int;
    let off = abs(r * total - kf * o) as int;
    assert(2 * (y * o) <= o * total + 2 * off) by (nonlinear_arith)
        requires
            y == abs(x * total - kf),
            off == abs(r * total - kf * o),
            abs(2 * r - 2 * (x * o)) <= o,
            0 < total,
            1 <= o,
    ;
    assert(2 * (y * o) * p <= (o * total) * p + 2 * (off * p)) by (nonlinear_arith)
        requires
            2 * (y * o) <= o * total + 2 * off,
            1 <= p,
    ;
    assert(2 * y * p <= total * p + 6 * kf + 2) by (nonlinear_arith)
        requires
            2 * (y * o) * p <= (o * total) * p + 2 * (off * p),
            off * p <= 3 * (kf * o) + o,
            1 <= o,
    ;
}

/// Multiplying a fraction's rounding by its denominator comes back to its
/// numerator.
proof fn lemma_back_to_full(full: int, total: int)
    requires
        0 <= full <= u32::MAX,
        0 < total <= i32::MAX,
    ensures
        double(full).over(double(total)) is Finite,
        double(total).times(double(full).over(double(total))).nearest() == full,
{
    lemma_scaled_nearest(total, full, total);
    let x = double(total).times(double(full).over(double(total))).nearest();
    assert(x == full) by (nonlinear_arith)
        requires
            2 * abs(x * total - total * full) * 0x20_0000_0000_0000 <= total
                * 0x20_0000_0000_0000 + 6 * (total * full) + 2,
            0 <= full <= 0xffff_ffff,
            1 <= total,
    ;
}

/// Whether a whole number is the one nearest to the fraction `n / d`. Half-way
/// between two whole numbers, one part in 2^18 is left open.
pub open spec fn is_nearest_to(x: int, n: int, d: int) -> bool {
    2 * abs(x * d - n) * 0x4_0000 <= d * 0x4_0001
}

/// Whether an output begins at the right pixel along one axis of a screenshot,
/// and has the right number of pixels: with `full` pixels for `total` logical
/// ones, those nearest to its scaled distance and length, as far as the
/// screenshot goes.
pub open spec fn is_span(
    span: (int, int),
    full: int,
    total: int,
    distance: int,
    length: int,
) -> bool {
    let (from, count) = span;
    &&& 0 <= from && 0 <= count && from + count <= full
    &&& is_nearest_to(from, distance * full, total)
    &&& is_nearest_to(count, length * full, total) || (from + count == full && count * total
        <= length * full)
}

/// A bound of two roundings is one part in 2^18 of a pixel.
proof fn lemma_nearest_to(x: int, k: int, full: int, total: int)
    requires
        0 <= k <= total,
        0 <= full <= u32::MAX,
        0 < total,
        2 * abs(x * total - k * full) * 0x20_0000_0000_0000 <= total * 0x20_0000_0000_0000 + 6 * (k
            * full) + 2,
    ensures
        is_nearest_to(x, k * full, total),
        total * full < 0x4_0000_0000_0000 ==> 2 * abs(x * total - k * full) <= total,
{
    let kf = k * full;
    let y = abs(x * total - kf) as int;
    assert(kf <= total * full && total * full <= total * 0xffff_ffff) by (nonlinear_arith)
        requires
            kf == k * full,
            0 <= k <= total,
            0 <= full <= 0xffff_ffff,
    ;
}

/// Each output is cropped where it is, at any scale: an output inside the area
/// begins at the pixel nearest to its scaled position, and has the number of
/// pixels nearest to its scaled length, cut at the screenshot's edge.
pub proof fn law_span_is_nearest(full: int, min: int, max: int, pos: int, length: int)
    requires
        0 <= full <= u32::MAX,
        i32::MIN <= min < max <= i32::MAX,
        max - min <= i32::MAX,
        min <= pos,
        0 <= length,
        pos + length <= max,
    ensures
        is_span(crop_span(full, min, max, pos, length), full, max - min, pos - min, length),
        full * (max - min) < 0x4_0000_0000_0000 ==> 2 * abs(
            crop_span(full, min, max, pos, length).0 * (max - min) - (pos - min) * full,
        ) <= max - min,
{
    let total = max - min;
    let k = pos - min;
    assert(signed32(total) == total);
    assert(signed32(k) == k);
    lemma_scaled_nearest(k, full, total);
    lemma_scaled_nearest(length, full, total);
    let scale = shot_scale(full, min, max);
    let from = shot_pixels(k, scale);
    let count = shot_pixels(length, scale);
    lemma_nearest_to(from, k, full, total);
    lemma_nearest_to(count, length, full, total);
    assert(full * total == total * full) by (nonlinear_arith);
    if full - from < count {
        lemma_cut_span(from, count, k, length, full, total);
    }
}

/// What is cut off at the screenshot's edge is less than a pixel too much.
proof fn lemma_cut_span(from: int, count: int, k: int, length: int, full: int, total: int)
    requires
        0 < total,
        0 <= full,
        0 <= k,
        0 <= length,
        k + length <= total,
        is_nearest_to(from, k * full, total),
        is_nearest_to(count, length * full, total),
        full - from < count,
    ensures
        is_nearest_to(full - from, length * full, total) || (full - from) * total <= length * full,
{
    let (kf, lf) = (k * full, length * full);
    let rest = full - from;
    assert(kf + lf <= total * full) by (nonlinear_arith)
        requires
            kf == k * full,
            lf == length * full,
            k + length <= total,
            0 <= full,
    ;
    assert(rest * total == full * total - from * total) by (nonlinear_arith)
        requires
            rest == full - from,
    ;
    assert(full * total == total * full) by (nonlinear_arith);
    assert(rest * total <= count * total) by (nonlinear_arith)
        requires
            rest < count,
            0 < total,
    ;
}

/// The crops of adjacent outputs meet, to one pixel.
pub proof fn law_spans_meet(
    full: int,
    min: int,
    max: int,
    pos: int,
    length: int,
    next_length: int,
)
    requires
        0 <= full <= u32::MAX,
        i32::MIN <= min < max <= i32::MAX,
        max - min <= i32::MAX,
        min <= pos,
        0 <= length,
        0 <= next_length,
        pos + length + next_length <= max,
    ensures
        ({
            let (a, w) = crop_span(full, min, max, pos, length);
            let (b, _) = crop_span(full, min, max, pos + length, next_length);
            -1 <= b - (a + w) <= 1
        }),
{
    let total = max - min;
    let (k, l) = (pos - min, length);
    law_span_is_nearest(full, min, max, pos, length);
    law_span_is_nearest(full, min, max, pos + length, next_length);
    let (a, w) = crop_span(full, min, max, pos, length);
    let (b, _) = crop_span(full, min, max, pos + length, next_length);
    let (kf, lf) = (k * full, l * full);
    assert((pos + length - min) * full == kf + lf) by (nonlinear_arith)
        requires
            kf == (pos - min) * full,
            lf == length * full,
    ;
    let gap = b - (a + w);
    assert(gap * total == b * total - a * total - w * total) by (nonlinear_arith)
        requires
            gap == b - (a + w),
    ;
    if is_nearest_to(w, lf, total) {
        assert(-1 <= gap <= 1) by (nonlinear_arith)
            requires
                abs(gap * total) * 0x8_0000 <= 3 * total * 0x4_0001,
                0 < total,
        ;
    } else {
        // The crop goes to the edge, so that the next one does not begin after.
        assert(-1 <= gap) by (nonlinear_arith)
            requires
                -2 * (gap * total) * 0x4_0000 <= 2 * total * 0x4_0001,
                0 < total,
        ;
    }
}

/// The part of the screenshot for an output is right on both axes.
pub proof fn law_region_shows_output(layout: Layout, geom: Geometry, full_w: int, full_h: int)
    requires
        0 <= full_w <= u32::MAX,
        0 <= full_h <= u32::MAX,
        i32::MIN <= layout.min_x <= geom.pos_x,
        geom.pos_x + geom.log_w <= layout.max_x <= i32::MAX,
        i32::MIN <= layout.min_y <= geom.pos_y,
        geom.pos_y + geom.log_h <= layout.max_y <= i32::MAX,
        0 < layout.max_x - layout.min_x <= i32::MAX,
        0 < layout.max_y - layout.min_y <= i32::MAX,
        0 <= geom.log_w,
        0 <= geom.log_h,
    ensures
        ({
            let part = region(layout, geom, full_w, full_h);
            &&& part.geom == geom
            &&& is_span(
                (part.x, part.w),
                full_w,
                layout.max_x - layout.min_x,
                geom.pos_x - layout.min_x,
                geom.log_w,
            )
            &&& is_span(
                (part.y, part.h),
                full_h,
                layout.max_y - layout.min_y,
                geom.pos_y - layout.min_y,
                geom.log_h,
            )
        }),
{
    law_span_is_nearest(full_w, layout.min_x, layout.max_x, geom.pos_x, geom.log_w);
    law_span_is_nearest(full_h, layout.min_y, layout.max_y, geom.pos_y, geom.log_h);
}

/// An output that spans the whole desktop along an axis gets all pixels of that
/// axis, whatever the scale.
pub proof fn law_whole_span(full: int, from: int, to: int)
    requires
        0 <= full <= u32::MAX,
        i32::MIN <= from < to <= i32::MAX,
        to - from <= i32::MAX,
    ensures
        crop_span(full, from, to, from, to - from) == (0int, full),
{
    let o = one();
    let total = to - from;
    assert(signed32(total) == total);
    assert(signed32(from - from) == 0);
    lemma_steps();
    lemma_exp2_pos(1074);
    lemma_back_to_full(full, total);
    // A distance of zero is zero pixels.
    lemma_double_whole(0);
    lemma_double_whole(full);
    lemma_double_whole(total);
    let scale = shot_scale(full, from, to);
    let zero = 0 * o;
    let n = zero * scale->Finite_mag;
    assert(n == 0) by (nonlinear_arith)
        requires
            n == (0 * o) * scale->Finite_mag,
    ;
    lemma_round_error(53, 0, o);
    lemma_exp2_pos(53);
    assert(0 < o * exp2(53)) by (nonlinear_arith)
        requires
            1 <= o,
            1 <= exp2(53),
    ;
    let r = round_bits(53, 0, o);
    assert(r == 0) by (nonlinear_arith)
        requires
            2 * abs(r * o - 0) <= o,
            1 <= o,
    ;
    lemma_exp2_pos(2098);
    vstd::arithmetic::div_mod::lemma_fundamental_div_mod_converse(o, 2 * o, 0, o);
}

/// With a whole number of screenshot pixels per logical pixel the outputs are
/// cropped exactly: an output begins where its position says and has all its
/// pixels.
pub proof fn law_whole_scale_span(factor: int, from: int, to: int, pos: int, length: int)
    requires
        0 < factor,
        i32::MIN <= from < to <= i32::MAX,
        to - from <= i32::MAX,
        factor * (to - from) <= u32::MAX,
        from <= pos,
        0 <= length,
        pos + length <= to,
    ensures
        crop_span(factor * (to - from), from, to, pos, length) == (
            factor * (pos - from),
            factor * length,
        ),
{
    let total = to - from;
    let full = factor * total;
    let o = one();
    assert(signed32(total) == total);
    assert(signed32(pos - from) == pos - from);
    lemma_steps();
    lemma_exp2_pos(1074);
    assert(0 <= full && factor <= full) by (nonlinear_arith)
        requires
            full == factor * total,
            0 < factor,
            1 <= total,
    ;
    lemma_double_whole(full);
    lemma_double_whole(total);
    lemma_double_whole(factor);
    // The scale is exact.
    let d = total * o;
    assert((full * o) * o == (factor * o) * d && 0 < d && 0 <= factor * o) by (nonlinear_arith)
        requires
            full == factor * total,
            d == total * o,
            0 < factor,
            1 <= total,
            1 <= o,
    ;
    Value::<true>::lemma_rounded_scale(false, factor * o, 1, d);
    assert(1 * d == d);
    assert(double(factor) == Value::<true>::rounded(false, factor * o, 1));
    let scale = shot_scale(full, from, to);
    assert(scale == double(factor));
    assert(factor * (pos - from) + factor * length <= full) by (nonlinear_arith)
        requires
            full == factor * total,
            (pos - from) + length <= total,
            0 < factor,
    ;
    lemma_product_nonnegative(factor, pos - from);
    lemma_product_nonnegative(factor, length);
    lemma_whole_product(pos - from, factor);
    lemma_whole_product(length, factor);
}

/// Products of whole numbers are exact.
proof fn lemma_whole_product(a: int, b: int)
    requires
        0 <= a <= u32::MAX,
        0 <= b <= u32::MAX,
        b * a <= u32::MAX,
    ensures
        double(a).times(double(b)).nearest() == b * a,
{
    let o = one();
    let c = b * a;
    lemma_steps();
    lemma_exp2_pos(1074);
    lemma_product_nonnegative(b, a);
    lemma_double_whole(a);
    lemma_double_whole(b);
    lemma_double_whole(c);
    assert((a * o) * (b * o) == (c * o) * o) by (nonlinear_arith)
        requires
            c == b * a,
    ;
    Value::<true>::lemma_rounded_scale(false, c * o, 1, o);
    assert(1 * o == o);
    assert(double(c) == Value::<true>::rounded(false, c * o, 1));
    assert(c * (2 * o) == 2 * (c * o)) by (nonlinear_arith);
    vstd::arithmetic::div_mod::lemma_fundamental_div_mod_converse(
        2 * (c * o) + o,
        2 * o,
        c,
        o,
    );
}

/// Whether an output announces a size and lies within what 32 bits can count.
pub open spec fn is_placed(info: OutputInfo) -> bool {
    info.logical_size matches Some((w, h)) && {
        &&& 0 <= w && info.location.0 + w <= i32::MAX
        &&& 0 <= h && info.location.1 + h <= i32::MAX
    }
}

/// The area of a layout holds all its outputs.
pub proof fn law_layout_holds_outputs(outputs: Seq<u64>, infos: Map<u64, OutputInfo>, i: int)
    requires
        forall|k: int|
            0 <= k < outputs.len() && infos.dom().contains(outputs[k]) ==> is_placed(
                infos[#[trigger] outputs[k]],
            ),
        0 <= i < gathered(outputs, infos).geoms.len(),
    ensures
        ({
            let layout = gathered(outputs, infos);
            let geom = layout.geoms[i];
            &&& layout.min_x <= geom.pos_x && geom.pos_x + geom.log_w <= layout.max_x
            &&& layout.min_y <= geom.pos_y && geom.pos_y + geom.log_h <= layout.max_y
        }),
    decreases outputs.len(),
{
    if outputs.len() > 0 {
        let front = outputs.drop_last();
        assert forall|k: int| 0 <= k < front.len() && infos.dom().contains(front[k]) implies
            is_placed(infos[#[trigger] front[k]]) by {
            assert(front[k] == outputs[k]);
        }
        if i < gathered(front, infos).geoms.len() {
            law_layout_holds_outputs(front, infos, i);
        }
        if infos.dom().contains(outputs.last()) {
            let info = infos[outputs[outputs.len() - 1]];
            assert(is_placed(info));
            let (w, h) = info.logical_size->0;
            assert(signed32(info.location.0 + w) == info.location.0 + w);
            assert(signed32(info.location.1 + h) == info.location.1 + h);
        }
    }
}

/// The area of a layout goes no further than its outputs: each of its four sides
/// is the side of one of them.
pub proof fn law_layout_is_tight(outputs: Seq<u64>, infos: Map<u64, OutputInfo>)
    requires
        forall|k: int|
            0 <= k < outputs.len() && infos.dom().contains(outputs[k]) ==> is_placed(
                infos[#[trigger] outputs[k]],
            ),
        gathered(outputs, infos).geoms.len() > 0,
    ensures
        ({
            let layout = gathered(outputs, infos);
            let geoms = layout.geoms;
            &&& exists|i: int| 0 <= i < geoms.len() && (#[trigger] geoms[i]).pos_x == layout.min_x
            &&& exists|i: int| 0 <= i < geoms.len() && (#[trigger] geoms[i]).pos_y == layout.min_y
            &&& exists|i: int|
                0 <= i < geoms.len() && (#[trigger] geoms[i]).pos_x + geoms[i].log_w
                    == layout.max_x
            &&& exists|i: int|
                0 <= i < geoms.len() && (#[trigger] geoms[i]).pos_y + geoms[i].log_h
                    == layout.max_y
        }),
    decreases outputs.len(),
{
    let front = outputs.drop_last();
    let before = gathered(front, infos);
    let layout = gathered(outputs, infos);
    assert forall|k: int| 0 <= k < front.len() && infos.dom().contains(front[k]) implies is_placed(
        infos[#[trigger] front[k]],
    ) by {
        assert(front[k] == outputs[k]);
    }
    if before.geoms.len() > 0 {
        law_layout_is_tight(front, infos);
    }
    if infos.dom().contains(outputs.last()) {
        let info = infos[outputs[outputs.len() - 1]];
        assert(is_placed(info));
        let (w, h) = info.logical_size->0;
        assert(signed32(info.location.0 + w) == info.location.0 + w);
        assert(signed32(info.location.1 + h) == info.location.1 + h);
        let last = layout.geoms.len() - 1;
        assert(layout.geoms[last].pos_x == info.location.0);
        if before.geoms.len() > 0 {
            let a = choose|i: int|
                0 <= i < before.geoms.len() && (#[trigger] before.geoms[i]).pos_x == before.min_x;
            let b = choose|i: int|
                0 <= i < before.geoms.len() && (#[trigger] before.geoms[i]).pos_y == before.min_y;
            let c = choose|i: int|
                0 <= i < before.geoms.len() && (#[trigger] before.geoms[i]).pos_x
                    + before.geoms[i].log_w == before.max_x;
            let d = choose|i: int|
                0 <= i < before.geoms.len() && (#[trigger] before.geoms[i]).pos_y
                    + before.geoms[i].log_h == before.max_y;
            assert(layout.geoms[a] == before.geoms[a]);
            assert(layout.geoms[b] == before.geoms[b]);
            assert(layout.geoms[c] == before.geoms[c]);
            assert(layout.geoms[d] == before.geoms[d]);
        } else {
            lemma_no_outputs(front, infos);
        }
    }
}

/// A layout without outputs has no area.
proof fn lemma_no_outputs(outputs: Seq<u64>, infos: Map<u64, OutputInfo>)
    requires
        gathered(outputs, infos).geoms.len() == 0,
    ensures
        gathered(outputs, infos).min_x == i32::MAX,
        gathered(outputs, infos).min_y == i32::MAX,
        gathered(outputs, infos).max_x == i32::MIN,
        gathered(outputs, infos).max_y == i32::MIN,
    decreases outputs.len(),
{
    if outputs.len() > 0 {
        lemma_no_outputs(outputs.drop_last(), infos);
    }
}

/// A layout lists the outputs in order, each under its name and with the
/// rectangle that was announced for it. One without a name gets its place for
/// one, and one without a size a guess.
pub proof fn law_layout_lists_outputs(outputs: Seq<u64>, infos: Map<u64, OutputInfo>, i: int)
    requires
        forall|k: int| 0 <= k < outputs.len() ==> infos.dom().contains(#[trigger] outputs[k]),
        0 <= i < outputs.len(),
    ensures
        ({
            let geoms = gathered(outputs, infos).geoms;
            let info = infos[outputs[i]];
            &&& geoms.len() == outputs.len()
            &&& geoms[i].pos_x == info.location.0
            &&& geoms[i].pos_y == info.location.1
            &&& info.name matches Some(name) ==> geoms[i].name == name@
            &&& info.name is None ==> geoms[i].name.len() > 8 && geoms[i].name.take(8)
                == "monitor-"@ && number(geoms[i].name.skip(8), 10) == i && is_number(
                geoms[i].name.skip(8),
                10,
            )
            &&& info.logical_size is None && 0 <= info.location.0 + 1920 <= i32::MAX
                ==> geoms[i].log_w == info.location.0 + 1920
            &&& info.logical_size is None && 0 <= info.location.1 + 1080 <= i32::MAX
                ==> geoms[i].log_h == info.location.1 + 1080
            &&& info.logical_size matches Some((w, h)) ==> {
                &&& 0 <= w ==> geoms[i].log_w == w
                &&& 0 <= h ==> geoms[i].log_h == h
            }
        }),
    decreases outputs.len(),
{
    let front = outputs.drop_last();
    lemma_layout_length(outputs, infos);
    if i < front.len() {
        assert forall|k: int| 0 <= k < front.len() implies infos.dom().contains(
            #[trigger] front[k],
        ) by {
            assert(front[k] == outputs[k]);
        }
        law_layout_lists_outputs(front, infos, i);
        assert(front[i] == outputs[i]);
        assert(infos.dom().contains(outputs[outputs.len() - 1]));
    } else {
        assert(infos.dom().contains(outputs[i]));
        assert forall|k: int| 0 <= k < front.len() implies infos.dom().contains(
            #[trigger] front[k],
        ) by {
            assert(front[k] == outputs[k]);
        }
        lemma_layout_length(front, infos);
        reveal_strlit("monitor-");
        law_decimal_reads_back(i);
        let name = "monitor-"@ + decimal(i);
        assert(name.take(8) =~= "monitor-"@);
        assert(name.skip(8) =~= decimal(i));
        let info = infos[outputs[i]];
        if 0 <= info.location.0 + 1920 <= i32::MAX {
            assert(signed32(info.location.0 + 1920) == info.location.0 + 1920);
        }
        if 0 <= info.location.1 + 1080 <= i32::MAX {
            assert(signed32(info.location.1 + 1080) == info.location.1 + 1080);
        }
    }
}

/// A layout has an entry for each known output.
proof fn lemma_layout_length(outputs: Seq<u64>, infos: Map<u64, OutputInfo>)
    requires
        forall|k: int| 0 <= k < outputs.len() ==> infos.dom().contains(#[trigger] outputs[k]),
    ensures
        gathered(outputs, infos).geoms.len() == outputs.len(),
    decreases outputs.len(),
{
    if outputs.len() > 0 {
        let front = outputs.drop_last();
        assert forall|k: int| 0 <= k < front.len() implies infos.dom().contains(
            #[trigger] front[k],
        ) by {
            assert(front[k] == outputs[k]);
        }
        lemma_layout_length(front, infos);
        assert(infos.dom().contains(outputs[outputs.len() - 1]));
    }
}

/// Every output with pixels in the screenshot is cropped.
pub proof fn law_every_output_is_cropped(
    layout: Layout,
    n: int,
    full_w: int,
    full_h: int,
    k: int,
)
    requires
        0 <= k < n <= layout.geoms.len(),
        region(layout, layout.geoms[k], full_w, full_h).w != 0,
        region(layout, layout.geoms[k], full_w, full_h).h != 0,
    ensures
        regions(layout, n, full_w, full_h).contains(
            region(layout, layout.geoms[k], full_w, full_h),
        ),
    decreases n,
{
    let before = regions(layout, n - 1, full_w, full_h);
    let all = regions(layout, n, full_w, full_h);
    let own = region(layout, layout.geoms[k], full_w, full_h);
    if k < n - 1 {
        law_every_output_is_cropped(layout, n - 1, full_w, full_h, k);
        assert(all[before.index_of(own)] == own);
    } else {
        assert(all.last() == own);
    }
}

/// A crop is the part of an output, and is not empty.
pub proof fn law_only_outputs_are_cropped(
    layout: Layout,
    n: int,
    full_w: int,
    full_h: int,
    j: int,
)
    requires
        0 <= n <= layout.geoms.len(),
        0 <= j < regions(layout, n, full_w, full_h).len(),
    ensures
        ({
            let part = regions(layout, n, full_w, full_h)[j];
            &&& part.w != 0 && part.h != 0
            &&& layout.geoms.contains(part.geom)
            &&& part == region(layout, part.geom, full_w, full_h)
        }),
    decreases n,
{
    let before = regions(layout, n - 1, full_w, full_h);
    if n > 0 {
        if j < before.len() {
            law_only_outputs_are_cropped(layout, n - 1, full_w, full_h, j);
        } else {
            assert(layout.geoms.contains(layout.geoms[n - 1]));
        }
    }
}

/// Where all outputs have pixels in the screenshot, the crops come in the order of
/// the outputs.
pub proof fn law_crops_keep_order(layout: Layout, n: int, full_w: int, full_h: int, k: int)
    requires
        0 <= k < n <= layout.geoms.len(),
        forall|i: int|
            0 <= i < n ==> region(layout, #[trigger] layout.geoms[i], full_w, full_h).w != 0
                && region(layout, layout.geoms[i], full_w, full_h).h != 0,
    ensures
        regions(layout, n, full_w, full_h).len() == n,
        regions(layout, n, full_w, full_h)[k] == region(layout, layout.geoms[k], full_w, full_h),
    decreases n,
{
    let last = layout.geoms[n - 1];
    assert(region(layout, last, full_w, full_h).w != 0);
    if n > 1 {
        let i = if k < n - 1 {
            k
        } else {
            0
        };
        law_crops_keep_order(layout, n - 1, full_w, full_h, i);
    } else {
        assert(regions(layout, 0, full_w, full_h).len() == 0);
    }
}

} // verus!
