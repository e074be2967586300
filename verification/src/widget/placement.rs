//! Where the magnifier lens goes on an overlay.

use crate::float::{Single, Value};
use crate::order::{
    is_finite, law_sum_stays_between, lemma_single_exact, lemma_sum_error, lemma_whole,
    lemma_whole_add, lemma_whole_floor, lemma_whole_order, whole,
};
use crate::rounding::{exp2, lemma_exp2_pos};
use crate::widget::magnifier::{single, GRID_SIZE, MAX_ZOOM, MIN_ZOOM};
use vstd::math::{abs, max};
use vstd::prelude::*;

verus! {

/// Where the lens goes on an overlay: its top-left corner and its side, in
/// logical pixels.
#[derive(Debug, Clone, Copy)]
pub struct Placement {
    pub x: Single,
    pub y: Single,
    pub total: Single,
}

/// The side of the lens.
pub open spec fn lens_side(zoom: int) -> Value<false> {
    single(GRID_SIZE as int).times(single(zoom))
}

/// The left edge of the lens: right of the cursor, or left of it where it would
/// come too near to the right edge of the output, and kept inside the output.
pub open spec fn lens_x(cursor: Value<false>, total: Value<false>, width: int) -> Value<false> {
    let margin = single(8);
    let right = cursor.plus(single(12));
    let beside = if single(width).minus(margin).below(right.plus(total)) {
        cursor.minus(total).minus(single(12))
    } else {
        right
    };
    beside.larger(margin).smaller(single(width).minus(total).minus(margin).larger(margin))
}

/// The top edge of the lens: above the cursor, or below it where it would come
/// too near to the top edge of the output, and kept inside the output.
pub open spec fn lens_y(cursor: Value<false>, total: Value<false>, height: int) -> Value<false> {
    let margin = single(8);
    let above = cursor.plus(total.plus(single(12)).negated());
    let beside = if above.below(margin) {
        cursor.plus(single(14))
    } else {
        above
    };
    beside.larger(margin).smaller(single(height).minus(total).minus(margin).larger(margin))
}

/// Places the lens near the cursor.
///
/// The magnifier is placed above-right of the cursor so it never hides the
/// sampled pixel.  Near screen edges it flips sides.
pub fn place_lens(cursor: (Single, Single), width: u32, height: u32, zoom: u32) -> (r: Placement)
    ensures
        r.total@ == lens_side(zoom as int),
        r.x@ == lens_x(cursor.0@, lens_side(zoom as int), width as int),
        r.y@ == lens_y(cursor.1@, lens_side(zoom as int), height as int),
{
    let total = Single::from_usize(GRID_SIZE).times(Single::from_u32(zoom));
    let (cur_x, cur_y) = cursor;
    let offset = Single::from_u32(12);
    let margin = Single::from_u32(8);
    let ow = Single::from_u32(width);
    let oh = Single::from_u32(height);

    let mut x = cur_x.plus(offset);
    let mut y = cur_y.plus(total.plus(offset).negated());
    // Flip horizontally if the lens overflows the right edge.
    if ow.minus(margin).below(x.plus(total)) {
        x = cur_x.minus(total).minus(offset);
    }
    // Flip vertically if the lens overflows the top edge.
    if y.below(margin) {
        y = cur_y.plus(Single::from_u32(14));
    }
    // Final clamping to stay within overlay bounds.
    x = x.larger(margin).smaller(ow.minus(total).minus(margin).larger(margin));
    y = y.larger(margin).smaller(oh.minus(total).minus(margin).larger(margin));
    Placement { x, y, total }
}

/// The side of the lens is a whole number.
proof fn lemma_lens_side(zoom: int)
    requires
        MIN_ZOOM <= zoom <= MAX_ZOOM,
    ensures
        lens_side(zoom) == single(17 * zoom),
        is_finite(lens_side(zoom)),
        lens_side(zoom).units() == whole(17 * zoom),
{
    let o = exp2(149);
    lemma_whole(17);
    lemma_whole(zoom);
    lemma_whole(17 * zoom);
    lemma_exp2_pos(149);
    let n = whole(17 * zoom);
    assert((17 * o) * (zoom * o) == n * o) by (nonlinear_arith)
        requires
            n == (17 * zoom) * o,
    ;
    assert(0 <= n) by (nonlinear_arith)
        requires
            n == (17 * zoom) * o,
            0 <= zoom,
            1 <= o,
    ;
    Value::<false>::lemma_rounded_scale(false, n, 1, o);
    assert(1 * o == o);
    lemma_single_exact(n, false);
}

/// Sums of whole numbers up to 2^24 are exact.
proof fn lemma_whole_sum(a: int, b: int)
    requires
        -0x100_0000 <= a <= 0x100_0000,
        -0x100_0000 <= b <= 0x100_0000,
        -0x100_0000 <= a + b <= 0x100_0000,
    ensures
        single(a).plus(single(b)).units() == whole(a + b),
        is_finite(single(a).plus(single(b))),
        single(a).minus(single(-b)).units() == whole(a + b),
        is_finite(single(a).minus(single(-b))),
{
    let o = exp2(149);
    lemma_whole(a);
    lemma_whole(b);
    lemma_whole(-b);
    lemma_whole(a + b);
    assert(whole(a) + whole(b) == whole(a + b)) by (nonlinear_arith)
        requires
            whole(a) == a * o,
            whole(b) == b * o,
            whole(a + b) == (a + b) * o,
    ;
    assert(whole(-b) == -whole(b)) by (nonlinear_arith)
        requires
            whole(-b) == (-b) * o,
            whole(b) == b * o,
    ;
    law_sum_stays_between(single(a), single(b), whole(a + b), whole(a + b));
    let other = single(-b).negated();
    assert(other.units() == whole(b));
    law_sum_stays_between(single(a), other, whole(a + b), whole(a + b));
}

/// How far the lens may go along one axis of an output.
proof fn lemma_lens_bound(zoom: int, size: int)
    requires
        MIN_ZOOM <= zoom <= MAX_ZOOM,
        0 <= size <= 0x100_0000,
    ensures
        ({
            let bound = single(size).minus(lens_side(zoom)).minus(single(8));
            is_finite(bound) && bound.units() == whole(size - 17 * zoom - 8)
        }),
{
    let t = 17 * zoom;
    let o = exp2(149);
    lemma_lens_side(zoom);
    lemma_whole_sum(size, -t);
    let rest = single(size).minus(single(t));
    lemma_whole(8);
    lemma_whole(size - t - 8);
    lemma_whole(size - t);
    let other = single(8).negated();
    assert(whole(size - t) - whole(8) == whole(size - t - 8)) by (nonlinear_arith)
        requires
            whole(size - t) == (size - t) * o,
            whole(8) == 8 * o,
            whole(size - t - 8) == (size - t - 8) * o,
    ;
    assert(-t == -1 * t);
    assert(single(size).minus(single(-(-t))) == rest);
    law_sum_stays_between(rest, other, whole(size - t - 8), whole(size - t - 8));
}

/// The lens stays inside the margins of an output that is large enough for it,
/// wherever the cursor is; on a smaller one it begins at the margin.
pub proof fn law_lens_is_inside(cursor: Value<false>, zoom: int, size: int)
    requires
        MIN_ZOOM <= zoom <= MAX_ZOOM,
        0 <= size <= 0x100_0000,
    ensures
        ({
            let x = lens_x(cursor, lens_side(zoom), size);
            let y = lens_y(cursor, lens_side(zoom), size);
            let t = 17 * zoom;
            if t + 16 <= size {
                &&& whole(8) <= x.units() && x.units() + whole(t) <= whole(size - 8)
                &&& whole(8) <= y.units() && y.units() + whole(t) <= whole(size - 8)
            } else {
                x.units() == whole(8) && y.units() == whole(8)
            }
        }),
{
    let t = 17 * zoom;
    let o = exp2(149);
    lemma_exp2_pos(149);
    lemma_whole(8);
    lemma_lens_bound(zoom, size);
    let bound = single(size).minus(lens_side(zoom)).minus(single(8));
    let x = lens_x(cursor, lens_side(zoom), size);
    let y = lens_y(cursor, lens_side(zoom), size);
    assert(whole(size - t - 8) + whole(t) == whole(size - 8)) by (nonlinear_arith)
        requires
            whole(size - t - 8) == (size - t - 8) * o,
            whole(t) == t * o,
            whole(size - 8) == (size - 8) * o,
    ;
    if t + 16 <= size {
        assert(whole(8) <= whole(size - t - 8)) by (nonlinear_arith)
            requires
                whole(size - t - 8) == (size - t - 8) * o,
                whole(8) == 8 * o,
                8 <= size - t - 8,
                1 <= o,
        ;
    } else {
        assert(whole(size - t - 8) < whole(8)) by (nonlinear_arith)
            requires
                whole(size - t - 8) == (size - t - 8) * o,
                whole(8) == 8 * o,
                size - t - 8 < 8,
                1 <= o,
        ;
    }
}

/// Whether the lens covers the cursor along one axis.
pub open spec fn spans(from: Value<false>, zoom: int, cursor: Value<false>) -> bool {
    from.units() <= cursor.units() <= from.units() + whole(17 * zoom)
}

/// On an output that is high enough the lens is above or below the cursor.
proof fn lemma_lens_beside_y(cursor: Value<false>, zoom: int, size: int)
    requires
        MIN_ZOOM <= zoom <= MAX_ZOOM,
        34 * zoom + 28 <= size <= 0x80_0000,
        is_finite(cursor),
        0 <= cursor.units() <= whole(size),
    ensures
        !spans(lens_y(cursor, lens_side(zoom), size), zoom, cursor),
{
    let t = 17 * zoom;
    let c = cursor.units();
    let f = lemma_whole_floor(c);
    lemma_whole_order(f, size + 1);
    lemma_whole_order(size, size + 1);
    lemma_whole_order(-1, f);
    lemma_whole_order(f + 1, 0);
    lemma_whole_add(0, 0);
    lemma_lens_side(zoom);
    lemma_lens_bound(zoom, size);
    lemma_whole(8);
    lemma_whole(12);
    lemma_whole_sum(t, 12);
    let away = lens_side(zoom).plus(single(12)).negated();
    assert(away.units() == -whole(t + 12));
    assert(is_finite(away));
    lemma_whole(f - t - 12);
    lemma_whole(f - t - 11);
    lemma_whole_add(f, t + 12);
    lemma_whole_add(f + 1, t + 12);
    law_sum_stays_between(cursor, away, whole(f - t - 12), whole(f - t - 11));
    let above = cursor.plus(away);
    if above.below(single(8)) {
        // The cursor is near the top: the lens goes below it.
        lemma_whole_add(t + 20, t + 12);
        if whole(t + 20) <= c {
            law_sum_stays_between(cursor, away, whole(8), whole(f - t - 11));
        }
        lemma_whole(14);
        lemma_whole(f + 14);
        lemma_whole(f + 15);
        lemma_whole_add(f, 14);
        lemma_whole_add(f + 1, 14);
        law_sum_stays_between(cursor, single(14), whole(f + 14), whole(f + 15));
        lemma_whole_order(f + 1, f + 14);
        lemma_whole_order(t + 19, size - t - 8);
        lemma_whole_order(size - t - 8, t + 20);
    } else {
        lemma_whole_add(f - t - 11, t);
        lemma_whole_order(f - 11, f);
    }
}

/// What the sums for a lens right of the cursor lie between, where `f` is the
/// whole number at the cursor.
proof fn lemma_lens_right(cursor: Value<false>, zoom: int, size: int, f: int)
    requires
        MIN_ZOOM <= zoom <= MAX_ZOOM,
        0 <= size <= 0x80_0000,
        is_finite(cursor),
        0 <= cursor.units() <= whole(size),
        whole(f) <= cursor.units() < whole(f + 1),
    ensures
        0 <= f <= size,
        ({
            let right = cursor.plus(single(12));
            &&& is_finite(right)
            &&& whole(f + 12) <= right.units() <= whole(f + 13)
            &&& is_finite(right.plus(lens_side(zoom)))
            &&& whole(f + 12 + 17 * zoom) <= right.plus(lens_side(zoom)).units()
        }),
{
    let t = 17 * zoom;
    lemma_whole_order(f, size + 1);
    lemma_whole_order(size, size + 1);
    lemma_whole_order(f + 1, 0);
    lemma_whole_order(0, f + 1);
    lemma_whole_add(0, 0);
    lemma_lens_side(zoom);
    lemma_whole(12);
    lemma_whole(f + 12);
    lemma_whole(f + 13);
    lemma_whole_add(f, 12);
    lemma_whole_add(f + 1, 12);
    law_sum_stays_between(cursor, single(12), whole(f + 12), whole(f + 13));
    let right = cursor.plus(single(12));
    lemma_whole(f + 12 + t);
    lemma_whole(f + 13 + t);
    lemma_whole_add(f + 12, t);
    lemma_whole_add(f + 13, t);
    law_sum_stays_between(right, lens_side(zoom), whole(f + 12 + t), whole(f + 13 + t));
}

/// Near the right edge the lens goes left of the cursor.
proof fn lemma_lens_flipped(cursor: Value<false>, zoom: int, size: int, f: int)
    requires
        MIN_ZOOM <= zoom <= MAX_ZOOM,
        34 * zoom + 28 <= size <= 0x80_0000,
        is_finite(cursor),
        0 <= cursor.units() <= whole(size),
        whole(f) <= cursor.units() < whole(f + 1),
        single(size).minus(single(8)).below(cursor.plus(single(12)).plus(lens_side(zoom))),
    ensures
        whole(17 * zoom + 8) < cursor.units(),
        ({
            let left = cursor.minus(lens_side(zoom)).minus(single(12));
            is_finite(left) && left.units() + whole(17 * zoom) < cursor.units()
        }),
{
    let t = 17 * zoom;
    let c = cursor.units();
    let side = lens_side(zoom);
    let right = cursor.plus(single(12));
    lemma_lens_right(cursor, zoom, size, f);
    lemma_lens_side(zoom);
    lemma_whole_sum(size, -8);
    lemma_whole(12);
    if c <= whole(t + 8) {
        lemma_whole(f + 12);
        lemma_whole(t + 20);
        lemma_whole_add(f, 12);
        lemma_whole_add(t + 8, 12);
        law_sum_stays_between(cursor, single(12), whole(f + 12), whole(t + 20));
        lemma_whole(f + 12 + t);
        lemma_whole(size - 8);
        lemma_whole_add(f + 12, t);
        lemma_whole_add(t + 20, t);
        lemma_whole_order(size - 8, 2 * t + 20);
        law_sum_stays_between(right, side, whole(f + 12 + t), whole(size - 8));
    }
    lemma_whole(f - t);
    lemma_whole(f + 1 - t);
    lemma_whole_add(f, t);
    lemma_whole_add(f + 1, t);
    law_sum_stays_between(cursor, side.negated(), whole(f - t), whole(f + 1 - t));
    let first = cursor.minus(side);
    lemma_whole(f - t - 12);
    lemma_whole(f - t - 11);
    lemma_whole_add(f - t, 12);
    lemma_whole_add(f + 1 - t, 12);
    law_sum_stays_between(first, single(12).negated(), whole(f - t - 12), whole(f - t - 11));
    lemma_whole_add(f - t - 11, t);
    lemma_whole_order(f - 11, f);
}

/// On an output that is wide enough the lens is left or right of the cursor.
proof fn lemma_lens_beside_x(cursor: Value<false>, zoom: int, size: int)
    requires
        MIN_ZOOM <= zoom <= MAX_ZOOM,
        34 * zoom + 28 <= size <= 0x80_0000,
        is_finite(cursor),
        0 <= cursor.units() <= whole(size),
    ensures
        !spans(lens_x(cursor, lens_side(zoom), size), zoom, cursor),
{
    let t = 17 * zoom;
    let c = cursor.units();
    let f = lemma_whole_floor(c);
    let right = cursor.plus(single(12));
    let side = lens_side(zoom);
    lemma_lens_right(cursor, zoom, size, f);
    lemma_lens_bound(zoom, size);
    lemma_whole(8);
    lemma_whole_sum(size, -8);
    if single(size).minus(single(8)).below(right.plus(side)) {
        lemma_lens_flipped(cursor, zoom, size, f);
        lemma_whole_add(8, t);
    } else {
        lemma_whole_order(f + 1, f + 12);
        // Where the lens is moved back from the edge, it stays right of the
        // cursor.
        if whole(size - t - 8) <= c {
            lemma_whole_order(f + 1, size - t - 8);
            lemma_whole_order(size - 8, f + 12 + t);
        }
    }
}

/// The lens never hides the pixel under the cursor, if the output is wide or
/// high enough: 28 logical pixels more than two lenses.
pub proof fn law_lens_spares_cursor(
    cursor: (Value<false>, Value<false>),
    zoom: int,
    width: int,
    height: int,
)
    requires
        MIN_ZOOM <= zoom <= MAX_ZOOM,
        0 <= width <= 0x80_0000,
        0 <= height <= 0x80_0000,
        34 * zoom + 28 <= width || 34 * zoom + 28 <= height,
        is_finite(cursor.0),
        is_finite(cursor.1),
        0 <= cursor.0.units() <= whole(width),
        0 <= cursor.1.units() <= whole(height),
    ensures
        !(spans(lens_x(cursor.0, lens_side(zoom), width), zoom, cursor.0) && spans(
            lens_y(cursor.1, lens_side(zoom), height),
            zoom,
            cursor.1,
        )),
{
    if 34 * zoom + 28 <= width {
        lemma_lens_beside_x(cursor.0, zoom, width);
    } else {
        lemma_lens_beside_y(cursor.1, zoom, height);
    }
}

/// The lens has seventeen cells to a side, each as large as the zoom says.
pub proof fn law_lens_has_its_cells(zoom: int)
    requires
        MIN_ZOOM <= zoom <= MAX_ZOOM,
    ensures
        lens_side(zoom).units() == whole(17 * zoom),
{
    lemma_lens_side(zoom);
}

/// Whether a position is as wanted, up to one part in 2^22 of the output's size,
/// which rounding may take.
pub open spec fn is_about(x: int, want: int, size: int) -> bool {
    abs(x - want) * 0x40_0000 <= whole(size)
}

/// Left of the cursor the lens ends twelve pixels from it, or begins at the
/// margin.
proof fn lemma_lens_left(cursor: Value<false>, zoom: int, size: int)
    requires
        MIN_ZOOM <= zoom <= MAX_ZOOM,
        0 <= size <= 0x80_0000,
        is_finite(cursor),
        0 <= cursor.units() <= whole(size),
        single(size).minus(single(8)).below(cursor.plus(single(12)).plus(lens_side(zoom))),
    ensures
        ({
            let c = cursor.units();
            let x = lens_x(cursor, lens_side(zoom), size).units();
            if whole(17 * zoom + 20) <= c {
                is_about(x + whole(17 * zoom), c - whole(12), size)
            } else {
                x == whole(8)
            }
        }),
{
    let t = 17 * zoom;
    let c = cursor.units();
    let side = lens_side(zoom);
    lemma_lens_side(zoom);
    lemma_lens_bound(zoom, size);
    lemma_whole(8);
    lemma_whole(12);
    lemma_whole_add(0, 0);
    lemma_whole_add(0, t);
    lemma_whole_add(size, t);
    lemma_whole_add(t + 20, t);
    assert(side.negated().units() == -whole(t));
    assert(is_finite(side.negated()));
    let high: int = if whole(t + 20) <= c {
        size - t
    } else {
        20
    };
    let low: int = if whole(t + 20) <= c {
        20
    } else {
        -t
    };
    lemma_sum_error(cursor, side.negated(), low, high);
    let first = cursor.minus(side);
    assert(single(12).negated().units() == -whole(12));
    assert(is_finite(single(12).negated()));
    lemma_whole_add(low, 12);
    lemma_whole_add(high, 12);
    lemma_sum_error(first, single(12).negated(), low - 12, high - 12);
    let left = first.minus(single(12));
    lemma_whole_add(t, 12);
    if whole(t + 20) <= c {
        lemma_whole_order(size - t - 12, size - t - 8);
        lemma_whole_order(size - t - 12, 8);
        lemma_whole_order(size - t - 8, size - t - 12);
        lemma_whole_order(size - t - 8, 8);
        lemma_whole_order(20, 12);
        lemma_whole_order(0, 12);
        lemma_whole_order(0, t);
        lemma_whole_order(size, size - t);
    }
}

/// Whether a lens of side `t` whose left edge is at `x` is beside a cursor at `c`
/// on an output of the given width. Right of the cursor, where it fits there with
/// the margin, it begins twelve pixels from the cursor; otherwise left of it,
/// where it fits there, it ends twelve pixels from it; otherwise it begins at the
/// margin. Within a pixel of where it fits, rounding decides.
pub open spec fn is_beside(x: int, c: int, t: int, size: int) -> bool {
    let right = is_about(x, c + whole(12), size);
    let left = if whole(t + 20) <= c {
        is_about(x + whole(t), c - whole(12), size)
    } else {
        x == whole(8)
    };
    &&& c + whole(t + 20) <= whole(size) ==> right
    &&& whole(size + 1) <= c + whole(t + 20) ==> left
    &&& right || left
}

/// Whether a lens of side `t` whose top edge is at `y` is above or below a cursor
/// at `c` on an output of the given height. It is above the cursor, where it fits
/// there with the margin, and ends twelve pixels from it; otherwise below, where
/// it begins fourteen pixels from it, or as far down as the margin lets it.
/// Within a pixel of where it fits, rounding decides.
pub open spec fn is_above_or_below(y: int, c: int, t: int, size: int) -> bool {
    let above = is_about(y + whole(t), c - whole(12), size);
    let below = if c + whole(t + 22) <= whole(size) {
        is_about(y, c + whole(14), size)
    } else {
        y == whole(max(size - t - 8, 8))
    };
    &&& whole(t + 20) <= c ==> above
    &&& c <= whole(t + 19) ==> below
    &&& above || below
}

/// The lens is beside the cursor: right of it if it fits there, or else left.
pub proof fn law_lens_is_beside(cursor: Value<false>, zoom: int, size: int)
    requires
        MIN_ZOOM <= zoom <= MAX_ZOOM,
        0 <= size <= 0x80_0000,
        is_finite(cursor),
        0 <= cursor.units() <= whole(size),
    ensures
        is_beside(lens_x(cursor, lens_side(zoom), size).units(), cursor.units(), 17 * zoom, size),
{
    let t = 17 * zoom;
    let c = cursor.units();
    let side = lens_side(zoom);
    let edge = single(size).minus(single(8));
    let right = cursor.plus(single(12));
    lemma_lens_side(zoom);
    lemma_lens_bound(zoom, size);
    lemma_whole(8);
    lemma_whole(12);
    lemma_whole_sum(size, -8);
    lemma_whole_add(0, 12);
    lemma_whole_add(size, 12);
    lemma_whole_add(0, 0);
    lemma_whole_add(size, t + 20);
    lemma_whole_add(size + 1, t + 20);
    lemma_whole_add(size - t - 20, 12);
    lemma_whole_add(size - t - 19, 12);
    lemma_whole_add(t + 8, 12);
    lemma_sum_error(cursor, single(12), 12, size + 12);
    lemma_whole_add(12, t);
    lemma_whole_add(size + 12, t);
    lemma_sum_error(right, side, 12 + t, size + 12 + t);
    lemma_whole_order(8, 12);
    lemma_whole_order(0, t);
    lemma_whole_order(0, 12);
    lemma_whole_order(size - 8, size - 7);
    if edge.below(right.plus(side)) {
        lemma_lens_left(cursor, zoom, size);
        if c + whole(t + 20) <= whole(size) {
            lemma_whole_add(size - t - 8, t);
            lemma_sum_error(cursor, single(12), 12, size - t - 8);
            lemma_sum_error(right, side, 12 + t, size - 8);
        }
    } else {
        let bound = size - t - 8;
        if whole(size + 1) <= c + whole(t + 20) {
            lemma_whole_add(size - t - 7, t);
            lemma_sum_error(cursor, single(12), size - t - 7, size + 12);
            lemma_sum_error(right, side, size - 7, size + 12 + t);
        }
        lemma_whole_add(bound, t);
        lemma_whole_order(8, bound);
        lemma_whole_order(bound, 8);
        lemma_whole_order(12, size - t - 7);
        lemma_whole_order(size - t - 7, 12);
        if c + whole(12) <= whole(bound) {
            lemma_sum_error(cursor, single(12), 12, bound);
        } else {
            lemma_sum_error(cursor, single(12), bound, size + 12);
        }
        lemma_whole_order(t + 20, size);
        lemma_whole_order(size, t + 20);
        lemma_whole_order(12 + t, size);
        lemma_whole_order(t, 136);
    }
}

/// The lens is above the cursor if it fits there, or else below.
pub proof fn law_lens_is_above_or_below(cursor: Value<false>, zoom: int, size: int)
    requires
        MIN_ZOOM <= zoom <= MAX_ZOOM,
        0 <= size <= 0x80_0000,
        is_finite(cursor),
        0 <= cursor.units() <= whole(size),
    ensures
        is_above_or_below(
            lens_y(cursor, lens_side(zoom), size).units(),
            cursor.units(),
            17 * zoom,
            size,
        ),
{
    let t = 17 * zoom;
    let c = cursor.units();
    let side = lens_side(zoom);
    let bound = size - t - 8;
    lemma_lens_side(zoom);
    lemma_lens_bound(zoom, size);
    lemma_whole(8);
    lemma_whole(12);
    lemma_whole(14);
    lemma_whole_sum(t, 12);
    lemma_whole_add(0, 0);
    let away = side.plus(single(12)).negated();
    assert(away.units() == -whole(t + 12));
    assert(is_finite(away));
    lemma_whole_add(t, 12);
    lemma_whole_add(0, t + 12);
    lemma_whole_add(size, t + 12);
    lemma_whole_add(t + 20, t + 12);
    lemma_whole_add(t + 19, t + 12);
    lemma_whole_order(size - t - 12, bound);
    lemma_whole_order(8, bound);
    lemma_whole_order(bound, 8);
    lemma_whole_order(7, 8);
    lemma_whole_order(0, t + 12);
    lemma_whole_order(0, 8);
    lemma_whole_order(bound, 14);
    lemma_whole_order(size - t - 12, size);
    lemma_sum_error(cursor, away, -t - 12, size - t - 12);
    let above = cursor.plus(away);
    if whole(t + 20) <= c {
        lemma_sum_error(cursor, away, 8, size - t - 12);
    }
    if c <= whole(t + 19) {
        lemma_sum_error(cursor, away, -t - 12, 7);
    }
    if above.below(single(8)) {
        lemma_whole_add(0, 14);
        lemma_whole_add(size, 14);
        lemma_whole_add(size, t + 22);
        lemma_whole_add(size - t - 22, 14);
        lemma_whole_order(8, 14);
        lemma_sum_error(cursor, single(14), 14, size + 14);
        if c + whole(t + 22) <= whole(size) {
            lemma_sum_error(cursor, single(14), 14, bound);
            lemma_whole_order(0, t + 22);
            lemma_whole_order(14, bound);
            lemma_whole_order(bound, size);
        } else {
            lemma_sum_error(cursor, single(14), max(bound, 14), size + 14);
        }
    }
}

} // verus!
