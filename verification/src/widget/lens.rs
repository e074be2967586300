//! What the lens shows.

use crate::float::Value;
use crate::order::{
    is_finite, law_sum_stays_between, lemma_single_exact, lemma_whole, lemma_whole_order, whole,
};
use crate::picker::output::CapturedOutput;
use crate::rounding::{exp2, lemma_exp2_pos, lemma_exp2_succ};
use crate::widget::magnifier::{
    clamped, filled, is_captured, law_lens_shows_neighbours, lemma_cell_in_grid,
    lens_pixel, mask_cell, single, snapped, LensStrokes, MagnifierMask, MagnifierProgram, MAX_ZOOM,
    MIN_ZOOM, OUTSIDE,
};
use crate::widget::zoom::lemma_small;
use vstd::math::abs;
use vstd::prelude::*;

verus! {

/// A pixel of the texture magnifies the cell that it lies in: seventeen columns
/// and rows, each as many pixels wide and high as the zoom says. What lies
/// outside the circle that fills the texture magnifies none.
pub proof fn law_mask_magnifies_cells(
    mask: MagnifierMask,
    zoom: int,
    column: int,
    row: int,
    x: int,
    y: int,
)
    requires
        mask.is_for(zoom),
        MIN_ZOOM <= zoom <= MAX_ZOOM,
        0 <= column < 17,
        0 <= row < 17,
        column * zoom <= x < (column + 1) * zoom,
        row * zoom <= y < (row + 1) * zoom,
    ensures
        ({
            let side = 17 * zoom;
            let (dx, dy) = (2 * x + 1 - side, 2 * y + 1 - side);
            &&& mask.resolution == side
            &&& mask.cells@.len() == side * side
            &&& mask.cells@[y * side + x] == if dx * dx + dy * dy <= side * side {
                17 * row + column
            } else {
                OUTSIDE as int
            }
        }),
{
    lemma_column(zoom, column, x);
    lemma_column(zoom, row, y);
    lemma_cell_in_grid(zoom, x, y);
    assert(mask.cells@[y * mask.resolution + x] == mask_cell(zoom, x, y));
}

/// The column of a pixel.
pub proof fn lemma_column(zoom: int, column: int, x: int)
    requires
        0 < zoom,
        0 <= column < 17,
        column * zoom <= x < (column + 1) * zoom,
    ensures
        x / zoom == column,
        0 <= x < 17 * zoom,
{
    assert((column + 1) * zoom == column * zoom + zoom) by (nonlinear_arith);
    vstd::arithmetic::div_mod::lemma_fundamental_div_mod_converse(
        x,
        zoom,
        column,
        x - column * zoom,
    );
    assert(0 <= column * zoom && (column + 1) * zoom <= 17 * zoom) by (nonlinear_arith)
        requires
            0 <= column < 17,
            0 < zoom,
    ;
}

/// The texture shows the captured pixels around the cursor: inside the circle a
/// pixel has the colour of the captured pixel as many columns and rows from the
/// cursor's as its cell is from the middle, or of the nearest one at the edge;
/// outside it is transparent.
pub proof fn law_texture_shows_neighbours(
    capture: CapturedOutput,
    centre: (u32, u32),
    buf: Seq<u8>,
    zoom: int,
    column: int,
    row: int,
    x: int,
    y: int,
)
    requires
        is_captured(capture),
        capture.rgba.has(centre.0 as int, centre.1 as int),
        MIN_ZOOM <= zoom <= MAX_ZOOM,
        0 <= column < 17,
        0 <= row < 17,
        column * zoom <= x < (column + 1) * zoom,
        row * zoom <= y < (row + 1) * zoom,
    ensures
        ({
            let side = 17 * zoom;
            let (dx, dy) = (2 * x + 1 - side, 2 * y + 1 - side);
            let rgb = capture.rgba.rgb(
                clamped(centre.0 as int, column - 8, capture.width as int),
                clamped(centre.1 as int, row - 8, capture.height as int),
            );
            lens_pixel(mask_cell(zoom, x, y) as u16, filled(buf, capture, centre)) == if dx * dx
                + dy * dy <= side * side {
                seq![rgb.0, rgb.1, rgb.2, 255u8]
            } else {
                seq![0u8, 0, 0, 0]
            }
        }),
{
    lemma_column(zoom, column, x);
    lemma_column(zoom, row, y);
    law_lens_shows_neighbours(capture, centre, buf, column, row);
}

/// The lens is drawn at the supported zoom level that is nearest to the zoom.
pub proof fn law_zoom_snaps_to_nearest(zoom: Value<false>, level: int)
    requires
        is_finite(zoom),
        MIN_ZOOM <= level <= MAX_ZOOM,
    ensures
        MIN_ZOOM <= snapped(zoom) <= MAX_ZOOM,
        abs(whole(snapped(zoom)) - zoom.units()) <= abs(whole(level) - zoom.units()),
        zoom == single(level) ==> snapped(zoom) == level,
{
    let o = exp2(149);
    let m = zoom->Finite_mag;
    lemma_exp2_pos(149);
    lemma_whole(level);
    let k = (2 * m + o) / (2 * o);
    let r = (2 * m + o) % (2 * o);
    vstd::arithmetic::div_mod::lemma_fundamental_div_mod(2 * m + o, 2 * o);
    assert(2 * (k * o) == 2 * m + o - r) by (nonlinear_arith)
        requires
            2 * m + o == (2 * o) * k + r,
    ;
    let u = zoom.units();
    lemma_whole_order(8, level);
    lemma_whole_order(level, 8);
    lemma_whole_order(24, level);
    lemma_whole_order(level, 24);
    lemma_whole_order(0, 8);
    assert(whole(0) == 0) by (nonlinear_arith)
        requires
            whole(0) == 0 * o,
    ;
    if !zoom->Finite_neg {
        if k < 8 {
            assert(k * o <= 7 * o) by (nonlinear_arith)
                requires
                    k <= 7,
                    1 <= o,
            ;
        } else if k > 24 {
            assert(25 * o <= k * o) by (nonlinear_arith)
                requires
                    25 <= k,
                    1 <= o,
            ;
        } else if level < k {
            assert(level * o <= k * o - o) by (nonlinear_arith)
                requires
                    level + 1 <= k,
                    1 <= o,
            ;
        } else if k < level {
            assert(k * o <= level * o - o) by (nonlinear_arith)
                requires
                    k + 1 <= level,
                    1 <= o,
            ;
        }
    }
    if zoom == single(level) {
        let n = snapped(zoom);
        lemma_whole_order(n, level);
        lemma_whole_order(level, n);
    }
}

/// A small number of halves is a number of the 32-bit format.
proof fn lemma_halves(n: int)
    requires
        0 <= n <= 1000,
    ensures
        Value::<false>::ratio(n, 2) == (Value::<false>::Finite { neg: false, mag: n * exp2(148) }),
        is_finite(Value::<false>::ratio(n, 2)),
        Value::<false>::ratio(n, 2).units() == n * exp2(148),
        2 * (n * exp2(148)) == whole(n),
{
    let e = exp2(148);
    let u = n * e;
    lemma_small(n, 148);
    lemma_exp2_succ(148);
    Value::<false>::lemma_rounded_scale(false, u, 1, 2);
    assert(n * exp2(149) == u * 2) by (nonlinear_arith)
        requires
            u == n * e,
            exp2(149) == 2 * e,
    ;
    lemma_single_exact(u, false);
}

/// The product of small whole numbers is exact.
proof fn lemma_small_product(a: int, b: int)
    requires
        0 <= a <= 1000,
        0 <= b <= 1000,
    ensures
        single(a).times(single(b)) == single(a * b),
        0 <= a * b <= 1_000_000,
{
    let o = exp2(149);
    lemma_exp2_pos(149);
    let c = a * b;
    assert(0 <= c <= 1_000_000) by (nonlinear_arith)
        requires
            c == a * b,
            0 <= a <= 1000,
            0 <= b <= 1000,
    ;
    lemma_whole(a);
    lemma_whole(b);
    lemma_whole(c);
    let n = c * o;
    assert((a * o) * (b * o) == n * o && 0 <= n && 0 <= a * o && 0 <= b * o) by (nonlinear_arith)
        requires
            n == c * o,
            c == a * b,
            0 <= c,
            0 <= a,
            0 <= b,
            1 <= o,
    ;
    Value::<false>::lemma_rounded_scale(false, n, 1, o);
    assert(1 * o == o);
}

/// The strokes lie on the cells: the crosshair goes two cells to each side of the
/// centre, the highlighted cell is the middle one, and the border runs half a
/// pixel inside the lens.
pub proof fn law_strokes_lie_on_cells(program: MagnifierProgram, strokes: LensStrokes, zoom: int)
    requires
        program.grid_size == 17,
        program.pixel_size@ == single(zoom),
        MIN_ZOOM <= zoom <= MAX_ZOOM,
        program.strokes_are(strokes),
    ensures
        2 * strokes.centre@.units() == whole(17 * zoom),
        2 * strokes.cross_from@.units() == whole(17 * zoom) - 2 * whole(2 * zoom),
        2 * strokes.cross_to@.units() == whole(17 * zoom) + 2 * whole(2 * zoom),
        strokes.cell_from@.units() == whole(8 * zoom),
        strokes.cell_side@.units() == whole(zoom),
        2 * strokes.border@.units() == whole(17 * zoom) - whole(1),
{
    let o = exp2(149);
    let e = exp2(148);
    lemma_exp2_pos(148);
    lemma_exp2_succ(148);
    lemma_whole(zoom);
    lemma_whole(1);
    lemma_whole(2);
    lemma_whole(2 * zoom);
    lemma_whole(8 * zoom);
    lemma_whole(17 * zoom);
    lemma_small_product(17, zoom);
    lemma_small_product(8, zoom);
    lemma_small_product(zoom, 2);
    // The radius.
    let n = 17 * zoom;
    lemma_halves(n);
    lemma_halves(1);
    let radius = program.radius();
    let u = n * e;
    assert(radius == Value::<false>::rounded(false, (n * o) * o, 2 * o));
    assert((n * o) * o == (n * o) * o && 0 <= n * o && 0 < o) by (nonlinear_arith)
        requires
            0 <= n,
            1 <= e,
            o == 2 * e,
    ;
    Value::<false>::lemma_rounded_scale(false, n * o, 2, o);
    assert(radius == Value::<false>::ratio(n, 2));
    assert(radius.units() == u);
    // The ends of the crosshair.
    lemma_halves(13 * zoom);
    lemma_halves(21 * zoom);
    lemma_halves(n - 1);
    let extent = single(2 * zoom);
    assert(zoom * 2 == 2 * zoom);
    assert(whole(2 * zoom) == 4 * (zoom * e) && u == 17 * (zoom * e) && (13 * zoom) * e == 13
        * (zoom * e) && (21 * zoom) * e == 21 * (zoom * e) && whole(1) == 2 * e && (n - 1) * e
        == u - e && 1 * e == e) by (nonlinear_arith)
        requires
            whole(2 * zoom) == (2 * zoom) * o,
            whole(1) == 1 * o,
            o == 2 * e,
            n == 17 * zoom,
            u == n * e,
    ;
    lemma_small(13 * zoom, 148);
    lemma_small(21 * zoom, 148);
    lemma_small(n - 1, 148);
    let back = extent.negated();
    assert(back.units() == -whole(2 * zoom) && is_finite(back));
    law_sum_stays_between(radius, back, (13 * zoom) * e, (13 * zoom) * e);
    law_sum_stays_between(radius, extent, (21 * zoom) * e, (21 * zoom) * e);
    let half = Value::<false>::ratio(1, 2).negated();
    assert(half.units() == -e && is_finite(half));
    law_sum_stays_between(radius, half, (n - 1) * e, (n - 1) * e);
}

} // verus!
