//! Magnifier lens: state, texture and geometry.
//!
//! The magnified cells are rendered as a single RGBA texture ([`lens_rgba`])
//! using a precomputed per-zoom lens mask ([`LensMasks`]).  The inside/outside
//! circle geometry depends only on the cell size, so it is computed once and
//! then looked up.  [`MagnifierProgram`] gives the overlay strokes (crosshair,
//! centre highlight, border) that go on top of the texture.

use crate::float::{Single, Value};
use crate::machine::{signed32, to_signed, to_unsigned, unsigned32};
use crate::picker::output::CapturedOutput;
use crate::widget::zoom::lemma_room_to_move;
use vstd::prelude::*;

verus! {

/// Number of cells per side of the lens grid (odd, for a centred crosshair).
pub const GRID_SIZE: usize = 17;

/// Minimum zoom level (cell size in logical pixels).
pub const MIN_ZOOM: u32 = 8;

/// Maximum zoom level (cell size in logical pixels).
pub const MAX_ZOOM: u32 = 24;

/// Number of discrete zoom levels (`MAX_ZOOM - MIN_ZOOM + 1`).
pub const ZOOM_LEVELS: usize = 17;

/// Mask sentinel: the lens pixel falls outside the circular lens.
pub const OUTSIDE: u16 = 0xffff;

/// A whole number as a single.
pub open spec fn single(n: int) -> Value<false> {
    Value::ratio(n, 1)
}

// ---------------------------------------------------------------------------
// Per-zoom lens mask (computed once, looked up every frame)
// ---------------------------------------------------------------------------

/// Maps every pixel of the lens texture to the source cell it magnifies.
///
/// A mask exists per discrete zoom level: which pixels fall inside the circle
/// and which source cell each magnifies depends only on the cell size, so it
/// never changes while the pointer moves.
#[derive(Debug)]
pub struct MagnifierMask {
    /// Texture resolution per side (`GRID_SIZE * zoom`, integer).
    pub resolution: u32,
    /// `resolution²` entries — source cell index (`0..GRID_SIZE²`) or
    /// [`OUTSIDE`] for pixels beyond the circular lens.
    pub cells: Vec<u16>,
}

/// Whether the centre of the texture's pixel (x, y) lies inside the circle that
/// fills the texture. Lengths are counted in half pixels from the circle's
/// centre.
pub open spec fn in_circle(resolution: int, x: int, y: int) -> bool {
    let dx = 2 * x + 1 - resolution;
    let dy = 2 * y + 1 - resolution;
    dx * dx + dy * dy <= resolution * resolution
}

/// The entry of a mask for the pixel (x, y).
pub open spec fn mask_cell(zoom: int, x: int, y: int) -> int {
    if in_circle(17 * zoom, x, y) {
        (y / zoom) * 17 + x / zoom
    } else {
        0xffff
    }
}

impl MagnifierMask {
    /// Whether this is the mask of a zoom level.
    pub open spec fn is_for(self, zoom: int) -> bool {
        &&& self.resolution == 17 * zoom
        &&& self.cells@.len() == self.resolution * self.resolution
        &&& forall|x: int, y: int|
            0 <= x < self.resolution && 0 <= y < self.resolution ==> #[trigger] self.cells@[y
                * self.resolution + x] == mask_cell(zoom, x, y)
    }
}

/// A pixel of a texture magnifies a cell of the grid.
pub proof fn lemma_cell_in_grid(zoom: int, x: int, y: int)
    requires
        0 < zoom,
        0 <= x < 17 * zoom,
        0 <= y < 17 * zoom,
    ensures
        0 <= x / zoom < 17,
        0 <= y / zoom < 17,
        0 <= (y / zoom) * 17 + x / zoom < 289,
{
    vstd::arithmetic::div_mod::lemma_fundamental_div_mod(x, zoom);
    vstd::arithmetic::div_mod::lemma_fundamental_div_mod(y, zoom);
    assert(0 <= x / zoom < 17) by (nonlinear_arith)
        requires
            x == zoom * (x / zoom) + x % zoom,
            0 <= x % zoom < zoom,
            0 <= x < 17 * zoom,
            0 < zoom,
    ;
    assert(0 <= y / zoom < 17) by (nonlinear_arith)
        requires
            y == zoom * (y / zoom) + y % zoom,
            0 <= y % zoom < zoom,
            0 <= y < 17 * zoom,
            0 < zoom,
    ;
}

/// Builds the mask of one zoom level.
#[verifier::loop_isolation(false)]
fn build_mask(zoom: u32) -> (r: MagnifierMask)
    requires
        MIN_ZOOM <= zoom <= MAX_ZOOM,
    ensures
        r.is_for(zoom as int),
{
    let resolution: u32 = 17 * zoom;
    let side: i64 = resolution as i64;
    let mut cells: Vec<u16> = Vec::new();
    let ghost res = resolution as int;
    let mut y: u32 = 0;
    while y < resolution
        invariant
            y <= resolution,
            cells@.len() == y * res,
            forall|a: int, b: int|
                0 <= a < res && 0 <= b < y ==> #[trigger] cells@[b * res + a] == mask_cell(
                    zoom as int,
                    a,
                    b,
                ),
        decreases resolution - y,
    {
        let mut x: u32 = 0;
        while x < resolution
            invariant
                x <= resolution,
                y < resolution,
                cells@.len() == y * res + x,
                forall|a: int, b: int|
                    0 <= a < res && 0 <= b < y ==> #[trigger] cells@[b * res + a] == mask_cell(
                        zoom as int,
                        a,
                        b,
                    ),
                forall|a: int|
                    0 <= a < x ==> #[trigger] cells@[y * res + a] == mask_cell(
                        zoom as int,
                        a,
                        y as int,
                    ),
            decreases resolution - x,
        {
            // Pixel centre relative to the circle centre, in half pixels.
            let dx: i64 = 2 * x as i64 + 1 - side;
            let dy: i64 = 2 * y as i64 + 1 - side;
            proof {
                assert(0 <= dx * dx <= 408 * 408) by (nonlinear_arith)
                    requires
                        -408 <= dx <= 408,
                ;
                assert(0 <= dy * dy <= 408 * 408) by (nonlinear_arith)
                    requires
                        -408 <= dy <= 408,
                ;
                assert(0 <= side * side <= 408 * 408) by (nonlinear_arith)
                    requires
                        0 <= side <= 408,
                ;
                lemma_cell_in_grid(zoom as int, x as int, y as int);
            }
            let cell: u16 = if dx * dx + dy * dy <= side * side {
                ((y / zoom) * 17 + x / zoom) as u16
            } else {
                OUTSIDE
            };
            let ghost before = cells@;
            cells.push(cell);
            proof {
                assert forall|a: int, b: int| 0 <= a < res && 0 <= b < y implies #[trigger] cells@[b
                    * res + a] == mask_cell(zoom as int, a, b) by {
                    assert(b * res + a < y * res) by (nonlinear_arith)
                        requires
                            0 <= a < res,
                            0 <= b,
                            b + 1 <= y,
                    ;
                    assert(0 <= b * res) by (nonlinear_arith)
                        requires
                            0 <= b,
                            0 <= res,
                    ;
                    assert(before[b * res + a] == mask_cell(zoom as int, a, b));
                }
                assert forall|a: int| 0 <= a < x + 1 implies #[trigger] cells@[y * res + a]
                    == mask_cell(zoom as int, a, y as int) by {
                    assert(0 <= y * res) by (nonlinear_arith)
                        requires
                            0 <= y,
                            0 <= res,
                    ;
                    if a < x {
                        assert(before[y * res + a] == mask_cell(zoom as int, a, y as int));
                    }
                }
            }
            x = x + 1;
        }
        proof {
            assert(y * res + res == (y + 1) * res) by (nonlinear_arith);
            assert forall|a: int, b: int| 0 <= a < res && 0 <= b < y + 1 implies #[trigger] cells@[b
                * res + a] == mask_cell(zoom as int, a, b) by {
                if b == y {
                    assert(cells@[y * res + a] == mask_cell(zoom as int, a, y as int));
                }
            }
        }
        y = y + 1;
    }
    MagnifierMask { resolution, cells }
}

/// All lens masks (`MIN_ZOOM..=MAX_ZOOM`).
#[derive(Debug)]
pub struct LensMasks {
    masks: Vec<MagnifierMask>,
}

impl LensMasks {
    #[verifier::type_invariant]
    spec fn complete(self) -> bool {
        &&& self.masks@.len() == ZOOM_LEVELS
        &&& forall|i: int|
            0 <= i < ZOOM_LEVELS ==> (#[trigger] self.masks@[i]).is_for(MIN_ZOOM + i)
    }
}

impl View for LensMasks {
    type V = Seq<MagnifierMask>;

    closed spec fn view(&self) -> Seq<MagnifierMask> {
        self.masks@
    }
}

/// Build the mask for every zoom level in one pass.
pub fn build_masks() -> (r: LensMasks)
    ensures
        r@.len() == ZOOM_LEVELS,
        forall|i: int| 0 <= i < ZOOM_LEVELS ==> (#[trigger] r@[i]).is_for(MIN_ZOOM + i),
{
    let mut masks: Vec<MagnifierMask> = Vec::new();
    let mut zoom: u32 = MIN_ZOOM;
    while zoom <= MAX_ZOOM
        invariant
            MIN_ZOOM <= zoom <= MAX_ZOOM + 1,
            masks@.len() == zoom - MIN_ZOOM,
            forall|i: int|
                0 <= i < masks@.len() ==> (#[trigger] masks@[i]).is_for(MIN_ZOOM + i),
        decreases MAX_ZOOM + 1 - zoom,
    {
        masks.push(build_mask(zoom));
        zoom = zoom + 1;
    }
    LensMasks { masks }
}

/// The supported zoom level nearest to a number.
pub open spec fn snapped(zoom: Value<false>) -> int {
    vstd::math::max(MIN_ZOOM as int, vstd::math::min(zoom.nearest(), MAX_ZOOM as int))
}

/// Look up the lens mask for a zoom level, snapping to the nearest
/// supported integer level.
#[must_use]
pub fn mask_for_zoom(masks: &LensMasks, zoom: Single) -> (r: &MagnifierMask)
    requires
        !(zoom@ is Nan),
    ensures
        r.is_for(snapped(zoom@)),
        *r == masks@[snapped(zoom@) - MIN_ZOOM],
{
    proof {
        use_type_invariant(masks);
    }
    let whole: u32 = zoom.nearest();
    let level: u32 = if whole < MIN_ZOOM {
        MIN_ZOOM
    } else if whole > MAX_ZOOM {
        MAX_ZOOM
    } else {
        whole
    };
    &masks.masks[(level - MIN_ZOOM) as usize]
}

/// The four bytes of the texture for one entry of a mask.
pub open spec fn lens_pixel(cell: u16, buf: Seq<u8>) -> Seq<u8> {
    if cell == OUTSIDE {
        seq![0u8, 0, 0, 0]
    } else {
        seq![buf[3 * cell], buf[3 * cell + 1], buf[3 * cell + 2], 255]
    }
}

/// Fill an RGBA texture for the lens from the captured cell colours.
///
/// Pixels outside the circular lens are transparent; every inside pixel is
/// the opaque colour of its source cell.
#[must_use]
pub fn lens_rgba(mask: &MagnifierMask, buf: &[u8]) -> (rgba: Vec<u8>)
    requires
        forall|i: int|
            0 <= i < mask.cells@.len() ==> #[trigger] mask.cells@[i] == OUTSIDE || 3
                * mask.cells@[i] + 3 <= buf@.len(),
    ensures
        rgba@.len() == 4 * mask.cells@.len(),
        forall|i: int|
            0 <= i < mask.cells@.len() ==> rgba@.subrange(4 * i, 4 * i + 4) == lens_pixel(
                #[trigger] mask.cells@[i],
                buf@,
            ),
{
    let mut rgba: Vec<u8> = Vec::new();
    let mut i: usize = 0;
    while i < mask.cells.len()
        invariant
            i <= mask.cells@.len(),
            rgba@.len() == 4 * i,
            forall|k: int|
                0 <= k < mask.cells@.len() ==> #[trigger] mask.cells@[k] == OUTSIDE || 3
                    * mask.cells@[k] + 3 <= buf@.len(),
            forall|k: int|
                0 <= k < i ==> rgba@.subrange(4 * k, 4 * k + 4) == lens_pixel(
                    #[trigger] mask.cells@[k],
                    buf@,
                ),
        decreases mask.cells@.len() - i,
    {
        let cell: u16 = mask.cells[i];
        let ghost before = rgba@;
        if cell == OUTSIDE {
            rgba.push(0);
            rgba.push(0);
            rgba.push(0);
            rgba.push(0);
        } else {
            let base: usize = cell as usize * 3;
            rgba.push(buf[base]);
            rgba.push(buf[base + 1]);
            rgba.push(buf[base + 2]);
            rgba.push(255);
        }
        proof {
            assert forall|k: int| 0 <= k < i + 1 implies rgba@.subrange(4 * k, 4 * k + 4)
                == lens_pixel(#[trigger] mask.cells@[k], buf@) by {
                if k < i {
                    assert(rgba@.subrange(4 * k, 4 * k + 4) =~= before.subrange(4 * k, 4 * k + 4));
                } else {
                    assert(rgba@.subrange(4 * k, 4 * k + 4) =~= lens_pixel(cell, buf@));
                }
            }
        }
        i = i + 1;
    }
    rgba
}

// ---------------------------------------------------------------------------
// Persistent state (kept between frames)
// ---------------------------------------------------------------------------

/// Zoom and pixel-buffer state for the magnifier lens.
///
/// Kept between frames so that the buffer is reused across pointer motions.
#[derive(Debug, Clone, Copy)]
pub struct MagnifierState {
    /// Flat RGB buffer for the magnifier grid (stride 3).
    pub buf: [u8; 873],
    /// Current zoom level (whole-number logical pixels per magnified cell).
    /// Integer values keep the lens texture at exact 1:1 resolution.
    pub zoom_level: u32,
    /// Accumulated scroll delta — applied once per frame.
    pub pending_zoom_delta: Single,
}

/// A pixel coordinate moved by `d`, kept inside an axis of the given size. The
/// sums wrap around as 32-bit signed numbers do.
pub open spec fn neighbour(c: u32, d: int, size: u32) -> int {
    let moved = signed32(signed32(c as int) + d);
    let last = signed32(signed32(size as int) - 1);
    unsigned32(vstd::math::min(vstd::math::max(moved, 0), last))
}

/// The colour that a cell of the grid shows: the captured pixel that many
/// columns and rows from the centre, or grey where there is none.
pub open spec fn cell_color(capture: CapturedOutput, centre: (u32, u32), cell: int) -> (
    u8,
    u8,
    u8,
) {
    let x = neighbour(centre.0, cell % 17 - 8, capture.width);
    let y = neighbour(centre.1, cell / 17 - 8, capture.height);
    match capture.pixel(x, y) {
        Some(rgb) => rgb,
        None => (128, 128, 128),
    }
}

/// Whether the first `count` cells of a buffer show the captured pixels around
/// the centre.
spec fn shows(
    buf: Seq<u8>,
    capture: CapturedOutput,
    centre: (u32, u32),
    count: int,
) -> bool {
    forall|i: int|
        0 <= i < count ==> (
        buf[3 * i],
        buf[3 * i + 1],
        buf[3 * i + 2],
        ) == #[trigger] cell_color(capture, centre, i)
}

/// A buffer filled with the captured pixels around the centre; the bytes after
/// the last cell stay.
pub open spec fn filled(buf: Seq<u8>, capture: CapturedOutput, centre: (u32, u32)) -> Seq<u8> {
    Seq::new(
        873,
        |k: int|
            if k < 867 {
                let rgb = cell_color(capture, centre, k / 3);
                if k % 3 == 0 {
                    rgb.0
                } else if k % 3 == 1 {
                    rgb.1
                } else {
                    rgb.2
                }
            } else {
                buf[k]
            },
    )
}

/// How far a scroll delta leads from a zoom level.
pub open spec fn zoom_step(level: int, delta: Value<false>) -> Value<false> {
    delta.times(Value::ratio(3, 4)).times(single(16).over(single(level)))
}

/// Where a scroll delta leads from a zoom level, kept within the levels.
pub open spec fn zoom_target(level: int, delta: Value<false>) -> Value<false> {
    single(level).plus(zoom_step(level, delta)).kept_within(
        single(MIN_ZOOM as int),
        single(MAX_ZOOM as int),
    )
}

/// The zoom level that a scroll delta leads to.
///
/// Wheel-up (positive) zooms in; wheel-down zooms out. The step shrinks as the
/// zoom rises (16 is the midpoint of the range) so that high magnification
/// gives finer control. The new level is the whole number nearest to where the
/// step leads; half-way between two, the farther one from the old level. A step
/// that leads off the old level but not to another whole number moves by one.
pub open spec fn zoomed(level: int, delta: Value<false>) -> int {
    let target = zoom_target(level, delta);
    let near = if delta.below(single(0)) {
        target.nearest_down()
    } else {
        target.nearest()
    };
    if target is Nan {
        level
    } else if single(level).below(target) && near <= level {
        level + 1
    } else if target.below(single(level)) && level <= near {
        level - 1
    } else {
        near
    }
}

impl MagnifierState {
    /// Create a new [`MagnifierState`] with default zoom.
    #[must_use]
    pub fn new() -> (r: Self)
        ensures
            r.buf@ == Seq::new(873, |i: int| 0u8),
            r.zoom_level == MIN_ZOOM,
            r.pending_zoom_delta@ == single(0),
    {
        let r = MagnifierState {
            buf: [0u8; 873],
            zoom_level: MIN_ZOOM,
            pending_zoom_delta: Single::from_u32(0),
        };
        assert(r.buf@ =~= Seq::new(873, |i: int| 0u8));
        r
    }

    /// Reset zoom to defaults (e.g. when starting a new picking session).
    pub fn reset(&mut self)
        ensures
            final(self).buf == old(self).buf,
            final(self).zoom_level == MIN_ZOOM,
            final(self).pending_zoom_delta@ == single(0),
    {
        self.zoom_level = MIN_ZOOM;
        self.pending_zoom_delta = Single::from_u32(0);
    }

    /// Accumulates a scroll delta, to be applied with the next frame.
    pub fn scroll(&mut self, delta: Single)
        ensures
            final(self).buf == old(self).buf,
            final(self).zoom_level == old(self).zoom_level,
            final(self).pending_zoom_delta@ == old(self).pending_zoom_delta@.plus(delta@),
    {
        self.pending_zoom_delta = self.pending_zoom_delta.plus(delta);
    }

    /// Applies the accumulated scroll delta, if there is any.
    pub fn frame_tick(&mut self)
        ensures
            final(self).buf == old(self).buf,
            old(self).pending_zoom_delta@.equals(single(0)) ==> *final(self) == *old(self),
            !old(self).pending_zoom_delta@.equals(single(0)) ==> {
                &&& final(self).pending_zoom_delta@ == single(0)
                &&& final(self).zoom_level == zoomed(
                    old(self).zoom_level as int,
                    old(self).pending_zoom_delta@,
                )
            },
    {
        let delta = self.pending_zoom_delta;
        let zero = Single::from_u32(0);
        if !delta.equals(zero) {
            self.pending_zoom_delta = zero;
            let level = Single::from_u32(self.zoom_level);
            let step = delta.times(Single::ratio(3, 4)).times(Single::from_u32(16).over(level));
            let target = level.plus(step).kept_within(
                Single::from_u32(MIN_ZOOM),
                Single::from_u32(MAX_ZOOM),
            );
            if !target.is_nan() {
                let near: u32 = if delta.below(zero) {
                    target.nearest_down()
                } else {
                    target.nearest()
                };
                proof {
                    lemma_room_to_move(self.zoom_level, delta@);
                }
                self.zoom_level = if level.below(target) && near <= self.zoom_level {
                    self.zoom_level + 1
                } else if target.below(level) && self.zoom_level <= near {
                    self.zoom_level - 1
                } else {
                    near
                };
            }
        }
    }

    /// Fills the buffer with the captured pixels around the given one.
    pub fn fill(&mut self, capture: &CapturedOutput, centre: (u32, u32))
        ensures
            final(self).zoom_level == old(self).zoom_level,
            final(self).pending_zoom_delta == old(self).pending_zoom_delta,
            final(self).buf@ == filled(old(self).buf@, *capture, centre),
    {
        let mut cell: usize = 0;
        while cell < 289
            invariant
                cell <= 289,
                self.zoom_level == old(self).zoom_level,
                self.pending_zoom_delta == old(self).pending_zoom_delta,
                shows(self.buf@, *capture, centre, cell as int),
                forall|k: int| 867 <= k < 873 ==> self.buf@[k] == old(self).buf@[k],
            decreases 289 - cell,
        {
            let dx: i64 = (cell % 17) as i64 - 8;
            let dy: i64 = (cell / 17) as i64 - 8;
            let px: u32 = shift_pixel(centre.0, dx, capture.width);
            let py: u32 = shift_pixel(centre.1, dy, capture.height);
            let (r, g, b): (u8, u8, u8) = match capture.pixel_at(px, py) {
                Some(rgb) => rgb,
                None => (128, 128, 128),
            };
            let ghost before = self.buf@;
            self.buf[3 * cell] = r;
            self.buf[3 * cell + 1] = g;
            self.buf[3 * cell + 2] = b;
            proof {
                assert forall|i: int| 0 <= i < cell + 1 implies (
                    self.buf@[3 * i],
                    self.buf@[3 * i + 1],
                    self.buf@[3 * i + 2],
                ) == #[trigger] cell_color(*capture, centre, i) by {
                    if i < cell {
                        assert((before[3 * i], before[3 * i + 1], before[3 * i + 2]) == cell_color(
                            *capture,
                            centre,
                            i,
                        ));
                    }
                }
            }
            cell = cell + 1;
        }
        proof {
            let whole = filled(old(self).buf@, *capture, centre);
            assert forall|k: int| 0 <= k < 873 implies self.buf@[k] == whole[k] by {
                if k < 867 {
                    let i = k / 3;
                    assert((self.buf@[3 * i], self.buf@[3 * i + 1], self.buf@[3 * i + 2])
                        == cell_color(*capture, centre, i));
                }
            }
            assert(self.buf@ =~= whole);
        }
    }

    /// The texture of the lens at the current zoom.
    pub fn lens(&self, masks: &LensMasks) -> (rgba: Vec<u8>)
        ensures
            ({
                let zoom = snapped(single(self.zoom_level as int));
                let side = 17 * zoom;
                &&& rgba@.len() == 4 * (side * side)
                &&& forall|x: int, y: int|
                    0 <= x < side && 0 <= y < side ==> #[trigger] rgba@.subrange(
                        4 * (y * side + x),
                        4 * (y * side + x) + 4,
                    ) == lens_pixel(mask_cell(zoom, x, y) as u16, self.buf@)
            }),
    {
        let zoom = Single::from_u32(self.zoom_level);
        proof {
            lemma_ratio_is_number(self.zoom_level as int);
        }
        let mask = mask_for_zoom(masks, zoom);
        proof {
            lemma_mask_entries(*mask, snapped(zoom@));
        }
        let rgba = lens_rgba(mask, &self.buf);
        proof {
            let level = snapped(zoom@);
            let side = 17 * level;
            assert forall|x: int, y: int| 0 <= x < side && 0 <= y < side implies #[trigger] rgba@.subrange(
                4 * (y * side + x),
                4 * (y * side + x) + 4,
            ) == lens_pixel(mask_cell(level, x, y) as u16, self.buf@) by {
                let i = y * side + x;
                assert(0 <= i < side * side) by (nonlinear_arith)
                    requires
                        i == y * side + x,
                        0 <= x < side,
                        0 <= y,
                        y + 1 <= side,
                ;
                assert(mask.cells@[y * mask.resolution + x] == mask_cell(level, x, y));
                assert(mask.cells@[i] == mask_cell(level, x, y));
            }
        }
        rgba
    }
}

/// A whole number of 32 bits is a finite single.
pub proof fn lemma_ratio_is_number(n: int)
    requires
        0 <= n <= u32::MAX,
    ensures
        !(single(n) is Nan),
{
}

/// The entries of a mask are cells of the grid, or outside.
pub proof fn lemma_mask_entries(mask: MagnifierMask, zoom: int)
    requires
        mask.is_for(zoom),
        0 < zoom,
    ensures
        forall|i: int|
            0 <= i < mask.cells@.len() ==> #[trigger] mask.cells@[i] == OUTSIDE || mask.cells@[i]
                < 289,
{
    let side = mask.resolution as int;
    assert forall|i: int| 0 <= i < mask.cells@.len() implies #[trigger] mask.cells@[i] == OUTSIDE
        || mask.cells@[i] < 289 by {
        let y = i / side;
        let x = i % side;
        vstd::arithmetic::div_mod::lemma_fundamental_div_mod(i, side);
        assert(0 <= y < side) by (nonlinear_arith)
            requires
                i == side * y + x,
                0 <= x < side,
                0 <= i < side * side,
        ;
        assert(side * y == y * side) by (nonlinear_arith);
        lemma_cell_in_grid(zoom, x, y);
        assert(mask.cells@[y * side + x] == mask_cell(zoom, x, y));
    }
}

/// A pixel coordinate moved by `d`, kept inside an axis of the given size.
fn shift_pixel(c: u32, d: i64, size: u32) -> (r: u32)
    requires
        -8 <= d <= 8,
    ensures
        r == neighbour(c, d as int, size),
{
    let moved: i32 = to_signed(to_signed(c as i64) as i64 + d);
    let last: i32 = to_signed(to_signed(size as i64) as i64 - 1);
    let low: i32 = if moved < 0 {
        0
    } else {
        moved
    };
    let kept: i32 = if low < last {
        low
    } else {
        last
    };
    to_unsigned(kept)
}

impl Default for MagnifierState {
    fn default() -> (r: Self)
        ensures
            r.buf@ == Seq::new(873, |i: int| 0u8),
            r.zoom_level == MIN_ZOOM,
            r.pending_zoom_delta@ == single(0),
    {
        Self::new()
    }
}

/// A coordinate moved by `d` and kept inside an axis.
pub open spec fn clamped(c: int, d: int, size: int) -> int {
    vstd::math::min(vstd::math::max(c + d, 0), size - 1)
}

/// Whether an output has captured pixels, and no more than signed coordinates
/// can count.
pub open spec fn is_captured(capture: CapturedOutput) -> bool {
    &&& capture.rgba.width() == capture.width
    &&& capture.rgba.height() == capture.height
    &&& 0 < capture.width <= 0x7fff_fff8
    &&& 0 < capture.height <= 0x7fff_fff8
}

/// Within what signed coordinates can count, a neighbour is the coordinate
/// moved and kept inside the axis.
proof fn lemma_neighbour(c: u32, d: int, size: u32)
    requires
        c < size <= 0x7fff_fff8,
        -8 <= d <= 8,
    ensures
        neighbour(c, d, size) == clamped(c as int, d, size as int),
        0 <= neighbour(c, d, size) < size,
{
    assert(signed32(c as int) == c);
    assert(signed32(c + d) == c + d);
    assert(signed32(size as int) == size);
    assert(signed32(size - 1) == size - 1);
}

/// The three bytes of a cell in a filled buffer.
proof fn lemma_filled_cell(buf: Seq<u8>, capture: CapturedOutput, centre: (u32, u32), cell: int)
    requires
        0 <= cell < 289,
    ensures
        ({
            let all = filled(buf, capture, centre);
            (all[3 * cell], all[3 * cell + 1], all[3 * cell + 2]) == cell_color(
                capture,
                centre,
                cell,
            )
        }),
{
    assert((3 * cell) / 3 == cell && (3 * cell + 1) / 3 == cell && (3 * cell + 2) / 3 == cell);
    assert((3 * cell) % 3 == 0 && (3 * cell + 1) % 3 == 1 && (3 * cell + 2) % 3 == 2);
}

/// The lens shows the captured pixels around the cursor: each cell shows the
/// pixel as many columns and rows from the cursor's as the cell is from the
/// centre, or the nearest one at the edge.
pub proof fn law_lens_shows_neighbours(
    capture: CapturedOutput,
    centre: (u32, u32),
    buf: Seq<u8>,
    column: int,
    row: int,
)
    requires
        is_captured(capture),
        capture.rgba.has(centre.0 as int, centre.1 as int),
        0 <= column < 17,
        0 <= row < 17,
    ensures
        ({
            let x = clamped(centre.0 as int, column - 8, capture.width as int);
            let y = clamped(centre.1 as int, row - 8, capture.height as int);
            let rgb = capture.rgba.rgb(x, y);
            lens_pixel((17 * row + column) as u16, filled(buf, capture, centre)) == seq![
                rgb.0,
                rgb.1,
                rgb.2,
                255u8,
            ]
        }),
{
    let cell = 17 * row + column;
    assert(cell % 17 == column && cell / 17 == row);
    lemma_neighbour(centre.0, column - 8, capture.width);
    lemma_neighbour(centre.1, row - 8, capture.height);
    lemma_filled_cell(buf, capture, centre, cell);
}

/// The middle of the lens shows the pixel under the cursor, so that one sees
/// which pixel is selected.
pub proof fn law_lens_centre(capture: CapturedOutput, centre: (u32, u32), buf: Seq<u8>, zoom: int, x: int, y: int)
    requires
        is_captured(capture),
        capture.rgba.has(centre.0 as int, centre.1 as int),
        MIN_ZOOM <= zoom <= MAX_ZOOM,
        8 * zoom <= x < 9 * zoom,
        8 * zoom <= y < 9 * zoom,
    ensures
        ({
            let rgb = capture.rgba.rgb(centre.0 as int, centre.1 as int);
            lens_pixel(mask_cell(zoom, x, y) as u16, filled(buf, capture, centre)) == seq![
                rgb.0,
                rgb.1,
                rgb.2,
                255u8,
            ]
        }),
{
    let res = 17 * zoom;
    let dx = 2 * x + 1 - res;
    let dy = 2 * y + 1 - res;
    assert(dx * dx + dy * dy <= res * res) by (nonlinear_arith)
        requires
            -zoom <= dx <= zoom,
            -zoom <= dy <= zoom,
            res == 17 * zoom,
            0 <= zoom,
    ;
    vstd::arithmetic::div_mod::lemma_fundamental_div_mod_converse(x, zoom, 8, x - 8 * zoom);
    vstd::arithmetic::div_mod::lemma_fundamental_div_mod_converse(y, zoom, 8, y - 8 * zoom);
    law_lens_shows_neighbours(capture, centre, buf, 8, 8);
}

// ---------------------------------------------------------------------------
// Overlay strokes — crosshair, centre highlight and border
// ---------------------------------------------------------------------------

/// The lens overlay strokes above the cell texture.
///
/// The cells themselves are a single texture (see [`lens_rgba`]); the strokes
/// only add the crosshair, the centre-cell highlight and the outer border.
#[derive(Debug, Clone, Copy)]
pub struct MagnifierProgram {
    /// Number of cells per side (odd, e.g. 17).
    pub grid_size: usize,
    /// Logical-pixel size of each magnified cell.
    pub pixel_size: Single,
}

/// What is stroked: two lines through the centre, a square around the centre
/// cell and a circle, by their coordinates on both axes.
#[derive(Debug, Clone, Copy)]
pub struct LensStrokes {
    /// The centre, on either axis.
    pub centre: Single,
    /// Where the lines of the crosshair begin.
    pub cross_from: Single,
    /// Where the lines of the crosshair end.
    pub cross_to: Single,
    /// Where the centre cell begins, on either axis.
    pub cell_from: Single,
    /// The side of the centre cell.
    pub cell_side: Single,
    /// The radius of the border.
    pub border: Single,
}

impl MagnifierProgram {
    /// The radius of the lens.
    pub open spec fn radius(self) -> Value<false> {
        single(self.grid_size as int).times(self.pixel_size@).over(single(2))
    }

    /// Whether these are the strokes of the lens: a crosshair two cells to each
    /// side of the centre, the centre cell and a border half a pixel inside.
    pub open spec fn strokes_are(self, r: LensStrokes) -> bool {
        &&& r.centre@ == self.radius()
        &&& r.cross_from@ == self.radius().minus(self.pixel_size@.times(single(2)))
        &&& r.cross_to@ == self.radius().plus(self.pixel_size@.times(single(2)))
        &&& r.cell_from@ == single(self.grid_size as int / 2).times(self.pixel_size@)
        &&& r.cell_side == self.pixel_size
        &&& r.border@ == self.radius().minus(Value::ratio(1, 2))
    }

    /// The coordinates of the strokes.
    pub fn draw(&self) -> (r: LensStrokes)
        ensures
            self.strokes_are(r),
    {
        let cell = self.pixel_size;
        let two = Single::from_u32(2);
        let radius = Single::from_usize(self.grid_size).times(cell).over(two);
        // Crosshair (2 cells wide — stays well inside the circle).
        let extent = cell.times(two);
        let half: usize = self.grid_size / 2;
        LensStrokes {
            centre: radius,
            cross_from: radius.minus(extent),
            cross_to: radius.plus(extent),
            cell_from: Single::from_usize(half).times(cell),
            cell_side: cell,
            border: radius.minus(Single::ratio(1, 2)),
        }
    }
}

} // verus!
