//! Active picking session controller.
//!
//! Once the screen has been captured, a [`PickerController`] manages all
//! remaining state for the picking session: overlay windows, cursor tracking,
//! coordinate mapping, and sampling.

use crate::float::{widened, Double, Single, Value};
use crate::ids::{find_id, place_of};
use crate::machine::{signed32, to_signed};
use crate::picker::color::{double, Color};
use crate::picker::output::CapturedOutput;
use crate::widget::magnifier::single;
use vstd::prelude::*;

verus! {

/// Snapshot of the cursor state during an active picking session.
///
/// The controller owns all coordinate conversion and sampling.  The overlay
/// simply reads this value to drive its presentation (crosshair, magnifier
/// preview, etc.).
#[derive(Debug, Clone, Copy)]
pub struct HoverInfo {
    /// Index into `captures` / `overlay_ids` for the output under the cursor.
    pub output_index: usize,
    /// Cursor position in this output's local logical coordinates.
    pub local_pos: (Single, Single),
    /// Cursor position in global compositor (logical) coordinate space.
    pub global_pos: (Single, Single),
    /// Pixel position within the captured buffer for this output.
    pub pixel_pos: (u32, u32),
    /// The sampled colour at this position, or `None` if out of bounds.
    pub color: Option<Color>,
}

/// Lifecycle state of the active picking session.
#[derive(Debug, Clone, Copy, PartialEq, Eq, Structural)]
pub enum PickerState {
    /// Overlays are active with captured image.  Waiting for user click
    /// or cancel.
    Picking,
    /// User clicked.  A colour was selected.
    Completed(Color),
    /// User cancelled (Escape).
    Cancelled,
}

/// A self-contained active picking session.
///
/// This object is created after the screen has been captured and manages
/// all state needed for the overlay, pointer tracking, and sampling phases.
/// It is dropped when the picker exits.
pub struct PickerController {
    /// Captured pixel data and metadata for all outputs.
    pub captures: Vec<CapturedOutput>,
    /// Keys of the GPU texture handles for each captured output.  Parallel to
    /// `captures`.  Used by the overlay to render the captured framebuffer as
    /// an opaque frozen background.
    pub image_handles: Vec<u64>,
    /// Window IDs for the layer-surface overlay on each output; parallel to
    /// `captures`, where the names of both tell which output was captured.
    pub overlay_ids: Vec<u64>,
    /// Current hover state (set by pointer-motion handler).
    pub hover: Option<HoverInfo>,
    /// Current lifecycle state.
    pub state: PickerState,
}

/// The cursor state, by its values.
pub struct Hover {
    pub output_index: int,
    pub local_pos: (Value<false>, Value<false>),
    pub global_pos: (Value<false>, Value<false>),
    pub pixel_pos: (u32, u32),
    pub color: Option<Color>,
}

impl View for HoverInfo {
    type V = Hover;

    open spec fn view(&self) -> Hover {
        Hover {
            output_index: self.output_index as int,
            local_pos: (self.local_pos.0@, self.local_pos.1@),
            global_pos: (self.global_pos.0@, self.global_pos.1@),
            pixel_pos: self.pixel_pos,
            color: self.color,
        }
    }
}

/// A picking session, by its values.
#[verifier::ext_equal]
pub struct Session {
    pub captures: Seq<CapturedOutput>,
    pub image_handles: Seq<u64>,
    pub overlay_ids: Seq<u64>,
    pub hover: Option<Hover>,
    pub state: PickerState,
}

impl View for PickerController {
    type V = Session;

    open spec fn view(&self) -> Session {
        Session {
            captures: self.captures@,
            image_handles: self.image_handles@,
            overlay_ids: self.overlay_ids@,
            hover: match self.hover {
                Some(hover) => Some(hover@),
                None => None,
            },
            state: self.state,
        }
    }
}

/// Whether a point of the compositor's space lies on an output. The far edges
/// wrap around as 32-bit signed numbers do.
pub open spec fn covers(o: CapturedOutput, x: Value<false>, y: Value<false>) -> bool {
    let right = signed32(o.pos_x + signed32(o.logical_width as int));
    let bottom = signed32(o.pos_y + signed32(o.logical_height as int));
    &&& x.at_least(single(o.pos_x as int))
    &&& x.below(single(right))
    &&& y.at_least(single(o.pos_y as int))
    &&& y.below(single(bottom))
}

/// The first output that a point lies on.
pub open spec fn first_covering(
    captures: Seq<CapturedOutput>,
    x: Value<false>,
    y: Value<false>,
) -> Option<int>
    decreases captures.len(),
{
    if captures.len() == 0 {
        None
    } else {
        match first_covering(captures.drop_last(), x, y) {
            Some(i) => Some(i),
            None => if covers(captures.last(), x, y) {
                Some(captures.len() - 1)
            } else {
                None
            },
        }
    }
}

/// Buffer pixels per logical pixel along one axis.
pub open spec fn scale(size: u32, logical: u32) -> Value<true> {
    if logical > 0 {
        double(size as int).over(double(logical as int))
    } else {
        double(1)
    }
}

/// The buffer pixel at a logical distance from the output's edge.
pub open spec fn buffer_pixel(distance: Value<false>, size: u32, logical: u32) -> int {
    widened(distance).times(scale(size, logical)).truncated()
}

/// A pixel as an opaque colour.
pub open spec fn opaque(pixel: Option<(u8, u8, u8)>) -> Option<Color> {
    match pixel {
        Some((r, g, b)) => Some(Color { r, g, b, a: 255 }),
        None => None,
    }
}

/// The colour of an output at a logical distance from its top-left corner.
pub open spec fn color_at(o: CapturedOutput, dx: Value<false>, dy: Value<false>) -> Option<Color> {
    opaque(
        o.pixel(
            buffer_pixel(dx, o.width, o.logical_width),
            buffer_pixel(dy, o.height, o.logical_height),
        ),
    )
}

/// The colour at a point of the compositor's space.
pub open spec fn sample(
    captures: Seq<CapturedOutput>,
    x: Value<false>,
    y: Value<false>,
) -> Option<Color> {
    match first_covering(captures, x, y) {
        Some(i) => color_at(
            captures[i],
            x.minus(single(captures[i].pos_x as int)),
            y.minus(single(captures[i].pos_y as int)),
        ),
        None => None,
    }
}

/// The cursor state for a cursor on the overlay of an output.
pub open spec fn hover_at(
    output: CapturedOutput,
    index: int,
    x: Value<false>,
    y: Value<false>,
) -> Hover {
    Hover {
        output_index: index,
        local_pos: (x, y),
        global_pos: (x.plus(single(output.pos_x as int)), y.plus(single(output.pos_y as int))),
        pixel_pos: (
            buffer_pixel(x, output.width, output.logical_width) as u32,
            buffer_pixel(y, output.height, output.logical_height) as u32,
        ),
        color: color_at(output, x, y),
    }
}

impl Session {
    /// Whether the overlay, if it is known, belongs to a captured output.
    pub open spec fn can_move(self, overlay_id: u64) -> bool {
        place_of(self.overlay_ids, overlay_id) matches Some(i) ==> i < self.captures.len()
    }

    /// The cursor state that a pointer motion leads to.
    pub open spec fn moved(self, overlay_id: u64, x: Value<false>, y: Value<false>) -> Option<
        Hover,
    > {
        match place_of(self.overlay_ids, overlay_id) {
            Some(i) => Some(hover_at(self.captures[i], i, x, y)),
            None => None,
        }
    }

    /// The colour that a click picks.
    pub open spec fn clicked(self) -> Option<Color> {
        match self.hover {
            Some(hover) => sample(self.captures, hover.global_pos.0, hover.global_pos.1),
            None => None,
        }
    }
}

/// What `first_covering` gives is the first output that covers the point.
pub proof fn lemma_first_covering(
    captures: Seq<CapturedOutput>,
    x: Value<false>,
    y: Value<false>,
)
    ensures
        match first_covering(captures, x, y) {
            Some(i) => {
                &&& 0 <= i < captures.len()
                &&& covers(captures[i], x, y)
                &&& forall|j: int| 0 <= j < i ==> !covers(#[trigger] captures[j], x, y)
            },
            None => forall|j: int|
                0 <= j < captures.len() ==> !covers(#[trigger] captures[j], x, y),
        },
    decreases captures.len(),
{
    if captures.len() > 0 {
        let front = captures.drop_last();
        lemma_first_covering(front, x, y);
        assert forall|j: int| 0 <= j < front.len() implies #[trigger] captures[j] == front[j] by {}
    }
}

/// Buffer pixels per logical pixel along one axis.
fn axis_scale(size: u32, logical: u32) -> (r: Double)
    ensures
        r@ == scale(size, logical),
{
    if logical > 0 {
        Double::from_u32(size).over(Double::from_u32(logical))
    } else {
        Double::from_u32(1)
    }
}

/// The colour of a pixel of an output, if it is in range.
fn opaque_pixel(output: &CapturedOutput, x: u32, y: u32) -> (r: Option<Color>)
    ensures
        r == opaque(output.pixel(x as int, y as int)),
{
    match output.pixel_at(x, y) {
        Some((r, g, b)) => Some(Color { r, g, b, a: 255 }),
        None => None,
    }
}

/// Whether a point of the compositor's space lies on an output.
fn is_on(o: &CapturedOutput, x: Single, y: Single) -> (r: bool)
    ensures
        r == covers(*o, x@, y@),
{
    let right: i32 = to_signed(o.pos_x as i64 + to_signed(o.logical_width as i64) as i64);
    let bottom: i32 = to_signed(o.pos_y as i64 + to_signed(o.logical_height as i64) as i64);
    x.at_least(Single::ratio(o.pos_x, 1)) && x.below(Single::ratio(right, 1)) && y.at_least(
        Single::ratio(o.pos_y, 1),
    ) && y.below(Single::ratio(bottom, 1))
}

impl PickerController {
    /// Create a new controller already in [`PickerState::Picking`] with
    /// captures, image handles and overlay IDs all provided at once.
    ///
    /// This is used when capture has already completed and overlays are
    /// about to be created.
    #[must_use]
    pub fn new_with_captures(
        captures: Vec<CapturedOutput>,
        image_handles: Vec<u64>,
        overlay_ids: Vec<u64>,
    ) -> (r: Self)
        ensures
            r == (PickerController {
                captures,
                image_handles,
                overlay_ids,
                hover: None,
                state: PickerState::Picking,
            }),
    {
        PickerController {
            captures,
            image_handles,
            overlay_ids,
            hover: None,
            state: PickerState::Picking,
        }
    }

    /// Return the index of the output associated with a given overlay
    /// window ID, or `None` if the ID is unknown.
    pub fn overlay_output_index(&self, overlay_id: u64) -> (r: Option<usize>)
        ensures
            match r {
                Some(i) => place_of(self.overlay_ids@, overlay_id) == Some(i as int) && i
                    < self.overlay_ids@.len(),
                None => place_of(self.overlay_ids@, overlay_id) is None,
            },
    {
        find_id(&self.overlay_ids, overlay_id)
    }

    /// Determine which output contains the given logical (compositor-space)
    /// point.  Returns the index into `self.captures`, or `None` if the point
    /// falls outside all outputs.
    #[must_use]
    pub fn output_at(&self, x: Single, y: Single) -> (r: Option<usize>)
        ensures
            match r {
                Some(i) => first_covering(self.captures@, x@, y@) == Some(i as int) && i
                    < self.captures@.len(),
                None => first_covering(self.captures@, x@, y@) is None,
            },
    {
        let mut i: usize = 0;
        while i < self.captures.len()
            invariant
                i <= self.captures@.len(),
                forall|j: int| 0 <= j < i ==> !covers(#[trigger] self.captures@[j], x@, y@),
            decreases self.captures@.len() - i,
        {
            if is_on(&self.captures[i], x, y) {
                proof {
                    lemma_first_covering(self.captures@, x@, y@);
                    assert(covers(self.captures@[i as int], x@, y@));
                }
                return Some(i);
            }
            i = i + 1;
        }
        proof {
            lemma_first_covering(self.captures@, x@, y@);
        }
        None
    }

    /// Sample the pixel at the given logical (compositor-space) coordinates.
    ///
    /// Returns `None` if the point falls outside all outputs or if the
    /// underlying buffer does not contain the computed pixel offset.
    #[must_use]
    pub fn sample_at(&self, x: Single, y: Single) -> (r: Option<Color>)
        ensures
            r == sample(self.captures@, x@, y@),
    {
        let idx: usize = match self.output_at(x, y) {
            Some(i) => i,
            None => return None,
        };
        let output = &self.captures[idx];

        // Compute the scale factor from logical to buffer pixels.
        let scale_x = axis_scale(output.width, output.logical_width);
        let scale_y = axis_scale(output.height, output.logical_height);

        let px: u32 = x.minus(Single::ratio(output.pos_x, 1)).widened().times(scale_x).truncated();
        let py: u32 = y.minus(Single::ratio(output.pos_y, 1)).widened().times(scale_y).truncated();

        opaque_pixel(output, px, py)
    }

    /// Process a pointer-motion event on an overlay window.
    ///
    /// Converts the surface-local cursor coordinates into the hover state
    /// (output index, pixel position, sampled colour) and stores it in
    /// `self.hover`.
    ///
    /// Returns the new [`HoverInfo`] on success, or `None` if the overlay
    /// window ID is unknown.
    pub fn on_pointer_motion(
        &mut self,
        overlay_id: u64,
        surface_x: Single,
        surface_y: Single,
    ) -> (r: Option<HoverInfo>)
        requires
            old(self)@.can_move(overlay_id),
        ensures
            match r {
                Some(info) => old(self)@.moved(overlay_id, surface_x@, surface_y@) == Some(info@),
                None => old(self)@.moved(overlay_id, surface_x@, surface_y@) is None,
            },
            r matches Some(info) ==> info.local_pos == (surface_x, surface_y),
            final(self)@ == (Session {
                hover: match r {
                    Some(info) => Some(info@),
                    None => old(self)@.hover,
                },
                ..old(self)@
            }),
            final(self).captures == old(self).captures,
    {
        let output_idx: usize = match self.overlay_output_index(overlay_id) {
            Some(i) => i,
            None => return None,
        };
        let output = &self.captures[output_idx];

        // Surface-local coordinates are already output-local logical
        // coordinates (the overlay spans the entire output).
        //
        // Global compositor position = output origin + surface offset.
        let global_x = surface_x.plus(Single::ratio(output.pos_x, 1));
        let global_y = surface_y.plus(Single::ratio(output.pos_y, 1));

        // Scale factors for logical to buffer coordinate conversion.
        let scale_x = axis_scale(output.width, output.logical_width);
        let scale_y = axis_scale(output.height, output.logical_height);

        let pixel_x: u32 = surface_x.widened().times(scale_x).truncated();
        let pixel_y: u32 = surface_y.widened().times(scale_y).truncated();

        let color = opaque_pixel(output, pixel_x, pixel_y);

        let info = HoverInfo {
            output_index: output_idx,
            local_pos: (surface_x, surface_y),
            global_pos: (global_x, global_y),
            pixel_pos: (pixel_x, pixel_y),
            color,
        };
        self.hover = Some(info);
        Some(info)
    }

    /// Process a pointer-click event on an overlay window.
    ///
    /// Uses the **last known hover position** (updated by
    /// [`Self::on_pointer_motion`]) to sample the colour.  Returns the selected
    /// colour and transitions to [`PickerState::Completed`].
    ///
    /// If no hover state is available (e.g. click before any motion),
    /// returns `None` and the caller should treat the click as a no-op.
    pub fn on_pointer_click(&mut self, _overlay_id: u64) -> (r: Option<Color>)
        ensures
            r == old(self)@.clicked(),
            final(self)@ == (Session {
                state: match r {
                    Some(color) => PickerState::Completed(color),
                    None => old(self)@.state,
                },
                ..old(self)@
            }),
    {
        let hover = match self.hover {
            Some(hover) => hover,
            None => return None,
        };
        let color = match self.sample_at(hover.global_pos.0, hover.global_pos.1) {
            Some(color) => color,
            None => return None,
        };
        self.state = PickerState::Completed(color);
        Some(color)
    }
}

} // verus!
