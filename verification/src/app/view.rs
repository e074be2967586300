//! What the windows of the application show.

use crate::app::{AppModel, Message, Model};
use crate::config::ColorFormat;
use crate::float::Single;
use crate::ids::{find_id, lemma_place_of, place_of};
use crate::picker::controller::Session;
use crate::widget::magnifier::{
    lens_pixel, mask_cell, single, snapped, LensMasks, LensStrokes, MagnifierProgram, GRID_SIZE,
};
use crate::widget::placement::{lens_side, lens_x, lens_y, place_lens, Placement};
use vstd::prelude::*;

verus! {

/// How long a copy is shown as just done, in milliseconds.
pub const FEEDBACK_MS: u64 = 2000;

/// The windows of the application.
#[derive(Debug, Clone, Copy, PartialEq, Eq, Structural)]
pub enum Window {
    /// A picker overlay (active picker or pre-created).
    Overlay,
    /// The popup.
    Popup,
    /// A window that is not known.
    Unknown,
}

/// What the copy-area of a row shows.
#[derive(Debug, Clone, Copy, PartialEq, Eq, Structural)]
pub enum Indicator {
    /// A symbolic copy icon.
    Copy,
    /// A temporary checkmark after copying.
    Checkmark,
    /// Empty space.
    Empty,
}

/// A single colour-representation row (value and copy button).
#[derive(Debug, PartialEq, Eq)]
pub struct ColorRow {
    /// The text of the colour.
    pub value: String,
    /// The format that a press copies.
    pub target: ColorFormat,
    /// What the copy-area shows.
    pub indicator: Indicator,
}

/// The normal eyedropper popup.
#[derive(Debug, PartialEq, Eq)]
pub struct PopupView {
    /// The colour of the swatch.
    pub swatch: (u8, u8, u8),
    /// The HEX value at the centre; without one a placeholder stands there.
    pub centre: Option<String>,
    /// The colour values section.
    pub rows: Vec<ColorRow>,
    /// Status / error message.
    pub error: Option<String>,
    /// Whether the "Copy on selection" toggle is on.
    pub copy_on_select: bool,
    /// The active place in the default-format choice, which only matters when
    /// auto-copy is enabled.
    pub format_choice: Option<usize>,
}

/// The magnifier lens on an overlay.
#[derive(Debug)]
pub struct MagnifierView {
    /// Where the lens goes.
    pub placement: Placement,
    /// The texture of the lens (R, G, B, A bytes, row-major).
    pub rgba: Vec<u8>,
    /// What is stroked above the texture.
    pub strokes: LensStrokes,
}

/// A picker overlay window.
#[derive(Debug)]
pub enum OverlayView {
    /// Nothing to show.
    Placeholder,
    /// Pre-created overlay: the capture is in progress.  A full-screen
    /// transparent surface with keyboard support so Escape works immediately.
    Waiting,
    /// Full interaction: the texture of the captured framebuffer, if there is
    /// one for this overlay, and the magnifier, if the cursor is known.
    Picking(Option<u64>, Option<MagnifierView>),
}

impl Model {
    /// Whether a window is an overlay of the active session.
    pub open spec fn is_shown(self, id: u64) -> bool {
        self.picker matches Some(session) && session.overlay_ids.contains(id)
    }

    /// What a window is.
    pub open spec fn window(self, id: u64) -> Window {
        if self.is_shown(id) || self.pending_overlay_ids.contains(id) {
            Window::Overlay
        } else if self.popup == Some(id) {
            Window::Popup
        } else {
            Window::Unknown
        }
    }

    /// The message that a close request leads to.
    pub open spec fn close_requested(self, id: u64) -> Option<Message> {
        if self.is_shown(id) {
            Some(Message::PickerCancel)
        } else if self.popup == Some(id) {
            Some(Message::PopupClosed(id))
        } else {
            None
        }
    }

    /// Whether the copy of a format is shown as just done.
    pub open spec fn just_copied(self, target: ColorFormat, now: u64) -> bool {
        &&& self.copied_at matches Some(at) && now - at < FEEDBACK_MS
        &&& self.copied_target == Some(target)
    }

    /// What the copy-area of a format's row shows: a checkmark after copying,
    /// otherwise the copy icon if a colour has been selected.
    pub open spec fn indicator(self, target: ColorFormat, now: u64) -> Indicator {
        if self.just_copied(target, now) {
            Indicator::Checkmark
        } else if self.sampled is Some {
            Indicator::Copy
        } else {
            Indicator::Empty
        }
    }

    /// The cached text in a format.
    pub open spec fn text(self, format: ColorFormat) -> Seq<char> {
        match format {
            ColorFormat::Hex => self.hex,
            ColorFormat::Rgb => self.rgb,
            ColorFormat::Hsl => self.hsl,
        }
    }

    /// The colour of the swatch.
    pub open spec fn swatch(self) -> (u8, u8, u8) {
        match self.sampled {
            Some(color) => (color.r, color.g, color.b),
            None => (255, 255, 255),
        }
    }
}

impl ColorRow {
    /// Whether this is the row of a format of a colour.
    pub open spec fn shows(self, model: Model, text: Seq<char>, target: ColorFormat, now: u64)
        -> bool {
        &&& self.value@ == text
        &&& self.target == target
        &&& self.indicator == model.indicator(target, now)
    }
}

impl PopupView {
    /// Whether this is the popup of a model.
    pub open spec fn shows(self, model: Model, now: u64) -> bool {
        &&& self.swatch == model.swatch()
        &&& match model.sampled {
            Some(color) => {
                &&& self.centre matches Some(text) && text@ == color.hex_text()
                &&& self.rows@.len() == 3
                &&& self.rows@[0].shows(model, color.hex_text(), ColorFormat::Hex, now)
                &&& self.rows@[1].shows(model, color.rgb_text(), ColorFormat::Rgb, now)
                &&& self.rows@[2].shows(model, color.hsl_text(), ColorFormat::Hsl, now)
            },
            None => self.centre is None && self.rows@.len() == 0,
        }
        &&& match model.error {
            Some(text) => self.error matches Some(shown) && shown@ == text,
            None => self.error is None,
        }
        &&& self.copy_on_select == model.config.copy_on_select
        &&& match self.format_choice {
            Some(place) => model.config.copy_on_select && place == model.color_format_model,
            None => !model.config.copy_on_select,
        }
    }
}

impl MagnifierView {
    /// Whether this is the lens of a model for a session whose cursor is known.
    pub open spec fn shows(self, model: Model, session: Session) -> bool {
        let hover = session.hover->0;
        let capture = session.captures[hover.output_index];
        let total = lens_side(model.zoom_level);
        let zoom = snapped(single(model.zoom_level));
        let side = 17 * zoom;
        let program = MagnifierProgram {
            grid_size: GRID_SIZE,
            pixel_size: self.strokes.cell_side,
        };
        &&& self.placement.total@ == total
        &&& self.placement.x@ == lens_x(hover.local_pos.0, total, capture.logical_width as int)
        &&& self.placement.y@ == lens_y(hover.local_pos.1, total, capture.logical_height as int)
        &&& self.rgba@.len() == 4 * (side * side)
        &&& forall|x: int, y: int|
            0 <= x < side && 0 <= y < side ==> #[trigger] self.rgba@.subrange(
                4 * (y * side + x),
                4 * (y * side + x) + 4,
            ) == lens_pixel(mask_cell(zoom, x, y) as u16, model.buf)
        &&& self.strokes.cell_side@ == single(model.zoom_level)
        &&& program.strokes_are(self.strokes)
    }
}

/// Whether a session shows the lens: the cursor is known and its output is
/// captured.
pub open spec fn has_lens(session: Session) -> bool {
    session.hover matches Some(hover) && 0 <= hover.output_index < session.captures.len()
}

/// The texture that the overlay of a session shows.
pub open spec fn frozen_image(session: Session, id: u64) -> Option<u64> {
    match place_of(session.overlay_ids, id) {
        Some(i) => if i < session.image_handles.len() {
            Some(session.image_handles[i])
        } else {
            None
        },
        None => None,
    }
}

impl OverlayView {
    /// Whether this is what the overlay of a model shows.
    pub open spec fn shows(self, model: Model, id: u64) -> bool {
        match model.picker {
            Some(session) => {
                &&& self matches OverlayView::Picking(image, lens)
                &&& image == frozen_image(session, id)
                &&& match lens {
                    Some(view) => has_lens(session) && view.shows(model, session),
                    None => !has_lens(session),
                }
            },
            None => if model.pending_overlay_ids.contains(id) {
                self is Waiting
            } else {
                self is Placeholder
            },
        }
    }
}

/// The message that a press on the row of a format leads to.
pub open spec fn press(format: ColorFormat) -> Message {
    match format {
        ColorFormat::Hex => Message::CopyHex,
        ColorFormat::Rgb => Message::CopyRgb,
        ColorFormat::Hsl => Message::CopyHsl,
    }
}

/// The message that a press on the row of a format leads to.
pub fn press_message(format: ColorFormat) -> (r: Message)
    ensures
        r == press(format),
{
    match format {
        ColorFormat::Hex => Message::CopyHex,
        ColorFormat::Rgb => Message::CopyRgb,
        ColorFormat::Hsl => Message::CopyHsl,
    }
}

/// The message that a key on an overlay leads to.
pub fn key_message(is_escape: bool) -> (r: Option<Message>)
    ensures
        r == if is_escape {
            Some(Message::PickerCancel)
        } else {
            None
        },
{
    if is_escape {
        Some(Message::PickerCancel)
    } else {
        None
    }
}

/// Whether a list holds an ID.
fn holds_id(ids: &Vec<u64>, id: u64) -> (r: bool)
    ensures
        r == ids@.contains(id),
{
    proof {
        lemma_place_of(ids@, id);
    }
    find_id(ids, id).is_some()
}

impl AppModel {
    /// Whether a window is an overlay of the active session.
    fn shows_overlay(&self, id: u64) -> (r: bool)
        ensures
            r == self@.is_shown(id),
    {
        match &self.picker {
            Some(picker) => holds_id(&picker.overlay_ids, id),
            None => false,
        }
    }

    /// Whether a window is the popup.
    fn is_popup(&self, id: u64) -> (r: bool)
        ensures
            r == (self@.popup == Some(id)),
    {
        match self.popup {
            Some(open) => open == id,
            None => false,
        }
    }

    /// The message that a request to close a window leads to: the picker is
    /// cancelled if an overlay is closed externally.
    pub fn on_close_requested(&self, id: u64) -> (r: Option<Message>)
        ensures
            r == self@.close_requested(id),
    {
        if self.shows_overlay(id) {
            return Some(Message::PickerCancel);
        }
        if self.is_popup(id) {
            return Some(Message::PopupClosed(id));
        }
        None
    }

    /// What a window is: the popup or a picker overlay.
    pub fn view_window(&self, id: u64) -> (r: Window)
        ensures
            r == self@.window(id),
    {
        if self.shows_overlay(id) || holds_id(&self.pending_overlay_ids, id) {
            return Window::Overlay;
        }
        if self.is_popup(id) {
            return Window::Popup;
        }
        Window::Unknown
    }

    /// Build a single colour-representation row.
    ///
    /// The copy-area shows a symbolic copy icon when a colour is available,
    /// a temporary checkmark after copying, or empty space when no colour
    /// has been selected.
    pub fn color_row(&self, value: String, target: ColorFormat, now: u64) -> (r: ColorRow)
        ensures
            r.shows(self@, value@, target, now),
    {
        let recent: bool = match self.copied_at {
            Some(at) => now < at || now - at < FEEDBACK_MS,
            None => false,
        };
        let ours: bool = match self.copied_target {
            Some(format) => format == target,
            None => false,
        };
        let indicator = if recent && ours {
            Indicator::Checkmark
        } else if self.sampled.is_some() {
            Indicator::Copy
        } else {
            Indicator::Empty
        };
        ColorRow { value, target, indicator }
    }

    /// What the popup shows at the time `now`, in milliseconds.
    pub fn view_popup(&self, now: u64) -> (r: PopupView)
        ensures
            r.shows(self@, now),
    {
        let mut rows: Vec<ColorRow> = Vec::new();
        let (swatch, centre): ((u8, u8, u8), Option<String>) = match self.sampled {
            Some(color) => {
                rows.push(self.color_row(color.hex(), ColorFormat::Hex, now));
                rows.push(self.color_row(color.rgb(), ColorFormat::Rgb, now));
                rows.push(self.color_row(color.hsl(), ColorFormat::Hsl, now));
                ((color.r, color.g, color.b), Some(color.hex()))
            },
            None => ((255, 255, 255), None),
        };
        let error: Option<String> = match &self.error {
            Some(text) => Some(text.clone()),
            None => None,
        };
        PopupView {
            swatch,
            centre,
            rows,
            error,
            copy_on_select: self.config.copy_on_select,
            format_choice: if self.config.copy_on_select {
                Some(self.color_format_model)
            } else {
                None
            },
        }
    }

    /// Build a circular magnifier lens positioned near the cursor.
    ///
    /// Returns `None` if no hover state is available (e.g. before the first
    /// pointer-motion event).
    pub fn build_magnifier(&self, masks: &LensMasks) -> (r: Option<MagnifierView>)
        ensures
            match r {
                Some(view) => self@.picker matches Some(session) && has_lens(session)
                    && view.shows(self@, session),
                None => self@.picker matches Some(session) ==> !has_lens(session),
            },
    {
        let picker = match &self.picker {
            Some(picker) => picker,
            None => return None,
        };
        let hover = match picker.hover {
            Some(hover) => hover,
            None => return None,
        };
        if hover.output_index >= picker.captures.len() {
            return None;
        }
        let capture = &picker.captures[hover.output_index];
        let zoom: u32 = self.magnifier.zoom_level;
        let program = MagnifierProgram { grid_size: GRID_SIZE, pixel_size: Single::from_u32(zoom) };
        Some(
            MagnifierView {
                placement: place_lens(
                    hover.local_pos,
                    capture.logical_width,
                    capture.logical_height,
                    zoom,
                ),
                rgba: self.magnifier.lens(masks),
                strokes: program.draw(),
            },
        )
    }

    /// What a picker overlay window shows: the captured framebuffer fullscreen
    /// with pointer tracking, and the magnifier.
    pub fn view_picker_overlay(&self, id: u64, masks: &LensMasks) -> (r: OverlayView)
        ensures
            r.shows(self@, id),
    {
        match &self.picker {
            Some(picker) => {
                // Background layer: captured framebuffer (frozen desktop).
                let image: Option<u64> = match picker.overlay_output_index(id) {
                    Some(i) => if i < picker.image_handles.len() {
                        Some(picker.image_handles[i])
                    } else {
                        None
                    },
                    None => None,
                };
                OverlayView::Picking(image, self.build_magnifier(masks))
            },
            None => if holds_id(&self.pending_overlay_ids, id) {
                OverlayView::Waiting
            } else {
                OverlayView::Placeholder
            },
        }
    }
}

} // verus!
