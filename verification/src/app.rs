//! The application's state and how messages change it.
//!
//! [`AppModel::update`] takes one message and returns the actions that the
//! message asks of the outside world, in order. Windows, outputs and texture
//! handles are known by keys; times are counted in milliseconds.

use crate::app::pairing::{
    overlay_order, overlays_for, reused_order, reused_overlays, window_ids,
};
use crate::cli::Flags;
use crate::config::{format_at, ColorFormat, Config};
use crate::float::{Single, Value};
use crate::ids::{find_id, lemma_filter_next, lemma_place_of, place_of};
use crate::machine::{to_unsigned, unsigned32};
use crate::picker::capture::OutputInfo;
use crate::picker::color::Color;
use crate::picker::controller::{HoverInfo, PickerController, PickerState, Session};
use crate::picker::output::CapturedOutput;
use crate::widget::magnifier::{filled, single, zoomed, MagnifierState, MIN_ZOOM};
use vstd::prelude::*;

pub mod conduct;
pub mod laws;
pub mod pairing;
pub mod view;

verus! {

/// Identifies the application on the session bus and in the configuration.
pub const APP_ID: &'static str = "io.github.nalladev.CosmicExtAppletEyedropper";

/// Tracked state for a single output (monitor).
#[derive(Debug, PartialEq, Eq)]
pub struct OutputState {
    /// Key of the output.
    pub output: u64,
    /// Pre-allocated window id used for the layer-surface overlay on this output.
    pub id: u64,
    /// Connector name (e.g. `"DP-1"`, `"eDP-1"`).
    pub name: String,
    /// Logical size in compositor coordinates.
    pub logical_size: (u32, u32),
    /// Logical position in compositor coordinate space.
    pub logical_pos: (i32, i32),
}

impl Clone for OutputState {
    fn clone(&self) -> (r: Self)
        ensures
            r == *self,
    {
        OutputState {
            output: self.output,
            id: self.id,
            name: self.name.clone(),
            logical_size: self.logical_size,
            logical_pos: self.logical_pos,
        }
    }
}

/// What the compositor reports of an output.
#[derive(Debug, Clone, PartialEq, Eq)]
pub enum OutputEvent {
    /// A new output, with what is known of it.
    Created(Option<OutputInfo>),
    /// The output is gone.
    Removed,
    /// Something about the output changed.
    InfoUpdate(OutputInfo),
}

/// Messages emitted by the application and its widgets.
#[derive(Clone)]
pub enum Message {
    TogglePopup,
    PopupClosed(u64),
    /// A popup that was asked for is there, under this id.
    PopupOpened(u64),
    UpdateConfig(Config),
    /// The "Copy on selection" toggle was changed.
    SetCopyOnSelect(bool),
    /// The colour format at this place was selected in the segmented control.
    SetDefaultFormat(usize),
    /// The eyedropper button was clicked in the popup.
    EyedropperClicked,
    /// A `pick` request arrived via D-Bus activation (`--pick` forwarded
    /// from a second invocation of the applet).
    DbusPick,
    /// Screenshot captured and per-output data is ready.
    CaptureCompleted(Vec<CapturedOutput>),
    /// The screenshot capture failed with an error message.
    CaptureFailed(String),
    /// An output event on an output; an output that is new with it gets the
    /// fresh window id that comes third.
    OutputEvent(OutputEvent, u64, u64),
    /// User pressed Escape or overlay was closed externally.
    PickerCancel,
    /// Pointer moved on a picker overlay window, to this position on it.  The
    /// cursor follows the pointer at every zoom level alike: no sensitivity
    /// scales the motion down where the lens is zoomed in.
    PointerMoved(u64, Single, Single),
    /// Pointer clicked on a picker overlay window.
    PointerClicked(u64),
    /// Scroll-delta from a mouse wheel or touchpad pinch.
    MagnifierZoom(Single),
    /// Periodic frame tick — applies pending zoom deltas.
    FrameTick,
    /// Copy the HEX string to the clipboard.
    CopyHex,
    /// Copy the RGB string to the clipboard.
    CopyRgb,
    /// Copy the HSL string to the clipboard.
    CopyHsl,
    /// Auto-cleared after copy feedback timeout.
    ClearCopyFeedback,
    /// A pre-created overlay surface has been acknowledged by the compositor.
    /// It still waits for its frozen image, so that nothing changes.
    OverlayCreated(u64),
}

/// What a message asks of the outside world.
#[derive(Debug, PartialEq, Eq)]
pub enum Action {
    /// Close the popup.
    DestroyPopup(u64),
    /// Open a popup, and report it with [`Message::PopupOpened`].
    OpenPopup,
    /// Capture the screen, and report the outcome.
    StartCapture,
    /// Create the overlay window with this id on an output.
    CreateOverlay(u64, u64),
    /// Destroy an overlay window.
    DestroyOverlay(u64),
    /// Write a text to the clipboard.
    WriteClipboard(String),
    /// Send [`Message::ClearCopyFeedback`] after the feedback time.
    ScheduleClear,
    /// Persist the "Copy on selection" setting.
    SaveCopyOnSelect(bool),
    /// Persist the default colour format.
    SaveDefaultFormat(ColorFormat),
    /// End the process with this code.
    Exit(i32),
}

/// The application model stores app-specific state used to describe its
/// interface and drive its logic.
pub struct AppModel {
    /// The popup id.
    pub popup: Option<u64>,
    /// Configuration data that persists between application runs.
    pub config: Config,
    /// Command-line flags this instance was launched with.
    pub flags: Flags,
    /// `true` while the deferred `--pick` capture is waiting for the first
    /// tracked output (overlay creation needs the output list).
    pub pending_start: bool,
    /// The active place in the segmented control for the default colour format.
    pub color_format_model: usize,
    /// The most recently sampled colour (if any).
    pub sampled: Option<Color>,
    /// Error message, if something went wrong.
    pub error: Option<String>,
    pub hex: String,
    pub rgb: String,
    pub hsl: String,
    /// The outputs, as the compositor reports them.
    pub outputs: Vec<OutputState>,
    /// `Some` while the user is in picker mode (overlays are visible).
    /// `None` during normal operation.
    pub picker: Option<PickerController>,
    /// Overlay window IDs that have been pre-created (transparent) but
    /// are not yet showing the frozen image.  Populated when a capture starts,
    /// and with each output that appears before it completes; taken over by the
    /// session when it completes, and cleared on cancel.
    pub pending_overlay_ids: Vec<u64>,
    /// Which format was last copied (if any).
    pub copied_target: Option<ColorFormat>,
    /// When the last copy happened (for auto-clearing feedback).
    pub copied_at: Option<u64>,
    pub magnifier: MagnifierState,
}

/// A tracked output, by its values.
pub struct Output {
    pub output: u64,
    pub id: u64,
    pub name: Seq<char>,
    pub logical_size: (u32, u32),
    pub logical_pos: (i32, i32),
}

impl View for OutputState {
    type V = Output;

    open spec fn view(&self) -> Output {
        Output {
            output: self.output,
            id: self.id,
            name: self.name@,
            logical_size: self.logical_size,
            logical_pos: self.logical_pos,
        }
    }
}

/// Tracked outputs, by their values.
pub open spec fn output_views(outputs: Seq<OutputState>) -> Seq<Output> {
    outputs.map_values(|o: OutputState| o@)
}

/// An action, by its values.
pub enum Effect {
    DestroyPopup(u64),
    OpenPopup,
    StartCapture,
    CreateOverlay(u64, u64),
    DestroyOverlay(u64),
    WriteClipboard(Seq<char>),
    ScheduleClear,
    SaveCopyOnSelect(bool),
    SaveDefaultFormat(ColorFormat),
    Exit(i32),
}

impl View for Action {
    type V = Effect;

    open spec fn view(&self) -> Effect {
        match self {
            Action::DestroyPopup(id) => Effect::DestroyPopup(*id),
            Action::OpenPopup => Effect::OpenPopup,
            Action::StartCapture => Effect::StartCapture,
            Action::CreateOverlay(id, output) => Effect::CreateOverlay(*id, *output),
            Action::DestroyOverlay(id) => Effect::DestroyOverlay(*id),
            Action::WriteClipboard(text) => Effect::WriteClipboard(text@),
            Action::ScheduleClear => Effect::ScheduleClear,
            Action::SaveCopyOnSelect(value) => Effect::SaveCopyOnSelect(*value),
            Action::SaveDefaultFormat(format) => Effect::SaveDefaultFormat(*format),
            Action::Exit(code) => Effect::Exit(*code),
        }
    }
}

/// Actions, by their values.
pub open spec fn effects(actions: Seq<Action>) -> Seq<Effect> {
    actions.map_values(|a: Action| a@)
}

/// The application's state, by its values.
#[verifier::ext_equal]
pub struct Model {
    pub popup: Option<u64>,
    pub config: Config,
    pub flags: Flags,
    pub pending_start: bool,
    pub color_format_model: int,
    pub sampled: Option<Color>,
    pub error: Option<Seq<char>>,
    pub hex: Seq<char>,
    pub rgb: Seq<char>,
    pub hsl: Seq<char>,
    pub outputs: Seq<Output>,
    pub picker: Option<Session>,
    pub pending_overlay_ids: Seq<u64>,
    pub copied_target: Option<ColorFormat>,
    pub copied_at: Option<u64>,
    pub buf: Seq<u8>,
    pub zoom_level: int,
    pub pending_zoom_delta: Value<false>,
}

impl View for AppModel {
    type V = Model;

    open spec fn view(&self) -> Model {
        Model {
            popup: self.popup,
            config: self.config,
            flags: self.flags,
            pending_start: self.pending_start,
            color_format_model: self.color_format_model as int,
            sampled: self.sampled,
            error: match self.error {
                Some(text) => Some(text@),
                None => None,
            },
            hex: self.hex@,
            rgb: self.rgb@,
            hsl: self.hsl@,
            outputs: output_views(self.outputs@),
            picker: match self.picker {
                Some(picker) => Some(picker@),
                None => None,
            },
            pending_overlay_ids: self.pending_overlay_ids@,
            copied_target: self.copied_target,
            copied_at: self.copied_at,
            buf: self.magnifier.buf@,
            zoom_level: self.magnifier.zoom_level as int,
            pending_zoom_delta: self.magnifier.pending_zoom_delta@,
        }
    }
}

/// The actions that destroy overlays.
pub open spec fn destroyed(ids: Seq<u64>) -> Seq<Effect> {
    ids.map_values(|id: u64| Effect::DestroyOverlay(id))
}

/// The actions that create an overlay on each output.
pub open spec fn overlays_created(outputs: Seq<Output>) -> Seq<Effect> {
    outputs.map_values(|o: Output| Effect::CreateOverlay(o.id, o.output))
}

impl Model {
    /// The picker is cancelled, or a capture failed: the overlays go and the
    /// popup comes back. With `--pick` the process ends instead.
    pub open spec fn cancelled(self) -> (Model, Seq<Effect>) {
        if self.flags.pick {
            (self, seq![Effect::Exit(0)])
        } else {
            let shown = match self.picker {
                Some(session) => session.overlay_ids,
                None => Seq::empty(),
            };
            (
                Model { picker: None, pending_overlay_ids: Seq::empty(), ..self },
                destroyed(shown) + destroyed(self.pending_overlay_ids) + if self.popup is None {
                    seq![Effect::OpenPopup]
                } else {
                    Seq::empty()
                },
            )
        }
    }

    /// The tracked outputs without a pre-created overlay.
    pub open spec fn uncovered(self) -> Seq<Output> {
        self.outputs.filter(lacks_overlay(self.pending_overlay_ids))
    }

    /// A capture begins, unless a session is active: each tracked output gets its
    /// transparent overlay, if it has none yet, and then the popup goes.
    pub open spec fn started(self) -> (Model, Seq<Effect>) {
        if self.picker is Some {
            (self, Seq::empty())
        } else {
            (
                Model {
                    popup: None,
                    error: None,
                    sampled: None,
                    copied_target: None,
                    copied_at: None,
                    pending_overlay_ids: self.pending_overlay_ids + window_ids(self.uncovered()),
                    zoom_level: MIN_ZOOM as int,
                    pending_zoom_delta: single(0),
                    ..self
                },
                overlays_created(self.uncovered()) + match self.popup {
                    Some(id) => seq![Effect::DestroyPopup(id), Effect::StartCapture],
                    None => seq![Effect::StartCapture],
                },
            )
        }
    }

    /// A capture is there: the session takes over the overlays that were
    /// pre-created. Without any, each tracked output gets its overlay now.
    pub open spec fn completed(self, captures: Seq<CapturedOutput>) -> (Model, Seq<Effect>) {
        if captures.len() == 0 {
            self.failed("No outputs captured"@)
        } else if self.picker is Some {
            (self, Seq::empty())
        } else {
            let reused = self.pending_overlay_ids.len() > 0;
            (
                Model {
                    picker: Some(
                        Session {
                            captures,
                            image_handles: captures.map_values(
                                |c: CapturedOutput| c.image_handle,
                            ),
                            overlay_ids: if reused {
                                reused_order(self.pending_overlay_ids, self.outputs, captures)
                            } else {
                                overlay_order(self.outputs, captures)
                            },
                            hover: None,
                            state: PickerState::Picking,
                        },
                    ),
                    pending_overlay_ids: Seq::empty(),
                    ..self
                },
                if reused {
                    Seq::empty()
                } else {
                    overlays_created(self.outputs)
                },
            )
        }
    }

    /// A capture failed: its message is kept, and with `--pick` the process
    /// ends with a failure code.
    pub open spec fn failed(self, message: Seq<char>) -> (Model, Seq<Effect>) {
        let told = Model { error: Some(message), ..self };
        if self.flags.pick {
            (told, seq![Effect::Exit(1)])
        } else {
            told.cancelled()
        }
    }

    /// A colour is selected: the session ends, the colour and its texts are
    /// kept, and the popup comes back. Where the setting asks for it, the text
    /// in the default format is copied.
    pub open spec fn selected(self, session: Session, color: Color, now: u64) -> (
        Model,
        Seq<Effect>,
    ) {
        let copies = self.config.copy_on_select;
        let format = self.config.default_color_format;
        (
            Model {
                picker: None,
                sampled: Some(color),
                hex: color.hex_text(),
                rgb: color.rgb_text(),
                hsl: color.hsl_text(),
                copied_target: if copies {
                    Some(format)
                } else {
                    self.copied_target
                },
                copied_at: if copies {
                    Some(now)
                } else {
                    self.copied_at
                },
                ..self
            },
            (if copies {
                seq![Effect::WriteClipboard(color_text(color, format))]
            } else {
                Seq::empty()
            }) + destroyed(session.overlay_ids) + seq![Effect::OpenPopup],
        )
    }

    /// A text is copied, if there is one.
    pub open spec fn copied(self, text: Seq<char>, format: ColorFormat, now: u64) -> (
        Model,
        Seq<Effect>,
    ) {
        if text.len() == 0 {
            (self, Seq::empty())
        } else {
            (
                Model { copied_target: Some(format), copied_at: Some(now), ..self },
                seq![Effect::WriteClipboard(text), Effect::ScheduleClear],
            )
        }
    }

    /// The tracked outputs after an event on one of them.
    pub open spec fn tracked_after(self, event: OutputEvent, output: u64, fresh: u64) -> Seq<Output> {
        match event {
            OutputEvent::Created(Some(info)) => if is_complete(info) {
                self.outputs.push(tracked_output(info, output, fresh))
            } else {
                self.outputs
            },
            OutputEvent::Created(None) => self.outputs,
            OutputEvent::Removed => self.outputs.filter(is_other(output)),
            OutputEvent::InfoUpdate(info) => if is_complete(info) {
                match place_of(output_keys(self.outputs), output) {
                    Some(i) => self.outputs.update(
                        i,
                        tracked_output(info, output, self.outputs[i].id),
                    ),
                    None => self.outputs.push(tracked_output(info, output, fresh)),
                }
            } else {
                self.outputs
            },
        }
    }

    /// Whether an event on an output adds it to the tracked ones.
    pub open spec fn is_new(self, event: OutputEvent, output: u64) -> bool {
        match event {
            OutputEvent::Created(Some(info)) => is_complete(info),
            OutputEvent::Created(None) => false,
            OutputEvent::Removed => false,
            OutputEvent::InfoUpdate(info) => is_complete(info) && !output_keys(
                self.outputs,
            ).contains(output),
        }
    }

    /// An output event: the outputs are tracked, and a capture that waited for
    /// the first output begins. An output that appears while overlays wait for
    /// their capture gets its own.
    pub open spec fn output_event(self, event: OutputEvent, output: u64, fresh: u64) -> (
        Model,
        Seq<Effect>,
    ) {
        let next = Model { outputs: self.tracked_after(event, output, fresh), ..self };
        if self.pending_start && next.outputs.len() > 0 && self.picker is None {
            (Model { pending_start: false, ..next }).started()
        } else if self.picker is None && self.pending_overlay_ids.len() > 0 && self.is_new(
            event,
            output,
        ) {
            (
                Model { pending_overlay_ids: self.pending_overlay_ids.push(fresh), ..next },
                seq![Effect::CreateOverlay(fresh, output)],
            )
        } else {
            (next, Seq::empty())
        }
    }

    /// The pointer moved over an overlay: the session knows the cursor, and the
    /// lens shows the pixels around it.
    pub open spec fn pointer_moved(self, id: u64, x: Value<false>, y: Value<false>) -> Model {
        match self.picker {
            Some(session) => match session.moved(id, x, y) {
                Some(hover) => Model {
                    picker: Some(Session { hover: Some(hover), ..session }),
                    buf: filled(
                        self.buf,
                        session.captures[hover.output_index],
                        hover.pixel_pos,
                    ),
                    ..self
                },
                None => self,
            },
            None => self,
        }
    }

    /// The applet button is pressed: the popup opens or closes, unless a session
    /// is active.
    pub open spec fn toggled(self) -> (Model, Seq<Effect>) {
        if self.picker is Some {
            (self, Seq::empty())
        } else {
            match self.popup {
                Some(id) => (Model { popup: None, ..self }, seq![Effect::DestroyPopup(id)]),
                None => (self, seq![Effect::OpenPopup]),
            }
        }
    }

    /// A popup is gone: with `--pick` the process ends with it.
    pub open spec fn popup_closed(self, id: u64) -> (Model, Seq<Effect>) {
        if self.popup == Some(id) {
            (
                Model { popup: None, copied_target: None, copied_at: None, ..self },
                if self.flags.pick {
                    seq![Effect::Exit(0)]
                } else {
                    Seq::empty()
                },
            )
        } else {
            (self, Seq::empty())
        }
    }

    /// The colour format at a place is selected.
    pub open spec fn format_set(self, place: int) -> (Model, Seq<Effect>) {
        match format_at(place) {
            Some(format) => {
                let shown = Model { color_format_model: place, ..self };
                if self.config.default_color_format == format {
                    (shown, Seq::empty())
                } else {
                    (
                        Model {
                            config: Config { default_color_format: format, ..self.config },
                            ..shown
                        },
                        seq![Effect::SaveDefaultFormat(format)],
                    )
                }
            },
            None => (self, Seq::empty()),
        }
    }

    /// The accumulated scroll delta is applied, if there is any.
    pub open spec fn ticked(self) -> Model {
        if self.pending_zoom_delta.equals(single(0)) {
            self
        } else {
            Model {
                zoom_level: zoomed(self.zoom_level, self.pending_zoom_delta),
                pending_zoom_delta: single(0),
                ..self
            }
        }
    }

    /// Whether a message can be handled: a pointer moves over the overlay of a
    /// captured output only.
    pub open spec fn accepts(self, message: Message) -> bool {
        message matches Message::PointerMoved(id, _, _) ==> self.picker matches Some(session)
            ==> session.can_move(id)
    }

    /// The state and the actions that a message leads to.
    pub open spec fn step(self, message: Message, now: u64) -> (Model, Seq<Effect>) {
        match message {
            Message::TogglePopup => self.toggled(),
            Message::PopupOpened(id) => (Model { popup: Some(id), ..self }, Seq::empty()),
            Message::PopupClosed(id) => self.popup_closed(id),
            Message::UpdateConfig(config) => (
                Model { config, color_format_model: config.default_color_format.place(), ..self },
                Seq::empty(),
            ),
            Message::SetCopyOnSelect(value) => (
                Model { config: Config { copy_on_select: value, ..self.config }, ..self },
                seq![Effect::SaveCopyOnSelect(value)],
            ),
            Message::SetDefaultFormat(position) => self.format_set(position as int),
            Message::EyedropperClicked => self.started(),
            Message::DbusPick => self.started(),
            Message::CaptureCompleted(captures) => self.completed(captures@),
            Message::CaptureFailed(text) => self.failed(text@),
            Message::OutputEvent(event, output, fresh) => self.output_event(event, output, fresh),
            Message::PickerCancel => self.cancelled(),
            Message::PointerMoved(id, x, y) => (self.pointer_moved(id, x@, y@), Seq::empty()),
            Message::PointerClicked(id) => match self.picker {
                Some(session) => match session.clicked() {
                    Some(color) => self.selected(session, color, now),
                    None => (self, Seq::empty()),
                },
                None => (self, Seq::empty()),
            },
            Message::MagnifierZoom(delta) => (
                Model { pending_zoom_delta: self.pending_zoom_delta.plus(delta@), ..self },
                Seq::empty(),
            ),
            Message::FrameTick => (self.ticked(), Seq::empty()),
            Message::CopyHex => self.copied(self.hex, ColorFormat::Hex, now),
            Message::CopyRgb => self.copied(self.rgb, ColorFormat::Rgb, now),
            Message::CopyHsl => self.copied(self.hsl, ColorFormat::Hsl, now),
            Message::ClearCopyFeedback => (
                Model { copied_target: None, copied_at: None, ..self },
                Seq::empty(),
            ),
            Message::OverlayCreated(_) => (self, Seq::empty()),
        }
    }
}

/// The text of a colour in a format.
pub open spec fn color_text(color: Color, format: ColorFormat) -> Seq<char> {
    match format {
        ColorFormat::Hex => color.hex_text(),
        ColorFormat::Rgb => color.rgb_text(),
        ColorFormat::Hsl => color.hsl_text(),
    }
}

/// Whether enough is known of an output to track it.
pub open spec fn is_complete(info: OutputInfo) -> bool {
    info.name is Some && info.logical_size is Some && info.logical_position is Some
}

/// An output as it is tracked.
pub open spec fn tracked_output(info: OutputInfo, output: u64, id: u64) -> Output {
    Output {
        output,
        id,
        name: info.name->0@,
        logical_size: (
            unsigned32((info.logical_size->0).0 as int) as u32,
            unsigned32((info.logical_size->0).1 as int) as u32,
        ),
        logical_pos: info.logical_position->0,
    }
}

/// The keys of tracked outputs.
pub open spec fn output_keys(outputs: Seq<Output>) -> Seq<u64> {
    outputs.map_values(|o: Output| o.output)
}

/// Tells the outputs whose overlay is not among some windows.
pub open spec fn lacks_overlay(ids: Seq<u64>) -> spec_fn(Output) -> bool {
    |o: Output| !ids.contains(o.id)
}

/// Tells the outputs other than one.
pub open spec fn is_other(output: u64) -> spec_fn(Output) -> bool {
    |o: Output| o.output != output
}

/// The model before the first message.
pub open spec fn initial(flags: Flags, config: Config) -> Model {
    Model {
        popup: None,
        config,
        flags,
        pending_start: flags.pick,
        color_format_model: config.default_color_format.place(),
        sampled: None,
        error: None,
        hex: Seq::empty(),
        rgb: Seq::empty(),
        hsl: Seq::empty(),
        outputs: Seq::empty(),
        picker: None,
        pending_overlay_ids: Seq::empty(),
        copied_target: None,
        copied_at: None,
        buf: Seq::new(873, |i: int| 0u8),
        zoom_level: MIN_ZOOM as int,
        pending_zoom_delta: single(0),
    }
}

/// Asks for the overlays to be destroyed.
fn push_destroyed(actions: &mut Vec<Action>, ids: &Vec<u64>)
    ensures
        effects(final(actions)@) == effects(old(actions)@) + destroyed(ids@),
{
    let mut i: usize = 0;
    while i < ids.len()
        invariant
            i <= ids@.len(),
            effects(actions@) =~= effects(old(actions)@) + destroyed(ids@.take(i as int)),
        decreases ids@.len() - i,
    {
        let ghost before = actions@;
        actions.push(Action::DestroyOverlay(ids[i]));
        proof {
            let next = destroyed(ids@.take(i + 1));
            assert(next =~= destroyed(ids@.take(i as int)).push(Effect::DestroyOverlay(ids@[i as int])));
            assert(effects(actions@) =~= effects(before).push(Effect::DestroyOverlay(ids@[i as int])));
        }
        i = i + 1;
    }
    assert(ids@.take(ids@.len() as int) =~= ids@);
}

/// An output as it is tracked, if enough is known of it.
fn track(info: OutputInfo, output: u64, id: u64) -> (r: Option<OutputState>)
    ensures
        match r {
            Some(state) => is_complete(info) && state@ == tracked_output(info, output, id),
            None => !is_complete(info),
        },
{
    match (info.name, info.logical_size, info.logical_position) {
        (Some(name), Some((w, h)), Some(logical_pos)) => Some(
            OutputState {
                output,
                id,
                name,
                logical_size: (to_unsigned(w), to_unsigned(h)),
                logical_pos,
            },
        ),
        _ => None,
    }
}

impl AppModel {
    /// Creates the model for the given flags and stored settings.
    pub fn init(flags: Flags, config: Config) -> (r: Self)
        ensures
            r@ == initial(flags, config),
    {
        let color_format_model: usize = config.default_color_format.position();
        let r = AppModel {
            popup: None,
            config,
            flags,
            pending_start: flags.pick,
            color_format_model,
            sampled: None,
            error: None,
            hex: String::new(),
            rgb: String::new(),
            hsl: String::new(),
            outputs: Vec::new(),
            picker: None,
            pending_overlay_ids: Vec::new(),
            copied_target: None,
            copied_at: None,
            magnifier: MagnifierState::new(),
        };
        assert(r@ =~= initial(flags, config));
        r
    }

    /// Update the cached colour representation strings (hex, rgb, hsl) from a
    /// colour.
    fn update_color_strings(&mut self, color: Color)
        ensures
            final(self)@ == (Model {
                hex: color.hex_text(),
                rgb: color.rgb_text(),
                hsl: color.hsl_text(),
                ..old(self)@
            }),
    {
        self.hex = color.hex();
        self.rgb = color.rgb();
        self.hsl = color.hsl();
    }

    /// Pre-create a transparent overlay on each output that has none yet.
    fn create_overlays(&mut self, actions: &mut Vec<Action>)
        ensures
            final(self)@ == (Model {
                pending_overlay_ids: old(self)@.pending_overlay_ids + window_ids(
                    old(self)@.uncovered(),
                ),
                ..old(self)@
            }),
            effects(final(actions)@) == effects(old(actions)@) + overlays_created(
                old(self)@.uncovered(),
            ),
    {
        let ghost all = self@.outputs;
        let ghost pending = self.pending_overlay_ids@;
        let ghost keep = lacks_overlay(pending);
        let mut ids: Vec<u64> = self.pending_overlay_ids.clone();
        let mut k: usize = 0;
        proof {
            reveal(Seq::filter);
            assert(all.take(0) =~= Seq::empty());
            assert(ids@ =~= pending);
        }
        while k < self.outputs.len()
            invariant
                k <= self.outputs@.len(),
                self@ == old(self)@,
                all == self@.outputs,
                pending == self.pending_overlay_ids@,
                keep == lacks_overlay(pending),
                ids@ =~= pending + window_ids(all.take(k as int).filter(keep)),
                effects(actions@) =~= effects(old(actions)@) + overlays_created(
                    all.take(k as int).filter(keep),
                ),
            decreases self.outputs@.len() - k,
        {
            let ghost before = actions@;
            let state = &self.outputs[k];
            proof {
                lemma_filter_next(all, k as int, keep);
                lemma_place_of(pending, state.id);
                assert(all[k as int] == state@);
            }
            if find_id(&self.pending_overlay_ids, state.id).is_none() {
                ids.push(state.id);
                actions.push(Action::CreateOverlay(state.id, state.output));
                assert(effects(actions@) =~= effects(before).push(
                    Effect::CreateOverlay(state.id, state.output),
                ));
            }
            k = k + 1;
        }
        assert(all.take(k as int) =~= all);
        self.pending_overlay_ids = ids;
        assert(self@ =~= (Model { pending_overlay_ids: ids@, ..old(self)@ }));
    }

    /// Begin a screen capture and enter picker mode once it completes.
    ///
    /// Shared by the applet button, the `--pick` command-line option, and
    /// D-Bus activation.  Ignores the request if a picker session is already
    /// active.
    fn start_capture(&mut self) -> (r: Vec<Action>)
        ensures
            (final(self)@, effects(r@)) == old(self)@.started(),
    {
        let mut actions: Vec<Action> = Vec::new();
        // Ignore if already picking.
        if self.picker.is_some() {
            assert(effects(actions@) =~= Seq::empty());
            return actions;
        }
        self.error = None;
        self.sampled = None;
        self.copied_target = None;
        self.copied_at = None;
        self.magnifier.reset();

        // Overlays first, so that the popup goes without a flicker.
        self.create_overlays(&mut actions);

        // Close the popup if it is open.
        if let Some(id) = self.popup {
            self.popup = None;
            actions.push(Action::DestroyPopup(id));
        }
        actions.push(Action::StartCapture);
        proof {
            assert(self@ =~= old(self)@.started().0);
            assert(effects(actions@) =~= old(self)@.started().1);
        }
        actions
    }

    /// Keep the segmented-control selection in sync with the configured
    /// default colour format (e.g. after an external config change).
    fn sync_color_format_model(&mut self)
        ensures
            final(self)@ == (Model {
                color_format_model: old(self)@.config.default_color_format.place(),
                ..old(self)@
            }),
    {
        self.color_format_model = self.config.default_color_format.position();
    }

    /// Destroy all overlay surfaces and reopen the popup.
    /// Used when the picker is cancelled or capture fails.
    fn cancel_picker(&mut self) -> (r: Vec<Action>)
        ensures
            (final(self)@, effects(r@)) == old(self)@.cancelled(),
    {
        let mut actions: Vec<Action> = Vec::new();
        // One-shot CLI mode (--pick): the picker session has ended — exit
        // instead of reopening the popup.
        if self.flags.pick {
            actions.push(Action::Exit(0));
            assert(effects(actions@) =~= old(self)@.cancelled().1);
            return actions;
        }
        // Destroy all overlay surfaces if picker exists.
        if let Some(picker) = &self.picker {
            push_destroyed(&mut actions, &picker.overlay_ids);
        }
        self.picker = None;

        // Destroy any pre-created (transparent) overlays that haven't been
        // populated with captures yet.
        push_destroyed(&mut actions, &self.pending_overlay_ids);
        self.pending_overlay_ids = Vec::new();

        // Reopen the popup if it's not already open.
        if self.popup.is_none() {
            actions.push(Action::OpenPopup);
        }
        proof {
            assert(self@ =~= old(self)@.cancelled().0);
            assert(effects(actions@) =~= old(self)@.cancelled().1);
        }
        actions
    }

    /// Shows why a capture failed, and leaves picker mode.
    fn fail_capture(&mut self, message: String) -> (r: Vec<Action>)
        ensures
            (final(self)@, effects(r@)) == old(self)@.failed(message@),
    {
        self.error = Some(message);
        assert(self@ =~= (Model { error: Some(message@), ..old(self)@ }));
        // One-shot CLI mode: exit with a failure code instead of reopening the
        // popup.
        if self.flags.pick {
            let mut actions: Vec<Action> = Vec::new();
            actions.push(Action::Exit(1));
            assert(effects(actions@) =~= old(self)@.failed(message@).1);
            return actions;
        }
        self.cancel_picker()
    }

    /// Enters picker mode with the captured outputs.
    #[verifier::loop_isolation(false)]
    fn complete_capture(&mut self, captures: Vec<CapturedOutput>) -> (r: Vec<Action>)
        ensures
            (final(self)@, effects(r@)) == old(self)@.completed(captures@),
    {
        if captures.len() == 0 {
            return self.fail_capture("No outputs captured".to_owned());
        }
        let mut actions: Vec<Action> = Vec::new();
        // A session exists already: discard the duplicate capture.
        if self.picker.is_some() {
            assert(effects(actions@) =~= Seq::empty());
            return actions;
        }
        let mut image_handles: Vec<u64> = Vec::new();
        let mut i: usize = 0;
        while i < captures.len()
            invariant
                i <= captures@.len(),
                image_handles@ =~= Seq::new(i as nat, |k: int| captures@[k].image_handle),
            decreases captures@.len() - i,
        {
            image_handles.push(captures[i].image_handle);
            i = i + 1;
        }
        assert(image_handles@ =~= captures@.map_values(|c: CapturedOutput| c.image_handle));

        let mut overlay_ids: Vec<u64> = Vec::new();
        if self.pending_overlay_ids.len() > 0 {
            // Overlays were pre-created (transparent): reuse them.
            let mut pending: Vec<u64> = Vec::new();
            std::mem::swap(&mut pending, &mut self.pending_overlay_ids);
            overlay_ids = reused_overlays(pending, &self.outputs, &captures);
        } else {
            // Create the overlay windows now, one on each output.
            let mut k: usize = 0;
            while k < self.outputs.len()
                invariant
                    k <= self.outputs@.len(),
                    actions@ =~= Seq::new(
                        k as nat,
                        |j: int| Action::CreateOverlay(self.outputs@[j].id, self.outputs@[j].output),
                    ),
                decreases self.outputs@.len() - k,
            {
                let state = &self.outputs[k];
                actions.push(Action::CreateOverlay(state.id, state.output));
                k = k + 1;
            }
            overlay_ids = overlays_for(&self.outputs, &captures);
        }
        self.picker = Some(
            PickerController::new_with_captures(captures, image_handles, overlay_ids),
        );
        proof {
            assert(self@ =~= old(self)@.completed(captures@).0);
            assert(effects(actions@) =~= old(self)@.completed(captures@).1);
        }
        actions
    }

    /// The first place of an output among the tracked ones.
    fn find_output(&self, output: u64) -> (r: Option<usize>)
        ensures
            match r {
                Some(i) => place_of(output_keys(self@.outputs), output) == Some(i as int) && i
                    < self.outputs@.len(),
                None => place_of(output_keys(self@.outputs), output) is None,
            },
    {
        let ghost keys = output_keys(self@.outputs);
        proof {
            lemma_place_of(keys, output);
        }
        let mut i: usize = 0;
        while i < self.outputs.len()
            invariant
                i <= self.outputs@.len(),
                keys == output_keys(self@.outputs),
                forall|j: int| 0 <= j < i ==> #[trigger] keys[j] != output,
                match place_of(keys, output) {
                    Some(p) => 0 <= p < keys.len() && keys[p] == output && forall|j: int|
                        0 <= j < p ==> #[trigger] keys[j] != output,
                    None => !keys.contains(output),
                },
            decreases self.outputs@.len() - i,
        {
            assert(keys[i as int] == self.outputs@[i as int].output);
            if self.outputs[i].output == output {
                return Some(i);
            }
            i = i + 1;
        }
        None
    }

    /// Forgets an output.
    fn remove_output(&mut self, output: u64)
        ensures
            final(self)@ == (Model {
                outputs: old(self)@.outputs.filter(is_other(output)),
                ..old(self)@
            }),
    {
        let ghost all = self@.outputs;
        let ghost keep = is_other(output);
        let ghost mut done: int = 0;
        let mut i: usize = 0;
        proof {
            reveal(Seq::filter);
            assert(all.take(0) =~= Seq::empty());
            assert(all.skip(0) =~= all);
        }
        while i < self.outputs.len()
            invariant
                all == old(self)@.outputs,
                keep == is_other(output),
                0 <= done <= all.len(),
                i == all.take(done).filter(keep).len(),
                self@.outputs =~= all.take(done).filter(keep) + all.skip(done),
                self@ =~= (Model { outputs: self@.outputs, ..old(self)@ }),
            decreases self.outputs@.len() - i,
        {
            let ghost front = all.take(done).filter(keep);
            let ghost before = self@.outputs;
            proof {
                lemma_filter_next(all, done, keep);
                assert(before[i as int] == all.skip(done)[0]);
                assert(before[i as int] == self.outputs@[i as int]@);
                assert(all.skip(done) =~= seq![all[done]] + all.skip(done + 1));
            }
            if self.outputs[i].output == output {
                self.outputs.remove(i);
                assert(self@.outputs =~= before.remove(i as int));
                assert(self@.outputs =~= front + all.skip(done + 1));
            } else {
                i = i + 1;
                assert(self@.outputs =~= front.push(all[done]) + all.skip(done + 1));
            }
            proof {
                done = done + 1;
            }
        }
        proof {
            assert(all.take(done) =~= all);
        }
    }

    /// Tracks an output event, and starts a capture that waited for the first
    /// output.
    fn track_output(&mut self, event: OutputEvent, output: u64, fresh: u64) -> (r: Vec<Action>)
        ensures
            (final(self)@, effects(r@)) == old(self)@.output_event(event, output, fresh),
    {
        let added: bool = self.adds_output(&event, output);
        match event {
            OutputEvent::Created(Some(info)) => {
                if let Some(state) = track(info, output, fresh) {
                    self.outputs.push(state);
                }
            },
            OutputEvent::Created(None) => {},
            OutputEvent::Removed => {
                self.remove_output(output);
            },
            OutputEvent::InfoUpdate(info) => {
                match self.find_output(output) {
                    Some(i) => {
                        let id: u64 = self.outputs[i].id;
                        if let Some(state) = track(info, output, id) {
                            self.outputs.set(i, state);
                        }
                    },
                    None => {
                        // The output appeared without a `Created` event: treat
                        // it as new.
                        if let Some(state) = track(info, output, fresh) {
                            self.outputs.push(state);
                        }
                    },
                }
            },
        }
        assert(self@.outputs =~= old(self)@.tracked_after(event, output, fresh));
        assert(self@ =~= (Model { outputs: self@.outputs, ..old(self)@ }));

        // If launched with --pick, start the capture as soon as outputs are
        // known: overlay creation needs the tracked output list, which is only
        // populated by these events.
        if self.pending_start && self.outputs.len() > 0 && self.picker.is_none() {
            self.pending_start = false;
            return self.start_capture();
        }
        let mut actions: Vec<Action> = Vec::new();
        // A capture is on its way: the output gets its overlay as the others did.
        if added && self.picker.is_none() && self.pending_overlay_ids.len() > 0 {
            self.pending_overlay_ids.push(fresh);
            actions.push(Action::CreateOverlay(fresh, output));
        }
        proof {
            assert(self@ =~= old(self)@.output_event(event, output, fresh).0);
            assert(effects(actions@) =~= old(self)@.output_event(event, output, fresh).1);
        }
        actions
    }

    /// Follows the pointer over an overlay, and fills the lens.
    fn move_pointer(&mut self, id: u64, x: Single, y: Single)
        requires
            old(self)@.picker matches Some(session) ==> session.can_move(id),
        ensures
            final(self)@ == old(self)@.pointer_moved(id, x@, y@),
    {
        let hover: Option<HoverInfo> = match &mut self.picker {
            Some(picker) => picker.on_pointer_motion(id, x, y),
            None => None,
        };
        if let Some(hover) = hover {
            proof {
                let session = old(self)@.picker->0;
                lemma_place_of(session.overlay_ids, id);
            }
            if let Some(picker) = &self.picker {
                self.magnifier.fill(&picker.captures[hover.output_index], hover.pixel_pos);
            }
        }
        assert(self@ =~= old(self)@.pointer_moved(id, x@, y@));
    }

    /// Picks the colour under the pointer, if there is one, and leaves picker
    /// mode with it.
    fn click_pointer(&mut self, id: u64, now: u64) -> (r: Vec<Action>)
        ensures
            (final(self)@, effects(r@)) == (match old(self)@.picker {
                Some(session) => match session.clicked() {
                    Some(color) => old(self)@.selected(session, color, now),
                    None => (old(self)@, Seq::empty()),
                },
                None => (old(self)@, Seq::empty()),
            }),
    {
        let mut actions: Vec<Action> = Vec::new();
        assert(effects(actions@) =~= Seq::empty());
        let picked: Option<Color> = match &mut self.picker {
            Some(picker) => picker.on_pointer_click(id),
            None => None,
        };
        let color = match picked {
            Some(color) => color,
            None => {
                assert(self@ =~= old(self)@);
                return actions;
            },
        };
        let ghost session = old(self)@.picker->0;

        // Colour selected: exit picker mode.
        let mut overlays: Vec<u64> = Vec::new();
        if let Some(picker) = &mut self.picker {
            std::mem::swap(&mut overlays, &mut picker.overlay_ids);
        }
        assert(overlays@ == session.overlay_ids);
        self.picker = None;
        self.sampled = Some(color);
        self.update_color_strings(color);

        // Automatically copy the picked colour when enabled, using the
        // configured default format.
        if self.config.copy_on_select {
            let format = self.config.default_color_format;
            let text = match format {
                ColorFormat::Hex => self.hex.clone(),
                ColorFormat::Rgb => self.rgb.clone(),
                ColorFormat::Hsl => self.hsl.clone(),
            };
            self.copied_target = Some(format);
            self.copied_at = Some(now);
            actions.push(Action::WriteClipboard(text));
            assert(text@ == color_text(color, format));
            assert(effects(actions@) =~= seq![Effect::WriteClipboard(text@)]);
        }
        // Destroy all overlay surfaces, and reopen the popup.
        push_destroyed(&mut actions, &overlays);
        actions.push(Action::OpenPopup);
        proof {
            assert(self@ =~= old(self)@.selected(session, color, now).0);
            assert(effects(actions@) =~= old(self)@.selected(session, color, now).1);
        }
        actions
    }

    /// Copies a text, if there is one.
    fn copy_text(&mut self, text: String, format: ColorFormat, now: u64) -> (r: Vec<Action>)
        ensures
            (final(self)@, effects(r@)) == old(self)@.copied(text@, format, now),
    {
        let mut actions: Vec<Action> = Vec::new();
        if text.as_str().unicode_len() > 0 {
            self.copied_target = Some(format);
            self.copied_at = Some(now);
            actions.push(Action::WriteClipboard(text));
            actions.push(Action::ScheduleClear);
        }
        proof {
            assert(self@ =~= old(self)@.copied(text@, format, now).0);
            assert(effects(actions@) =~= old(self)@.copied(text@, format, now).1);
        }
        actions
    }

    /// Selects the colour format at a place.
    fn set_format(&mut self, position: usize) -> (r: Vec<Action>)
        ensures
            (final(self)@, effects(r@)) == old(self)@.format_set(position as int),
    {
        let mut actions: Vec<Action> = Vec::new();
        if let Some(format) = ColorFormat::at_position(position) {
            self.color_format_model = position;
            if self.config.default_color_format != format {
                self.config.default_color_format = format;
                actions.push(Action::SaveDefaultFormat(format));
            }
        }
        proof {
            assert(self@ =~= old(self)@.format_set(position as int).0);
            assert(effects(actions@) =~= old(self)@.format_set(position as int).1);
        }
        actions
    }

    /// Opens or closes the popup; ignored while in picker mode.
    fn toggle_popup(&mut self) -> (r: Vec<Action>)
        ensures
            (final(self)@, effects(r@)) == old(self)@.toggled(),
    {
        let mut actions: Vec<Action> = Vec::new();
        if self.picker.is_none() {
            match self.popup {
                Some(id) => {
                    self.popup = None;
                    actions.push(Action::DestroyPopup(id));
                },
                None => {
                    actions.push(Action::OpenPopup);
                },
            }
        }
        proof {
            assert(self@ =~= old(self)@.toggled().0);
            assert(effects(actions@) =~= old(self)@.toggled().1);
        }
        actions
    }

    /// The popup is gone.
    fn close_popup(&mut self, id: u64) -> (r: Vec<Action>)
        ensures
            (final(self)@, effects(r@)) == old(self)@.popup_closed(id),
    {
        let mut actions: Vec<Action> = Vec::new();
        let ours: bool = match self.popup {
            Some(open) => open == id,
            None => false,
        };
        if ours {
            self.popup = None;
            self.copied_target = None;
            self.copied_at = None;
            // One-shot CLI mode: the picker session is finished once the result
            // popup is dismissed.
            if self.flags.pick {
                actions.push(Action::Exit(0));
            }
        }
        proof {
            assert(self@ =~= old(self)@.popup_closed(id).0);
            assert(effects(actions@) =~= old(self)@.popup_closed(id).1);
        }
        actions
    }

    /// Whether an event on an output adds it to the tracked ones, and so needs a
    /// fresh window id.
    pub fn adds_output(&self, event: &OutputEvent, output: u64) -> (r: bool)
        ensures
            r == self@.is_new(*event, output),
    {
        let (info, created): (&OutputInfo, bool) = match event {
            OutputEvent::Created(Some(info)) => (info, true),
            OutputEvent::InfoUpdate(info) => (info, false),
            _ => return false,
        };
        let complete: bool = info.name.is_some() && info.logical_size.is_some()
            && info.logical_position.is_some();
        proof {
            lemma_place_of(output_keys(self@.outputs), output);
        }
        complete && (created || self.find_output(output).is_none())
    }

    /// Whether a message can be handled.
    pub fn can_handle(&self, message: &Message) -> (r: bool)
        ensures
            r == self@.accepts(*message),
    {
        match (message, &self.picker) {
            (Message::PointerMoved(id, _, _), Some(picker)) => {
                match picker.overlay_output_index(*id) {
                    Some(i) => i < picker.captures.len(),
                    None => true,
                }
            },
            _ => true,
        }
    }

    /// Handles a message that arrives at the time `now`, in milliseconds.
    /// Returns the actions that it asks for, in order.
    pub fn update(&mut self, message: Message, now: u64) -> (r: Vec<Action>)
        requires
            old(self)@.accepts(message),
        ensures
            (final(self)@, effects(r@)) == old(self)@.step(message, now),
    {
        let mut actions: Vec<Action> = Vec::new();
        match message {
            Message::TogglePopup => {
                return self.toggle_popup();
            },
            Message::PopupOpened(id) => {
                self.popup = Some(id);
            },
            Message::PopupClosed(id) => {
                return self.close_popup(id);
            },
            Message::UpdateConfig(config) => {
                self.config = config;
                self.sync_color_format_model();
            },
            Message::SetCopyOnSelect(value) => {
                self.config.copy_on_select = value;
                actions.push(Action::SaveCopyOnSelect(value));
            },
            Message::SetDefaultFormat(position) => {
                return self.set_format(position);
            },
            Message::EyedropperClicked => {
                return self.start_capture();
            },
            Message::DbusPick => {
                return self.start_capture();
            },
            Message::CaptureCompleted(captures) => {
                return self.complete_capture(captures);
            },
            Message::CaptureFailed(text) => {
                return self.fail_capture(text);
            },
            Message::OutputEvent(event, output, fresh) => {
                return self.track_output(event, output, fresh);
            },
            Message::PickerCancel => {
                return self.cancel_picker();
            },
            Message::PointerMoved(id, x, y) => {
                self.move_pointer(id, x, y);
            },
            Message::PointerClicked(id) => {
                return self.click_pointer(id, now);
            },
            Message::MagnifierZoom(delta) => {
                // Accumulate: applied once per frame in `FrameTick`.
                self.magnifier.scroll(delta);
            },
            Message::FrameTick => {
                self.magnifier.frame_tick();
            },
            Message::CopyHex => {
                let text = self.hex.clone();
                return self.copy_text(text, ColorFormat::Hex, now);
            },
            Message::CopyRgb => {
                let text = self.rgb.clone();
                return self.copy_text(text, ColorFormat::Rgb, now);
            },
            Message::CopyHsl => {
                let text = self.hsl.clone();
                return self.copy_text(text, ColorFormat::Hsl, now);
            },
            Message::ClearCopyFeedback => {
                self.copied_target = None;
                self.copied_at = None;
            },
            Message::OverlayCreated(_) => {},
        }
        proof {
            assert(self@ =~= old(self)@.step(message, now).0);
            assert(effects(actions@) =~= old(self)@.step(message, now).1);
        }
        actions
    }
}

} // verus!
