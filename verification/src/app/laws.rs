//! What holds of the application as a whole.

use crate::app::pairing::{
    captures_match, is_named, law_every_output_has_its_overlay, law_overlays_are_parallel,
    law_reused_are_parallel, law_reused_are_the_same, names_one, reused_order, window_ids,
};
use crate::app::view::{press, FEEDBACK_MS};
use crate::app::{
    color_text, destroyed, initial, is_complete, is_other, lacks_overlay, output_keys,
    overlays_created, tracked_output, Effect, Message, Model, OutputEvent,
};
use crate::cli::Flags;
use crate::config::{format_at, ColorFormat, Config};
use crate::float::{Single, Value};
use crate::ids::{lemma_filter_all, lemma_filter_keeps, lemma_place_of, place_of};
use crate::order::{is_finite, lemma_whole, lemma_whole_add};
use crate::picker::capture::OutputInfo;
use crate::picker::color::Color;
use crate::picker::controller::{color_at, PickerState, Session};
use crate::picker::output::CapturedOutput;
use crate::picker::sampling::{
    is_desktop, is_ordinary, is_over, law_click_picks_hovered, law_pixel_is_captured,
    law_whole_click,
};
use crate::widget::magnifier::{
    filled, is_captured, law_lens_shows_neighbours, lens_pixel, single, MAX_ZOOM, MIN_ZOOM,
};
use crate::widget::zoom::{
    law_least_scroll, law_wheel_zooms, law_zoom_stays_in_range, least_scroll,
};
use vstd::prelude::*;

verus! {

/// Whether a session fits together: it is waiting for a click, the image handles
/// are those of the captures, and the cursor is on a captured output whose
/// colour it shows.
pub open spec fn is_session(session: Session) -> bool {
    &&& session.state == PickerState::Picking
    &&& session.captures.len() > 0
    &&& session.image_handles == session.captures.map_values(
        |c: CapturedOutput| c.image_handle,
    )
    &&& session.hover matches Some(hover) ==> {
        &&& 0 <= hover.output_index < session.captures.len()
        &&& hover.color == color_at(
            session.captures[hover.output_index],
            hover.local_pos.0,
            hover.local_pos.1,
        )
    }
}

/// Whether each tracked output has a pre-created overlay.
pub open spec fn is_covered(m: Model) -> bool {
    forall|k: int|
        0 <= k < m.outputs.len() ==> m.pending_overlay_ids.contains((#[trigger] m.outputs[k]).id)
}

/// What is true of the model at any time: the zoom is in range, the segmented
/// control shows the configured format, the texts are those of the sampled
/// colour, and copy feedback has a time where it has a target. Overlays are
/// pre-created on each tracked output or on none, and on none while a session is
/// active.
pub open spec fn is_consistent(m: Model) -> bool {
    &&& MIN_ZOOM <= m.zoom_level <= MAX_ZOOM
    &&& m.buf.len() == 873
    &&& m.color_format_model == m.config.default_color_format.place()
    &&& m.sampled matches Some(color) ==> {
        &&& m.hex == color.hex_text()
        &&& m.rgb == color.rgb_text()
        &&& m.hsl == color.hsl_text()
    }
    &&& m.copied_at is Some <==> m.copied_target is Some
    &&& m.picker matches Some(session) ==> is_session(session)
    &&& m.picker is Some ==> m.pending_overlay_ids.len() == 0
    &&& m.pending_overlay_ids.len() > 0 ==> is_covered(m)
}

/// The model is consistent at the start.
pub proof fn law_starts_consistent(flags: Flags, config: Config)
    ensures
        is_consistent(initial(flags, config)),
{
}

/// Every message that can be handled keeps the model consistent.
pub proof fn law_stays_consistent(m: Model, message: Message, now: u64)
    requires
        is_consistent(m),
        m.accepts(message),
    ensures
        is_consistent(m.step(message, now).0),
{
    match message {
        Message::TogglePopup => {},
        Message::PopupClosed(id) => {},
        Message::PopupOpened(id) => {},
        Message::UpdateConfig(config) => {},
        Message::SetCopyOnSelect(value) => {},
        Message::SetDefaultFormat(position) => {},
        Message::EyedropperClicked => {
            lemma_started(m);
        },
        Message::DbusPick => {
            lemma_started(m);
        },
        Message::CaptureCompleted(captures) => {
            lemma_completed(m, captures@);
        },
        Message::CaptureFailed(text) => {},
        Message::OutputEvent(event, output, fresh) => {
            lemma_output_event(m, event, output, fresh);
        },
        Message::PickerCancel => {},
        Message::PointerMoved(id, x, y) => {
            lemma_pointer_moved(m, id, x@, y@);
        },
        Message::PointerClicked(id) => {},
        Message::MagnifierZoom(delta) => {},
        Message::FrameTick => {
            law_zoom_stays_in_range(m.zoom_level, m.pending_zoom_delta);
        },
        Message::CopyHex => {},
        Message::CopyRgb => {},
        Message::CopyHsl => {},
        Message::ClearCopyFeedback => {},
        Message::OverlayCreated(id) => {},
    }
}

/// A capture that starts leaves each output with a pre-created overlay.
proof fn lemma_started_covers(m: Model)
    requires
        m.picker is None,
    ensures
        is_covered(m.started().0),
{
    let next = m.started().0;
    let added = m.uncovered();
    let ids = window_ids(added);
    let keep = lacks_overlay(m.pending_overlay_ids);
    assert forall|k: int| 0 <= k < m.outputs.len() implies next.pending_overlay_ids.contains(
        (#[trigger] m.outputs[k]).id,
    ) by {
        let o = m.outputs[k];
        if m.pending_overlay_ids.contains(o.id) {
            let p = m.pending_overlay_ids.index_of(o.id);
            assert(next.pending_overlay_ids[p] == o.id);
        } else {
            assert(m.outputs.contains(o));
            lemma_filter_keeps(m.outputs, keep, o);
            let p = added.index_of(o);
            assert(ids[p] == o.id);
            assert(next.pending_overlay_ids[m.pending_overlay_ids.len() + p] == o.id);
        }
    }
}

proof fn lemma_started(m: Model)
    requires
        is_consistent(m),
    ensures
        is_consistent(m.started().0),
{
    if m.picker is None {
        lemma_started_covers(m);
    }
}

proof fn lemma_completed(m: Model, captures: Seq<CapturedOutput>)
    requires
        is_consistent(m),
    ensures
        is_consistent(m.completed(captures).0),
{
}

proof fn lemma_output_event(m: Model, event: OutputEvent, output: u64, fresh: u64)
    requires
        is_consistent(m),
    ensures
        is_consistent(m.output_event(event, output, fresh).0),
{
    let next = Model { outputs: m.tracked_after(event, output, fresh), ..m };
    if m.pending_start && next.outputs.len() > 0 && m.picker is None {
        lemma_started_covers(Model { pending_start: false, ..next });
    } else if m.pending_overlay_ids.len() > 0 {
        lemma_event_keeps_covered(m, event, output, fresh);
    }
}

/// An output event that starts no capture keeps each output with a pre-created
/// overlay.
proof fn lemma_event_keeps_covered(m: Model, event: OutputEvent, output: u64, fresh: u64)
    requires
        is_covered(m),
        m.picker is None,
        m.pending_overlay_ids.len() > 0,
        m.pending_start ==> m.tracked_after(event, output, fresh).len() == 0,
    ensures
        is_covered(m.output_event(event, output, fresh).0),
{
    let after = m.tracked_after(event, output, fresh);
    let ids = m.output_event(event, output, fresh).0.pending_overlay_ids;
    lemma_place_of(output_keys(m.outputs), output);
    assert forall|id: u64| #[trigger] m.pending_overlay_ids.contains(id) implies ids.contains(
        id,
    ) by {
        assert(ids[m.pending_overlay_ids.index_of(id)] == id);
    }
    assert forall|k: int| 0 <= k < after.len() implies ids.contains((#[trigger] after[k]).id) by {
        if m.is_new(event, output) && k == after.len() - 1 {
            assert(ids.last() == fresh);
        } else if event is Removed {
            assert(after.contains(after[k]));
            lemma_filter_keeps(m.outputs, is_other(output), after[k]);
            let j = m.outputs.index_of(after[k]);
            assert(m.pending_overlay_ids.contains(m.outputs[j].id));
        } else {
            assert(after[k].id == m.outputs[k].id);
        }
    }
}

proof fn lemma_pointer_moved(m: Model, id: u64, x: Value<false>, y: Value<false>)
    requires
        is_consistent(m),
        m.picker matches Some(session) ==> session.can_move(id),
    ensures
        is_consistent(m.pointer_moved(id, x, y)),
{
    if let Some(session) = m.picker {
        lemma_place_of(session.overlay_ids, id);
    }
}

/// While a session is active, capture requests and the applet button do nothing,
/// and a second capture is discarded.
pub proof fn law_one_session(m: Model, captures: Vec<CapturedOutput>, now: u64)
    requires
        m.picker is Some,
        captures@.len() > 0,
    ensures
        m.step(Message::EyedropperClicked, now) == (m, Seq::<Effect>::empty()),
        m.step(Message::DbusPick, now) == (m, Seq::<Effect>::empty()),
        m.step(Message::TogglePopup, now) == (m, Seq::<Effect>::empty()),
        m.step(Message::CaptureCompleted(captures), now) == (m, Seq::<Effect>::empty()),
{
}

/// Cancelling leaves no session and no overlay, and the user has a popup: it was
/// open, or it is asked for.
pub proof fn law_cancel(m: Model, now: u64)
    requires
        !m.flags.pick,
    ensures
        ({
            let (next, effects) = m.step(Message::PickerCancel, now);
            &&& next.picker is None
            &&& next.pending_overlay_ids.len() == 0
            &&& m.picker matches Some(session) ==> forall|i: int|
                0 <= i < session.overlay_ids.len() ==> effects.contains(
                    Effect::DestroyOverlay(#[trigger] session.overlay_ids[i]),
                )
            &&& forall|i: int|
                0 <= i < m.pending_overlay_ids.len() ==> effects.contains(
                    Effect::DestroyOverlay(#[trigger] m.pending_overlay_ids[i]),
                )
            &&& next.popup == m.popup
            &&& m.popup is None <==> effects.contains(Effect::OpenPopup)
        }),
{
    let (next, effects) = m.step(Message::PickerCancel, now);
    let shown = match m.picker {
        Some(session) => session.overlay_ids,
        None => Seq::empty(),
    };
    let (a, b) = (destroyed(shown), destroyed(m.pending_overlay_ids));
    let tail = if m.popup is None {
        seq![Effect::OpenPopup]
    } else {
        Seq::empty()
    };
    assert(effects == a + b + tail);
    assert forall|i: int| 0 <= i < shown.len() implies effects.contains(
        Effect::DestroyOverlay(#[trigger] shown[i]),
    ) by {
        assert(effects[i] == Effect::DestroyOverlay(shown[i]));
    }
    assert forall|i: int| 0 <= i < m.pending_overlay_ids.len() implies effects.contains(
        Effect::DestroyOverlay(#[trigger] m.pending_overlay_ids[i]),
    ) by {
        assert(effects[a.len() + i] == Effect::DestroyOverlay(m.pending_overlay_ids[i]));
    }
    if m.popup is None {
        assert(effects.last() == Effect::OpenPopup);
    } else {
        assert forall|i: int| 0 <= i < effects.len() implies effects[i] != Effect::OpenPopup by {
            if i < a.len() {
                assert(effects[i] == Effect::DestroyOverlay(shown[i]));
            } else {
                assert(effects[i] == Effect::DestroyOverlay(m.pending_overlay_ids[i - a.len()]));
            }
        }
    }
}

/// With `--pick` the process ends when the session does: with success where it
/// was cancelled or the popup was closed, and with a failure where the capture
/// failed.
pub proof fn law_pick_mode_ends(m: Model, text: String, id: u64, now: u64)
    requires
        m.flags.pick,
    ensures
        m.step(Message::PickerCancel, now).1 == seq![Effect::Exit(0)],
        m.step(Message::CaptureFailed(text), now).1 == seq![Effect::Exit(1)],
        m.popup == Some(id) ==> m.step(Message::PopupClosed(id), now).1 == seq![Effect::Exit(0)],
{
}

/// With `--pick` the capture starts with the first output that is tracked, and
/// no output event starts another. An output that appears meanwhile gets its
/// overlay all the same.
pub proof fn law_pick_starts_once(
    flags: Flags,
    config: Config,
    info: OutputInfo,
    output: u64,
    fresh: u64,
    event: OutputEvent,
    other: u64,
    window: u64,
    now: u64,
)
    requires
        flags.pick,
        is_complete(info),
    ensures
        ({
            let first = Message::OutputEvent(OutputEvent::Created(Some(info)), output, fresh);
            let (m, asked) = initial(flags, config).step(first, now);
            let effects = m.step(Message::OutputEvent(event, other, window), now).1;
            &&& asked == seq![Effect::CreateOverlay(fresh, output), Effect::StartCapture]
            &&& effects == if m.is_new(event, other) {
                seq![Effect::CreateOverlay(window, other)]
            } else {
                Seq::empty()
            }
        }),
{
    let m = initial(flags, config);
    let outputs = m.tracked_after(OutputEvent::Created(Some(info)), output, fresh);
    assert(outputs =~= seq![tracked_output(info, output, fresh)]);
    let there = Model { outputs, pending_start: false, ..m };
    lemma_filter_all(outputs, lacks_overlay(there.pending_overlay_ids));
    let first = Message::OutputEvent(OutputEvent::Created(Some(info)), output, fresh);
    assert(m.step(first, now) == there.started());
    assert(there.started().1 =~= seq![Effect::CreateOverlay(fresh, output), Effect::StartCapture]);
}

/// Selecting a colour, from the popup and back: each output gets a transparent
/// overlay, the popup closes at once and the screen is captured; the overlays
/// then take the captures, and none is created any more; a click on a colour
/// removes the overlays, keeps the colour and its texts and asks for the popup.
pub proof fn law_selection_flow(
    m: Model,
    popup: u64,
    captures: Vec<CapturedOutput>,
    id: u64,
    x: Value<false>,
    y: Value<false>,
    now: u64,
)
    requires
        m.picker is None,
        m.popup == Some(popup),
        m.pending_overlay_ids.len() == 0,
        captures@.len() > 0,
    ensures
        ({
            let (waiting, asked) = m.step(Message::EyedropperClicked, now);
            let (picking, shown) = waiting.step(Message::CaptureCompleted(captures), now);
            let hovered = picking.pointer_moved(id, x, y);
            let session = hovered.picker->0;
            let (done, effects) = hovered.step(Message::PointerClicked(id), now);
            &&& waiting.popup is None
            &&& asked == overlays_created(m.outputs) + seq![
                Effect::DestroyPopup(popup),
                Effect::StartCapture,
            ]
            &&& waiting.pending_overlay_ids == window_ids(m.outputs)
            &&& picking.picker is Some
            &&& picking.pending_overlay_ids.len() == 0
            &&& shown.len() == 0
            &&& hovered.picker is Some
            &&& session.captures == captures@
            &&& session.overlay_ids == reused_order(
                window_ids(m.outputs),
                m.outputs,
                captures@,
            )
            &&& session.clicked() matches Some(color) ==> {
                &&& done.picker is None
                &&& done.sampled == Some(color)
                &&& done.hex == color.hex_text()
                &&& done.rgb == color.rgb_text()
                &&& done.hsl == color.hsl_text()
                &&& effects.last() == Effect::OpenPopup
                &&& forall|i: int|
                    0 <= i < m.outputs.len() ==> effects.contains(
                        Effect::DestroyOverlay((#[trigger] m.outputs[i]).id),
                    )
            }
            &&& session.clicked() is None ==> done == hovered && effects.len() == 0
        }),
{
    let (waiting, asked) = m.step(Message::EyedropperClicked, now);
    let (picking, shown) = waiting.step(Message::CaptureCompleted(captures), now);
    let hovered = picking.pointer_moved(id, x, y);
    let session = hovered.picker->0;
    let (done, effects) = hovered.step(Message::PointerClicked(id), now);
    let ids = window_ids(m.outputs);
    lemma_filter_all(m.outputs, lacks_overlay(m.pending_overlay_ids));
    assert(waiting.pending_overlay_ids =~= ids);
    if m.outputs.len() == 0 {
        assert(!names_one(m.outputs, captures@[0].name@));
        assert(shown =~= Seq::empty());
    }
    if let Some(color) = session.clicked() {
        assert forall|i: int| 0 <= i < m.outputs.len() implies effects.contains(
            Effect::DestroyOverlay((#[trigger] m.outputs[i]).id),
        ) by {
            assert(ids[i] == m.outputs[i].id);
            law_reused_are_the_same(ids, m.outputs, captures@, m.outputs[i].id);
            lemma_selection_destroys(hovered, session, color, now, m.outputs[i].id);
        }
    }
}

/// Selecting a colour destroys each overlay of the session.
proof fn lemma_selection_destroys(m: Model, session: Session, color: Color, now: u64, id: u64)
    requires
        session.overlay_ids.contains(id),
    ensures
        m.selected(session, color, now).1.contains(Effect::DestroyOverlay(id)),
        m.selected(session, color, now).1.last() == Effect::OpenPopup,
{
    let effects = m.selected(session, color, now).1;
    let copied = if m.config.copy_on_select {
        seq![Effect::WriteClipboard(color_text(color, m.config.default_color_format))]
    } else {
        Seq::empty()
    };
    let k = session.overlay_ids.index_of(id);
    assert(effects == copied + destroyed(session.overlay_ids) + seq![Effect::OpenPopup]);
    assert(effects[copied.len() + k] == Effect::DestroyOverlay(id));
}

/// The overlays are parallel to the captures: where the captures have distinct
/// names and each names one output, each capture has the overlay of its output,
/// over which the pointer can then move. Each output has an overlay, captured or
/// not: the pre-created one, or one that is created now.
pub proof fn law_overlays_follow_captures(
    m: Model,
    captures: Vec<CapturedOutput>,
    i: int,
    k: int,
    j: int,
    now: u64,
)
    requires
        m.picker is None,
        m.pending_overlay_ids.len() > 0 ==> is_covered(m),
        captures_match(m.outputs, captures@),
        0 <= i < captures@.len(),
        is_named(m.outputs, k, captures@[i].name@),
        0 <= j < m.outputs.len(),
    ensures
        ({
            let (next, effects) = m.step(Message::CaptureCompleted(captures), now);
            let session = next.picker->0;
            &&& next.picker is Some
            &&& session.captures == captures@
            &&& session.overlay_ids[i] == m.outputs[k].id
            &&& session.can_move(m.outputs[k].id)
            &&& session.overlay_ids.contains(m.outputs[j].id)
            &&& effects == if m.pending_overlay_ids.len() > 0 {
                Seq::<Effect>::empty()
            } else {
                overlays_created(m.outputs)
            }
        }),
{
    let session = m.step(Message::CaptureCompleted(captures), now).0.picker->0;
    if m.pending_overlay_ids.len() > 0 {
        law_reused_are_parallel(m.pending_overlay_ids, m.outputs, captures@, i, k);
        law_reused_are_the_same(
            m.pending_overlay_ids,
            m.outputs,
            captures@,
            m.outputs[j].id,
        );
    } else {
        law_overlays_are_parallel(m.outputs, captures@, i, k);
        law_every_output_has_its_overlay(m.outputs, captures@, j);
    }
    lemma_place_of(session.overlay_ids, m.outputs[k].id);
}

/// A second request before the capture completes creates no overlay again.
pub proof fn law_overlays_are_created_once(m: Model, now: u64)
    requires
        m.picker is None,
        is_covered(m),
    ensures
        ({
            let (next, effects) = m.step(Message::DbusPick, now);
            &&& next.pending_overlay_ids == m.pending_overlay_ids
            &&& effects == match m.popup {
                Some(id) => seq![Effect::DestroyPopup(id), Effect::StartCapture],
                None => seq![Effect::StartCapture],
            }
            &&& m.step(Message::EyedropperClicked, now) == (next, effects)
        }),
{
    let added = m.uncovered();
    if added.len() > 0 {
        assert(added.contains(added[0]));
        lemma_filter_keeps(m.outputs, lacks_overlay(m.pending_overlay_ids), added[0]);
        let k = m.outputs.index_of(added[0]);
        assert(m.pending_overlay_ids.contains(m.outputs[k].id));
    }
    let (next, effects) = m.step(Message::DbusPick, now);
    assert(next.pending_overlay_ids =~= m.pending_overlay_ids);
    assert(overlays_created(added) =~= Seq::empty());
    assert(effects =~= match m.popup {
        Some(id) => seq![Effect::DestroyPopup(id), Effect::StartCapture],
        None => seq![Effect::StartCapture],
    });
}

/// The lens shows exactly the pixel that a click selects: where the cursor is
/// over a captured output, the colour that a click picks is the one in the
/// middle cell of the lens.
pub proof fn law_lens_shows_what_is_picked(
    m: Model,
    session: Session,
    id: u64,
    click: u64,
    x: Single,
    y: Single,
    now: u64,
)
    requires
        m.picker == Some(session),
        is_over(session, id, x@, y@),
        place_of(session.overlay_ids, id) matches Some(i) && is_ordinary(session.captures[i])
            && is_captured(session.captures[i]),
    ensures
        m.accepts(Message::PointerMoved(id, x, y)),
        ({
            let shown = m.step(Message::PointerMoved(id, x, y), now).0;
            let done = shown.step(Message::PointerClicked(click), now).0;
            done.sampled matches Some(color) && {
                &&& color.r == shown.buf[432]
                &&& color.g == shown.buf[433]
                &&& color.b == shown.buf[434]
                &&& done.buf == shown.buf
            }
        }),
{
    lemma_place_of(session.overlay_ids, id);
    lemma_middle_cell(session, id, x@, y@, m.buf);
    let shown = m.step(Message::PointerMoved(id, x, y), now).0;
    let hover = session.moved(id, x@, y@);
    let next = Session { hover, ..session };
    assert(shown.picker == Some(next));
    let color = next.clicked()->0;
    assert(shown.step(Message::PointerClicked(click), now).0 == shown.selected(
        next,
        color,
        now,
    ).0);
}

/// The middle cell of the lens holds the colour that a click picks.
proof fn lemma_middle_cell(
    session: Session,
    id: u64,
    x: Value<false>,
    y: Value<false>,
    buf: Seq<u8>,
)
    requires
        is_over(session, id, x, y),
        place_of(session.overlay_ids, id) matches Some(i) && is_ordinary(session.captures[i])
            && is_captured(session.captures[i]),
    ensures
        ({
            let hover = session.moved(id, x, y);
            let o = session.captures[hover->0.output_index];
            let all = filled(buf, o, hover->0.pixel_pos);
            &&& hover is Some
            &&& (Session { hover, ..session }).clicked() == Some(
                Color { r: all[432], g: all[433], b: all[434], a: 255 },
            )
        }),
{
    lemma_place_of(session.overlay_ids, id);
    let i = place_of(session.overlay_ids, id)->0;
    let o = session.captures[i];
    let hover = session.moved(id, x, y)->0;
    law_click_picks_hovered(session, id, x, y);
    law_pixel_is_captured(x, o.width, o.logical_width);
    law_pixel_is_captured(y, o.height, o.logical_height);
    law_lens_shows_neighbours(o, hover.pixel_pos, buf, 8, 8);
    let all = filled(buf, o, hover.pixel_pos);
    let rgb = o.rgba.rgb(hover.pixel_pos.0 as int, hover.pixel_pos.1 as int);
    let cell = lens_pixel(144, all);
    assert(cell == seq![rgb.0, rgb.1, rgb.2, 255u8]);
    assert(cell[0] == all[432] && cell[1] == all[433] && cell[2] == all[434]);
}

/// The same at whole positions of a desktop without overlapping outputs, where
/// nothing is lost to rounding.
pub proof fn law_lens_shows_whole_position(
    m: Model,
    session: Session,
    id: u64,
    click: u64,
    x: Single,
    y: Single,
    column: int,
    row: int,
    now: u64,
)
    requires
        m.picker == Some(session),
        is_desktop(session.captures),
        place_of(session.overlay_ids, id) matches Some(i) && {
            &&& i < session.captures.len()
            &&& is_ordinary(session.captures[i])
            &&& is_captured(session.captures[i])
            &&& 0 <= column < session.captures[i].logical_width
            &&& 0 <= row < session.captures[i].logical_height
        },
        x@ == single(column),
        y@ == single(row),
    ensures
        ({
            let shown = m.step(Message::PointerMoved(id, x, y), now).0;
            let done = shown.step(Message::PointerClicked(click), now).0;
            done.sampled matches Some(color) && {
                &&& color.r == shown.buf[432]
                &&& color.g == shown.buf[433]
                &&& color.b == shown.buf[434]
            }
        }),
{
    law_whole_click(session, id, column, row);
    law_lens_shows_what_is_picked(m, session, id, click, x, y, now);
}

/// A frame moves the zoom with what was scrolled: forward in and backward out,
/// by every scroll of at least one part in 2^18 unless the zoom is at the limit,
/// and not without a scroll.
pub proof fn law_frame_zooms(m: Model, now: u64)
    requires
        MIN_ZOOM <= m.zoom_level <= MAX_ZOOM,
        is_finite(m.pending_zoom_delta) || m.pending_zoom_delta is Infinite,
    ensures
        ({
            let d = m.pending_zoom_delta;
            let level = m.step(Message::FrameTick, now).0.zoom_level;
            &&& MIN_ZOOM <= level <= MAX_ZOOM
            &&& d.at_least(least_scroll()) && m.zoom_level < MAX_ZOOM ==> m.zoom_level < level
            &&& least_scroll().negated().at_least(d) && MIN_ZOOM < m.zoom_level ==> level
                < m.zoom_level
            &&& single(0).below(d) ==> m.zoom_level <= level
            &&& d.below(single(0)) ==> level <= m.zoom_level
            &&& d.equals(single(0)) ==> level == m.zoom_level
        }),
{
    law_wheel_zooms(m.zoom_level, m.pending_zoom_delta);
    law_zoom_stays_in_range(m.zoom_level, m.pending_zoom_delta);
    law_least_scroll();
    lemma_whole(0);
    lemma_whole_add(0, 0);
}

/// A selected colour is copied if and only if the setting asks for it, first of
/// all and in the default format.
pub proof fn law_auto_copy(m: Model, session: Session, color: Color, id: u64, now: u64)
    requires
        m.picker == Some(session),
        session.clicked() == Some(color),
    ensures
        ({
            let (next, effects) = m.step(Message::PointerClicked(id), now);
            let text = color_text(color, m.config.default_color_format);
            if m.config.copy_on_select {
                &&& effects[0] == Effect::WriteClipboard(text)
                &&& next.just_copied(m.config.default_color_format, now)
            } else {
                forall|i: int| 0 <= i < effects.len() ==> !(#[trigger] effects[i] is WriteClipboard)
            }
        }),
{
    let (next, effects) = m.step(Message::PointerClicked(id), now);
    let gone = destroyed(session.overlay_ids);
    if !m.config.copy_on_select {
        assert(effects == Seq::<Effect>::empty() + gone + seq![Effect::OpenPopup]);
        assert forall|i: int| 0 <= i < effects.len() implies !(
        #[trigger] effects[i] is WriteClipboard) by {
            if i < gone.len() {
                assert(effects[i] == Effect::DestroyOverlay(session.overlay_ids[i]));
            }
        }
    }
}

/// Copying a text shows its format as just copied for two seconds, and no other
/// format; clearing the feedback ends that.
pub proof fn law_copy_feedback(
    m: Model,
    format: ColorFormat,
    other: ColorFormat,
    at: u64,
    now: u64,
)
    requires
        m.text(format).len() > 0,
        at <= now,
        other != format,
    ensures
        ({
            let (next, effects) = m.step(press(format), at);
            &&& effects == seq![Effect::WriteClipboard(m.text(format)), Effect::ScheduleClear]
            &&& next.just_copied(format, now) <==> now - at < FEEDBACK_MS
            &&& !next.just_copied(other, now)
            &&& !next.step(Message::ClearCopyFeedback, now).0.just_copied(format, now)
        }),
{
}

/// Without a text there is nothing to copy.
pub proof fn law_nothing_to_copy(m: Model, format: ColorFormat, now: u64)
    requires
        m.text(format).len() == 0,
    ensures
        m.step(press(format), now) == (m, Seq::<Effect>::empty()),
{
}

/// Choosing a format stores it once, and the choice is what is configured.
pub proof fn law_format_choice(m: Model, format: ColorFormat, now: u64)
    ensures
        format_at(format.place()) == Some(format),
        ({
            let message = Message::SetDefaultFormat(format.place() as usize);
            let (next, effects) = m.step(message, now);
            &&& next.config.default_color_format == format
            &&& next.color_format_model == format.place()
            &&& effects == if m.config.default_color_format == format {
                Seq::<Effect>::empty()
            } else {
                seq![Effect::SaveDefaultFormat(format)]
            }
            &&& next.step(message, now) == (next, Seq::<Effect>::empty())
        }),
{
}

/// An output that appears and is removed again leaves the other outputs as they
/// were.
pub proof fn law_output_comes_and_goes(m: Model, info: OutputInfo, output: u64, fresh: u64)
    requires
        !output_keys(m.outputs).contains(output),
        is_complete(info),
    ensures
        ({
            let there = Model {
                outputs: m.tracked_after(OutputEvent::Created(Some(info)), output, fresh),
                ..m
            };
            &&& there.outputs == m.outputs.push(tracked_output(info, output, fresh))
            &&& there.tracked_after(OutputEvent::Removed, output, fresh) == m.outputs
        }),
{
    let grown = m.outputs.push(tracked_output(info, output, fresh));
    reveal(Seq::filter);
    assert(grown.drop_last() =~= m.outputs);
    assert forall|i: int| 0 <= i < m.outputs.len() implies is_other(output)(
        #[trigger] m.outputs[i],
    ) by {
        assert(output_keys(m.outputs)[i] == m.outputs[i].output);
    }
    lemma_filter_all(m.outputs, is_other(output));
}

/// New geometry of a tracked output changes that output alone, and keeps its
/// overlay window.
pub proof fn law_update_keeps_window(m: Model, info: OutputInfo, output: u64, fresh: u64, i: int)
    requires
        output_keys(m.outputs).contains(output),
        0 <= i < m.outputs.len(),
    ensures
        ({
            let after = m.tracked_after(OutputEvent::InfoUpdate(info), output, fresh);
            &&& after.len() == m.outputs.len()
            &&& after[i].id == m.outputs[i].id
            &&& after[i].output == m.outputs[i].output
            &&& m.outputs[i].output != output ==> after[i] == m.outputs[i]
        }),
{
    let keys = output_keys(m.outputs);
    lemma_place_of(keys, output);
    let p = place_of(keys, output)->0;
    assert(keys[p] == m.outputs[p].output);
}

/// The fresh window id matters to an event that adds an output only: the output
/// then comes last, with that window.
pub proof fn law_fresh_window(m: Model, event: OutputEvent, output: u64, a: u64, b: u64)
    ensures
        m.is_new(event, output) ==> {
            let after = m.tracked_after(event, output, a);
            &&& after.len() == m.outputs.len() + 1
            &&& after.last().output == output
            &&& after.last().id == a
        },
        !m.is_new(event, output) ==> m.tracked_after(event, output, a) == m.tracked_after(
            event,
            output,
            b,
        ),
{
    lemma_place_of(output_keys(m.outputs), output);
}

} // verus!
