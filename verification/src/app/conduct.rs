//! What the messages and the windows of the application are for.

use crate::app::laws::{is_consistent, is_session};
use crate::app::view::{frozen_image, press, Indicator, MagnifierView, OverlayView, PopupView};
use crate::app::{
    destroyed, initial, is_complete, is_other, lacks_overlay, output_keys, Effect, Message, Model,
    Output, OutputEvent,
};
use crate::cli::Flags;
use crate::config::{format_at, ColorFormat, Config};
use crate::float::{Single, Value};
use crate::ids::{lemma_filter_all, lemma_filter_keeps, lemma_place_of, place_of};
use crate::order::{is_finite, is_single, law_sum_stays_between, lemma_whole, whole};
use crate::picker::capture::OutputInfo;
use crate::picker::color::{
    has_numbers, law_hex_reads_back, law_hsl_reads_back, law_rgb_reads_back, Color,
};
use crate::picker::controller::Session;
use crate::picker::output::CapturedOutput;
use crate::picker::sampling::{
    is_on_axis, is_ordinary, is_pixel_at, law_hover_is_at_pointer,
};
use crate::rounding::exp2;
use crate::text::number;
use crate::widget::lens::{
    law_strokes_lie_on_cells, law_zoom_snaps_to_nearest, lemma_column,
};
use crate::widget::magnifier::{
    clamped, filled, is_captured, law_lens_shows_neighbours, lens_pixel, mask_cell, single, snapped,
    MagnifierProgram, MAX_ZOOM, MIN_ZOOM,
};
use crate::widget::placement::{
    is_above_or_below, is_beside, law_lens_has_its_cells, law_lens_is_above_or_below,
    law_lens_is_beside,
};
use crate::widget::zoom::{law_extreme_scrolls, law_tiny_scroll_stays, law_zoom_follows_scroll};
use vstd::math::{abs, max, min};
use vstd::prelude::*;

verus! {

/// The applet button opens the popup and closes it again.
pub proof fn law_button_toggles_popup(m: Model, id: u64, now: u64)
    requires
        m.picker is None,
        m.popup is None,
    ensures
        ({
            let open = m.step(Message::PopupOpened(id), now).0;
            let (closed, effects) = open.step(Message::TogglePopup, now);
            &&& m.step(Message::TogglePopup, now) == (m, seq![Effect::OpenPopup])
            &&& open.popup == Some(id)
            &&& closed == m
            &&& effects == seq![Effect::DestroyPopup(id)]
        }),
{
}

/// When the popup is gone, so is the feedback of a copy; the end of another
/// window changes nothing.
pub proof fn law_popup_goes(m: Model, id: u64, other: u64, now: u64)
    requires
        m.popup == Some(id),
        other != id,
    ensures
        m.step(Message::PopupClosed(other), now) == (m, Seq::<Effect>::empty()),
        ({
            let (next, effects) = m.step(Message::PopupClosed(id), now);
            &&& next.popup is None
            &&& next.copied_target is None
            &&& next.copied_at is None
            &&& !m.flags.pick ==> effects.len() == 0
        }),
{
}

/// Settings that come from outside are taken over, and the choice of the format
/// shows them; nothing is stored back.
pub proof fn law_settings_are_taken_over(m: Model, config: Config, now: u64)
    ensures
        ({
            let (next, effects) = m.step(Message::UpdateConfig(config), now);
            &&& next.config == config
            &&& format_at(next.color_format_model) == Some(config.default_color_format)
            &&& effects.len() == 0
        }),
{
}

/// The "Copy on selection" toggle is kept and stored, and leaves the other
/// settings alone.
pub proof fn law_toggle_is_stored(m: Model, value: bool, now: u64)
    ensures
        ({
            let (next, effects) = m.step(Message::SetCopyOnSelect(value), now);
            &&& next.config.copy_on_select == value
            &&& next.config.default_color_format == m.config.default_color_format
            &&& next.config.restore_token == m.config.restore_token
            &&& effects == seq![Effect::SaveCopyOnSelect(value)]
        }),
{
}

/// A capture that starts forgets the last colour, error and copy, and begins at
/// the lowest zoom.
pub proof fn law_start_forgets(m: Model, now: u64)
    requires
        m.picker is None,
    ensures
        ({
            let (next, effects) = m.step(Message::EyedropperClicked, now);
            &&& next.sampled is None
            &&& next.error is None
            &&& next.copied_target is None
            &&& next.copied_at is None
            &&& next.zoom_level == 8
            &&& next.pending_zoom_delta.equals(single(0))
            &&& next.popup is None
            &&& effects.last() == Effect::StartCapture
            &&& m.step(Message::DbusPick, now) == (next, effects)
        }),
{
    lemma_whole(0);
}

/// A failed capture says why, leaves no session and no overlay, and brings the
/// popup back; so does a capture of nothing.
pub proof fn law_failure_is_shown(m: Model, text: String, none: Vec<CapturedOutput>, now: u64)
    requires
        !m.flags.pick,
        none@.len() == 0,
    ensures
        ({
            let (next, effects) = m.step(Message::CaptureFailed(text), now);
            let empty = m.step(Message::CaptureCompleted(none), now);
            &&& next.error == Some(text@)
            &&& next.picker is None
            &&& next.pending_overlay_ids.len() == 0
            &&& m.picker matches Some(session) ==> forall|i: int|
                0 <= i < session.overlay_ids.len() ==> effects.contains(
                    Effect::DestroyOverlay(#[trigger] session.overlay_ids[i]),
                )
            &&& forall|i: int|
                0 <= i < m.pending_overlay_ids.len() ==> effects.contains(
                    Effect::DestroyOverlay(#[trigger] m.pending_overlay_ids[i]),
                )
            &&& m.popup is None ==> effects.last() == Effect::OpenPopup
            &&& empty.0 == (Model { error: Some("No outputs captured"@), ..next })
            &&& empty.1 == effects
        }),
{
    let (next, effects) = m.step(Message::CaptureFailed(text), now);
    let shown = match m.picker {
        Some(session) => session.overlay_ids,
        None => Seq::empty(),
    };
    let (a, b) = (destroyed(shown), destroyed(m.pending_overlay_ids));
    let tail = if m.popup is None {
        seq![Effect::OpenPopup]
    } else {
        Seq::empty()
    };
    assert(effects == a + b + tail);
    assert forall|i: int| 0 <= i < shown.len() implies effects.contains(
        Effect::DestroyOverlay(#[trigger] shown[i]),
    ) by {
        assert(effects[i] == Effect::DestroyOverlay(shown[i]));
    }
    assert forall|i: int| 0 <= i < m.pending_overlay_ids.len() implies effects.contains(
        Effect::DestroyOverlay(#[trigger] m.pending_overlay_ids[i]),
    ) by {
        assert(effects[a.len() + i] == Effect::DestroyOverlay(m.pending_overlay_ids[i]));
    }
}

/// Whether an output is tracked as it was announced. A size is counted without a
/// sign.
pub open spec fn is_as_announced(o: Output, info: OutputInfo, output: u64) -> bool {
    &&& o.output == output
    &&& info.name matches Some(name) && o.name == name@
    &&& info.logical_position == Some(o.logical_pos)
    &&& info.logical_size matches Some((w, h)) && {
        &&& 0 <= w ==> o.logical_size.0 == w
        &&& 0 <= h ==> o.logical_size.1 == h
    }
}

/// An output of which enough is announced is tracked as it was announced: a new
/// one last, with the fresh window, and a known one at its place, with its own
/// window. The other outputs stay as they are.
pub proof fn law_outputs_are_tracked(
    m: Model,
    info: OutputInfo,
    created: bool,
    output: u64,
    fresh: u64,
    k: int,
    now: u64,
)
    requires
        is_complete(info),
        0 <= k < m.outputs.len(),
    ensures
        ({
            let event = if created {
                OutputEvent::Created(Some(info))
            } else {
                OutputEvent::InfoUpdate(info)
            };
            let after = m.step(Message::OutputEvent(event, output, fresh), now).0.outputs;
            if created || !output_keys(m.outputs).contains(output) {
                &&& after.len() == m.outputs.len() + 1
                &&& is_as_announced(after.last(), info, output)
                &&& after.last().id == fresh
                &&& after[k] == m.outputs[k]
            } else {
                &&& after.len() == m.outputs.len()
                &&& m.outputs[k].output != output ==> after[k] == m.outputs[k]
                &&& m.outputs[k].output == output && (forall|j: int|
                    0 <= j < k ==> (#[trigger] m.outputs[j]).output != output) ==> {
                    &&& is_as_announced(after[k], info, output)
                    &&& after[k].id == m.outputs[k].id
                }
            }
        }),
{
    let keys = output_keys(m.outputs);
    lemma_place_of(keys, output);
    assert(keys[k] == m.outputs[k].output);
    if let Some(p) = place_of(keys, output) {
        assert(keys[p] == m.outputs[p].output);
        if p < k {
            assert(m.outputs[p].output == output);
        } else if k < p {
            assert(keys[k] != output);
        }
    }
}

/// An output of which too little is announced is not tracked, and changes
/// nothing.
pub proof fn law_incomplete_outputs_wait(m: Model, info: OutputInfo, output: u64, fresh: u64)
    requires
        info.name is None || info.logical_size is None || info.logical_position is None,
    ensures
        m.tracked_after(OutputEvent::Created(Some(info)), output, fresh) == m.outputs,
        m.tracked_after(OutputEvent::InfoUpdate(info), output, fresh) == m.outputs,
        m.tracked_after(OutputEvent::Created(None), output, fresh) == m.outputs,
{
}

/// An output that is removed is no longer tracked, and the others still are.
pub proof fn law_removed_outputs_go(m: Model, output: u64, fresh: u64, o: Output, now: u64)
    ensures
        ({
            let event = Message::OutputEvent(OutputEvent::Removed, output, fresh);
            let after = m.step(event, now).0.outputs;
            after.contains(o) <==> m.outputs.contains(o) && o.output != output
        }),
{
    lemma_filter_keeps(m.outputs, is_other(output), o);
}

/// Scrolls add up until the next frame, and do not move the zoom before: no
/// number of the format lies between the exact sum and what is kept of it.
pub proof fn law_scrolls_add_up(m: Model, delta: Single, low: int, high: int, now: u64)
    requires
        is_finite(m.pending_zoom_delta),
        is_finite(delta@),
        is_single(low),
        is_single(high),
        low <= m.pending_zoom_delta.units() + delta@.units() <= high,
    ensures
        ({
            let (next, effects) = m.step(Message::MagnifierZoom(delta), now);
            &&& next.zoom_level == m.zoom_level
            &&& is_finite(next.pending_zoom_delta)
            &&& low <= next.pending_zoom_delta.units() <= high
            &&& effects.len() == 0
        }),
{
    law_sum_stays_between(m.pending_zoom_delta, delta@, low, high);
}

/// A frame takes what was scrolled: the new level is at most one from the exact
/// one, which is the old level and twelve times the scroll over the level, kept
/// from 8 to 24; and nothing is left to scroll.
pub proof fn law_frame_follows_scroll(m: Model, now: u64)
    requires
        MIN_ZOOM <= m.zoom_level <= MAX_ZOOM,
        is_finite(m.pending_zoom_delta),
    ensures
        ({
            let (next, effects) = m.step(Message::FrameTick, now);
            let level = m.zoom_level;
            // All of them times the old level, in units.
            let exact = whole(level * level) + 12 * m.pending_zoom_delta.units();
            let kept = max(whole(8 * level), min(exact, whole(24 * level)));
            let off = abs(whole(next.zoom_level * level) - kept);
            &&& off <= whole(level)
            &&& next.zoom_level == level + 1 || next.zoom_level == level - 1 || 2 * off * 0x1000
                <= whole(level) * 0x1001
            &&& next.pending_zoom_delta.equals(single(0))
            &&& effects.len() == 0
        }),
{
    let level = m.zoom_level;
    lemma_whole(0);
    law_zoom_follows_scroll(level, m.pending_zoom_delta);
    if m.pending_zoom_delta.equals(single(0)) {
        let o = whole(1);
        crate::order::lemma_whole_order(0, level);
        crate::order::lemma_whole_order(level * level, 8 * level);
        crate::order::lemma_whole_order(24 * level, level * level);
        crate::order::lemma_whole_add(0, 0);
        assert(8 * level <= level * level && level * level <= 24 * level) by (nonlinear_arith)
            requires
                8 <= level <= 24,
        ;
    }
}

/// An endless scroll goes to the limit with the next frame, and one that is no
/// number is dropped.
pub proof fn law_frame_ends_extreme_scrolls(m: Model, now: u64)
    requires
        MIN_ZOOM <= m.zoom_level <= MAX_ZOOM,
    ensures
        ({
            let next = m.step(Message::FrameTick, now).0;
            &&& m.pending_zoom_delta matches Value::Infinite { neg } ==> next.zoom_level == if neg {
                8int
            } else {
                24
            }
            &&& m.pending_zoom_delta is Nan ==> next.zoom_level == m.zoom_level
        }),
{
    lemma_whole(0);
    law_extreme_scrolls(m.zoom_level, m.pending_zoom_delta);
}

/// A scroll below one part in 2^23 does not move the zoom.
pub proof fn law_frame_ignores_tiny_scrolls(m: Model, now: u64)
    requires
        MIN_ZOOM <= m.zoom_level <= MAX_ZOOM,
        is_finite(m.pending_zoom_delta),
        abs(m.pending_zoom_delta.units()) < exp2(126),
    ensures
        m.step(Message::FrameTick, now).0.zoom_level == m.zoom_level,
{
    law_tiny_scroll_stays(m.zoom_level, m.pending_zoom_delta);
}

/// The copy buttons copy the colour that was picked, each in its own format.
pub proof fn law_buttons_copy_the_color(m: Model, color: Color, now: u64)
    requires
        is_consistent(m),
        m.sampled == Some(color),
    ensures
        m.step(Message::CopyHex, now).1 == seq![
            Effect::WriteClipboard(color.hex_text()),
            Effect::ScheduleClear,
        ],
        m.step(Message::CopyRgb, now).1 == seq![
            Effect::WriteClipboard(color.rgb_text()),
            Effect::ScheduleClear,
        ],
        m.step(Message::CopyHsl, now).1 == seq![
            Effect::WriteClipboard(color.hsl_text()),
            Effect::ScheduleClear,
        ],
{
    lemma_texts(color);
}

/// The texts of a colour are not empty.
proof fn lemma_texts(color: Color)
    ensures
        color.hex_text().len() > 0,
        color.rgb_text().len() > 0,
        color.hsl_text().len() > 0,
{
    law_hex_reads_back(color);
    law_rgb_reads_back(color);
    law_hsl_reads_back(color);
    let (x, y, z) = choose|x: Seq<char>, y: Seq<char>, z: Seq<char>|
        {
            &&& #[trigger] has_numbers(color.rgb_text(), ("rgb("@, ", "@, ", "@, ")"@), x, y, z)
            &&& number(x, 10) == color.r
            &&& number(y, 10) == color.g
            &&& number(z, 10) == color.b
        };
    assert(x.len() > 0);
}

/// A picked colour that is copied at once is copied in the default format.
pub proof fn law_auto_copy_uses_the_format(
    m: Model,
    session: Session,
    color: Color,
    id: u64,
    now: u64,
)
    requires
        m.picker == Some(session),
        session.clicked() == Some(color),
        m.config.copy_on_select,
    ensures
        ({
            let (next, effects) = m.step(Message::PointerClicked(id), now);
            &&& effects[0] == Effect::WriteClipboard(
                match m.config.default_color_format {
                    ColorFormat::Hex => color.hex_text(),
                    ColorFormat::Rgb => color.rgb_text(),
                    ColorFormat::Hsl => color.hsl_text(),
                },
            )
            &&& next.copied_target == Some(m.config.default_color_format)
            &&& next.copied_at == Some(now)
        }),
{
}

/// The popup shows the colour that was picked: as its swatch, at its centre and
/// in three rows, one for each format.
pub proof fn law_popup_shows_the_color(m: Model, popup: PopupView, color: Color, now: u64)
    requires
        popup.shows(m, now),
        m.sampled == Some(color),
    ensures
        popup.swatch == (color.r, color.g, color.b),
        popup.centre matches Some(text) && text@ == color.hex_text(),
        popup.rows@.len() == 3,
        popup.rows@[0].value@ == color.hex_text() && popup.rows@[0].target == ColorFormat::Hex,
        popup.rows@[1].value@ == color.rgb_text() && popup.rows@[1].target == ColorFormat::Rgb,
        popup.rows@[2].value@ == color.hsl_text() && popup.rows@[2].target == ColorFormat::Hsl,
        forall|i: int|
            0 <= i < 3 ==> (#[trigger] popup.rows@[i]).indicator is Copy || popup.rows@[i].indicator
                is Checkmark,
{
}

/// The copy-area of a row shows a checkmark for two seconds after its format was
/// copied; otherwise a copy icon if there is a colour, and nothing if not.
pub proof fn law_indicator(m: Model, target: ColorFormat, at: u64, now: u64)
    requires
        at <= now,
        m.copied_at == Some(at),
    ensures
        m.copied_target == Some(target) && now - at < 2000 ==> m.indicator(target, now)
            == Indicator::Checkmark,
        m.copied_target != Some(target) || now - at >= 2000 ==> m.indicator(target, now) == (
        if m.sampled is Some {
            Indicator::Copy
        } else {
            Indicator::Empty
        }),
{
}

/// A press on a row copies the text that the row shows, and the row shows that
/// for two seconds.
pub proof fn law_rows_copy_what_they_show(
    m: Model,
    popup: PopupView,
    later: PopupView,
    i: int,
    at: u64,
    now: u64,
)
    requires
        is_consistent(m),
        popup.shows(m, at),
        0 <= i < popup.rows@.len(),
        at <= now,
        later.shows(m.step(press(popup.rows@[i].target), at).0, now),
    ensures
        m.step(press(popup.rows@[i].target), at).1 == seq![
            Effect::WriteClipboard(popup.rows@[i].value@),
            Effect::ScheduleClear,
        ],
        later.rows@.len() == popup.rows@.len(),
        later.rows@[i].value@ == popup.rows@[i].value@,
        later.rows@[i].indicator is Checkmark <==> now - at < 2000,
        forall|j: int|
            0 <= j < later.rows@.len() && j != i ==> !((
            #[trigger] later.rows@[j]).indicator is Checkmark),
{
    let format = popup.rows@[i].target;
    let (next, effects) = m.step(press(format), at);
    lemma_rows(m, popup, at);
    lemma_texts(m.sampled->0);
    assert(m.text(format) == popup.rows@[i].value@);
    lemma_copied(m, format, at);
    lemma_rows(next, later, now);
}

/// The rows of a popup are those of the three formats.
proof fn lemma_rows(m: Model, popup: PopupView, now: u64)
    requires
        is_consistent(m),
        popup.shows(m, now),
    ensures
        m.sampled is Some ==> popup.rows@.len() == 3,
        m.sampled is None ==> popup.rows@.len() == 0,
        forall|i: int|
            0 <= i < popup.rows@.len() ==> {
                let row = #[trigger] popup.rows@[i];
                &&& row.target.place() == i
                &&& row.value@ == m.text(row.target)
                &&& row.indicator is Checkmark <==> m.just_copied(row.target, now)
            },
{
}

/// A press on a format copies its text, and changes the feedback alone.
proof fn lemma_copied(m: Model, format: ColorFormat, at: u64)
    requires
        is_consistent(m),
        m.text(format).len() > 0,
    ensures
        ({
            let (next, effects) = m.step(press(format), at);
            &&& effects == seq![Effect::WriteClipboard(m.text(format)), Effect::ScheduleClear]
            &&& next == (Model { copied_target: Some(format), copied_at: Some(at), ..m })
            &&& is_consistent(next)
        }),
{
}

/// The popup shows an error, the setting, and with automatic copies the default
/// format; without a colour it shows none.
pub proof fn law_popup_shows_the_settings(m: Model, popup: PopupView, now: u64)
    requires
        is_consistent(m),
        popup.shows(m, now),
    ensures
        popup.copy_on_select == m.config.copy_on_select,
        popup.format_choice matches Some(place) ==> format_at(place as int) == Some(
            m.config.default_color_format,
        ),
        popup.format_choice is Some <==> m.config.copy_on_select,
        m.error matches Some(text) ==> popup.error matches Some(shown) && shown@ == text,
        m.error is None ==> popup.error is None,
        m.sampled is None ==> popup.centre is None && popup.rows@.len() == 0,
{
}

/// The windows are told apart: an overlay of the session is one, and closing it
/// cancels the picker; the popup is the popup, and closing it closes the popup; a
/// window that is neither is left alone.
pub proof fn law_windows_are_told_apart(m: Model, id: u64, now: u64)
    ensures
        m.picker matches Some(session) ==> session.overlay_ids.contains(id) ==> {
            &&& m.window(id) is Overlay
            &&& m.close_requested(id) == Some(Message::PickerCancel)
            &&& !m.flags.pick ==> m.step(m.close_requested(id)->0, now).0.picker is None
        },
        m.pending_overlay_ids.contains(id) ==> m.window(id) is Overlay,
        m.picker is None && m.pending_overlay_ids.len() == 0 && m.popup == Some(id) ==> {
            &&& m.window(id) is Popup
            &&& m.close_requested(id) == Some(Message::PopupClosed(id))
            &&& m.step(m.close_requested(id)->0, now).0.popup is None
        },
        m.picker is None && m.pending_overlay_ids.len() == 0 && m.popup != Some(id) ==> {
            &&& m.window(id) is Unknown
            &&& m.close_requested(id) is None
        },
{
}

/// The overlay of a captured output shows the frozen image of that capture.
pub proof fn law_overlay_shows_its_capture(session: Session, id: u64, i: int)
    requires
        is_session(session),
        0 <= i < session.captures.len(),
        i < session.overlay_ids.len(),
        session.overlay_ids[i] == id,
        forall|j: int| 0 <= j < i ==> #[trigger] session.overlay_ids[j] != id,
    ensures
        frozen_image(session, id) == Some(session.captures[i].image_handle),
{
    lemma_place_of(session.overlay_ids, id);
    let p = place_of(session.overlay_ids, id)->0;
    if i < p {
        assert(session.overlay_ids[i] != id);
    }
}

/// A pointer motion over a known overlay sets the cursor and fills the lens, and
/// nothing else.
proof fn lemma_pointer_step(m: Model, session: Session, id: u64, x: Single, y: Single, now: u64)
    requires
        m.picker == Some(session),
        session.moved(id, x@, y@) is Some,
    ensures
        ({
            let (next, effects) = m.step(Message::PointerMoved(id, x, y), now);
            let hover = session.moved(id, x@, y@)->0;
            &&& next == (Model {
                picker: Some(Session { hover: Some(hover), ..session }),
                buf: filled(m.buf, session.captures[hover.output_index], hover.pixel_pos),
                ..m
            })
            &&& effects.len() == 0
        }),
{
}

/// A cell of a filled lens.
proof fn lemma_filled_around(
    o: CapturedOutput,
    centre: (u32, u32),
    buf: Seq<u8>,
    column: int,
    row: int,
)
    requires
        is_captured(o),
        o.rgba.has(centre.0 as int, centre.1 as int),
        0 <= column < 17,
        0 <= row < 17,
    ensures
        ({
            let all = filled(buf, o, centre);
            let cell = 3 * (17 * row + column);
            (all[cell], all[cell + 1], all[cell + 2]) == o.rgba.rgb(
                clamped(centre.0 as int, column - 8, o.width as int),
                clamped(centre.1 as int, row - 8, o.height as int),
            )
        }),
{
    law_lens_shows_neighbours(o, centre, buf, column, row);
    let all = filled(buf, o, centre);
    let cell = 17 * row + column;
    let shown = lens_pixel(cell as u16, all);
    assert(shown[0] == all[3 * cell]);
    assert(shown[1] == all[3 * cell + 1]);
    assert(shown[2] == all[3 * cell + 2]);
}

/// An overlay that waits for its capture is transparent; in a session every
/// overlay takes the pointer, and shows the lens once the cursor is known.
pub proof fn law_overlays_show_their_state(m: Model, overlay: OverlayView, id: u64)
    requires
        is_consistent(m),
        overlay.shows(m, id),
    ensures
        m.picker is None && m.pending_overlay_ids.contains(id) ==> overlay is Waiting,
        m.picker is None && !m.pending_overlay_ids.contains(id) ==> overlay is Placeholder,
        m.picker matches Some(session) ==> overlay matches OverlayView::Picking(image, lens) && {
            &&& lens is Some <==> session.hover is Some
            &&& image is Some ==> session.overlay_ids.contains(id)
        },
{
    if let Some(session) = m.picker {
        lemma_place_of(session.overlay_ids, id);
    }
}

/// A capture that starts asks for a window on each output: that of the output
/// itself, in the order of the outputs, before anything else.
pub proof fn law_each_output_gets_its_overlay(m: Model, k: int, now: u64)
    requires
        m.picker is None,
        m.pending_overlay_ids.len() == 0,
        0 <= k < m.outputs.len(),
    ensures
        ({
            let (next, effects) = m.step(Message::EyedropperClicked, now);
            let own = Effect::CreateOverlay(m.outputs[k].id, m.outputs[k].output);
            &&& effects[k] == own
            &&& next.pending_overlay_ids.len() == m.outputs.len()
            &&& next.pending_overlay_ids[k] == m.outputs[k].id
            &&& effects.len() == m.outputs.len() + if m.popup is Some {
                2int
            } else {
                1
            }
            &&& m.popup matches Some(id) ==> effects[m.outputs.len() as int]
                == Effect::DestroyPopup(id)
        }),
{
    lemma_filter_all(m.outputs, lacks_overlay(m.pending_overlay_ids));
}

/// A capture without pre-created overlays asks for a window on each output, in the
/// order of the outputs.
pub proof fn law_late_overlays_are_created(
    m: Model,
    captures: Vec<CapturedOutput>,
    k: int,
    now: u64,
)
    requires
        m.picker is None,
        m.pending_overlay_ids.len() == 0,
        captures@.len() > 0,
        0 <= k < m.outputs.len(),
    ensures
        ({
            let effects = m.step(Message::CaptureCompleted(captures), now).1;
            &&& effects.len() == m.outputs.len()
            &&& effects[k] == Effect::CreateOverlay(m.outputs[k].id, m.outputs[k].output)
        }),
{
}

/// The pointer over the overlay of a captured output is known there, and the
/// lens is filled with the captured pixels around it.
pub proof fn law_pointer_fills_lens(
    m: Model,
    session: Session,
    id: u64,
    x: Single,
    y: Single,
    column: int,
    row: int,
    now: u64,
)
    requires
        m.picker == Some(session),
        place_of(session.overlay_ids, id) matches Some(i) && {
            &&& i < session.captures.len()
            &&& is_ordinary(session.captures[i])
            &&& is_captured(session.captures[i])
            &&& is_on_axis(x@, session.captures[i].logical_width)
            &&& is_on_axis(y@, session.captures[i].logical_height)
        },
        0 <= column < 17,
        0 <= row < 17,
    ensures
        ({
            let (next, effects) = m.step(Message::PointerMoved(id, x, y), now);
            let i = place_of(session.overlay_ids, id)->0;
            let o = session.captures[i];
            let hover = next.picker->0.hover->0;
            let (a, b) = (hover.pixel_pos.0 as int, hover.pixel_pos.1 as int);
            let rgb = o.rgba.rgb(
                clamped(a, column - 8, o.width as int),
                clamped(b, row - 8, o.height as int),
            );
            let cell = 3 * (17 * row + column);
            &&& next.picker matches Some(after) && after == (Session {
                hover: after.hover,
                ..session
            })
            &&& next.picker->0.hover is Some
            &&& hover.output_index == i
            &&& hover.local_pos == (x@, y@)
            &&& is_pixel_at(a, x@.units(), o.width, o.logical_width)
            &&& is_pixel_at(b, y@.units(), o.height, o.logical_height)
            &&& (next.buf[cell], next.buf[cell + 1], next.buf[cell + 2]) == rgb
            &&& effects.len() == 0
        }),
{
    law_hover_is_at_pointer(session, id, x@, y@);
    let hover = session.moved(id, x@, y@)->0;
    assert(hover.output_index == place_of(session.overlay_ids, id)->0);
    lemma_pointer_step(m, session, id, x, y, now);
    lemma_filled_around(
        session.captures[hover.output_index],
        hover.pixel_pos,
        m.buf,
        column,
        row,
    );
}

/// A session begins with the captures as they are, without a cursor, so that the
/// first click picks nothing.
pub proof fn law_session_begins(m: Model, captures: Vec<CapturedOutput>, id: u64, now: u64)
    requires
        m.picker is None,
        captures@.len() > 0,
    ensures
        ({
            let next = m.step(Message::CaptureCompleted(captures), now).0;
            &&& next.picker matches Some(session) && {
                &&& session.captures == captures@
                &&& session.hover is None
                &&& session.state is Picking
            }
            &&& next.pending_overlay_ids.len() == 0
            &&& next.step(Message::PointerClicked(id), now) == (next, Seq::<Effect>::empty())
        }),
{
}

/// A click on a colour ends the session with that colour, whichever overlay it
/// was on, and asks for the popup.
pub proof fn law_click_ends_the_session(
    m: Model,
    session: Session,
    color: Color,
    id: u64,
    other: u64,
    now: u64,
)
    requires
        m.picker == Some(session),
        session.clicked() == Some(color),
    ensures
        ({
            let (next, effects) = m.step(Message::PointerClicked(id), now);
            &&& next.picker is None
            &&& next.sampled == Some(color)
            &&& next.hex == color.hex_text()
            &&& next.rgb == color.rgb_text()
            &&& next.hsl == color.hsl_text()
            &&& effects.last() == Effect::OpenPopup
            &&& m.step(Message::PointerClicked(other), now) == (next, effects)
        }),
{
}

/// An output event alone asks for nothing, unless a capture waits for an output
/// or overlays wait for a capture.
pub proof fn law_output_events_are_quiet(
    m: Model,
    event: OutputEvent,
    output: u64,
    fresh: u64,
    now: u64,
)
    requires
        !m.pending_start,
        m.pending_overlay_ids.len() == 0,
    ensures
        ({
            let (next, effects) = m.step(Message::OutputEvent(event, output, fresh), now);
            &&& effects.len() == 0
            &&& next == (Model { outputs: next.outputs, ..m })
        }),
{
}

/// The pointer over a window that is no overlay of the session changes nothing,
/// and neither do pointer events without a session.
pub proof fn law_other_windows_are_ignored(m: Model, id: u64, x: Single, y: Single, now: u64)
    requires
        m.picker matches Some(session) ==> !session.overlay_ids.contains(id),
    ensures
        m.step(Message::PointerMoved(id, x, y), now) == (m, Seq::<Effect>::empty()),
        m.picker is None ==> m.step(Message::PointerClicked(id), now) == (
            m,
            Seq::<Effect>::empty(),
        ),
        m.step(Message::OverlayCreated(id), now) == (m, Seq::<Effect>::empty()),
{
    if let Some(session) = m.picker {
        lemma_place_of(session.overlay_ids, id);
    }
}

/// Each message changes what it is for and leaves the rest: the settings change
/// with messages about settings, the outputs with output events, the lens with
/// the pointer, the zoom with frames and the start of a capture, the colour with
/// a click and the start of a capture.
pub proof fn law_messages_change_their_part(m: Model, message: Message, now: u64)
    ensures
        ({
            let next = m.step(message, now).0;
            let starts = message is EyedropperClicked || message is DbusPick
                || message is OutputEvent;
            let ends = message is CaptureCompleted || message is CaptureFailed
                || message is PickerCancel;
            let copies = message is CopyHex || message is CopyRgb || message is CopyHsl;
            &&& next.flags == m.flags
            &&& !(message is UpdateConfig || message is SetCopyOnSelect
                || message is SetDefaultFormat) ==> {
                &&& next.config == m.config
                &&& next.color_format_model == m.color_format_model
            }
            &&& !(message is OutputEvent) ==> {
                &&& next.outputs == m.outputs
                &&& next.pending_start == m.pending_start
            }
            &&& !(message is PointerMoved) ==> next.buf == m.buf
            &&& !(message is FrameTick || starts) ==> next.zoom_level == m.zoom_level
            &&& !(message is FrameTick || message is MagnifierZoom || starts)
                ==> next.pending_zoom_delta == m.pending_zoom_delta
            &&& !(message is PointerClicked || starts) ==> next.sampled == m.sampled
            &&& !(message is PointerClicked) ==> {
                &&& next.hex == m.hex
                &&& next.rgb == m.rgb
                &&& next.hsl == m.hsl
            }
            &&& !(starts || ends) || message is PickerCancel ==> next.error == m.error
            &&& message matches Message::CaptureCompleted(captures) ==> captures@.len() > 0
                ==> next.error == m.error
            &&& !(starts || ends) ==> next.pending_overlay_ids == m.pending_overlay_ids
            &&& !(ends || message is PointerMoved || message is PointerClicked) ==> next.picker
                == m.picker
            &&& !(starts || message is TogglePopup || message is PopupOpened
                || message is PopupClosed) ==> next.popup == m.popup
            &&& !(starts || copies || message is PopupClosed || message is PointerClicked
                || message is ClearCopyFeedback) ==> {
                &&& next.copied_target == m.copied_target
                &&& next.copied_at == m.copied_at
            }
        }),
{
}

/// The applet starts with nothing picked, nothing open and nothing tracked, at
/// the lowest zoom; with `--pick` it waits for an output to start a capture.
pub proof fn law_first_state(flags: Flags, config: Config)
    ensures
        ({
            let m = initial(flags, config);
            &&& m.config == config && m.flags == flags
            &&& m.popup is None && m.picker is None && m.sampled is None && m.error is None
            &&& m.outputs.len() == 0 && m.pending_overlay_ids.len() == 0
            &&& m.copied_target is None && m.copied_at is None
            &&& m.hex.len() == 0 && m.rgb.len() == 0 && m.hsl.len() == 0
            &&& m.zoom_level == 8 && m.pending_zoom_delta.equals(single(0))
            &&& m.pending_start == flags.pick
            &&& format_at(m.color_format_model) == Some(config.default_color_format)
        }),
{
    lemma_whole(0);
}

/// The texture of the lens shows the cells of the buffer at the zoom of the
/// model: each as a square of its colour, and nothing outside the circle.
pub proof fn law_lens_view_shows_cells(
    m: Model,
    session: Session,
    view: MagnifierView,
    column: int,
    row: int,
    x: int,
    y: int,
)
    requires
        MIN_ZOOM <= m.zoom_level <= MAX_ZOOM,
        view.shows(m, session),
        0 <= column < 17,
        0 <= row < 17,
        column * m.zoom_level <= x < (column + 1) * m.zoom_level,
        row * m.zoom_level <= y < (row + 1) * m.zoom_level,
    ensures
        ({
            let side = 17 * m.zoom_level;
            let (dx, dy) = (2 * x + 1 - side, 2 * y + 1 - side);
            let cell = 3 * (17 * row + column);
            let at = 4 * (y * side + x);
            &&& view.rgba@.len() == 4 * (side * side)
            &&& view.rgba@.subrange(at, at + 4) == if dx * dx + dy * dy <= side * side {
                seq![m.buf[cell], m.buf[cell + 1], m.buf[cell + 2], 255u8]
            } else {
                seq![0u8, 0, 0, 0]
            }
        }),
{
    let zoom = m.zoom_level;
    let side = 17 * zoom;
    lemma_whole(zoom);
    law_zoom_snaps_to_nearest(single(zoom), zoom);
    assert(snapped(single(zoom)) == zoom);
    lemma_column(zoom, column, x);
    lemma_column(zoom, row, y);
    let at = 4 * (y * side + x);
    assert(view.rgba@.subrange(4 * (y * side + x), 4 * (y * side + x) + 4) == lens_pixel(
        mask_cell(zoom, x, y) as u16,
        m.buf,
    ));
}

/// The lens is drawn by the cursor, on the output that the cursor is on: beside
/// it, above or below, as large as the zoom says, with the strokes on its cells.
pub proof fn law_lens_view_is_by_the_cursor(m: Model, session: Session, view: MagnifierView)
    requires
        MIN_ZOOM <= m.zoom_level <= MAX_ZOOM,
        view.shows(m, session),
        session.hover matches Some(hover) && {
            let o = session.captures[hover.output_index];
            &&& 0 <= hover.output_index < session.captures.len()
            &&& o.logical_width <= 0x80_0000
            &&& o.logical_height <= 0x80_0000
            &&& is_on_axis(hover.local_pos.0, o.logical_width)
            &&& is_on_axis(hover.local_pos.1, o.logical_height)
        },
    ensures
        ({
            let hover = session.hover->0;
            let o = session.captures[hover.output_index];
            let t = 17 * m.zoom_level;
            let (cx, cy) = (hover.local_pos.0.units(), hover.local_pos.1.units());
            &&& view.placement.total@.units() == whole(t)
            &&& is_beside(view.placement.x@.units(), cx, t, o.logical_width as int)
            &&& is_above_or_below(view.placement.y@.units(), cy, t, o.logical_height as int)
            &&& 2 * view.strokes.centre@.units() == whole(t)
            &&& 2 * view.strokes.cross_from@.units() == whole(t) - 2 * whole(2 * m.zoom_level)
            &&& 2 * view.strokes.cross_to@.units() == whole(t) + 2 * whole(2 * m.zoom_level)
            &&& view.strokes.cell_from@.units() == whole(8 * m.zoom_level)
            &&& view.strokes.cell_side@.units() == whole(m.zoom_level)
            &&& 2 * view.strokes.border@.units() == whole(t) - whole(1)
        }),
{
    let hover = session.hover->0;
    let o = session.captures[hover.output_index];
    law_lens_has_its_cells(m.zoom_level);
    law_lens_is_beside(hover.local_pos.0, m.zoom_level, o.logical_width as int);
    law_lens_is_above_or_below(hover.local_pos.1, m.zoom_level, o.logical_height as int);
    let program = MagnifierProgram { grid_size: 17, pixel_size: view.strokes.cell_side };
    law_strokes_lie_on_cells(program, view.strokes, m.zoom_level);
}

/// An overlay without a capture shows no image.
pub proof fn law_overlay_without_capture_is_empty(session: Session, id: u64)
    requires
        is_session(session),
        forall|j: int|
            0 <= j < session.overlay_ids.len() && j < session.captures.len()
                ==> #[trigger] session.overlay_ids[j] != id,
    ensures
        frozen_image(session, id) is None,
{
    lemma_place_of(session.overlay_ids, id);
}

/// Every message can be handled, but for the pointer over an overlay that has no
/// capture.
pub proof fn law_what_can_be_handled(m: Model, message: Message)
    ensures
        !(message is PointerMoved) || m.picker is None ==> m.accepts(message),
        m.picker matches Some(session) ==> message matches Message::PointerMoved(id, _, _) ==> {
            &&& !session.overlay_ids.contains(id) ==> m.accepts(message)
            &&& forall|i: int|
                0 <= i < session.captures.len() && i < session.overlay_ids.len()
                    && #[trigger] session.overlay_ids[i] == id ==> m.accepts(message)
        },
{
    if let Some(session) = m.picker {
        if let Message::PointerMoved(id, _, _) = message {
            lemma_place_of(session.overlay_ids, id);
            assert forall|i: int|
                0 <= i < session.captures.len() && i < session.overlay_ids.len()
                    && #[trigger] session.overlay_ids[i] == id implies m.accepts(message) by {
                let p = place_of(session.overlay_ids, id)->0;
                if i < p {
                    assert(session.overlay_ids[i] != id);
                }
            }
        }
    }
}

} // verus!
