use eyedropper::app::view::{key_message, press_message, Indicator, OverlayView, Window};
use eyedropper::app::{Action, AppModel, Message, OutputEvent};
use eyedropper::cli::Flags;
use eyedropper::config::{ColorFormat, Config};
use eyedropper::float::Single;
use eyedropper::picker::capture::OutputInfo;
use eyedropper::picker::color::Color;
use eyedropper::picker::output::CapturedOutput;
use eyedropper::picker::rgba::RgbaImage;
use eyedropper::widget::magnifier::build_masks;

fn single(x: f32) -> Single {
    Single::from_bits(x.to_bits())
}

fn capture(handle: u64, pos_x: i32) -> CapturedOutput {
    let mut bytes: Vec<u8> = Vec::new();
    for y in 0..50u32 {
        for x in 0..100u32 {
            bytes.extend_from_slice(&[x as u8, y as u8, handle as u8, 255]);
        }
    }
    CapturedOutput {
        name: format!("DP-{handle}"),
        rgba: RgbaImage::new(100, 50, bytes).unwrap(),
        image_handle: handle,
        width: 100,
        height: 50,
        logical_width: 100,
        logical_height: 50,
        pos_x,
        pos_y: 0,
    }
}

fn info(name: &str, x: i32) -> OutputInfo {
    OutputInfo {
        name: Some(name.to_string()),
        location: (x, 0),
        logical_position: Some((x, 0)),
        logical_size: Some((100, 50)),
    }
}

fn created(name: &str, x: i32, key: u64, fresh: u64) -> Message {
    Message::OutputEvent(OutputEvent::Created(Some(info(name, x))), key, fresh)
}

/// An applet with two outputs and an open popup.
fn applet() -> AppModel {
    let mut app = AppModel::init(Flags { pick: false }, Config::default());
    assert!(app.update(created("DP-1", 0, 1, 101), 0).is_empty());
    assert!(app.update(created("DP-2", 100, 2, 102), 0).is_empty());
    assert_eq!(app.update(Message::TogglePopup, 0), vec![Action::OpenPopup]);
    assert!(app.update(Message::PopupOpened(7), 0).is_empty());
    app
}

/// The same in picker mode.
fn picking() -> AppModel {
    let mut app = applet();
    app.update(Message::EyedropperClicked, 0);
    app.update(Message::CaptureCompleted(vec![capture(0, 0), capture(1, 100)]), 0);
    app
}

#[test]
fn the_button_opens_and_closes_the_popup() {
    let mut app = applet();
    assert_eq!(app.popup, Some(7));
    assert_eq!(app.update(Message::TogglePopup, 0), vec![Action::DestroyPopup(7)]);
    assert_eq!(app.popup, None);
}

#[test]
fn selecting_a_colour_goes_from_popup_to_popup() {
    let mut app = applet();
    assert_eq!(
        app.update(Message::EyedropperClicked, 0),
        vec![
            Action::CreateOverlay(101, 1),
            Action::CreateOverlay(102, 2),
            Action::DestroyPopup(7),
            Action::StartCapture
        ]
    );
    assert_eq!(app.popup, None);
    assert_eq!(app.pending_overlay_ids, vec![101, 102]);
    assert!(app
        .update(Message::CaptureCompleted(vec![capture(0, 0), capture(1, 100)]), 0)
        .is_empty());
    assert!(app.picker.is_some());
    assert!(app.pending_overlay_ids.is_empty());
    assert!(app.update(Message::PointerMoved(102, single(12.5), single(30.0)), 0).is_empty());
    assert_eq!(
        app.update(Message::PointerClicked(102), 0),
        vec![Action::DestroyOverlay(101), Action::DestroyOverlay(102), Action::OpenPopup]
    );
    assert!(app.picker.is_none());
    assert_eq!(app.sampled, Some(Color { r: 12, g: 30, b: 1, a: 255 }));
    assert_eq!(app.hex, "#0C1E01");
    assert_eq!(app.rgb, "rgb(12, 30, 1)");
    assert_eq!(app.hsl, "hsl(97, 94%, 6%)");
    app.update(Message::PopupOpened(8), 0);
    let popup = app.view_popup(0);
    assert_eq!(popup.swatch, (12, 30, 1));
    assert_eq!(popup.centre, Some("#0C1E01".to_string()));
    assert_eq!(popup.rows.len(), 3);
    assert_eq!(popup.rows[0].value, "#0C1E01");
    assert_eq!(popup.rows[1].value, "rgb(12, 30, 1)");
    assert_eq!(popup.rows[2].value, "hsl(97, 94%, 6%)");
    assert_eq!(popup.rows[0].indicator, Indicator::Copy);
}

#[test]
fn requests_are_ignored_while_picking() {
    let mut app = picking();
    assert!(app.update(Message::EyedropperClicked, 0).is_empty());
    assert!(app.update(Message::DbusPick, 0).is_empty());
    assert!(app.update(Message::TogglePopup, 0).is_empty());
    assert!(app.update(Message::CaptureCompleted(vec![capture(5, 0)]), 0).is_empty());
    assert_eq!(app.picker.as_ref().unwrap().captures.len(), 2);
    assert_eq!(app.picker.as_ref().unwrap().image_handles, vec![0, 1]);
}

#[test]
fn a_request_over_the_bus_starts_a_capture() {
    let mut app = AppModel::init(Flags { pick: false }, Config::default());
    assert_eq!(app.update(Message::DbusPick, 0), vec![Action::StartCapture]);
    // Without an output at the start, the overlays come with the capture.
    assert!(app.update(created("DP-1", 0, 1, 101), 0).is_empty());
    assert_eq!(
        app.update(Message::CaptureCompleted(vec![capture(1, 0)]), 0),
        vec![Action::CreateOverlay(101, 1)]
    );
    assert_eq!(app.picker.as_ref().unwrap().overlay_ids, vec![101]);
}

#[test]
fn transparent_overlays_wait_for_the_capture() {
    let masks = build_masks();
    let mut app = applet();
    app.update(Message::EyedropperClicked, 0);
    assert_eq!(app.view_window(101), Window::Overlay);
    assert!(matches!(app.view_picker_overlay(102, &masks), OverlayView::Waiting));
    assert!(app.update(Message::OverlayCreated(102), 0).is_empty());
    assert_eq!(app.pending_overlay_ids, vec![101, 102]);
    // A second request creates none again.
    assert_eq!(app.update(Message::DbusPick, 0), vec![Action::StartCapture]);
    assert_eq!(app.pending_overlay_ids, vec![101, 102]);
    // A new output gets its own, a known one keeps its own.
    assert_eq!(
        app.update(created("DP-3", 200, 3, 103), 0),
        vec![Action::CreateOverlay(103, 3)]
    );
    let moved = Message::OutputEvent(OutputEvent::InfoUpdate(info("DP-1", 5)), 1, 999);
    assert!(app.update(moved, 0).is_empty());
    assert_eq!(app.pending_overlay_ids, vec![101, 102, 103]);
    assert!(app.update(Message::OutputEvent(OutputEvent::Removed, 2, 0), 0).is_empty());
    // The overlays of captured outputs come first.
    let captures = vec![capture(3, 200), capture(1, 0)];
    assert!(app.update(Message::CaptureCompleted(captures), 0).is_empty());
    assert_eq!(app.picker.as_ref().unwrap().overlay_ids, vec![103, 101, 102]);
}

#[test]
fn cancelling_before_the_capture_removes_the_transparent_overlays() {
    let mut app = applet();
    app.update(Message::EyedropperClicked, 0);
    assert_eq!(
        app.update(Message::PickerCancel, 0),
        vec![Action::DestroyOverlay(101), Action::DestroyOverlay(102), Action::OpenPopup]
    );
    let mut app = applet();
    app.update(Message::EyedropperClicked, 0);
    assert_eq!(
        app.update(Message::CaptureFailed("denied".to_string()), 0),
        vec![Action::DestroyOverlay(101), Action::DestroyOverlay(102), Action::OpenPopup]
    );
    assert!(app.pending_overlay_ids.is_empty());
    // The next output gets no overlay.
    assert!(app.update(created("DP-3", 200, 3, 103), 0).is_empty());
}

#[test]
fn starting_a_capture_forgets_the_last_result() {
    let mut app = picking();
    app.update(Message::PointerMoved(101, single(5.0), single(5.0)), 0);
    app.update(Message::PointerClicked(101), 0);
    app.update(Message::CopyHex, 5);
    app.update(Message::MagnifierZoom(single(2.0)), 0);
    app.update(Message::FrameTick, 0);
    assert_eq!(app.magnifier.zoom_level, 11);
    app.update(Message::EyedropperClicked, 6);
    assert_eq!(app.sampled, None);
    assert_eq!(app.copied_target, None);
    assert_eq!(app.copied_at, None);
    assert_eq!(app.magnifier.zoom_level, 8);
    // The texts stay cached, but the popup shows none without a colour.
    assert_eq!(app.hex, "#050500");
    let popup = app.view_popup(6);
    assert_eq!(popup.swatch, (255, 255, 255));
    assert_eq!(popup.centre, None);
    assert!(popup.rows.is_empty());
}

#[test]
fn cancelling_removes_overlays_and_reopens_the_popup() {
    let mut app = picking();
    assert_eq!(
        app.update(Message::PickerCancel, 0),
        vec![Action::DestroyOverlay(101), Action::DestroyOverlay(102), Action::OpenPopup]
    );
    assert!(app.picker.is_none());
    app.update(Message::PopupOpened(9), 0);
    assert!(app.update(Message::PickerCancel, 0).is_empty());
    // Before the capture completes there are only pre-created overlays.
    app.popup = None;
    app.pending_overlay_ids = vec![55];
    assert_eq!(
        app.update(Message::PickerCancel, 0),
        vec![Action::DestroyOverlay(55), Action::OpenPopup]
    );
    assert!(app.pending_overlay_ids.is_empty());
}

#[test]
fn pre_created_overlays_are_reused() {
    let mut app = applet();
    app.pending_overlay_ids = vec![31, 32];
    assert!(app
        .update(Message::CaptureCompleted(vec![capture(0, 0), capture(1, 100)]), 0)
        .is_empty());
    assert!(app.pending_overlay_ids.is_empty());
    assert_eq!(app.picker.as_ref().unwrap().overlay_ids, vec![31, 32]);
    assert!(app.update(Message::OverlayCreated(31), 0).is_empty());
}

#[test]
fn a_capture_without_outputs_is_an_error() {
    let mut app = applet();
    app.popup = None;
    assert_eq!(app.update(Message::CaptureCompleted(vec![]), 0), vec![Action::OpenPopup]);
    assert_eq!(app.error, Some("No outputs captured".to_string()));
    assert_eq!(app.view_popup(0).error, Some("No outputs captured".to_string()));
}

#[test]
fn a_failed_capture_is_shown() {
    let mut app = applet();
    assert!(app.update(Message::CaptureFailed("no portal".to_string()), 0).is_empty());
    assert_eq!(app.error, Some("no portal".to_string()));
    app.update(Message::EyedropperClicked, 0);
    assert_eq!(app.error, None);
}

#[test]
fn pick_mode_waits_for_the_first_output() {
    let mut app = AppModel::init(Flags { pick: true }, Config::default());
    let unnamed = OutputInfo {
        name: None,
        location: (0, 0),
        logical_position: Some((0, 0)),
        logical_size: Some((10, 10)),
    };
    let early = Message::OutputEvent(OutputEvent::Created(Some(unnamed)), 4, 104);
    assert!(app.update(early, 0).is_empty());
    assert!(app.update(Message::OutputEvent(OutputEvent::Created(None), 4, 104), 0).is_empty());
    assert_eq!(
        app.update(created("DP-1", 0, 1, 101), 0),
        vec![Action::CreateOverlay(101, 1), Action::StartCapture]
    );
    assert_eq!(
        app.update(created("DP-2", 100, 2, 102), 0),
        vec![Action::CreateOverlay(102, 2)]
    );
    assert!(app
        .update(Message::CaptureCompleted(vec![capture(2, 100), capture(1, 0)]), 0)
        .is_empty());
    assert_eq!(app.picker.as_ref().unwrap().overlay_ids, vec![102, 101]);
    // In picker mode a new output is tracked, and nothing else.
    assert!(app.update(created("DP-3", 200, 3, 103), 0).is_empty());
    assert_eq!(app.outputs.len(), 3);
    assert!(app.pending_overlay_ids.is_empty());
}

#[test]
fn pick_mode_ends_the_process() {
    let start = || {
        let mut app = AppModel::init(Flags { pick: true }, Config::default());
        app.update(created("DP-1", 0, 1, 101), 0);
        app
    };
    assert_eq!(start().update(Message::PickerCancel, 0), vec![Action::Exit(0)]);
    assert_eq!(
        start().update(Message::CaptureFailed(String::new()), 0),
        vec![Action::Exit(1)]
    );
    assert_eq!(start().update(Message::CaptureCompleted(vec![]), 0), vec![Action::Exit(1)]);
    let mut app = start();
    app.update(Message::PopupOpened(3), 0);
    assert!(app.update(Message::PopupClosed(4), 0).is_empty());
    assert_eq!(app.update(Message::PopupClosed(3), 0), vec![Action::Exit(0)]);
}

#[test]
fn closing_the_popup_clears_the_feedback() {
    let mut app = picking();
    app.update(Message::PointerMoved(101, single(5.0), single(5.0)), 0);
    app.update(Message::PointerClicked(101), 0);
    app.update(Message::PopupOpened(9), 0);
    app.update(Message::CopyRgb, 10);
    assert!(app.update(Message::PopupClosed(1), 11).is_empty());
    assert_eq!(app.copied_target, Some(ColorFormat::Rgb));
    assert!(app.update(Message::PopupClosed(9), 11).is_empty());
    assert_eq!(app.popup, None);
    assert_eq!(app.copied_target, None);
    assert_eq!(app.copied_at, None);
}

#[test]
fn copying_shows_feedback_for_two_seconds() {
    let mut app = picking();
    app.update(Message::PointerMoved(101, single(5.0), single(5.0)), 0);
    app.update(Message::PointerClicked(101), 0);
    let all = [
        (ColorFormat::Hex, "#050500"),
        (ColorFormat::Rgb, "rgb(5, 5, 0)"),
        (ColorFormat::Hsl, "hsl(60, 100%, 1%)"),
    ];
    for (i, (format, text)) in all.iter().enumerate() {
        assert_eq!(
            app.update(press_message(*format), 1000),
            vec![Action::WriteClipboard(text.to_string()), Action::ScheduleClear]
        );
        for (j, row) in app.view_popup(2999).rows.iter().enumerate() {
            assert_eq!(row.indicator == Indicator::Checkmark, i == j);
            assert_eq!(row.indicator == Indicator::Copy, i != j);
        }
        assert_eq!(app.view_popup(3000).rows[i].indicator, Indicator::Copy);
    }
    assert!(app.update(Message::ClearCopyFeedback, 1001).is_empty());
    assert_eq!(app.view_popup(1001).rows[2].indicator, Indicator::Copy);
}

#[test]
fn there_is_nothing_to_copy_at_first() {
    let mut app = applet();
    for format in [ColorFormat::Hex, ColorFormat::Rgb, ColorFormat::Hsl] {
        assert!(app.update(press_message(format), 0).is_empty());
    }
    assert_eq!(app.copied_target, None);
}

#[test]
fn a_selected_colour_is_copied_if_the_setting_says_so() {
    let mut app = picking();
    assert_eq!(
        app.update(Message::SetCopyOnSelect(true), 0),
        vec![Action::SaveCopyOnSelect(true)]
    );
    assert_eq!(
        app.update(Message::SetDefaultFormat(2), 0),
        vec![Action::SaveDefaultFormat(ColorFormat::Hsl)]
    );
    app.update(Message::PointerMoved(101, single(5.0), single(5.0)), 0);
    assert_eq!(
        app.update(Message::PointerClicked(101), 50),
        vec![
            Action::WriteClipboard("hsl(60, 100%, 1%)".to_string()),
            Action::DestroyOverlay(101),
            Action::DestroyOverlay(102),
            Action::OpenPopup
        ]
    );
    assert_eq!(app.view_popup(60).rows[2].indicator, Indicator::Checkmark);
}

#[test]
fn the_format_choice_is_shown_with_automatic_copies_only() {
    let mut app = applet();
    assert_eq!(app.view_popup(0).format_choice, None);
    app.update(Message::SetCopyOnSelect(true), 0);
    assert_eq!(app.view_popup(0).format_choice, Some(0));
    assert!(app.view_popup(0).copy_on_select);
    // Choosing the same format again stores nothing.
    assert!(app.update(Message::SetDefaultFormat(0), 0).is_empty());
    assert!(app.update(Message::SetDefaultFormat(3), 0).is_empty());
    assert_eq!(
        app.update(Message::SetDefaultFormat(1), 0),
        vec![Action::SaveDefaultFormat(ColorFormat::Rgb)]
    );
    assert_eq!(app.view_popup(0).format_choice, Some(1));
    let outside = Config {
        restore_token: None,
        copy_on_select: true,
        default_color_format: ColorFormat::Hsl,
    };
    assert!(app.update(Message::UpdateConfig(outside), 0).is_empty());
    assert_eq!(app.view_popup(0).format_choice, Some(2));
}

#[test]
fn outputs_follow_the_compositor() {
    let mut app = AppModel::init(Flags { pick: false }, Config::default());
    app.update(created("DP-1", 0, 1, 101), 0);
    // An update of an output that is not known adds it.
    app.update(Message::OutputEvent(OutputEvent::InfoUpdate(info("DP-2", 100)), 2, 102), 0);
    assert_eq!(app.outputs.len(), 2);
    assert_eq!((app.outputs[1].id, app.outputs[1].logical_pos), (102, (100, 0)));
    // An update of a known one keeps its window.
    let mut bigger = info("DP-1b", 5);
    bigger.logical_size = Some((300, -1));
    app.update(Message::OutputEvent(OutputEvent::InfoUpdate(bigger), 1, 999), 0);
    assert_eq!(app.outputs[0].id, 101);
    assert_eq!(app.outputs[0].name, "DP-1b");
    assert_eq!(app.outputs[0].logical_size, (300, u32::MAX));
    // An incomplete update is ignored.
    let mut partial = info("x", 0);
    partial.logical_position = None;
    app.update(Message::OutputEvent(OutputEvent::InfoUpdate(partial), 1, 999), 0);
    assert_eq!(app.outputs[0].name, "DP-1b");
    app.update(Message::OutputEvent(OutputEvent::Removed, 1, 0), 0);
    assert_eq!(app.outputs.len(), 1);
    assert_eq!(app.outputs[0].output, 2);
    app.update(Message::OutputEvent(OutputEvent::Removed, 1, 0), 0);
    assert_eq!(app.outputs.len(), 1);
}

#[test]
fn moving_the_pointer_fills_the_lens() {
    let mut app = picking();
    app.update(Message::PointerMoved(101, single(40.0), single(20.0)), 0);
    assert_eq!(&app.magnifier.buf[432..435], &[40, 20, 0]);
    app.update(Message::PointerMoved(102, single(41.0), single(21.0)), 0);
    assert_eq!(&app.magnifier.buf[432..435], &[41, 21, 1]);
    // A window that is no overlay changes nothing.
    app.update(Message::PointerMoved(999, single(1.0), single(1.0)), 0);
    assert_eq!(&app.magnifier.buf[432..435], &[41, 21, 1]);
}

#[test]
fn an_overlay_without_a_capture_is_not_for_the_pointer() {
    let mut app = applet();
    app.update(Message::CaptureCompleted(vec![capture(0, 0)]), 0);
    assert!(app.can_handle(&Message::PointerMoved(101, single(0.0), single(0.0))));
    assert!(!app.can_handle(&Message::PointerMoved(102, single(0.0), single(0.0))));
    assert!(app.can_handle(&Message::PointerMoved(999, single(0.0), single(0.0))));
    assert!(app.can_handle(&Message::PickerCancel));
    assert!(applet().can_handle(&Message::PointerMoved(102, single(0.0), single(0.0))));
}

#[test]
fn a_click_before_motion_keeps_the_session() {
    let mut app = picking();
    assert!(app.update(Message::PointerClicked(101), 0).is_empty());
    assert!(app.picker.is_some());
    assert!(applet().update(Message::PointerClicked(101), 0).is_empty());
}

#[test]
fn scrolling_zooms_with_the_next_frame() {
    let mut app = picking();
    assert!(app.update(Message::MagnifierZoom(single(1.0)), 0).is_empty());
    assert_eq!(app.magnifier.zoom_level, 8);
    assert!(app.update(Message::FrameTick, 0).is_empty());
    assert_eq!(app.magnifier.zoom_level, 10);
    assert!(app.update(Message::FrameTick, 0).is_empty());
    assert_eq!(app.magnifier.zoom_level, 10);
}

#[test]
fn windows_are_told_apart() {
    let mut app = picking();
    app.update(Message::PopupOpened(7), 0);
    app.pending_overlay_ids = vec![55];
    assert_eq!(app.view_window(101), Window::Overlay);
    assert_eq!(app.view_window(55), Window::Overlay);
    assert_eq!(app.view_window(7), Window::Popup);
    assert_eq!(app.view_window(8), Window::Unknown);
    assert!(matches!(app.on_close_requested(102), Some(Message::PickerCancel)));
    assert!(matches!(app.on_close_requested(7), Some(Message::PopupClosed(7))));
    assert!(app.on_close_requested(55).is_none());
    assert!(app.on_close_requested(8).is_none());
}

#[test]
fn escape_cancels() {
    assert!(matches!(key_message(true), Some(Message::PickerCancel)));
    assert!(key_message(false).is_none());
}

#[test]
fn overlays_show_the_frozen_screen_and_the_lens() {
    let masks = build_masks();
    let mut app = applet();
    assert!(matches!(app.view_picker_overlay(55, &masks), OverlayView::Placeholder));
    app.pending_overlay_ids = vec![55];
    assert!(matches!(app.view_picker_overlay(55, &masks), OverlayView::Waiting));

    let mut app = picking();
    assert!(matches!(app.view_picker_overlay(102, &masks), OverlayView::Picking(Some(1), None)));
    assert!(matches!(app.view_picker_overlay(55, &masks), OverlayView::Picking(None, None)));
    assert!(app.build_magnifier(&masks).is_none());
    app.update(Message::PointerMoved(102, single(50.0), single(25.0)), 0);
    match app.view_picker_overlay(102, &masks) {
        OverlayView::Picking(Some(1), Some(lens)) => {
            assert_eq!(f32::from_bits(lens.placement.total.to_bits()), 136.0);
            assert_eq!(lens.rgba.len(), 4 * 136 * 136);
            let middle = 4 * (68 * 136 + 68);
            assert_eq!(&lens.rgba[middle..middle + 4], &[50, 25, 1, 255]);
            assert_eq!(f32::from_bits(lens.strokes.centre.to_bits()), 68.0);
        }
        _ => panic!("no lens"),
    }
}

#[test]
fn a_row_without_a_colour_has_no_icon() {
    let mut app = applet();
    let row = app.color_row("x".to_string(), ColorFormat::Rgb, 10);
    assert_eq!(row.value, "x");
    assert_eq!(row.target, ColorFormat::Rgb);
    assert_eq!(row.indicator, Indicator::Empty);
    // What was just copied has its checkmark all the same.
    app.copied_target = Some(ColorFormat::Rgb);
    app.copied_at = Some(5);
    assert_eq!(
        app.color_row(String::new(), ColorFormat::Rgb, 10).indicator,
        Indicator::Checkmark
    );
    assert_eq!(app.color_row(String::new(), ColorFormat::Hex, 10).indicator, Indicator::Empty);
    app.sampled = Some(Color { r: 0, g: 0, b: 0, a: 255 });
    assert_eq!(app.color_row(String::new(), ColorFormat::Hex, 10).indicator, Indicator::Copy);
    assert_eq!(
        app.color_row(String::new(), ColorFormat::Rgb, 2005).indicator,
        Indicator::Copy
    );
}

#[test]
fn overlays_are_parallel_to_captures_of_the_same_names() {
    let mut app = applet();
    app.update(Message::EyedropperClicked, 0);
    // The captures come in the other order than the outputs were tracked in.
    let (mut first, mut second) = (capture(2, 100), capture(1, 0));
    first.name = "DP-2".to_string();
    second.name = "DP-1".to_string();
    assert!(app.update(Message::CaptureCompleted(vec![first, second]), 0).is_empty());
    assert_eq!(app.picker.as_ref().unwrap().overlay_ids, vec![102, 101]);
    // The overlay on DP-1 shows and samples DP-1.
    let masks = build_masks();
    assert!(matches!(app.view_picker_overlay(101, &masks), OverlayView::Picking(Some(1), None)));
    app.update(Message::PointerMoved(101, single(9.0), single(8.0)), 0);
    app.update(Message::PointerClicked(101), 0);
    assert_eq!(app.sampled, Some(Color { r: 9, g: 8, b: 1, a: 255 }));
}

#[test]
fn overlays_keep_the_order_of_the_outputs_where_names_do_not_match() {
    let named = |names: [&str; 2]| {
        let mut app = applet();
        let (mut a, mut b) = (capture(1, 0), capture(2, 100));
        a.name = names[0].to_string();
        b.name = names[1].to_string();
        app.update(Message::CaptureCompleted(vec![a, b]), 0);
        app.picker.unwrap().overlay_ids
    };
    assert_eq!(named(["DP-2", "DP-1"]), vec![102, 101]);
    assert_eq!(named(["DP-1", "DP-2"]), vec![101, 102]);
    assert_eq!(named(["DP-2", "DP-2"]), vec![101, 102]);
    assert_eq!(named(["DP-2", "DP-3"]), vec![101, 102]);
    // Two outputs of one name.
    let mut app = applet();
    app.update(created("DP-2", 200, 3, 103), 0);
    app.update(Message::CaptureCompleted(vec![capture(2, 100)]), 0);
    assert_eq!(app.picker.unwrap().overlay_ids, vec![101, 102, 103]);
}

#[test]
fn overlays_without_a_capture_come_last() {
    let masks = build_masks();
    for waiting in [false, true] {
        let mut app = applet();
        app.update(created("DP-3", 200, 3, 103), 0);
        if waiting {
            app.update(Message::EyedropperClicked, 0);
        }
        app.update(Message::CaptureCompleted(vec![capture(2, 100)]), 0);
        assert_eq!(app.picker.as_ref().unwrap().overlay_ids, vec![102, 101, 103]);
        assert!(matches!(
            app.view_picker_overlay(102, &masks),
            OverlayView::Picking(Some(2), None)
        ));
        assert!(matches!(app.view_picker_overlay(101, &masks), OverlayView::Picking(None, None)));
        app.update(Message::PointerMoved(102, single(7.0), single(6.0)), 0);
        app.update(Message::PointerClicked(102), 0);
        assert_eq!(app.sampled, Some(Color { r: 7, g: 6, b: 2, a: 255 }));
    }
}

#[test]
fn a_copy_of_a_message_holds_the_same() {
    let message = Message::CaptureCompleted(vec![capture(4, -5)]);
    let (first, second) = match (&message, message.clone()) {
        (Message::CaptureCompleted(a), Message::CaptureCompleted(b)) => (a[0].clone(), b),
        _ => panic!("another message"),
    };
    let second = &second[0];
    assert_eq!((&first.name, first.image_handle), (&second.name, second.image_handle));
    assert_eq!((second.width, second.height, second.pos_x), (100, 50, -5));
    assert_eq!(second.pixel_at(99, 49), Some((99, 49, 4)));
    assert_eq!(second.pixel_at(100, 49), None);
    assert_eq!(first.pixel_at(3, 2), second.pixel_at(3, 2));
    let app = applet();
    assert_eq!(app.outputs[1].clone(), app.outputs[1]);
}

#[test]
fn the_middle_of_the_lens_is_what_a_click_picks() {
    for (column, row) in [(0, 0), (99, 49), (37, 12), (50, 0), (0, 49)] {
        for window in [101, 102] {
            let mut app = picking();
            let at = Message::PointerMoved(window, single(column as f32), single(row as f32));
            assert!(app.update(at, 0).is_empty());
            app.update(Message::PointerClicked(window), 0);
            let color = app.sampled.unwrap();
            assert_eq!(&app.magnifier.buf[432..435], &[color.r, color.g, color.b]);
            assert_eq!((color.r, color.g), (column as u8, row as u8));
        }
    }
}

#[test]
fn small_scrolls_zoom() {
    let mut app = picking();
    app.update(Message::MagnifierZoom(single(0.015625)), 0);
    app.update(Message::FrameTick, 0);
    assert_eq!(app.magnifier.zoom_level, 9);
    app.update(Message::MagnifierZoom(single(-0.01)), 0);
    app.update(Message::FrameTick, 0);
    assert_eq!(app.magnifier.zoom_level, 8);
}

#[test]
fn only_new_outputs_need_a_window() {
    let app = applet();
    let create = OutputEvent::Created(Some(info("DP-3", 200)));
    let update = OutputEvent::InfoUpdate(info("DP-1", 5));
    let mut partial = info("DP-4", 0);
    partial.name = None;
    assert!(app.adds_output(&create, 3));
    assert!(app.adds_output(&create, 1));
    assert!(!app.adds_output(&update, 1));
    assert!(app.adds_output(&update, 3));
    assert!(!app.adds_output(&OutputEvent::Created(None), 3));
    assert!(!app.adds_output(&OutputEvent::Removed, 1));
    assert!(!app.adds_output(&OutputEvent::InfoUpdate(partial), 9));
}
