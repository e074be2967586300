use eyedropper::float::Single;
use eyedropper::picker::capture::{socket_path, CaptureHelper, OutputInfo};
use eyedropper::picker::controller::PickerController;
use eyedropper::picker::rgba::RgbaImage;
use eyedropper::picker::wayland::{crop_outputs, panic_message, CaptureFailure};

fn info(name: &str, location: (i32, i32), size: (i32, i32)) -> OutputInfo {
    OutputInfo {
        name: Some(name.to_string()),
        location,
        logical_position: Some(location),
        logical_size: Some(size),
    }
}

/// A screenshot whose pixel (x, y) has red x, green y, blue 7 and alpha 200.
fn screenshot(width: u32, height: u32) -> RgbaImage {
    let mut bytes: Vec<u8> = Vec::new();
    for y in 0..height {
        for x in 0..width {
            bytes.extend_from_slice(&[x as u8, y as u8, 7, 200]);
        }
    }
    RgbaImage::new(width, height, bytes).unwrap()
}

#[test]
fn outputs_are_listed_in_the_order_of_discovery() {
    let mut helper = CaptureHelper::new();
    assert!(helper.outputs().is_empty());
    helper.new_output(5, Some(info("DP-1", (0, 0), (100, 50))));
    helper.new_output(3, None);
    helper.new_output(9, Some(info("DP-2", (100, 0), (100, 50))));
    assert_eq!(helper.outputs(), vec![5, 3, 9]);
    assert_eq!(helper.output_info(5), Some(info("DP-1", (0, 0), (100, 50))));
    assert_eq!(helper.output_info(3), None);
    assert_eq!(helper.output_info(4), None);
}

#[test]
fn output_infos_follow_updates() {
    let mut helper = CaptureHelper::default();
    helper.new_output(5, None);
    helper.update_output(5, Some(info("DP-1", (0, 0), (100, 50))));
    assert_eq!(helper.output_info(5), Some(info("DP-1", (0, 0), (100, 50))));
    helper.update_output(5, Some(info("DP-1", (0, 0), (200, 100))));
    assert_eq!(helper.output_info(5), Some(info("DP-1", (0, 0), (200, 100))));
    helper.update_output(5, None);
    assert_eq!(helper.output_info(5), None);
    assert_eq!(helper.outputs(), vec![5]);
}

#[test]
fn a_destroyed_output_is_forgotten() {
    let mut helper = CaptureHelper::new();
    helper.new_output(1, Some(info("DP-1", (0, 0), (10, 10))));
    helper.new_output(2, Some(info("DP-2", (10, 0), (10, 10))));
    helper.output_destroyed(1);
    assert_eq!(helper.outputs(), vec![2]);
    assert_eq!(helper.output_info(1), None);
    assert_eq!(helper.output_info(2), Some(info("DP-2", (10, 0), (10, 10))));
    helper.output_destroyed(77);
    assert_eq!(helper.outputs(), vec![2]);
}

#[test]
fn without_outputs_the_whole_screenshot_is_one() {
    let all = crop_outputs(screenshot(40, 30), &CaptureHelper::new());
    assert_eq!(all.len(), 1);
    assert_eq!(all[0].name, "screenshot");
    assert_eq!((all[0].width, all[0].height), (40, 30));
    assert_eq!((all[0].logical_width, all[0].logical_height), (40, 30));
    assert_eq!((all[0].pos_x, all[0].pos_y), (0, 0));
    assert_eq!(all[0].rgba.size(), (40, 30));
    assert_eq!(all[0].pixel_at(39, 29), Some((39, 29, 7)));
}

#[test]
fn a_single_output_gets_the_whole_screenshot_at_any_scale() {
    for (w, h) in [(1280, 720), (1707, 960), (1, 1), (3, 7), (19, 13)] {
        let mut helper = CaptureHelper::new();
        helper.new_output(1, Some(info("eDP-1", (-50, 20), (w, h))));
        let all = crop_outputs(screenshot(192, 108), &helper);
        assert_eq!(all.len(), 1);
        assert_eq!((all[0].width, all[0].height), (192, 108));
        assert_eq!(all[0].rgba.size(), (192, 108));
        assert_eq!((all[0].logical_width, all[0].logical_height), (w as u32, h as u32));
        assert_eq!((all[0].pos_x, all[0].pos_y), (-50, 20));
        assert_eq!(all[0].pixel_at(191, 107), Some((191, 107, 7)));
    }
}

#[test]
fn outputs_side_by_side_are_cropped_apart() {
    let mut helper = CaptureHelper::new();
    helper.new_output(1, Some(info("DP-1", (-60, 0), (60, 50))));
    helper.new_output(2, Some(info("DP-2", (0, 10), (40, 30))));
    // Two screenshot pixels per logical pixel.
    let all = crop_outputs(screenshot(200, 100), &helper);
    assert_eq!(all.len(), 2);
    assert_eq!(all[0].name, "DP-1");
    assert_eq!((all[0].width, all[0].height), (120, 100));
    assert_eq!(all[0].pixel_at(0, 0), Some((0, 0, 7)));
    assert_eq!(all[0].pixel_at(119, 99), Some((119, 99, 7)));
    assert_eq!(all[0].image_handle, 0);
    assert_eq!(all[1].name, "DP-2");
    assert_eq!((all[1].width, all[1].height), (80, 60));
    assert_eq!(all[1].pixel_at(0, 0), Some((120, 20, 7)));
    assert_eq!(all[1].pixel_at(79, 59), Some((199, 79, 7)));
    assert_eq!(all[1].image_handle, 1);
    assert_eq!(all[1].rgba.to_bytes()[3], 200);
}

#[test]
fn outputs_without_pixels_are_left_out() {
    let mut helper = CaptureHelper::new();
    helper.new_output(1, Some(info("DP-1", (0, 0), (10, 10))));
    helper.new_output(2, Some(info("none", (10, 0), (0, 10))));
    helper.new_output(3, Some(info("negative", (5, 0), (-5, 10))));
    helper.new_output(4, None);
    let all = crop_outputs(screenshot(10, 10), &helper);
    assert_eq!(all.len(), 1);
    assert_eq!(all[0].name, "DP-1");
}

#[test]
fn outputs_of_which_nothing_is_known_give_no_capture() {
    let mut helper = CaptureHelper::new();
    helper.new_output(1, None);
    assert!(crop_outputs(screenshot(10, 10), &helper).is_empty());
}

#[test]
fn missing_names_and_sizes_are_made_up() {
    let mut helper = CaptureHelper::new();
    helper.new_output(1, Some(info("DP-1", (0, 0), (1920, 1080))));
    helper.new_output(
        2,
        Some(OutputInfo {
            name: None,
            location: (1920, 0),
            logical_position: None,
            logical_size: None,
        }),
    );
    let all = crop_outputs(screenshot(64, 48), &helper);
    assert_eq!(all.len(), 2);
    assert_eq!(all[1].name, "monitor-1");
    // The guess is the location plus 1920 by 1080.
    assert_eq!((all[1].logical_width, all[1].logical_height), (3840, 1080));
    assert_eq!((all[1].pos_x, all[1].pos_y), (1920, 0));
    // 64 pixels for 5760 logical ones.
    assert_eq!(all[0].width, 21);
    assert_eq!(all[1].width, 43);
    assert_eq!(all[1].pixel_at(0, 0), Some((21, 0, 7)));
}

#[test]
fn failures_have_their_messages() {
    let text = |f: CaptureFailure| f.message();
    let e = || "x y".to_string();
    assert_eq!(text(CaptureFailure::Request(e())), "Screenshot request failed: x y");
    assert_eq!(text(CaptureFailure::Response(e())), "Screenshot response error: x y");
    assert_eq!(
        text(CaptureFailure::Uri(e())),
        "Cannot convert screenshot URI to file path: x y"
    );
    assert_eq!(text(CaptureFailure::Open(e())), "Failed to open screenshot image: x y");
    assert_eq!(text(CaptureFailure::Panicked(e())), "Capture thread panicked: x y");
    assert_eq!(text(CaptureFailure::Cancelled), "Capture thread was cancelled");
}

#[test]
fn panics_have_their_payload_as_message() {
    assert_eq!(panic_message(Some("a".to_string()), None), "a");
    assert_eq!(panic_message(None, Some("b".to_string())), "b");
    assert_eq!(panic_message(None, None), "unknown panic");
}

#[test]
fn the_picked_colour_is_the_screenshots() {
    let mut helper = CaptureHelper::new();
    helper.new_output(1, Some(info("DP-1", (-60, 0), (60, 50))));
    helper.new_output(2, Some(info("DP-2", (0, 10), (40, 30))));
    let shot = screenshot(200, 100);
    let all = crop_outputs(screenshot(200, 100), &helper);
    let mut picker = PickerController::new_with_captures(all, vec![0, 1], vec![11, 12]);
    for k in 0..40 * 256 / 33 {
        let (x, y) = ((k * 33) as f32 / 256.0, (k * 21 % 7680) as f32 / 256.0);
        let at = |v: f32| Single::from_bits(v.to_bits());
        picker.on_pointer_motion(12, at(x), at(y)).unwrap();
        let picked = picker.on_pointer_click(12).unwrap();
        // The output begins at pixel (120, 20), with two pixels per logical one.
        let want = shot.pixel(120 + (2.0 * x) as u32, 20 + (2.0 * y) as u32).unwrap();
        assert_eq!((picked.r, picked.g, picked.b), want);
    }
}

#[test]
fn the_socket_lies_in_the_runtime_directory() {
    assert_eq!(socket_path("/run/user/1000", None), "/run/user/1000/wayland-1");
    let display = Some("wayland-7".to_string());
    assert_eq!(socket_path("/run/user/1000", display), "/run/user/1000/wayland-7");
    assert_eq!(socket_path("", Some(String::new())), "/");
}
