use eyedropper::float::Single;
use eyedropper::picker::color::Color;
use eyedropper::picker::controller::{PickerController, PickerState};
use eyedropper::picker::output::CapturedOutput;
use eyedropper::picker::rgba::RgbaImage;

fn single(x: f32) -> Single {
    Single::from_bits(x.to_bits())
}

fn machine(x: Single) -> f32 {
    f32::from_bits(x.to_bits())
}

/// An output at a place whose pixel (x, y) has red x, green y and the given
/// blue; the alpha bytes are zero.
fn output(blue: u8, pos: (i32, i32), logical: (u32, u32), scale: u32) -> CapturedOutput {
    let (width, height) = (logical.0 * scale, logical.1 * scale);
    let mut bytes: Vec<u8> = Vec::new();
    for y in 0..height {
        for x in 0..width {
            bytes.extend_from_slice(&[x as u8, y as u8, blue, 0]);
        }
    }
    CapturedOutput {
        name: format!("DP-{blue}"),
        rgba: RgbaImage::new(width, height, bytes).unwrap(),
        image_handle: u64::from(blue),
        width,
        height,
        logical_width: logical.0,
        logical_height: logical.1,
        pos_x: pos.0,
        pos_y: pos.1,
    }
}

fn two_outputs() -> PickerController {
    PickerController::new_with_captures(
        vec![output(1, (0, 0), (100, 50), 1), output(2, (100, -20), (60, 60), 2)],
        vec![1, 2],
        vec![71, 72],
    )
}

fn color(r: u8, g: u8, b: u8) -> Option<Color> {
    Some(Color { r, g, b, a: 255 })
}

#[test]
fn an_image_needs_bytes_for_all_pixels() {
    assert!(RgbaImage::new(2, 2, vec![0; 15]).is_none());
    assert!(RgbaImage::new(2, 2, vec![0; 16]).is_some());
    assert!(RgbaImage::new(0, 5, vec![]).is_some());
    let img = RgbaImage::new(2, 1, vec![1, 2, 3, 4, 5, 6, 7, 8]).unwrap();
    assert_eq!(img.size(), (2, 1));
    assert_eq!(img.to_bytes(), vec![1, 2, 3, 4, 5, 6, 7, 8]);
}

#[test]
fn pixels_out_of_range_are_none() {
    // The bytes go on past the last row.
    let img = RgbaImage::new(2, 1, vec![9; 32]).unwrap();
    assert_eq!(img.pixel(0, 0), Some((9, 9, 9)));
    assert_eq!(img.pixel(1, 0), Some((9, 9, 9)));
    assert_eq!(img.pixel(2, 0), None);
    assert_eq!(img.pixel(0, 1), None);
    assert_eq!(img.pixel(u32::MAX, u32::MAX), None);
}

#[test]
fn cropping_takes_a_rectangle() {
    let o = output(5, (0, 0), (10, 8), 1);
    let part = o.rgba.cropped(3, 2, 4, 5);
    assert_eq!(part.size(), (4, 5));
    assert_eq!(part.to_bytes().len(), 80);
    assert_eq!(part.pixel(0, 0), Some((3, 2, 5)));
    assert_eq!(part.pixel(3, 4), Some((6, 6, 5)));
    assert_eq!(part.pixel(4, 0), None);
}

#[test]
fn pixel_at_reads_the_buffer() {
    let o = output(9, (0, 0), (10, 8), 1);
    assert_eq!(o.pixel_at(3, 7), Some((3, 7, 9)));
    assert_eq!(o.pixel_at(10, 0), None);
    assert_eq!(o.pixel_at(0, 8), None);
}

#[test]
fn overlays_belong_to_outputs_by_place() {
    let picker = two_outputs();
    assert_eq!(picker.overlay_output_index(71), Some(0));
    assert_eq!(picker.overlay_output_index(72), Some(1));
    assert_eq!(picker.overlay_output_index(73), None);
    assert!(picker.hover.is_none());
    assert_eq!(picker.state, PickerState::Picking);
}

#[test]
fn a_point_lies_on_the_first_output_that_covers_it() {
    let picker = two_outputs();
    let at = |x: f32, y: f32| picker.output_at(single(x), single(y));
    assert_eq!(at(0.0, 0.0), Some(0));
    assert_eq!(at(99.99, 49.99), Some(0));
    assert_eq!(at(100.0, 0.0), Some(1));
    assert_eq!(at(100.0, -20.0), Some(1));
    assert_eq!(at(159.9, 39.9), Some(1));
    assert_eq!(at(160.0, 0.0), None);
    assert_eq!(at(50.0, 50.0), None);
    assert_eq!(at(-0.5, 10.0), None);
    assert_eq!(at(f32::NAN, 10.0), None);
    assert_eq!(at(f32::INFINITY, 10.0), None);
}

#[test]
fn sampling_scales_to_buffer_pixels() {
    let picker = two_outputs();
    assert_eq!(picker.sample_at(single(3.7), single(9.2)), color(3, 9, 1));
    // Two buffer pixels per logical pixel.
    assert_eq!(picker.sample_at(single(110.0), single(-10.0)), color(20, 20, 2));
    assert_eq!(picker.sample_at(single(110.5), single(-10.0)), color(21, 20, 2));
    assert_eq!(picker.sample_at(single(500.0), single(0.0)), None);
}

#[test]
fn sampling_without_a_logical_size_counts_buffer_pixels() {
    let mut o = output(3, (0, 0), (20, 20), 1);
    o.logical_width = 0;
    let mut picker = PickerController::new_with_captures(vec![o], vec![0], vec![1]);
    let info = picker.on_pointer_motion(1, single(7.0), single(4.0)).unwrap();
    assert_eq!(info.pixel_pos, (7, 4));
    assert_eq!(info.color, color(7, 4, 3));
    // Nothing is on an output without an extent.
    assert_eq!(picker.sample_at(single(7.0), single(4.0)), None);
}

#[test]
fn motion_fills_in_the_hover_state() {
    let mut picker = two_outputs();
    let info = picker.on_pointer_motion(72, single(10.25), single(5.5)).unwrap();
    assert_eq!(info.output_index, 1);
    assert_eq!((machine(info.local_pos.0), machine(info.local_pos.1)), (10.25, 5.5));
    assert_eq!((machine(info.global_pos.0), machine(info.global_pos.1)), (110.25, -14.5));
    assert_eq!(info.pixel_pos, (20, 11));
    assert_eq!(info.color, color(20, 11, 2));
    assert_eq!(picker.hover.unwrap().pixel_pos, (20, 11));
    // An unknown overlay changes nothing.
    assert!(picker.on_pointer_motion(99, single(1.0), single(1.0)).is_none());
    assert_eq!(picker.hover.unwrap().pixel_pos, (20, 11));
}

#[test]
fn motion_off_the_output_has_no_colour() {
    let mut picker = two_outputs();
    let info = picker.on_pointer_motion(71, single(100.0), single(5.0)).unwrap();
    assert_eq!(info.pixel_pos, (100, 5));
    assert_eq!(info.color, None);
    let info = picker.on_pointer_motion(71, single(-4.0), single(5.0)).unwrap();
    assert_eq!(info.pixel_pos, (0, 5));
    assert_eq!(info.color, color(0, 5, 1));
}

#[test]
fn a_click_before_any_motion_is_a_no_op() {
    let mut picker = two_outputs();
    assert_eq!(picker.on_pointer_click(71), None);
    assert_eq!(picker.state, PickerState::Picking);
}

#[test]
fn a_click_picks_what_is_hovered() {
    let mut picker = two_outputs();
    for k in 0..(60 * 256 / 77) {
        let x = (k * 77) as f32 / 256.0;
        let y = (k * 53 % 15360) as f32 / 256.0;
        let info = picker.on_pointer_motion(72, single(x), single(y)).unwrap();
        assert!(info.color.is_some());
        assert_eq!(picker.on_pointer_click(72), info.color);
        assert_eq!(picker.state, PickerState::Completed(info.color.unwrap()));
    }
}

#[test]
fn a_click_that_rounding_moves_off_the_output_picks_nothing() {
    let mut picker = PickerController::new_with_captures(
        vec![output(4, (4_194_304, 0), (10, 10), 1)],
        vec![0],
        vec![1],
    );
    let info = picker.on_pointer_motion(1, single(9.9), single(0.0)).unwrap();
    assert_eq!(info.color, color(9, 0, 4));
    assert_eq!(picker.on_pointer_click(1), None);
}

#[test]
fn the_lower_output_wins_where_two_overlap() {
    let mut picker = PickerController::new_with_captures(
        vec![output(1, (0, 0), (20, 20), 1), output(2, (0, 0), (20, 20), 1)],
        vec![0, 1],
        vec![1, 2],
    );
    let info = picker.on_pointer_motion(2, single(3.0), single(4.0)).unwrap();
    assert_eq!(info.color, color(3, 4, 2));
    assert_eq!(picker.on_pointer_click(2), color(3, 4, 1));
}

#[test]
fn every_point_of_a_scaled_output_has_a_pixel() {
    // 7 logical pixels shown by 10 buffer pixels.
    let mut o = output(6, (0, 0), (10, 10), 1);
    o.logical_width = 7;
    o.logical_height = 7;
    let mut picker = PickerController::new_with_captures(vec![o], vec![0], vec![1]);
    for k in 0..7 * 256 {
        let x = k as f32 / 256.0;
        let info = picker.on_pointer_motion(1, single(x), single(x)).unwrap();
        assert_eq!(info.pixel_pos.0, (f64::from(x) * (10.0 / 7.0)) as u32);
        assert!(info.color.is_some());
    }
    let last = f32::from_bits(7.0f32.to_bits() - 1);
    let info = picker.on_pointer_motion(1, single(last), single(0.0)).unwrap();
    assert_eq!(info.pixel_pos.0, 9);
}
