use eyedropper::float::Single;
use eyedropper::picker::output::CapturedOutput;
use eyedropper::picker::rgba::RgbaImage;
use eyedropper::widget::magnifier::{
    build_masks, lens_rgba, mask_for_zoom, MagnifierMask, MagnifierProgram, MagnifierState,
    GRID_SIZE, MAX_ZOOM, MIN_ZOOM, OUTSIDE,
};
use eyedropper::widget::placement::place_lens;

fn single(x: f32) -> Single {
    Single::from_bits(x.to_bits())
}

fn machine(x: Single) -> f32 {
    f32::from_bits(x.to_bits())
}

/// A capture whose pixel (x, y) has red x, green y and blue 200.
fn gradient(width: u32, height: u32) -> CapturedOutput {
    let mut bytes: Vec<u8> = Vec::new();
    for y in 0..height {
        for x in 0..width {
            bytes.extend_from_slice(&[x as u8, y as u8, 200, 255]);
        }
    }
    CapturedOutput {
        name: "DP-1".to_string(),
        rgba: RgbaImage::new(width, height, bytes).unwrap(),
        image_handle: 0,
        width,
        height,
        logical_width: width,
        logical_height: height,
        pos_x: 0,
        pos_y: 0,
    }
}

/// One mask in the machine's own single precision.
fn machine_mask(zoom: f32) -> (u32, Vec<u16>) {
    let resolution = (17.0 * zoom).round() as u32;
    let radius = resolution as f32 / 2.0;
    let mut cells = Vec::new();
    for y in 0..resolution {
        for x in 0..resolution {
            let dx = x as f32 + 0.5 - radius;
            let dy = y as f32 + 0.5 - radius;
            if dx * dx + dy * dy <= radius * radius {
                let col = ((x as f32 + 0.5) / zoom) as usize;
                let row = ((y as f32 + 0.5) / zoom) as usize;
                cells.push((row * 17 + col) as u16);
            } else {
                cells.push(u16::MAX);
            }
        }
    }
    (resolution, cells)
}

#[test]
fn masks_agree_with_machine_singles() {
    let masks = build_masks();
    for zoom in MIN_ZOOM..=MAX_ZOOM {
        let mask = mask_for_zoom(&masks, Single::from_u32(zoom));
        let (resolution, cells) = machine_mask(zoom as f32);
        assert_eq!(mask.resolution, resolution);
        assert_eq!(mask.cells, cells);
    }
}

#[test]
fn zoom_snaps_to_the_nearest_mask() {
    let masks = build_masks();
    let side = |z: f32| mask_for_zoom(&masks, single(z)).resolution;
    assert_eq!(side(8.0), 136);
    assert_eq!(side(8.4), 136);
    assert_eq!(side(8.5), 153);
    assert_eq!(side(24.0), 408);
    assert_eq!(side(1000.0), 408);
    assert_eq!(side(-3.0), 136);
    assert_eq!(side(f32::INFINITY), 408);
    assert_eq!(side(f32::NEG_INFINITY), 136);
}

#[test]
fn texture_is_transparent_outside_and_opaque_inside() {
    let mask = MagnifierMask { resolution: 2, cells: vec![OUTSIDE, 0, 1, 0] };
    let rgba = lens_rgba(&mask, &[1, 2, 3, 4, 5, 6]);
    assert_eq!(rgba, vec![0, 0, 0, 0, 1, 2, 3, 255, 4, 5, 6, 255, 1, 2, 3, 255]);
}

#[test]
fn a_new_magnifier_has_base_zoom() {
    let state = MagnifierState::new();
    assert_eq!(state.zoom_level, 8);
    assert_eq!(state.buf, [0u8; 873]);
    assert_eq!(machine(state.pending_zoom_delta), 0.0);
    assert_eq!(MagnifierState::default().zoom_level, 8);
}

#[test]
fn scroll_deltas_add_up_until_the_next_frame() {
    let mut state = MagnifierState::new();
    state.scroll(single(1.0));
    state.scroll(single(0.5));
    assert_eq!(machine(state.pending_zoom_delta), 1.5);
    assert_eq!(state.zoom_level, 8);
    state.frame_tick();
    // 8 + 1.5 * 0.75 * 16 / 8 = 10.25
    assert_eq!(state.zoom_level, 10);
    assert_eq!(machine(state.pending_zoom_delta), 0.0);
    state.frame_tick();
    assert_eq!(state.zoom_level, 10);
}

#[test]
fn a_notch_moves_the_zoom_at_every_level() {
    for level in MIN_ZOOM..=MAX_ZOOM {
        for delta in [1.0f32, 1.5, 3.0, 100.0, f32::INFINITY] {
            let mut state = MagnifierState::new();
            state.zoom_level = level;
            state.scroll(single(delta));
            state.frame_tick();
            assert!(state.zoom_level > level || level == MAX_ZOOM);
            assert!(state.zoom_level <= MAX_ZOOM);

            state.zoom_level = level;
            state.scroll(single(-delta));
            state.frame_tick();
            assert!(state.zoom_level < level || level == MIN_ZOOM);
            assert!(state.zoom_level >= MIN_ZOOM);
        }
    }
}

#[test]
fn small_deltas_move_with_the_wheel() {
    for level in MIN_ZOOM..=MAX_ZOOM {
        // From one part in 2^18 on.
        for delta in [3.814697265625e-6f32, 0.01, 0.015625, 0.3, 0.5, 0.9] {
            let mut state = MagnifierState::new();
            state.zoom_level = level;
            state.scroll(single(delta));
            state.frame_tick();
            assert!(state.zoom_level > level || level == MAX_ZOOM);
            state.zoom_level = level;
            state.scroll(single(-delta));
            state.frame_tick();
            assert!(state.zoom_level < level || level == MIN_ZOOM);
        }
        // A scroll that single precision cannot add to the level.
        let mut state = MagnifierState::new();
        state.zoom_level = level;
        state.scroll(single(1.0e-30));
        state.frame_tick();
        assert_eq!(state.zoom_level, level);
    }
}

#[test]
fn a_delta_that_is_no_number_keeps_the_zoom() {
    let mut state = MagnifierState::new();
    state.zoom_level = 12;
    state.scroll(single(f32::NAN));
    state.frame_tick();
    assert_eq!(state.zoom_level, 12);
    assert_eq!(machine(state.pending_zoom_delta), 0.0);
}

#[test]
fn zoom_steps_have_their_exact_values() {
    let zoomed = |level: u32, delta: f32| {
        let mut state = MagnifierState::new();
        state.zoom_level = level;
        state.scroll(single(delta));
        state.frame_tick();
        state.zoom_level
    };
    assert_eq!(zoomed(8, 1.0), 10); // 9.5
    assert_eq!(zoomed(10, 1.0), 11); // 11.2
    assert_eq!(zoomed(16, 1.0), 17); // 16.75
    assert_eq!(zoomed(23, 4.0), 24); // 25.09
    assert_eq!(zoomed(24, -1.0), 23); // 23.5
    assert_eq!(zoomed(10, -1.0), 9); // 8.8
    assert_eq!(zoomed(8, -1.0), 8);
    assert_eq!(zoomed(8, 0.3), 9); // 8.45
    assert_eq!(zoomed(24, -0.9), 23); // 23.55
    assert_eq!(zoomed(24, 5.0), 24);
    // Levels out of range come back into it.
    assert_eq!(zoomed(0, 1.0), 24);
    assert_eq!(zoomed(0, -1.0), 8);
    assert_eq!(zoomed(100, -1.0), 24);
    assert_eq!(zoomed(u32::MAX, 1.0), 24);
}

#[test]
fn reset_restores_base_zoom_and_keeps_the_pixels() {
    let mut state = MagnifierState::new();
    state.buf[0] = 9;
    state.zoom_level = 20;
    state.scroll(single(2.0));
    state.reset();
    assert_eq!(state.zoom_level, 8);
    assert_eq!(machine(state.pending_zoom_delta), 0.0);
    assert_eq!(state.buf[0], 9);
}

#[test]
fn the_lens_is_filled_with_the_neighbours() {
    let capture = gradient(100, 60);
    let mut state = MagnifierState::new();
    state.buf[870] = 77;
    state.fill(&capture, (50, 30));
    for row in 0..17usize {
        for col in 0..17usize {
            let at = 3 * (17 * row + col);
            assert_eq!(state.buf[at], 50 + col as u8 - 8);
            assert_eq!(state.buf[at + 1], 30 + row as u8 - 8);
            assert_eq!(state.buf[at + 2], 200);
        }
    }
    assert_eq!(state.buf[870], 77);
}

#[test]
fn the_lens_repeats_the_edge_pixels() {
    let capture = gradient(100, 60);
    let mut state = MagnifierState::new();
    state.fill(&capture, (0, 59));
    let cell = |row: usize, col: usize| {
        let at = 3 * (17 * row + col);
        (state.buf[at], state.buf[at + 1], state.buf[at + 2])
    };
    assert_eq!(cell(8, 8), (0, 59, 200));
    assert_eq!(cell(8, 0), (0, 59, 200));
    assert_eq!(cell(8, 9), (1, 59, 200));
    assert_eq!(cell(16, 8), (0, 59, 200));
    assert_eq!(cell(0, 16), (8, 51, 200));
}

#[test]
fn the_lens_is_grey_without_pixels() {
    let mut capture = gradient(1, 1);
    capture.width = 40;
    capture.height = 40;
    let mut state = MagnifierState::new();
    state.fill(&capture, (20, 20));
    assert_eq!(&state.buf[0..3], &[128, 128, 128]);
}

#[test]
fn the_middle_of_the_texture_shows_the_pixel_under_the_cursor() {
    let capture = gradient(100, 60);
    let masks = build_masks();
    let mut state = MagnifierState::new();
    for zoom in [8u32, 13, 24] {
        state.zoom_level = zoom;
        state.fill(&capture, (41, 7));
        let rgba = state.lens(&masks);
        let side = 17 * zoom as usize;
        assert_eq!(rgba.len(), 4 * side * side);
        for y in 8 * zoom as usize..9 * zoom as usize {
            for x in 8 * zoom as usize..9 * zoom as usize {
                let at = 4 * (y * side + x);
                assert_eq!(&rgba[at..at + 4], &[41, 7, 200, 255]);
            }
        }
        assert_eq!(&rgba[0..4], &[0, 0, 0, 0]);
    }
}

/// The placement in the machine's own single precision.
fn machine_place(cur: (f32, f32), ow: f32, oh: f32, zoom: f32) -> (f32, f32, f32) {
    let total = 17.0 * zoom;
    let mut x = cur.0 + 12.0;
    let mut y = cur.1 + -(total + 12.0);
    if x + total > ow - 8.0 {
        x = cur.0 - total - 12.0;
    }
    if y < 8.0 {
        y = cur.1 + 14.0;
    }
    (
        x.max(8.0).min((ow - total - 8.0).max(8.0)),
        y.max(8.0).min((oh - total - 8.0).max(8.0)),
        total,
    )
}

#[test]
fn placement_agrees_with_machine_singles() {
    let spots = [0.0f32, 0.25, 7.9, 100.0, 155.99, 156.0, 300.5, 960.3, 1079.9, 1919.99, 2000.0];
    for zoom in [8u32, 11, 24] {
        for (w, h) in [(1920u32, 1080u32), (3840, 2160), (200, 100), (0, 0), (500, 900)] {
            for x in spots {
                for y in spots {
                    let place = place_lens((single(x), single(y)), w, h, zoom);
                    let want = machine_place((x, y), w as f32, h as f32, zoom as f32);
                    assert_eq!(machine(place.x), want.0);
                    assert_eq!(machine(place.y), want.1);
                    assert_eq!(machine(place.total), want.2);
                }
            }
        }
    }
}

#[test]
fn the_lens_stays_inside_and_spares_the_cursor() {
    for zoom in [8u32, 16, 24] {
        let t = 17.0 * zoom as f32;
        for i in 0..60 {
            for j in 0..40 {
                let (x, y) = (i as f32 * 32.5, j as f32 * 27.2);
                let place = place_lens((single(x), single(y)), 1920, 1080, zoom);
                let (px, py) = (machine(place.x), machine(place.y));
                assert!(px >= 8.0 && px + t <= 1912.0);
                assert!(py >= 8.0 && py + t <= 1072.0);
                assert!(!(px <= x && x <= px + t && py <= y && y <= py + t));
            }
        }
    }
}

#[test]
fn a_small_output_can_leave_the_cursor_under_the_lens() {
    let place = place_lens((single(50.0), single(50.0)), 100, 100, 8);
    assert_eq!(machine(place.x), 8.0);
    assert_eq!(machine(place.y), 8.0);
}

#[test]
fn strokes_are_centred() {
    let program = MagnifierProgram { grid_size: GRID_SIZE, pixel_size: single(8.0) };
    let strokes = program.draw();
    assert_eq!(machine(strokes.centre), 68.0);
    assert_eq!(machine(strokes.cross_from), 52.0);
    assert_eq!(machine(strokes.cross_to), 84.0);
    assert_eq!(machine(strokes.cell_from), 64.0);
    assert_eq!(machine(strokes.cell_side), 8.0);
    assert_eq!(machine(strokes.border), 67.5);
}
