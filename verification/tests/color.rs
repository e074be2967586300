use eyedropper::picker::color::Color;

fn color(r: u8, g: u8, b: u8) -> Color {
    Color { r, g, b, a: 255 }
}

/// The HSL text by the machine's own double-precision arithmetic.
fn machine_hsl(r: u8, g: u8, b: u8) -> String {
    let red = f64::from(r) / 255.0;
    let green = f64::from(g) / 255.0;
    let blue = f64::from(b) / 255.0;
    let most = red.max(green).max(blue);
    let least = red.min(green).min(blue);
    let delta = most - least;
    let lightness = (most + least) / 2.0;
    if delta == 0.0 {
        return format!("hsl({:.0}, {:.0}%, {:.0}%)", 0.0, 0.0, lightness * 100.0);
    }
    let saturation = if lightness > 0.5 {
        delta / (2.0 - most - least)
    } else {
        delta / (most + least)
    };
    let hue = if most == red {
        (green - blue) / delta + if green < blue { 6.0 } else { 0.0 }
    } else if most == green {
        (blue - red) / delta + 2.0
    } else {
        (red - green) / delta + 4.0
    };
    format!(
        "hsl({:.0}, {:.0}%, {:.0}%)",
        hue * 60.0,
        saturation * 100.0,
        lightness * 100.0
    )
}

#[test]
fn hex_is_upper_case_with_two_digits_each() {
    assert_eq!(color(255, 136, 0).hex(), "#FF8800");
    assert_eq!(color(1, 10, 171).hex(), "#010AAB");
    assert_eq!(color(0, 0, 0).hex(), "#000000");
}

#[test]
fn rgb_is_decimal() {
    assert_eq!(color(255, 136, 0).rgb(), "rgb(255, 136, 0)");
    assert_eq!(color(7, 0, 99).rgb(), "rgb(7, 0, 99)");
}

#[test]
fn hsl_of_plain_colours() {
    assert_eq!(color(255, 0, 0).hsl(), "hsl(0, 100%, 50%)");
    assert_eq!(color(0, 255, 0).hsl(), "hsl(120, 100%, 50%)");
    assert_eq!(color(0, 0, 255).hsl(), "hsl(240, 100%, 50%)");
    assert_eq!(color(255, 255, 255).hsl(), "hsl(0, 0%, 100%)");
    assert_eq!(color(0, 0, 0).hsl(), "hsl(0, 0%, 0%)");
    assert_eq!(color(128, 128, 128).hsl(), "hsl(0, 0%, 50%)");
    assert_eq!(color(255, 0, 1).hsl(), "hsl(360, 100%, 50%)");
}

#[test]
fn hsl_ignores_alpha() {
    let opaque = Color { r: 10, g: 200, b: 30, a: 255 };
    let clear = Color { r: 10, g: 200, b: 30, a: 0 };
    assert_eq!(opaque.hsl(), clear.hsl());
}

#[test]
fn hsl_agrees_with_machine_doubles() {
    let mut r: u32 = 0;
    while r < 256 {
        let mut g: u32 = r % 3;
        while g < 256 {
            let mut b: u32 = g % 2;
            while b < 256 {
                let (x, y, z) = (r as u8, g as u8, b as u8);
                assert_eq!(color(x, y, z).hsl(), machine_hsl(x, y, z));
                b += 5;
            }
            g += 6;
        }
        r += 4;
    }
}

#[test]
fn hsl_agrees_with_machine_doubles_on_ties() {
    for low in 0..=255u8 {
        for step in 1..=16u8 {
            let high = low.saturating_add(step);
            for mid in low..=high {
                assert_eq!(color(high, mid, low).hsl(), machine_hsl(high, mid, low));
                assert_eq!(color(low, high, mid).hsl(), machine_hsl(low, high, mid));
                assert_eq!(color(mid, low, high).hsl(), machine_hsl(mid, low, high));
            }
        }
    }
}

#[test]
fn a_colour_becomes_its_three_texts() {
    let texts: (String, String, String) = color(255, 136, 0).into();
    assert_eq!(texts.0, "#FF8800");
    assert_eq!(texts.1, "rgb(255, 136, 0)");
    assert_eq!(texts.2, "hsl(32, 100%, 50%)");
}

#[test]
fn hex_and_rgb_tell_colours_apart() {
    let mut hex = std::collections::HashSet::new();
    let mut rgb = std::collections::HashSet::new();
    let mut count: usize = 0;
    for r in (0..=255u8).step_by(15) {
        for g in 0..=255u8 {
            for b in [0u8, 1, 10, 11, 100, 101, 111, 255] {
                hex.insert(color(r, g, b).hex());
                rgb.insert(color(r, g, b).rgb());
                count += 1;
            }
        }
    }
    assert_eq!(hex.len(), count);
    assert_eq!(rgb.len(), count);
}

#[test]
fn hsl_numbers_are_nearest_to_the_exact_ones() {
    // Lightness 10/510, saturation 2/10 and hue 60 * 1/2 + 120 degrees.
    assert_eq!(color(4, 6, 5).hsl(), "hsl(150, 20%, 2%)");
    // Saturation 1/39 is a little above 2.5 percent.
    assert_eq!(color(20, 19, 20).hsl(), "hsl(300, 3%, 8%)");
    // Hue 60 * 7/9 degrees is 46 and two thirds.
    assert_eq!(color(9, 7, 0).hsl(), "hsl(47, 100%, 2%)");
}
