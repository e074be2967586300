use eyedropper::float::Single;

fn single(x: f32) -> Single {
    Single::from_bits(x.to_bits())
}

fn machine(x: Single) -> f32 {
    f32::from_bits(x.to_bits())
}

fn same(a: f32, b: f32) -> bool {
    (a.is_nan() && b.is_nan()) || a.to_bits() == b.to_bits()
}

/// Bit patterns that reach all kinds of numbers.
fn patterns() -> Vec<u32> {
    let mut out: Vec<u32> = vec![
        0, 1, 0x8000_0000, 0x8000_0001, 0x007f_ffff, 0x0080_0000, 0x7f7f_ffff, 0xff7f_ffff,
        0x7f80_0000, 0xff80_0000, 0x7fc0_0000, 0x3f80_0000, 0xbf80_0000, 0x3f7f_ffff, 0x3f80_0001,
        0x4b00_0000, 0x4b80_0000, 0x4b7f_ffff, 0x4f7f_ffff, 0x4f80_0000, 0x3f00_0000, 0x3eff_ffff,
    ];
    let mut x: u32 = 12345;
    for _ in 0..300 {
        x = x.wrapping_mul(1664525).wrapping_add(1013904223);
        out.push(x);
        out.push((x & 0x80ff_ffff) | 0x3f00_0000 | (x << 20 & 0x0180_0000));
    }
    out
}

#[test]
fn bits_round_trip() {
    for p in patterns() {
        let back = Single::from_bits(p).to_bits();
        assert!(back == p || f32::from_bits(p).is_nan());
    }
}

#[test]
fn arithmetic_agrees_with_the_machine() {
    let all = patterns();
    for &p in &all {
        for &q in &all {
            let (a, b) = (f32::from_bits(p), f32::from_bits(q));
            let (x, y) = (single(a), single(b));
            assert!(same(machine(x.plus(y)), a + b), "{a} + {b}");
            assert!(same(machine(x.minus(y)), a - b), "{a} - {b}");
            assert!(same(machine(x.times(y)), a * b), "{a} * {b}");
            assert!(same(machine(x.over(y)), a / b), "{a} / {b}");
            assert_eq!(x.below(y), a < b);
            assert_eq!(x.equals(y), a == b);
            assert_eq!(x.at_least(y), a >= b);
        }
    }
}

#[test]
fn conversions_agree_with_the_machine() {
    for p in patterns() {
        let a = f32::from_bits(p);
        let x = single(a);
        assert_eq!(x.truncated(), a as u32);
        assert_eq!(x.nearest(), a.round() as u32);
        assert_eq!(x.widened().truncated(), f64::from(a) as u32);
        assert_eq!(x.widened().nearest(), f64::from(a).round() as u32);
        assert!(same(machine(Single::from_u32(p)), p as f32));
        assert!(same(machine(Single::ratio(p as i32, 1)), p as i32 as f32));
        if a.is_sign_positive() && a < 4.0e9 {
            assert_eq!(x.nearest_even().to_string(), format!("{a:.0}"));
        }
    }
}

#[test]
fn clamping_agrees_with_the_machine() {
    for p in patterns() {
        let a = f32::from_bits(p);
        let kept = single(a).kept_within(single(8.0), single(24.0));
        assert!(same(machine(kept), a.clamp(8.0, 24.0)));
        assert!(same(machine(single(a).larger(single(8.0))), a.max(8.0)));
        assert!(same(machine(single(a).smaller(single(8.0))), a.min(8.0)));
    }
}

#[test]
fn ratio_is_the_nearest_number() {
    assert_eq!(Single::ratio(3, 4).to_bits(), 0.75f32.to_bits());
    assert_eq!(Single::ratio(1, 3).to_bits(), (1.0f32 / 3.0).to_bits());
    assert_eq!(Single::ratio(-1, 10).to_bits(), (-0.1f32).to_bits());
}
