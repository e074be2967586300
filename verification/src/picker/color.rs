//! A picked colour and its texts.

use crate::float::{Double, Value};
use crate::text::{
    decimal, hex_byte, is_number, law_decimal_reads_back, law_hex_byte_is_injective,
    law_hex_byte_reads_back, lemma_decimal_prefix, number, push_decimal, push_hex_byte,
};
use crate::near::{
    lemma_near_half, lemma_near_minus, lemma_near_nearest, lemma_near_over, lemma_near_plus,
    lemma_near_ratio, lemma_near_scale, lemma_near_times, lemma_near_weaken, lemma_near_whole,
    lemma_steps, near, one, step,
};
use vstd::math::{abs, max, min};
use vstd::prelude::*;

verus! {

/// A colour sampled from the desktop.
#[derive(Debug, Clone, Copy, PartialEq, Eq, Structural)]
pub struct Color {
    /// Red component (0-255)
    pub r: u8,
    /// Green component (0-255)
    pub g: u8,
    /// Blue component (0-255)
    pub b: u8,
    /// Alpha component (0-255)
    pub a: u8,
}

/// A number as a double.
pub open spec fn double(n: int) -> Value<true> {
    Value::ratio(n, 1)
}

/// A colour component on the scale from zero to one.
pub open spec fn component(c: u8) -> Value<true> {
    double(c as int).over(double(255))
}

impl Color {
    /// The text `#RRGGBB`.
    pub open spec fn hex_text(self) -> Seq<char> {
        seq!['#'] + hex_byte(self.r as int) + hex_byte(self.g as int) + hex_byte(self.b as int)
    }

    /// The text `rgb(R, G, B)`.
    pub open spec fn rgb_text(self) -> Seq<char> {
        "rgb("@ + decimal(self.r as int) + ", "@ + decimal(self.g as int) + ", "@ + decimal(
            self.b as int,
        ) + ")"@
    }

    /// Hue in degrees, saturation and lightness, in double precision.
    pub open spec fn hsl_spec(self) -> (Value<true>, Value<true>, Value<true>) {
        let red = component(self.r);
        let green = component(self.g);
        let blue = component(self.b);
        let most = red.larger(green).larger(blue);
        let least = red.smaller(green).smaller(blue);
        let delta = most.minus(least);
        let lightness = most.plus(least).over(double(2));
        if delta.equals(double(0)) {
            (double(0), double(0), lightness)
        } else {
            let saturation = if double(1).over(double(2)).below(lightness) {
                delta.over(double(2).minus(most).minus(least))
            } else {
                delta.over(most.plus(least))
            };
            let hue = if most.equals(red) {
                green.minus(blue).over(delta).plus(
                    if green.below(blue) {
                        double(6)
                    } else {
                        double(0)
                    },
                )
            } else if most.equals(green) {
                blue.minus(red).over(delta).plus(double(2))
            } else {
                red.minus(green).over(delta).plus(double(4))
            };
            (hue.times(double(60)), saturation, lightness)
        }
    }

    /// The three numbers of the HSL text: degrees and two percentages, to the
    /// nearest whole number.
    pub open spec fn hsl_numbers(self) -> (int, int, int) {
        let (hue, saturation, lightness) = self.hsl_spec();
        (
            hue.nearest_even(),
            saturation.times(double(100)).nearest_even(),
            lightness.times(double(100)).nearest_even(),
        )
    }

    /// The text `hsl(H, S%, L%)`.
    pub open spec fn hsl_text(self) -> Seq<char> {
        let (h, s, l) = self.hsl_numbers();
        "hsl("@ + decimal(h) + ", "@ + decimal(s) + "%, "@ + decimal(l) + "%)"@
    }

    /// The largest component.
    pub open spec fn most(self) -> int {
        max(max(self.r as int, self.g as int), self.b as int)
    }

    /// The smallest component.
    pub open spec fn least(self) -> int {
        min(min(self.r as int, self.g as int), self.b as int)
    }

    /// The exact hue in degrees, as a fraction.
    pub open spec fn exact_hue(self) -> (int, int) {
        let (r, g, b) = (self.r as int, self.g as int, self.b as int);
        let delta = self.most() - self.least();
        let sixths = if self.most() == r {
            g - b + if g < b {
                6 * delta
            } else {
                0
            }
        } else if self.most() == g {
            b - r + 2 * delta
        } else {
            r - g + 4 * delta
        };
        (60 * sixths, delta)
    }

    /// The exact saturation in percent, as a fraction.
    pub open spec fn exact_saturation(self) -> (int, int) {
        let sum = self.most() + self.least();
        (
            100 * (self.most() - self.least()),
            if sum > 255 {
                510 - sum
            } else {
                sum
            },
        )
    }

    /// The exact lightness in percent, as a fraction.
    pub open spec fn exact_lightness(self) -> (int, int) {
        (100 * (self.most() + self.least()), 510)
    }

    /// Returns the HEX string (e.g. `#FF8800`).
    #[must_use]
    pub fn hex(&self) -> (text: String)
        ensures
            text@ == self.hex_text(),
    {
        proof {
            reveal_strlit("#");
        }
        let mut text = String::new();
        text.append("#");
        push_hex_byte(&mut text, self.r);
        push_hex_byte(&mut text, self.g);
        push_hex_byte(&mut text, self.b);
        assert(text@ =~= self.hex_text());
        text
    }

    /// Returns the RGB string (e.g. `rgb(255, 136, 0)`).
    #[must_use]
    pub fn rgb(&self) -> (text: String)
        ensures
            text@ == self.rgb_text(),
    {
        let mut text = String::new();
        text.append("rgb(");
        push_decimal(&mut text, self.r as usize);
        text.append(", ");
        push_decimal(&mut text, self.g as usize);
        text.append(", ");
        push_decimal(&mut text, self.b as usize);
        text.append(")");
        assert(text@ =~= self.rgb_text());
        text
    }

    /// Returns the HSL string (e.g. `hsl(0, 100%, 50%)`).
    #[must_use]
    pub fn hsl(&self) -> (text: String)
        ensures
            text@ == self.hsl_text(),
    {
        let (hue, saturation, lightness) = self.hsl_values();
        let hundred = Double::from_u32(100);
        let mut text = String::new();
        text.append("hsl(");
        push_decimal(&mut text, hue.nearest_even() as usize);
        text.append(", ");
        push_decimal(&mut text, saturation.times(hundred).nearest_even() as usize);
        text.append("%, ");
        push_decimal(&mut text, lightness.times(hundred).nearest_even() as usize);
        text.append("%)");
        assert(text@ =~= self.hsl_text());
        text
    }

    /// Compute HSL from sRGB.
    pub fn hsl_values(&self) -> (r: (Double, Double, Double))
        ensures
            (r.0@, r.1@, r.2@) == self.hsl_spec(),
    {
        let scale = Double::from_u32(255);
        let red = Double::from_u32(self.r as u32).over(scale);
        let green = Double::from_u32(self.g as u32).over(scale);
        let blue = Double::from_u32(self.b as u32).over(scale);

        let most = red.larger(green).larger(blue);
        let least = red.smaller(green).smaller(blue);
        let delta = most.minus(least);

        let zero = Double::from_u32(0);
        let two = Double::from_u32(2);
        let lightness = most.plus(least).over(two);

        if delta.equals(zero) {
            return (zero, zero, lightness);
        }
        let half = Double::from_u32(1).over(two);
        let saturation = if half.below(lightness) {
            delta.over(two.minus(most).minus(least))
        } else {
            delta.over(most.plus(least))
        };

        let hue = if most.equals(red) {
            green.minus(blue).over(delta).plus(
                if green.below(blue) {
                    Double::from_u32(6)
                } else {
                    zero
                },
            )
        } else if most.equals(green) {
            blue.minus(red).over(delta).plus(two)
        } else {
            red.minus(green).over(delta).plus(Double::from_u32(4))
        };

        (hue.times(Double::from_u32(60)), saturation, lightness)
    }
}

impl From<Color> for (String, String, String) {
    fn from(color: Color) -> (r: Self)
        ensures
            r.0@ == color.hex_text(),
            r.1@ == color.rgb_text(),
            r.2@ == color.hsl_text(),
    {
        (color.hex(), color.rgb(), color.hsl())
    }
}

impl vstd::std_specs::convert::FromSpecImpl<Color> for (String, String, String) {
    open spec fn obeys_from_spec() -> bool {
        false
    }

    open spec fn from_spec(color: Color) -> Self {
        arbitrary()
    }
}

/// Whether a whole number is one that is nearest to a fraction.
pub open spec fn is_nearest(k: int, fraction: (int, int)) -> bool {
    0 < fraction.1 && 2 * abs(k * fraction.1 - fraction.0) <= fraction.1
}

/// Components are ordered on the scale from zero to one as they are as bytes.
proof fn lemma_component_order(a: u8, b: u8)
    ensures
        near(component(a), a as int, 255, 1),
        a < b ==> component(a).units() < component(b).units(),
{
    lemma_near_ratio(a as int, 255);
    lemma_near_ratio(b as int, 255);
    lemma_steps();
    let (u, v) = (component(a).units(), component(b).units());
    let s = step();
    let o = one();
    if a < b {
        assert(a * o + o <= b * o) by (nonlinear_arith)
            requires
                a + 1 <= b,
                0 < o,
        ;
    }
}

/// The largest and the smallest component on the scale from zero to one.
proof fn lemma_extremes(c: Color)
    ensures
        component(c.r).larger(component(c.g)).larger(component(c.b)) == component(c.most() as u8),
        component(c.r).smaller(component(c.g)).smaller(component(c.b)) == component(
            c.least() as u8,
        ),
{
    lemma_component_order(c.r, c.g);
    lemma_component_order(c.g, c.r);
    lemma_component_order(c.r, c.b);
    lemma_component_order(c.b, c.r);
    lemma_component_order(c.g, c.b);
    lemma_component_order(c.b, c.g);
}

/// The lightness is the whole percentage nearest to the exact one.
proof fn lemma_lightness(c: Color)
    ensures
        is_nearest(c.hsl_numbers().2, c.exact_lightness()),
        near(c.hsl_spec().2, c.most() + c.least(), 510, 4),
{
    let (hi, lo) = (c.most(), c.least());
    let (most, least) = (component(hi as u8), component(lo as u8));
    lemma_extremes(c);
    lemma_component_order(hi as u8, lo as u8);
    lemma_component_order(lo as u8, hi as u8);
    lemma_near_plus(most, hi, 1, least, lo, 1, 255);
    lemma_near_half(most.plus(least), hi + lo, 255, 3);
    let lightness = most.plus(least).over(double(2));
    lemma_near_times(lightness, hi + lo, 510, 4, 100);
    lemma_near_nearest(lightness.times(double(100)), (hi + lo) * 100, 510, 401);
}

/// The difference of the extremes is zero for greys only.
proof fn lemma_delta(c: Color)
    ensures
        ({
            let delta = component(c.most() as u8).minus(component(c.least() as u8));
            &&& near(delta, c.most() - c.least(), 255, 3)
            &&& delta.equals(double(0)) <==> c.most() == c.least()
        }),
{
    let (hi, lo) = (c.most(), c.least());
    let (most, least) = (component(hi as u8), component(lo as u8));
    lemma_component_order(hi as u8, lo as u8);
    lemma_component_order(lo as u8, hi as u8);
    lemma_near_minus(most, hi, 1, least, lo, 1, 255);
    lemma_near_whole(0);
    lemma_steps();
    let o = one();
    let s = step();
    let u = most.minus(least).units();
    assert(double(0).units() == 0) by (nonlinear_arith)
        requires
            double(0) == (Value::<true>::Finite { neg: false, mag: 0 * o }),
    ;
    if lo < hi {
        let gap = hi - lo;
        assert(gap * o >= o) by (nonlinear_arith)
            requires
                gap >= 1,
                0 < o,
        ;
        assert(u > 0);
    }
}

/// The saturation is the whole percentage nearest to the exact one.
proof fn lemma_saturation(c: Color)
    requires
        c.least() < c.most(),
    ensures
        is_nearest(c.hsl_numbers().1, c.exact_saturation()),
{
    let (hi, lo) = (c.most(), c.least());
    let (most, least) = (component(hi as u8), component(lo as u8));
    let delta = most.minus(least);
    lemma_extremes(c);
    lemma_delta(c);
    lemma_lightness(c);
    lemma_component_order(hi as u8, lo as u8);
    lemma_component_order(lo as u8, hi as u8);
    lemma_near_weaken(delta, hi - lo, 255, 3, 4);

    // Which side of one half the lightness is on.
    let lightness = c.hsl_spec().2;
    let half = double(1).over(double(2));
    lemma_near_ratio(1, 2);
    lemma_steps();
    let o = one();
    let s = step();
    let (l, h) = (lightness.units(), half.units());
    let sum = hi + lo;
    assert(half.below(lightness) == (h < l));
    if h < l {
        assert(sum >= 255) by (nonlinear_arith)
            requires
                abs(l * 510 - sum * o) <= 4 * s * 510,
                abs(h * 2 - 1 * o) <= 1 * s * 2,
                h < l,
                o == 0x1000_0000_0000 * s,
                0 < s,
        ;
    } else {
        assert(sum <= 255) by (nonlinear_arith)
            requires
                abs(l * 510 - sum * o) <= 4 * s * 510,
                abs(h * 2 - 1 * o) <= 1 * s * 2,
                l <= h,
                o == 0x1000_0000_0000 * s,
                0 < s,
        ;
    }
    let (bottom, den) = if h < l {
        (double(2).minus(most).minus(least), 510 - sum)
    } else {
        (most.plus(least), sum)
    };
    if h < l {
        lemma_near_whole(2);
        lemma_near_scale(double(2), 2, 1, 0, 255);
        lemma_near_minus(double(2), 510, 0, most, hi, 1, 255);
        lemma_near_minus(double(2).minus(most), 510 - hi, 2, least, lo, 1, 255);
    } else {
        lemma_near_plus(most, hi, 1, least, lo, 1, 255);
        lemma_near_weaken(most.plus(least), sum, 255, 3, 4);
    }
    lemma_near_over(delta, hi - lo, bottom, den, 255);
    let saturation = delta.over(bottom);
    lemma_near_times(saturation, hi - lo, den, 8001, 100);
    lemma_near_nearest(saturation.times(double(100)), (hi - lo) * 100, den, 800101);
    assert(c.exact_saturation() == ((hi - lo) * 100, den));
}

/// One case of the hue: a difference of components over the difference of the
/// extremes, and a whole number of sectors.
proof fn lemma_sector(c: Color, x: u8, y: u8, sectors: int)
    requires
        c.least() < c.most(),
        c.least() <= x <= c.most(),
        c.least() <= y <= c.most(),
        0 <= sectors <= 6,
        0 <= x - y + sectors * (c.most() - c.least()) <= 6 * (c.most() - c.least()),
    ensures
        ({
            let delta = component(c.most() as u8).minus(component(c.least() as u8));
            let hue = component(x).minus(component(y)).over(delta).plus(double(sectors)).times(
                double(60),
            );
            let d = c.most() - c.least();
            is_nearest(hue.nearest_even(), (60 * (x - y + sectors * d), d))
        }),
{
    let d = c.most() - c.least();
    let delta = component(c.most() as u8).minus(component(c.least() as u8));
    let n = x - y;
    let top = component(x).minus(component(y));
    lemma_delta(c);
    lemma_component_order(x, y);
    lemma_component_order(y, x);
    lemma_near_minus(component(x), x as int, 1, component(y), y as int, 1, 255);
    lemma_near_weaken(top, n, 255, 3, 4);
    lemma_near_weaken(delta, d, 255, 3, 4);
    lemma_near_over(top, n, delta, d, 255);
    lemma_near_whole(sectors);
    lemma_near_scale(double(sectors), sectors, 1, 0, d);
    assert(1 * d == d);
    let m = n + sectors * d;
    lemma_near_plus(top.over(delta), n, 8001, double(sectors), sectors * d, 0, d);
    let turned = top.over(delta).plus(double(sectors));
    assert(0 <= m * 60 <= 360 * d);
    lemma_near_times(turned, m, d, 8002, 60);
    lemma_near_nearest(turned.times(double(60)), m * 60, d, 480121);
}

/// The hue is the whole number of degrees nearest to the exact one.
proof fn lemma_hue(c: Color)
    requires
        c.least() < c.most(),
    ensures
        is_nearest(c.hsl_numbers().0, c.exact_hue()),
{
    let (r, g, b) = (c.r as int, c.g as int, c.b as int);
    let hi = c.most();
    let d = hi - c.least();
    lemma_extremes(c);
    lemma_delta(c);
    lemma_component_order(c.r, hi as u8);
    lemma_component_order(c.g, hi as u8);
    lemma_component_order(c.g, c.b);
    lemma_component_order(c.b, c.g);
    let most = component(hi as u8);
    assert(most.equals(component(c.r)) == (hi == r));
    assert(most.equals(component(c.g)) == (hi == g));
    assert(component(c.g).below(component(c.b)) == (g < b));
    if hi == r {
        if g < b {
            lemma_sector(c, c.g, c.b, 6);
        } else {
            lemma_sector(c, c.g, c.b, 0);
        }
    } else if hi == g {
        lemma_sector(c, c.b, c.r, 2);
    } else {
        lemma_sector(c, c.r, c.g, 4);
    }
}

/// The numbers of the HSL text are the whole numbers nearest to the exact hue,
/// saturation and lightness of the colour; a grey has hue and saturation zero.
pub proof fn law_hsl_is_nearest(c: Color)
    ensures
        is_nearest(c.hsl_numbers().2, c.exact_lightness()),
        c.least() < c.most() ==> is_nearest(c.hsl_numbers().0, c.exact_hue()) && is_nearest(
            c.hsl_numbers().1,
            c.exact_saturation(),
        ),
        c.least() == c.most() ==> c.hsl_numbers().0 == 0 && c.hsl_numbers().1 == 0,
{
    lemma_lightness(c);
    if c.least() < c.most() {
        lemma_saturation(c);
        lemma_hue(c);
    } else {
        lemma_extremes(c);
        lemma_delta(c);
        lemma_near_whole(0);
        lemma_near_times(double(0), 0, 1, 0, 100);
        lemma_near_nearest(double(0), 0, 1, 0);
        lemma_near_nearest(double(0).times(double(100)), 0, 1, 1);
    }
}

/// Hue goes to 360 degrees, saturation and lightness to 100 percent.
pub proof fn law_hsl_ranges(c: Color)
    ensures
        0 <= c.hsl_numbers().0 <= 360,
        0 <= c.hsl_numbers().1 <= 100,
        0 <= c.hsl_numbers().2 <= 100,
{
    law_hsl_is_nearest(c);
    let (h, s, l) = c.hsl_numbers();
    if c.least() < c.most() {
        let (n, d) = c.exact_hue();
        assert(0 <= n <= 360 * d);
        assert(0 <= h <= 360) by (nonlinear_arith)
            requires
                2 * abs(h * d - n) <= d,
                0 <= n <= 360 * d,
                0 < d,
        ;
        let (n2, d2) = c.exact_saturation();
        assert(0 <= s <= 100) by (nonlinear_arith)
            requires
                2 * abs(s * d2 - n2) <= d2,
                0 <= n2 <= 100 * d2,
                0 < d2,
        ;
    }
}

/// The HEX text tells the colour: seven characters that no colour with another
/// red, green or blue shares.
pub proof fn law_hex_tells_color(c: Color, d: Color)
    ensures
        c.hex_text().len() == 7,
        c.hex_text() == d.hex_text() ==> c.r == d.r && c.g == d.g && c.b == d.b,
{
    let (s, t) = (c.hex_text(), d.hex_text());
    if s == t {
        assert(s.subrange(1, 3) =~= hex_byte(c.r as int));
        assert(t.subrange(1, 3) =~= hex_byte(d.r as int));
        assert(s.subrange(3, 5) =~= hex_byte(c.g as int));
        assert(t.subrange(3, 5) =~= hex_byte(d.g as int));
        assert(s.subrange(5, 7) =~= hex_byte(c.b as int));
        assert(t.subrange(5, 7) =~= hex_byte(d.b as int));
        law_hex_byte_is_injective(c.r as int, d.r as int);
        law_hex_byte_is_injective(c.g as int, d.g as int);
        law_hex_byte_is_injective(c.b as int, d.b as int);
    }
}

/// Reading the HEX text gives back the colour: a number sign, and two hexadecimal
/// digits each for red, green and blue, in that order.
pub proof fn law_hex_reads_back(c: Color)
    ensures
        ({
            let text = c.hex_text();
            &&& text.len() == 7
            &&& text[0] == '#'
            &&& is_number(text.subrange(1, 7), 16)
            &&& number(text.subrange(1, 3), 16) == c.r
            &&& number(text.subrange(3, 5), 16) == c.g
            &&& number(text.subrange(5, 7), 16) == c.b
        }),
{
    let text = c.hex_text();
    law_hex_byte_reads_back(c.r as int);
    law_hex_byte_reads_back(c.g as int);
    law_hex_byte_reads_back(c.b as int);
    let (r, g, b) = (hex_byte(c.r as int), hex_byte(c.g as int), hex_byte(c.b as int));
    assert(text.subrange(1, 3) =~= r);
    assert(text.subrange(3, 5) =~= g);
    assert(text.subrange(5, 7) =~= b);
    assert(text.subrange(1, 7) =~= r + g + b);
}

/// Whether a text is made of three decimal numbers without leading zeros and of
/// what stands around them.
pub open spec fn has_numbers(
    text: Seq<char>,
    around: (Seq<char>, Seq<char>, Seq<char>, Seq<char>),
    x: Seq<char>,
    y: Seq<char>,
    z: Seq<char>,
) -> bool {
    &&& text == around.0 + x + around.1 + y + around.2 + z + around.3
    &&& is_number(x, 10) && (x.len() > 1 ==> x[0] != '0')
    &&& is_number(y, 10) && (y.len() > 1 ==> y[0] != '0')
    &&& is_number(z, 10) && (z.len() > 1 ==> z[0] != '0')
}

/// Reading the RGB text gives back the colour: red, green and blue in decimal,
/// in that order.
pub proof fn law_rgb_reads_back(c: Color)
    ensures
        exists|x: Seq<char>, y: Seq<char>, z: Seq<char>|
            {
                &&& #[trigger] has_numbers(c.rgb_text(), ("rgb("@, ", "@, ", "@, ")"@), x, y, z)
                &&& number(x, 10) == c.r
                &&& number(y, 10) == c.g
                &&& number(z, 10) == c.b
            },
{
    let (x, y, z) = (decimal(c.r as int), decimal(c.g as int), decimal(c.b as int));
    law_decimal_reads_back(c.r as int);
    law_decimal_reads_back(c.g as int);
    law_decimal_reads_back(c.b as int);
    assert(has_numbers(c.rgb_text(), ("rgb("@, ", "@, ", "@, ")"@), x, y, z));
}

/// Whether a component is what hue, saturation and lightness stand for. All three
/// are fractions, in degrees and in percent; `turn` is where the component's
/// primary lies on the colour wheel, in twelfths backwards from red.
///
/// The component is the lightness, less what the saturation allows times a wave
/// that goes from -1 at the primary to 1 on the other side of the wheel.
pub open spec fn is_component(
    h: (int, int),
    s: (int, int),
    l: (int, int),
    turn: int,
    value: int,
) -> bool {
    let angle = (30 * turn * h.1 + h.0) % (360 * h.1);
    let wave = max(-30 * h.1, min(min(angle - 90 * h.1, 270 * h.1 - angle), 30 * h.1));
    let room = min(l.0, 100 * l.1 - l.0);
    255 * (l.0 * (s.1 * (3000 * h.1)) - s.0 * (room * wave)) == 100 * value * (l.1 * (s.1 * (3000
        * h.1)))
}

/// Whether hue, saturation and lightness, as fractions, stand for a colour.
pub open spec fn is_hsl_of(c: Color, h: (int, int), s: (int, int), l: (int, int)) -> bool {
    &&& 0 < h.1 && 0 <= h.0 <= 360 * h.1
    &&& 0 < s.1 && 0 <= s.0 <= 100 * s.1
    &&& 0 < l.1 && 0 <= l.0 <= 100 * l.1
    &&& is_component(h, s, l, 0, c.r as int)
    &&& is_component(h, s, l, 8, c.g as int)
    &&& is_component(h, s, l, 4, c.b as int)
}

/// The equation of a component follows from that of its wave.
proof fn lemma_component(h: (int, int), turn: int, value: int, sum: int, q: int)
    requires
        0 < h.1,
        0 <= sum <= 510,
        0 <= 30 * turn * h.1 + h.0 - q * (360 * h.1) < 360 * h.1,
        ({
            let angle = 30 * turn * h.1 + h.0 - q * (360 * h.1);
            max(-30 * h.1, min(min(angle - 90 * h.1, 270 * h.1 - angle), 30 * h.1)) == 30 * (sum - 2
                * value)
        }),
    ensures
        is_component(
            h,
            (
                100 * h.1,
                if sum > 255 {
                    510 - sum
                } else {
                    sum
                },
            ),
            (100 * sum, 510),
            turn,
            value,
        ),
{
    let d = h.1;
    let sd = if sum > 255 {
        510 - sum
    } else {
        sum
    };
    let full = 360 * d;
    let angle = 30 * turn * d + h.0 - q * full;
    vstd::arithmetic::div_mod::lemma_fundamental_div_mod_converse(
        30 * turn * d + h.0,
        full,
        q,
        angle,
    );
    let wave = 30 * (sum - 2 * value);
    let room = 100 * sd;
    let k = sd * (3000 * d);
    assert((100 * d) * (room * wave) == (100 * (sum - 2 * value)) * k) by (nonlinear_arith)
        requires
            room == 100 * sd,
            wave == 30 * (sum - 2 * value),
            k == sd * (3000 * d),
    ;
    assert(255 * ((100 * sum) * k - (100 * (sum - 2 * value)) * k) == 100 * value * (510 * k))
        by (nonlinear_arith);
}

/// The exact hue, saturation and lightness of a colour that is no grey stand for
/// it.
proof fn lemma_exact_hsl(c: Color)
    requires
        c.least() < c.most(),
    ensures
        is_hsl_of(c, c.exact_hue(), c.exact_saturation(), c.exact_lightness()),
{
    let (r, g, b) = (c.r as int, c.g as int, c.b as int);
    let h = c.exact_hue();
    let d = h.1;
    let sum = c.most() + c.least();
    let (n, full) = (h.0, 360 * d);
    assert(0 <= n <= 360 * d);
    assert(30 * 8 * d == 240 * d && 30 * 4 * d == 120 * d && 30 * 0 * d == 0) by (nonlinear_arith);
    let qr: int = if n >= full {
        1
    } else {
        0
    };
    let qg: int = if 240 * d + n >= full {
        1
    } else {
        0
    };
    let qb: int = if 120 * d + n >= full {
        1
    } else {
        0
    };
    assert(1 * full == full && 0 * full == 0);
    lemma_component(h, 0, r, sum, qr);
    lemma_component(h, 8, g, sum, qg);
    lemma_component(h, 4, b, sum, qb);
}

/// Whether three decimal numbers are the whole numbers nearest to hue, saturation
/// and lightness that stand for a colour.
pub open spec fn are_nearest(
    c: Color,
    x: Seq<char>,
    y: Seq<char>,
    z: Seq<char>,
    h: (int, int),
    s: (int, int),
    l: (int, int),
) -> bool {
    &&& is_hsl_of(c, h, s, l)
    &&& is_nearest(number(x, 10), h)
    &&& is_nearest(number(y, 10), s)
    &&& is_nearest(number(z, 10), l)
    &&& c.r == c.g && c.g == c.b ==> number(x, 10) == 0 && number(y, 10) == 0
}

/// Reading the HSL text gives the colour to the nearest degree and percent: its
/// numbers are those nearest to hue, saturation and lightness that stand for it,
/// in that order. A grey has hue and saturation zero.
pub proof fn law_hsl_reads_back(c: Color)
    ensures
        exists|
            x: Seq<char>,
            y: Seq<char>,
            z: Seq<char>,
            h: (int, int),
            s: (int, int),
            l: (int, int),
        |
            {
                &&& #[trigger] are_nearest(c, x, y, z, h, s, l)
                &&& has_numbers(c.hsl_text(), ("hsl("@, ", "@, "%, "@, "%)"@), x, y, z)
            },
{
    let (h, s, l) = c.hsl_numbers();
    law_hsl_is_nearest(c);
    law_hsl_ranges(c);
    law_decimal_reads_back(h);
    law_decimal_reads_back(s);
    law_decimal_reads_back(l);
    let (x, y, z) = (decimal(h), decimal(s), decimal(l));
    assert(has_numbers(c.hsl_text(), ("hsl("@, ", "@, "%, "@, "%)"@), x, y, z));
    if c.least() < c.most() {
        lemma_exact_hsl(c);
        assert(are_nearest(
            c,
            x,
            y,
            z,
            c.exact_hue(),
            c.exact_saturation(),
            c.exact_lightness(),
        ));
    } else {
        let (zero, light) = ((0int, 1int), c.exact_lightness());
        lemma_grey_component(c.r as int, 0);
        lemma_grey_component(c.r as int, 8);
        lemma_grey_component(c.r as int, 4);
        assert(are_nearest(c, x, y, z, zero, zero, light));
    }
}

/// Without saturation each component is the lightness.
proof fn lemma_grey_component(value: int, turn: int)
    ensures
        is_component((0, 1), (0, 1), (100 * (value + value), 510), turn, value),
{
    let one = 1int;
    let angle = (30 * turn * one + 0) % (360 * one);
    let wave = max(-30 * one, min(min(angle - 90 * one, 270 * one - angle), 30 * one));
    let room = min(100 * (value + value), 100 * 510 - 100 * (value + value));
    assert(0 * (room * wave) == 0) by (nonlinear_arith);
    let k = one * (3000 * one);
    assert(255 * ((100 * (value + value)) * k - 0) == 100 * value * (510 * k)) by (nonlinear_arith);
}

/// The RGB text tells the colour: no colour with another red, green or blue
/// shares it.
pub proof fn law_rgb_tells_color(c: Color, d: Color)
    requires
        c.rgb_text() == d.rgb_text(),
    ensures
        c.r == d.r && c.g == d.g && c.b == d.b,
{
    reveal_strlit(", ");
    reveal_strlit(")");
    let (start, comma, end) = ("rgb("@, ", "@, ")"@);
    let (cr, cg, cb) = (decimal(c.r as int), decimal(c.g as int), decimal(c.b as int));
    let (dr, dg, db) = (decimal(d.r as int), decimal(d.g as int), decimal(d.b as int));
    lemma_right_to_left(start, cr, comma, cg, cb, end);
    lemma_right_to_left(start, dr, comma, dg, db, end);
    lemma_same_rest(start, cr + (comma + (cg + (comma + (cb + end)))), dr + (comma + (dg + (comma
        + (db + end)))));
    lemma_decimal_prefix(
        c.r as int,
        comma + (cg + (comma + (cb + end))),
        d.r as int,
        comma + (dg + (comma + (db + end))),
    );
    lemma_same_rest(comma, cg + (comma + (cb + end)), dg + (comma + (db + end)));
    lemma_decimal_prefix(c.g as int, comma + (cb + end), d.g as int, comma + (db + end));
    lemma_same_rest(comma, cb + end, db + end);
    lemma_decimal_prefix(c.b as int, end, d.b as int, end);
}

/// Texts that are the same behind one beginning are the same.
proof fn lemma_same_rest(start: Seq<char>, x: Seq<char>, y: Seq<char>)
    requires
        start + x == start + y,
    ensures
        x == y,
{
    assert(x =~= (start + x).skip(start.len() as int));
    assert(y =~= (start + y).skip(start.len() as int));
}

/// Seven texts in a row, put together from the left or from the right.
proof fn lemma_right_to_left(
    start: Seq<char>,
    x: Seq<char>,
    comma: Seq<char>,
    y: Seq<char>,
    z: Seq<char>,
    end: Seq<char>,
)
    ensures
        start + x + comma + y + comma + z + end == start + (x + (comma + (y + (comma + (z
            + end))))),
{
    assert(start + x + comma + y + comma + z + end =~= start + (x + (comma + (y + (comma + (z
        + end))))));
}

} // verus!
