//! What holds of hovering and clicking together.

use crate::float::{widened, Value};
use crate::ids::{lemma_place_of, place_of};
use crate::machine::signed32;
use crate::near::{lemma_double_whole, lemma_steps, one};
use crate::order::{
    is_finite, is_single, law_sum_stays_between, lemma_sum_error, lemma_whole, lemma_whole_add,
    lemma_whole_order, whole,
};
use crate::picker::color::{double, Color};
use crate::picker::controller::{
    buffer_pixel, color_at, covers, first_covering, lemma_first_covering, sample, scale, Session,
};
use crate::picker::output::CapturedOutput;
use crate::rounding::{
    exp2, is_mantissa, lemma_exp2_add, lemma_exp2_lt, lemma_exp2_pos, lemma_round_error,
    lemma_round_exact, lemma_round_nonnegative, round_bits,
};
use crate::widget::magnifier::single;
use vstd::math::abs;
use vstd::prelude::*;

verus! {

/// Whether a cursor coordinate lies on an axis of the given logical length.
pub open spec fn is_on_axis(x: Value<false>, logical: u32) -> bool {
    is_finite(x) && 0 <= x.units() < whole(logical as int)
}

/// A number below a whole number of at most 24 bits is below it by at least one
/// part in 2^24.
proof fn lemma_below_whole(u: int, n: int)
    requires
        is_single(u),
        0 <= u < whole(n),
        0 < n <= 0x100_0000,
    ensures
        u * 0x100_0000 <= whole(n) * 0xff_ffff,
{
    let o = exp2(149);
    lemma_exp2_pos(149);
    vstd::arithmetic::power2::lemma2_to64();
    assert(exp2(24) == 0x100_0000);
    let (m, t) = choose|m: int, t: int| is_mantissa(24, u, m, t);
    lemma_exp2_pos(t);
    let e = exp2(t);
    if t <= 149 {
        lemma_exp2_add(149 - t, t);
        let k = exp2(149 - t);
        let l = n * k;
        assert(whole(n) == l * e) by (nonlinear_arith)
            requires
                whole(n) == n * o,
                o == k * e,
                l == n * k,
        ;
        assert(m < l) by (nonlinear_arith)
            requires
                m * e < l * e,
                1 <= e,
        ;
        assert(m * 0x100_0000 <= l * 0xff_ffff);
        assert((m * e) * 0x100_0000 <= (l * e) * 0xff_ffff) by (nonlinear_arith)
            requires
                m * 0x100_0000 <= l * 0xff_ffff,
                1 <= e,
        ;
    } else {
        lemma_exp2_add(t - 149, 149);
        let k = exp2(t - 149);
        let x = m * k;
        assert(u == x * o) by (nonlinear_arith)
            requires
                u == m * e,
                e == k * o,
                x == m * k,
        ;
        assert(x < n) by (nonlinear_arith)
            requires
                x * o < n * o,
                1 <= o,
        ;
        assert(x * 0x100_0000 <= n * 0xff_ffff);
        assert((x * o) * 0x100_0000 <= (n * o) * 0xff_ffff) by (nonlinear_arith)
            requires
                x * 0x100_0000 <= n * 0xff_ffff,
                1 <= o,
        ;
    }
}

/// The scale factor of an axis is off by at most one part in 2^53.
proof fn lemma_scale(size: u32, logical: u32)
    requires
        0 < size,
        0 < logical <= 0x100_0000,
    ensures
        ({
            let q = scale(size, logical);
            &&& q is Finite
            &&& !(q->Finite_neg)
            &&& 0 <= q->Finite_mag
            &&& q->Finite_mag * logical * exp2(53) <= size * one() * (exp2(53) + 1)
        }),
{
    let o = one();
    let p = exp2(53);
    let (s, l) = (size as int, logical as int);
    lemma_steps();
    lemma_exp2_pos(53);
    lemma_exp2_pos(1074);
    lemma_double_whole(s);
    lemma_double_whole(l);
    let n = (s * o) * o;
    let d = l * o;
    vstd::arithmetic::power2::lemma2_to64_rest();
    assert(p == 0x20_0000_0000_0000);
    lemma_exp2_add(100, 974);
    lemma_exp2_add(60, 40);
    assert(exp2(60) == 0x1000_0000_0000_0000);
    assert(exp2(40) == 0x100_0000_0000);
    lemma_exp2_pos(974);
    assert(0 < d && 0 <= n && d * p <= n) by (nonlinear_arith)
        requires
            n == (s * o) * o,
            d == l * o,
            1 <= s,
            0 < l <= 0x100_0000,
            p == 0x20_0000_0000_0000,
            o == exp2(100) * exp2(974),
            exp2(100) == 0x1000_0000_0000_0000 * 0x100_0000_0000,
            1 <= exp2(974),
    ;
    let q = round_bits(53, n, d);
    lemma_round_error(53, n, d);
    lemma_round_nonnegative(53, n, d);
    assert(q * l * p <= s * o * (p + 1)) by (nonlinear_arith)
        requires
            abs(q * d - n) * p <= n,
            n == (s * o) * o,
            d == l * o,
            1 <= o,
            1 <= p,
    ;
    lemma_exp2_add(33, 1074);
    lemma_exp2_lt(1107, 2098);
    assert(exp2(33) == 0x2_0000_0000) by {
        vstd::arithmetic::power2::lemma2_to64_rest();
    }
    assert(q <= 0x2_0000_0000 * o) by (nonlinear_arith)
        requires
            q * l * p <= s * o * (p + 1),
            0 <= q,
            1 <= l,
            0 <= s <= 0xffff_ffff,
            1 <= o,
            p == 0x20_0000_0000_0000,
    ;
}

/// A cursor on an output has a pixel of the captured buffer under it.
pub proof fn law_pixel_is_captured(x: Value<false>, size: u32, logical: u32)
    requires
        0 < size,
        0 < logical <= 0x100_0000,
        is_on_axis(x, logical),
    ensures
        0 <= buffer_pixel(x, size, logical) < size,
{
    let o = one();
    let p = exp2(53);
    let (s, l) = (size as int, logical as int);
    let q = scale(size, logical)->Finite_mag;
    lemma_steps();
    lemma_exp2_pos(53);
    lemma_exp2_pos(1074);
    lemma_exp2_pos(925);
    lemma_scale(size, logical);
    lemma_below_whole(x.units(), l);
    let w = widened(x)->Finite_mag;
    let m = x->Finite_mag;
    let big = exp2(925);
    assert(x.units() * 0x100_0000 <= whole(l) * 0xff_ffff);
    lemma_exp2_add(149, 925);
    assert(w * 0x100_0000 <= l * o * 0xff_ffff) by (nonlinear_arith)
        requires
            w == m * big,
            m * 0x100_0000 <= (l * exp2(149)) * 0xff_ffff,
            o == exp2(149) * big,
            1 <= big,
            0 <= m,
    ;
    let n = w * q;
    assert(0 <= w && 0 <= n) by (nonlinear_arith)
        requires
            n == w * q,
            w == m * big,
            0 <= m,
            0 <= q,
            1 <= big,
    ;
    let r = round_bits(53, n, o);
    lemma_round_error(53, n, o);
    lemma_round_nonnegative(53, n, o);
    vstd::arithmetic::power2::lemma2_to64_rest();
    assert(p == 0x20_0000_0000_0000);
    lemma_exp2_lt(53, 1074);
    if n < o * p {
        assert(r <= p) by (nonlinear_arith)
            requires
                2 * abs(r * o - n) <= o,
                n < o * p,
                1 <= o,
        ;
        assert(r < s * o) by (nonlinear_arith)
            requires
                r <= p,
                p < o,
                1 <= o,
                1 <= s,
        ;
    } else {
        lemma_product_below(r, n, w, q, s, l, o, p);
    }
    lemma_exp2_add(32, 1074);
    lemma_exp2_lt(1106, 2098);
    vstd::arithmetic::power2::lemma2_to64();
    assert(exp2(32) == 0x1_0000_0000);
    assert(r < 0x1_0000_0000 * o) by (nonlinear_arith)
        requires
            r < s * o,
            s <= 0xffff_ffff,
            1 <= o,
    ;
    vstd::arithmetic::div_mod::lemma_fundamental_div_mod(r, o);
    let d = r / o;
    assert(0 <= d < s) by (nonlinear_arith)
        requires
            r == o * d + r % o,
            0 <= r % o < o,
            0 <= r < s * o,
            1 <= o,
    ;
}

/// The arithmetic of a product of two rounded numbers, rounded once more.
proof fn lemma_product_below(r: int, n: int, w: int, q: int, s: int, l: int, o: int, p: int)
    requires
        p == 0x20_0000_0000_0000,
        1 <= o,
        1 <= s,
        1 <= l,
        0 <= w,
        0 <= q,
        0 <= r,
        n == w * q,
        abs(r * o - n) * p <= n,
        q * l * p <= s * o * (p + 1),
        w * 0x100_0000 <= l * o * 0xff_ffff,
    ensures
        r < s * o,
{
    let a = r * o * p;
    assert(a <= n * (p + 1)) by (nonlinear_arith)
        requires
            abs(r * o - n) * p <= n,
            a == r * o * p,
            1 <= p,
    ;
    // Multiply by the length and the other roundings.
    let b = n * (l * p);
    let z = w * (s * o * (p + 1));
    assert(b <= z) by (nonlinear_arith)
        requires
            b == (w * q) * (l * p),
            z == w * (s * o * (p + 1)),
            q * l * p <= s * o * (p + 1),
            0 <= w,
    ;
    let c = s * o * (p + 1);
    assert(z * 0x100_0000 <= (l * o * 0xff_ffff) * c) by (nonlinear_arith)
        requires
            z == w * c,
            w * 0x100_0000 <= l * o * 0xff_ffff,
            0 <= c,
    ;
    let lp = l * p;
    assert(a * lp * 0x100_0000 <= b * (p + 1) * 0x100_0000) by (nonlinear_arith)
        requires
            a <= n * (p + 1),
            b == n * lp,
            0 <= lp,
    ;
    assert(b * (p + 1) * 0x100_0000 <= (l * o * 0xff_ffff) * c * (p + 1)) by (nonlinear_arith)
        requires
            b <= z,
            z * 0x100_0000 <= (l * o * 0xff_ffff) * c,
            1 <= p,
    ;
    let k = l * o;
    assert(1 <= k && 1 <= s * o) by (nonlinear_arith)
        requires
            k == l * o,
            1 <= l,
            1 <= s,
            1 <= o,
    ;
    assert(a * lp * 0x100_0000 == r * (k * (p * p * 0x100_0000))) by (nonlinear_arith)
        requires
            a == r * o * p,
            lp == l * p,
            k == l * o,
    ;
    assert((l * o * 0xff_ffff) * c * (p + 1) == (s * o) * (k * ((p + 1) * (p + 1) * 0xff_ffff)))
        by (nonlinear_arith)
        requires
            c == s * o * (p + 1),
            k == l * o,
    ;
    assert((p + 1) * (p + 1) * 0xff_ffff < p * p * 0x100_0000) by (nonlinear_arith)
        requires
            p == 0x20_0000_0000_0000,
    ;
    let (u, v) = (p * p * 0x100_0000, (p + 1) * (p + 1) * 0xff_ffff);
    assert(r < s * o) by (nonlinear_arith)
        requires
            r * (k * u) <= (s * o) * (k * v),
            v < u,
            0 <= v,
            1 <= k,
            1 <= s * o,
    {
        if r >= s * o {
            assert((s * o) * (k * u) <= r * (k * u));
            assert((s * o) * (k * v) < (s * o) * (k * u));
        }
    }
}

/// Whether an output is not empty and lies where single-precision numbers still
/// count every logical pixel.
pub open spec fn is_in_range(o: CapturedOutput) -> bool {
    &&& 0 < o.logical_width <= 0x100_0000
    &&& 0 < o.logical_height <= 0x100_0000
    &&& -0x100_0000 <= o.pos_x && o.pos_x + o.logical_width <= 0x100_0000
    &&& -0x100_0000 <= o.pos_y && o.pos_y + o.logical_height <= 0x100_0000
}

/// Whether an output lies in range and all its pixels are captured.
pub open spec fn is_ordinary(o: CapturedOutput) -> bool {
    &&& is_in_range(o)
    &&& o.rgba.width() == o.width
    &&& o.rgba.height() == o.height
    &&& 0 < o.width
    &&& 0 < o.height
}

/// Whether the logical rectangles of two outputs have no point in common.
pub open spec fn are_disjoint(a: CapturedOutput, b: CapturedOutput) -> bool {
    ||| a.pos_x + a.logical_width <= b.pos_x
    ||| b.pos_x + b.logical_width <= a.pos_x
    ||| a.pos_y + a.logical_height <= b.pos_y
    ||| b.pos_y + b.logical_height <= a.pos_y
}

/// Whether all outputs lie in range and no two have a point in common.
pub open spec fn is_desktop(captures: Seq<CapturedOutput>) -> bool {
    &&& forall|i: int| 0 <= i < captures.len() ==> is_in_range(#[trigger] captures[i])
    &&& forall|i: int, j: int|
        0 <= i < j < captures.len() ==> are_disjoint(#[trigger] captures[i], #[trigger] captures[j])
}

/// Whether going from an output's coordinate to the compositor's and back loses
/// nothing to rounding.
pub open spec fn comes_back(x: Value<false>, pos: i32) -> bool {
    x.plus(single(pos as int)).minus(single(pos as int)) == x
}

/// A cursor on an output is on it in the compositor's space too.
proof fn lemma_global_on_axis(x: Value<false>, pos: i32, logical: u32)
    requires
        is_on_axis(x, logical),
        comes_back(x, pos),
        0 < logical <= 0x100_0000,
        -0x100_0000 <= pos,
        pos + logical <= 0x100_0000,
    ensures
        ({
            let g = x.plus(single(pos as int));
            &&& is_finite(g)
            &&& g.at_least(single(pos as int))
            &&& g.below(single(signed32(pos + signed32(logical as int))))
        }),
{
    let (p, l) = (pos as int, logical as int);
    let g = x.plus(single(p));
    lemma_whole(p);
    lemma_whole(l);
    lemma_whole(p + l);
    lemma_whole_add(p, l);
    lemma_whole_add(p + l, p);
    law_sum_stays_between(x, single(p), whole(p), whole(p + l));
    let back = single(p).negated();
    assert(back.units() == -whole(p));
    if g.units() == whole(p + l) {
        law_sum_stays_between(g, back, whole(l), whole(l));
    }
    assert(signed32(l) == l);
    assert(signed32(p + l) == p + l);
}

/// Whether a cursor is on the captured output of an overlay, at a point that
/// rounding does not move and that no output with a lower number covers.
pub open spec fn is_over(session: Session, id: u64, x: Value<false>, y: Value<false>) -> bool {
    place_of(session.overlay_ids, id) matches Some(i) && {
        let o = session.captures[i];
        &&& i < session.captures.len()
        &&& is_in_range(o)
        &&& is_on_axis(x, o.logical_width)
        &&& is_on_axis(y, o.logical_height)
        &&& comes_back(x, o.pos_x)
        &&& comes_back(y, o.pos_y)
        &&& forall|j: int|
            0 <= j < i ==> !covers(
                #[trigger] session.captures[j],
                x.plus(single(o.pos_x as int)),
                y.plus(single(o.pos_y as int)),
            )
    }
}

/// Clicking anywhere on an output picks the colour that is hovered there; where
/// all pixels of the output are captured, there is one. Left out are points that
/// an output with a lower number covers too, and those that rounding moves.
pub proof fn law_click_picks_hovered(session: Session, id: u64, x: Value<false>, y: Value<false>)
    requires
        is_over(session, id, x, y),
    ensures
        ({
            let hover = session.moved(id, x, y);
            &&& hover is Some
            &&& (Session { hover, ..session }).clicked() == hover->0.color
            &&& is_ordinary(session.captures[hover->0.output_index]) ==> hover->0.color is Some
        }),
{
    lemma_place_of(session.overlay_ids, id);
    let i = place_of(session.overlay_ids, id)->0;
    let o = session.captures[i];
    let gx = x.plus(single(o.pos_x as int));
    let gy = y.plus(single(o.pos_y as int));
    lemma_global_on_axis(x, o.pos_x, o.logical_width);
    lemma_global_on_axis(y, o.pos_y, o.logical_height);
    assert(covers(o, gx, gy));
    lemma_first_covering(session.captures, gx, gy);
    assert(first_covering(session.captures, gx, gy) == Some(i));
    if is_ordinary(o) {
        law_pixel_is_captured(x, o.width, o.logical_width);
        law_pixel_is_captured(y, o.height, o.logical_height);
    }
}

/// Outputs whose rectangles are disjoint cover no point together.
pub proof fn law_disjoint_outputs_share_no_point(
    a: CapturedOutput,
    b: CapturedOutput,
    x: Value<false>,
    y: Value<false>,
)
    requires
        is_in_range(a),
        is_in_range(b),
        are_disjoint(a, b),
    ensures
        !(covers(a, x, y) && covers(b, x, y)),
{
    lemma_edges(a.pos_x, a.logical_width);
    lemma_edges(a.pos_y, a.logical_height);
    lemma_edges(b.pos_x, b.logical_width);
    lemma_edges(b.pos_y, b.logical_height);
    lemma_whole_order(b.pos_x as int, a.pos_x + a.logical_width);
    lemma_whole_order(a.pos_x as int, b.pos_x + b.logical_width);
    lemma_whole_order(b.pos_y as int, a.pos_y + a.logical_height);
    lemma_whole_order(a.pos_y as int, b.pos_y + b.logical_height);
}

/// The edges of an output along one axis are whole numbers of the format.
proof fn lemma_edges(pos: i32, logical: u32)
    requires
        0 < logical <= 0x100_0000,
        -0x100_0000 <= pos,
        pos + logical <= 0x100_0000,
    ensures
        single(pos as int) is Finite,
        single(pos as int).units() == whole(pos as int),
        signed32(pos + signed32(logical as int)) == pos + logical,
        single(pos + logical) is Finite,
        single(pos + logical).units() == whole(pos + logical),
{
    lemma_whole(pos as int);
    lemma_whole(pos + logical);
    assert(signed32(logical as int) == logical);
    assert(signed32(pos + logical) == pos + logical);
}

/// Whole positions come back from the compositor's space, as far as the numbers
/// of both fit in 24 bits.
pub proof fn law_whole_comes_back(n: int, pos: i32)
    requires
        -0x100_0000 <= n <= 0x100_0000,
        -0x100_0000 <= pos <= 0x100_0000,
        -0x100_0000 <= n + pos <= 0x100_0000,
    ensures
        comes_back(single(n), pos),
{
    let p = pos as int;
    lemma_whole(n);
    lemma_whole(p);
    lemma_whole(n + p);
    lemma_whole_add(n, p);
    lemma_whole_add(n + p, p);
    lemma_whole_order(n, 0);
    lemma_whole_order(p, 0);
    lemma_whole_order(n + p, 0);
    lemma_whole_order(0, n);
    lemma_whole_add(0, 0);
    let g = single(n).plus(single(p));
    law_sum_stays_between(single(n), single(p), whole(n + p), whole(n + p));
    let back = single(p).negated();
    assert(back.units() == -whole(p));
    law_sum_stays_between(g, back, whole(n), whole(n));
    let r = g.plus(back);
    if n == 0 {
        assert(p != 0 ==> g->Finite_neg == (p < 0));
        assert(back->Finite_neg == !(p < 0));
        assert(!(r->Finite_neg));
    }
    assert(r == single(n));
}

/// On a desktop without overlapping outputs, a cursor at a whole position of an
/// output is over it: a click picks what is hovered there.
pub proof fn law_whole_click(session: Session, id: u64, column: int, row: int)
    requires
        is_desktop(session.captures),
        place_of(session.overlay_ids, id) matches Some(i) && {
            &&& i < session.captures.len()
            &&& 0 <= column < session.captures[i].logical_width
            &&& 0 <= row < session.captures[i].logical_height
        },
    ensures
        is_over(session, id, single(column), single(row)),
        ({
            let hover = session.moved(id, single(column), single(row));
            &&& hover is Some
            &&& (Session { hover, ..session }).clicked() == hover->0.color
        }),
{
    lemma_place_of(session.overlay_ids, id);
    let i = place_of(session.overlay_ids, id)->0;
    let o = session.captures[i];
    let (x, y) = (single(column), single(row));
    assert(is_in_range(o));
    lemma_whole(column);
    lemma_whole(row);
    lemma_whole_order(column, o.logical_width as int);
    lemma_whole_order(row, o.logical_height as int);
    lemma_whole_order(column, 0);
    lemma_whole_order(row, 0);
    lemma_whole_add(0, 0);
    law_whole_comes_back(column, o.pos_x);
    law_whole_comes_back(row, o.pos_y);
    let gx = x.plus(single(o.pos_x as int));
    let gy = y.plus(single(o.pos_y as int));
    lemma_global_on_axis(x, o.pos_x, o.logical_width);
    lemma_global_on_axis(y, o.pos_y, o.logical_height);
    assert forall|j: int| 0 <= j < i implies !covers(#[trigger] session.captures[j], gx, gy) by {
        law_disjoint_outputs_share_no_point(session.captures[j], o, gx, gy);
    }
    law_click_picks_hovered(session, id, x, y);
}

/// A click before any motion picks nothing.
pub proof fn law_click_before_motion(session: Session)
    requires
        session.hover is None,
    ensures
        session.clicked() is None,
{
}

/// A pointer position in 256ths of a pixel, as the compositor counts them.
pub open spec fn fixed(k: int) -> Value<false> {
    Value::ratio(k, 256)
}

/// Positions in 256ths of a pixel are exact.
proof fn lemma_fixed(k: int)
    requires
        -0x100_0000 < k < 0x100_0000,
    ensures
        fixed(k) == (Value::<false>::Finite { neg: k < 0, mag: abs(k) * exp2(141) }),
        fixed(k).units() == k * exp2(141),
        is_finite(fixed(k)),
{
    let e = exp2(141);
    let m = abs(k) as int;
    lemma_exp2_pos(141);
    vstd::arithmetic::power2::lemma2_to64();
    assert(exp2(24) == 0x100_0000);
    assert(exp2(8) == 256);
    lemma_exp2_add(8, 141);
    lemma_exp2_add(24, 141);
    lemma_exp2_lt(165, 277);
    lemma_round_exact(24, m, 141);
    let u = m * e;
    assert(0 <= u < exp2(24) * e) by (nonlinear_arith)
        requires
            u == m * e,
            0 <= m < exp2(24),
            1 <= e,
    ;
    assert(is_mantissa(24, u, m, 141));
    Value::<false>::lemma_rounded_scale(k < 0, u, 1, 256);
    let o = exp2(149);
    assert(o == 256 * e);
    assert(m * o == u * 256) by (nonlinear_arith)
        requires
            u == m * e,
            o == 256 * e,
    ;
    assert(-k * o == (-k) * o) by (nonlinear_arith);
    assert(k * e == if k < 0 {
        -u
    } else {
        u
    }) by (nonlinear_arith)
        requires
            u == m * e,
            m == abs(k),
    ;
    assert(abs(k * e) == u);
}

/// Positions in 256ths of a pixel come back from the compositor's space, as far
/// as the numbers of both fit in 24 bits.
pub proof fn law_fixed_comes_back(k: int, pos: i32)
    requires
        -0x1_0000 < pos < 0x1_0000,
        -0x100_0000 < k < 0x100_0000,
        -0x100_0000 < k + 256 * pos < 0x100_0000,
    ensures
        comes_back(fixed(k), pos),
{
    let p = 256 * pos;
    let e = exp2(141);
    lemma_fixed(k);
    lemma_fixed(k + p);
    lemma_whole(pos as int);
    lemma_exp2_pos(141);
    lemma_exp2_add(8, 141);
    vstd::arithmetic::power2::lemma2_to64();
    assert(exp2(8) == 256);
    let o = exp2(149);
    assert(whole(pos as int) == p * e) by (nonlinear_arith)
        requires
            whole(pos as int) == pos * o,
            o == 256 * e,
            p == 256 * pos,
    ;
    assert(k * e + p * e == (k + p) * e) by (nonlinear_arith);
    let g = fixed(k).plus(single(pos as int));
    law_sum_stays_between(fixed(k), single(pos as int), (k + p) * e, (k + p) * e);
    let back = single(pos as int).negated();
    law_sum_stays_between(g, back, k * e, k * e);
    let r = g.plus(back);
    assert(r.units() == fixed(k).units());
    assert(k * e < 0 <==> k < 0) by (nonlinear_arith)
        requires
            1 <= e,
    ;
    assert(k * e == 0 <==> k == 0) by (nonlinear_arith)
        requires
            1 <= e,
    ;
    if k == 0 {
        assert((k + p) * e < 0 <==> pos < 0) by (nonlinear_arith)
            requires
                k == 0,
                p == 256 * pos,
                1 <= e,
        ;
        assert(pos != 0 ==> g->Finite_neg == (pos < 0));
        assert(back->Finite_neg == !(pos < 0));
        assert(!(r->Finite_neg));
    }
    assert(r == fixed(k));
}

/// On an output whose scale factor is whole, the pixel under the cursor is the
/// scaled position without its fraction.
pub proof fn law_pixel_under_cursor(x: Value<false>, logical: u32, factor: u32)
    requires
        0 < factor <= 0x1_0000,
        0 < logical <= 0x1_0000,
        logical * factor <= u32::MAX,
        is_on_axis(x, logical),
    ensures
        buffer_pixel(x, (logical * factor) as u32, logical) == (x.units() * factor) / exp2(149),
{
    let o = one();
    let (l, f) = (logical as int, factor as int);
    let size = logical * factor;
    lemma_steps();
    lemma_exp2_pos(1074);
    lemma_exp2_pos(925);
    lemma_exp2_pos(149);
    lemma_double_whole(size);
    lemma_double_whole(l);
    lemma_double_whole(f);
    // The scale factor is exact.
    let d = l * o;
    assert(size * o * o == (f * o) * d && 0 < d && 0 <= f * o) by (nonlinear_arith)
        requires
            size == l * f,
            d == l * o,
            1 <= l,
            1 <= f,
            1 <= o,
    ;
    Value::<true>::lemma_rounded_scale(false, f * o, 1, d);
    assert(1 * d == d);
    lemma_double_exact(f, 1074);
    assert(scale(size as u32, logical) == (Value::<true>::Finite { neg: false, mag: f * o }));
    // So is the product.
    let m = x->Finite_mag;
    let big = exp2(925);
    let w = m * big;
    let (a, t) = choose|a: int, t: int| is_mantissa(24, x.units(), a, t);
    vstd::arithmetic::power2::lemma2_to64();
    assert(exp2(24) == 0x100_0000);
    lemma_exp2_pos(t);
    lemma_exp2_add(t, 925);
    let e = exp2(t);
    assert(a * f < 0x20_0000_0000_0000 && 0 <= a * f) by (nonlinear_arith)
        requires
            0 <= a < 0x100_0000,
            0 < f <= 0x1_0000,
    ;
    let product = w * f;
    assert(product == (a * f) * exp2(t + 925)) by (nonlinear_arith)
        requires
            product == w * f,
            w == m * big,
            m == a * e,
            exp2(t + 925) == e * big,
    ;
    assert(w * (f * o) == product * o) by (nonlinear_arith)
        requires
            product == w * f,
    ;
    assert(0 <= product) by (nonlinear_arith)
        requires
            product == (m * big) * f,
            0 <= m,
            1 <= big,
            1 <= f,
    ;
    Value::<true>::lemma_rounded_scale(false, product, 1, o);
    assert(1 * o == o);
    lemma_exp2_add(149, 925);
    let y = m * f;
    let c = exp2(149);
    assert(product == y * big && o == c * big) by (nonlinear_arith)
        requires
            product == (m * big) * f,
            y == m * f,
            o == c * big,
    ;
    assert(y < size * c) by (nonlinear_arith)
        requires
            y == m * f,
            m < l * c,
            size == l * f,
            1 <= f,
    ;
    assert(product < size * o) by (nonlinear_arith)
        requires
            product == y * big,
            o == c * big,
            y < size * c,
            1 <= big,
    ;
    lemma_exp2_add(32, 1074);
    lemma_exp2_lt(1106, 2098);
    assert(exp2(32) == 0x1_0000_0000);
    assert(product < exp2(1106)) by (nonlinear_arith)
        requires
            product < size * o,
            size <= 0xffff_ffff,
            exp2(1106) == 0x1_0000_0000 * o,
            1 <= o,
    ;
    vstd::arithmetic::power2::lemma2_to64_rest();
    assert(exp2(53) == 0x20_0000_0000_0000);
    lemma_round_exact(53, a * f, t + 925);
    vstd::arithmetic::div_mod::lemma_fundamental_div_mod(y, c);
    let whole_part = y / c;
    let rest = y % c;
    assert(product == o * whole_part + rest * big && 0 <= rest * big < o) by (nonlinear_arith)
        requires
            product == y * big,
            o == c * big,
            y == c * whole_part + rest,
            0 <= rest < c,
            1 <= big,
    ;
    assert(o * whole_part == whole_part * o) by (nonlinear_arith);
    vstd::arithmetic::div_mod::lemma_fundamental_div_mod_converse(
        product,
        o,
        whole_part,
        rest * big,
    );
    assert(whole_part < size) by (nonlinear_arith)
        requires
            y == c * whole_part + rest,
            0 <= rest,
            y < size * c,
            1 <= c,
    ;
    if x->Finite_neg {
        // The cursor is at a zero with a sign.
        assert(m == 0);
        assert(y == 0) by (nonlinear_arith)
            requires
                y == m * f,
                m == 0,
        ;
        assert(x.units() * factor == 0) by (nonlinear_arith)
            requires
                x.units() == 0,
        ;
    } else {
        assert(x.units() * factor == y);
    }
}

/// A count of few bits is its own rounding in double precision.
proof fn lemma_double_exact(m: int, k: int)
    requires
        0 <= m < 0x1_0000_0000,
        0 <= k <= 1500,
    ensures
        Value::<true>::rounded(false, m * exp2(k), 1) == (Value::<true>::Finite {
            neg: false,
            mag: m * exp2(k),
        }),
{
    let e = exp2(k);
    lemma_exp2_pos(k);
    vstd::arithmetic::power2::lemma2_to64();
    vstd::arithmetic::power2::lemma2_to64_rest();
    assert(exp2(53) == 0x20_0000_0000_0000);
    lemma_round_exact(53, m, k);
    lemma_exp2_add(53, k);
    lemma_exp2_lt(53 + k, 2098);
    assert(m * e < exp2(53) * e) by (nonlinear_arith)
        requires
            m < exp2(53),
            1 <= e,
    ;
}

/// Whether a pixel of a captured axis is the one at a position of the cursor,
/// which is counted in units: the scaled position without its fraction, up to one
/// part in 2^50.
pub open spec fn is_pixel_at(pixel: int, position: int, size: u32, logical: u32) -> bool {
    &&& pixel * whole(logical as int) * 0x4_0000_0000_0000 <= position * size
        * 0x4_0000_0000_0001
    &&& position * size * 0x4_0000_0000_0000 < (pixel + 1) * whole(logical as int)
        * 0x4_0000_0000_0001
}

/// The scale factor of an axis is not too small either.
proof fn lemma_scale_below(size: u32, logical: u32)
    requires
        0 < size,
        0 < logical <= 0x100_0000,
    ensures
        size * one() * (exp2(53) - 1) <= scale(size, logical)->Finite_mag * logical * exp2(53),
{
    let o = one();
    let p = exp2(53);
    let (s, l) = (size as int, logical as int);
    lemma_steps();
    lemma_exp2_pos(53);
    lemma_exp2_pos(1074);
    lemma_double_whole(s);
    lemma_double_whole(l);
    lemma_scale(size, logical);
    let n = (s * o) * o;
    let d = l * o;
    vstd::arithmetic::power2::lemma2_to64_rest();
    assert(p == 0x20_0000_0000_0000);
    lemma_exp2_add(100, 974);
    lemma_exp2_add(60, 40);
    assert(exp2(60) == 0x1000_0000_0000_0000);
    assert(exp2(40) == 0x100_0000_0000);
    lemma_exp2_pos(974);
    assert(0 < d && 0 <= n && d * p <= n) by (nonlinear_arith)
        requires
            n == (s * o) * o,
            d == l * o,
            1 <= s,
            0 < l <= 0x100_0000,
            p == 0x20_0000_0000_0000,
            o == exp2(100) * exp2(974),
            exp2(100) == 0x1000_0000_0000_0000 * 0x100_0000_0000,
            1 <= exp2(974),
    ;
    let q = round_bits(53, n, d);
    lemma_round_error(53, n, d);
    assert(s * o * (p - 1) <= q * l * p) by (nonlinear_arith)
        requires
            abs(q * d - n) * p <= n,
            n == (s * o) * o,
            d == l * o,
            1 <= o,
            1 <= p,
    ;
}

/// The arithmetic of the pixel not being beyond the position.
proof fn lemma_pixel_at_most(
    pixel: int,
    r: int,
    n: int,
    w: int,
    q: int,
    s: int,
    l: int,
    o: int,
    p: int,
)
    requires
        1 <= o,
        1 <= p,
        1 <= l,
        0 <= w,
        0 <= s,
        0 <= pixel,
        pixel * o <= r,
        n == w * q,
        r * o * p <= n * (p + 1),
        q * l * p <= s * o * (p + 1),
    ensures
        pixel * o * l * (p * p) <= w * s * ((p + 1) * (p + 1)),
{
    let lp = l * p;
    let a = pixel * o * o * p;
    assert(a <= n * (p + 1)) by (nonlinear_arith)
        requires
            a == pixel * o * o * p,
            pixel * o <= r,
            r * o * p <= n * (p + 1),
            1 <= o,
            1 <= p,
    ;
    let b = n * lp;
    let c = s * o * (p + 1);
    assert(b <= w * c) by (nonlinear_arith)
        requires
            b == (w * q) * lp,
            lp == l * p,
            q * l * p <= c,
            0 <= w,
    ;
    assert(a * lp <= (w * c) * (p + 1)) by (nonlinear_arith)
        requires
            a <= n * (p + 1),
            b == n * lp,
            b <= w * c,
            0 <= lp,
            1 <= p,
    ;
    let x = pixel * o * l * (p * p);
    let y = w * s * ((p + 1) * (p + 1));
    assert(a * lp == x * o && (w * c) * (p + 1) == y * o) by (nonlinear_arith)
        requires
            a == pixel * o * o * p,
            lp == l * p,
            x == pixel * o * l * (p * p),
            y == w * s * ((p + 1) * (p + 1)),
            c == s * o * (p + 1),
    ;
    assert(x <= y) by (nonlinear_arith)
        requires
            x * o <= y * o,
            1 <= o,
    ;
}

/// The arithmetic of the position not being beyond the pixel.
proof fn lemma_pixel_at_least(
    pixel: int,
    r: int,
    n: int,
    w: int,
    q: int,
    s: int,
    l: int,
    o: int,
    p: int,
)
    requires
        1 <= o,
        2 <= p,
        1 <= l,
        0 <= w,
        0 <= s,
        r < (pixel + 1) * o,
        n == w * q,
        n * (p - 1) <= r * o * p,
        s * o * (p - 1) <= q * l * p,
    ensures
        w * s * ((p - 1) * (p - 1)) < (pixel + 1) * o * l * (p * p),
{
    let lp = l * p;
    let k = pixel + 1;
    let a = k * o * o * p;
    assert(n * (p - 1) < a) by (nonlinear_arith)
        requires
            a == k * o * o * p,
            r < k * o,
            n * (p - 1) <= r * o * p,
            1 <= o,
            2 <= p,
    ;
    let b = n * lp;
    let c = s * o * (p - 1);
    assert(w * c <= b) by (nonlinear_arith)
        requires
            b == (w * q) * lp,
            lp == l * p,
            c <= q * l * p,
            0 <= w,
    ;
    assert(1 <= lp) by (nonlinear_arith)
        requires
            lp == l * p,
            1 <= l,
            2 <= p,
    ;
    assert((w * c) * (p - 1) < a * lp) by (nonlinear_arith)
        requires
            n * (p - 1) < a,
            b == n * lp,
            w * c <= b,
            1 <= lp,
            2 <= p,
    {
        assert((w * c) * (p - 1) <= b * (p - 1));
        assert(b * (p - 1) == (n * (p - 1)) * lp);
        assert((n * (p - 1)) * lp < a * lp);
    }
    let x = k * o * l * (p * p);
    let y = w * s * ((p - 1) * (p - 1));
    assert(a * lp == x * o && (w * c) * (p - 1) == y * o) by (nonlinear_arith)
        requires
            a == k * o * o * p,
            lp == l * p,
            x == k * o * l * (p * p),
            y == w * s * ((p - 1) * (p - 1)),
            c == s * o * (p - 1),
    ;
    assert(y < x) by (nonlinear_arith)
        requires
            y * o < x * o,
            1 <= o,
    ;
}

/// What the roundings lose is less than one part in 2^50, and does not depend on
/// the unit.
proof fn lemma_pixel_slack(pixel: int, u: int, s: int, l: int, e: int, big: int, p: int)
    requires
        p == 0x20_0000_0000_0000,
        1 <= big,
        0 <= u,
        0 <= s,
        1 <= e,
        1 <= l,
        0 <= pixel,
    ensures
        pixel * (e * big) * l * (p * p) <= (u * big) * s * ((p + 1) * (p + 1)) ==> pixel * (l * e)
            * 0x4_0000_0000_0000 <= u * s * 0x4_0000_0000_0001,
        (u * big) * s * ((p - 1) * (p - 1)) < (pixel + 1) * (e * big) * l * (p * p) ==> u * s
            * 0x4_0000_0000_0000 < (pixel + 1) * (l * e) * 0x4_0000_0000_0001,
{
    let a = pixel * (l * e);
    let k = (pixel + 1) * (l * e);
    let b = u * s;
    let (pp, up, down) = (p * p, (p + 1) * (p + 1), (p - 1) * (p - 1));
    assert(0 <= a && 0 <= b && 0 <= k) by (nonlinear_arith)
        requires
            a == pixel * (l * e),
            k == (pixel + 1) * (l * e),
            b == u * s,
            0 <= pixel,
            0 <= u,
            0 <= s,
            1 <= l,
            1 <= e,
    ;
    assert(pixel * (e * big) * l * pp == (a * pp) * big && (u * big) * s * up == (b * up) * big
        && (pixel + 1) * (e * big) * l * pp == (k * pp) * big && (u * big) * s * down == (b
        * down) * big) by (nonlinear_arith)
        requires
            a == pixel * (l * e),
            k == (pixel + 1) * (l * e),
            b == u * s,
    ;
    let k0 = 0x4_0000_0000_0000int;
    assert(1 <= pp && up * k0 <= pp * (k0 + 1) && pp * k0 <= down * (k0 + 1)) by (nonlinear_arith)
        requires
            pp == p * p,
            up == (p + 1) * (p + 1),
            down == (p - 1) * (p - 1),
            p == 8 * k0,
            k0 == 0x4_0000_0000_0000,
    ;
    if (a * pp) * big <= (b * up) * big {
        assert(a * pp <= b * up) by (nonlinear_arith)
            requires
                (a * pp) * big <= (b * up) * big,
                1 <= big,
        ;
        assert((a * k0) * pp <= (b * (k0 + 1)) * pp) by (nonlinear_arith)
            requires
                a * pp <= b * up,
                up * k0 <= pp * (k0 + 1),
                0 <= b,
                1 <= k0,
        {
            assert((a * pp) * k0 <= (b * up) * k0);
            assert(b * (up * k0) <= b * (pp * (k0 + 1)));
        }
        assert(a * k0 <= b * (k0 + 1)) by (nonlinear_arith)
            requires
                (a * k0) * pp <= (b * (k0 + 1)) * pp,
                1 <= pp,
        ;
    }
    if (b * down) * big < (k * pp) * big {
        assert(b * down < k * pp) by (nonlinear_arith)
            requires
                (b * down) * big < (k * pp) * big,
                1 <= big,
        ;
        assert((b * k0) * pp < (k * (k0 + 1)) * pp) by (nonlinear_arith)
            requires
                b * down < k * pp,
                pp * k0 <= down * (k0 + 1),
                0 <= b,
                1 <= k0,
        {
            assert(b * (pp * k0) <= b * (down * (k0 + 1)));
            assert((b * down) * (k0 + 1) < (k * pp) * (k0 + 1));
        }
        assert(b * k0 < k * (k0 + 1)) by (nonlinear_arith)
            requires
                (b * k0) * pp < (k * (k0 + 1)) * pp,
                1 <= pp,
        ;
    }
}

/// The pixel under the cursor, at any scale: it is the scaled position without
/// its fraction.
pub proof fn law_pixel_is_at_cursor(x: Value<false>, size: u32, logical: u32)
    requires
        0 < size,
        0 < logical <= 0x100_0000,
        is_on_axis(x, logical),
    ensures
        is_pixel_at(buffer_pixel(x, size, logical), x.units(), size, logical),
{
    let o = one();
    let p = exp2(53);
    let e = exp2(149);
    let big = exp2(925);
    let (s, l) = (size as int, logical as int);
    let q = scale(size, logical)->Finite_mag;
    let u = x.units();
    let pixel = buffer_pixel(x, size, logical);
    law_pixel_is_captured(x, size, logical);
    lemma_steps();
    lemma_exp2_pos(53);
    lemma_exp2_pos(1074);
    lemma_exp2_pos(925);
    lemma_exp2_pos(149);
    lemma_scale(size, logical);
    lemma_scale_below(size, logical);
    lemma_exp2_add(149, 925);
    vstd::arithmetic::power2::lemma2_to64_rest();
    assert(p == 0x20_0000_0000_0000);
    let w = u * big;
    let n = w * q;
    assert(0 <= w && 0 <= n) by (nonlinear_arith)
        requires
            n == w * q,
            w == u * big,
            0 <= u,
            0 <= q,
            1 <= big,
    ;
    let r = round_bits(53, n, o);
    lemma_round_error(53, n, o);
    lemma_round_nonnegative(53, n, o);
    vstd::arithmetic::div_mod::lemma_fundamental_div_mod(r, o);
    lemma_exp2_add(32, 1074);
    lemma_exp2_lt(1106, 2098);
    lemma_exp2_lt(53, 1074);
    lemma_pixel_of(x, size, logical, r);
    assert(pixel * o <= r < (pixel + 1) * o) by (nonlinear_arith)
        requires
            r == o * pixel + r % o,
            0 <= r % o < o,
    ;
    lemma_pixel_slack(pixel, u, s, l, e, big, p);
    if o * p <= n {
        assert(r * o * p <= n * (p + 1) && n * (p - 1) <= r * o * p) by (nonlinear_arith)
            requires
                abs(r * o - n) * p <= n,
                1 <= p,
        ;
        lemma_pixel_at_most(pixel, r, n, w, q, s, l, o, p);
        lemma_pixel_at_least(pixel, r, n, w, q, s, l, o, p);
    } else {
        lemma_tiny_position(u, n, q, s, l, o, big, p);
        assert(pixel == 0) by (nonlinear_arith)
            requires
                pixel * o <= r,
                2 * abs(r * o - n) <= o,
                n < o * p,
                p < o,
                0 <= pixel,
        ;
        assert(0 < (pixel + 1) * whole(l)) by (nonlinear_arith)
            requires
                pixel == 0,
                whole(l) == l * e,
                1 <= l,
                1 <= e,
        ;
        assert(pixel * whole(l) == 0) by (nonlinear_arith)
            requires
                pixel == 0,
        ;
    }
}

/// A position that is scaled to almost nothing is zero.
proof fn lemma_tiny_position(u: int, n: int, q: int, s: int, l: int, o: int, big: int, p: int)
    requires
        o == one(),
        big == exp2(925),
        p == 0x20_0000_0000_0000,
        1 <= s,
        1 <= l <= 0x100_0000,
        0 <= u,
        0 <= q,
        n == (u * big) * q,
        n < o * p,
        s * o * (p - 1) <= q * l * p,
    ensures
        u * s == 0,
{
    lemma_exp2_pos(925);
    lemma_exp2_pos(1074);
    lemma_exp2_add(140, 785);
    lemma_exp2_add(70, 70);
    lemma_exp2_add(60, 10);
    lemma_exp2_pos(785);
    vstd::arithmetic::power2::lemma2_to64();
    vstd::arithmetic::power2::lemma2_to64_rest();
    assert(exp2(60) == 0x1000_0000_0000_0000);
    assert(exp2(10) == 0x400);
    if u >= 1 {
        let lp = l * p;
        assert(1 <= lp && q * l * p == q * lp) by (nonlinear_arith)
            requires
                lp == l * p,
                1 <= l,
                1 <= p,
        ;
        assert(n * lp < o * (p * lp)) by (nonlinear_arith)
            requires
                n < o * p,
                1 <= lp,
        ;
        assert(o * (big * (p - 1)) <= n * lp) by (nonlinear_arith)
            requires
                n == (u * big) * q,
                s * o * (p - 1) <= q * lp,
                lp == l * p,
                1 <= s,
                1 <= u,
                1 <= big,
                1 <= o,
                2 <= p,
        {
            assert((u * big) * (s * o * (p - 1)) <= (u * big) * (q * lp));
            assert(o * (p - 1) <= s * o * (p - 1));
            assert(big <= u * big);
            assert(big * (o * (p - 1)) <= (u * big) * (s * o * (p - 1)));
        }
        assert(big * (p - 1) < p * lp) by (nonlinear_arith)
            requires
                o * (big * (p - 1)) < o * (p * lp),
                1 <= o,
        ;
        assert(0x1000_0000_0000_0000 * 0x400 * (0x1000_0000_0000_0000 * 0x400) <= big)
            by (nonlinear_arith)
            requires
                big == exp2(140) * exp2(785),
                exp2(140) == exp2(70) * exp2(70),
                exp2(70) == 0x1000_0000_0000_0000 * 0x400,
                1 <= exp2(785),
        ;
        assert(p * lp <= 0x20_0000_0000_0000 * (0x100_0000 * 0x20_0000_0000_0000))
            by (nonlinear_arith)
            requires
                lp == l * p,
                1 <= l <= 0x100_0000,
                p == 0x20_0000_0000_0000,
        ;
        assert(big <= big * (p - 1)) by (nonlinear_arith)
            requires
                1 <= big,
                2 <= p,
        ;
        let c = p * lp;
        assert(c < big) by (nonlinear_arith)
            requires
                c <= 0x20_0000_0000_0000 * (0x100_0000 * 0x20_0000_0000_0000),
                0x1000_0000_0000_0000 * 0x400 * (0x1000_0000_0000_0000 * 0x400) <= big,
        ;
    } else {
        assert(u * s == 0) by (nonlinear_arith)
            requires
                u == 0,
        ;
    }
}

/// The pixel is the rounded product without its fraction.
proof fn lemma_pixel_of(x: Value<false>, size: u32, logical: u32, r: int)
    requires
        0 < size,
        0 < logical <= 0x100_0000,
        is_on_axis(x, logical),
        r == round_bits(
            53,
            (x.units() * exp2(925)) * scale(size, logical)->Finite_mag,
            one(),
        ),
    ensures
        buffer_pixel(x, size, logical) == r / one(),
{
    let o = one();
    lemma_steps();
    lemma_exp2_pos(1074);
    lemma_scale(size, logical);
    law_pixel_is_captured(x, size, logical);
    let v = widened(x).times(scale(size, logical));
    assert(widened(x)->Finite_mag == x->Finite_mag * exp2(925));
    assert(x.units() == x->Finite_mag);
    if x->Finite_neg {
        let n = (x.units() * exp2(925)) * scale(size, logical)->Finite_mag;
        assert(n == 0) by (nonlinear_arith)
            requires
                n == (x.units() * exp2(925)) * scale(size, logical)->Finite_mag,
                x.units() == 0,
        ;
        lemma_exp2_pos(53);
        assert(0 < o * exp2(53)) by (nonlinear_arith)
            requires
                1 <= o,
                1 <= exp2(53),
        ;
        lemma_round_error(53, 0, o);
        assert(r == 0) by (nonlinear_arith)
            requires
                2 * abs(r * o - 0) <= o,
                1 <= o,
        ;
        assert(0 * o == 0) by (nonlinear_arith);
        vstd::arithmetic::div_mod::lemma_fundamental_div_mod_converse(0, o, 0, 0);
    } else if exp2(2098) <= r {
        assert(v is Infinite);
    } else {
        assert(v->Finite_mag == r);
    }
}

/// The colour under the cursor is that of the captured pixel there, at any scale,
/// and is opaque.
pub proof fn law_color_is_at_cursor(o: CapturedOutput, x: Value<false>, y: Value<false>)
    requires
        is_ordinary(o),
        is_on_axis(x, o.logical_width),
        is_on_axis(y, o.logical_height),
    ensures
        exists|i: int, j: int|
            {
                &&& is_pixel_at(i, x.units(), o.width, o.logical_width)
                &&& is_pixel_at(j, y.units(), o.height, o.logical_height)
                &&& o.rgba.has(i, j)
                &&& color_at(o, x, y) == Some(
                    Color {
                        r: (#[trigger] o.rgba.rgb(i, j)).0,
                        g: o.rgba.rgb(i, j).1,
                        b: o.rgba.rgb(i, j).2,
                        a: 255,
                    },
                )
            },
{
    law_pixel_is_at_cursor(x, o.width, o.logical_width);
    law_pixel_is_at_cursor(y, o.height, o.logical_height);
    law_pixel_is_captured(x, o.width, o.logical_width);
    law_pixel_is_captured(y, o.height, o.logical_height);
    let i = buffer_pixel(x, o.width, o.logical_width);
    let j = buffer_pixel(y, o.height, o.logical_height);
    assert(o.rgba.has(i, j));
    let rgb = o.rgba.rgb(i, j);
}

/// A pointer over the overlay of a captured output is known there: at its
/// position on the output and, moved by the output's own, on the desktop; over
/// the captured pixel there, with that pixel's colour.
pub proof fn law_hover_is_at_pointer(session: Session, id: u64, x: Value<false>, y: Value<false>)
    requires
        place_of(session.overlay_ids, id) matches Some(i) && {
            &&& i < session.captures.len()
            &&& is_ordinary(session.captures[i])
            &&& is_on_axis(x, session.captures[i].logical_width)
            &&& is_on_axis(y, session.captures[i].logical_height)
        },
    ensures
        session.moved(id, x, y) matches Some(hover) && {
            let i = hover.output_index;
            let o = session.captures[i];
            let (column, row) = (hover.pixel_pos.0 as int, hover.pixel_pos.1 as int);
            let (gx, gy) = (x.units() + whole(o.pos_x as int), y.units() + whole(o.pos_y as int));
            &&& 0 <= i < session.captures.len()
            &&& session.overlay_ids[i] == id
            &&& hover.local_pos == (x, y)
            &&& abs(hover.global_pos.0.units() - gx) * 0x100_0000 <= abs(gx)
            &&& abs(hover.global_pos.1.units() - gy) * 0x100_0000 <= abs(gy)
            &&& is_pixel_at(column, x.units(), o.width, o.logical_width)
            &&& is_pixel_at(row, y.units(), o.height, o.logical_height)
            &&& o.rgba.has(column, row)
            &&& hover.color == Some(
                Color {
                    r: o.rgba.rgb(column, row).0,
                    g: o.rgba.rgb(column, row).1,
                    b: o.rgba.rgb(column, row).2,
                    a: 255,
                },
            )
        },
{
    lemma_place_of(session.overlay_ids, id);
    let i = place_of(session.overlay_ids, id)->0;
    let o = session.captures[i];
    law_pixel_is_at_cursor(x, o.width, o.logical_width);
    law_pixel_is_at_cursor(y, o.height, o.logical_height);
    law_pixel_is_captured(x, o.width, o.logical_width);
    law_pixel_is_captured(y, o.height, o.logical_height);
    lemma_desktop_position(x, o.pos_x, o.logical_width);
    lemma_desktop_position(y, o.pos_y, o.logical_height);
}

/// The sum of a position on an output and the output's own.
proof fn lemma_desktop_position(x: Value<false>, pos: i32, logical: u32)
    requires
        is_on_axis(x, logical),
        0 < logical <= 0x100_0000,
        -0x100_0000 <= pos,
        pos + logical <= 0x100_0000,
    ensures
        ({
            let g = x.units() + whole(pos as int);
            abs(x.plus(single(pos as int)).units() - g) * 0x100_0000 <= abs(g)
        }),
{
    let (p, l) = (pos as int, logical as int);
    lemma_whole(p);
    lemma_whole_add(p, l);
    lemma_sum_error(x, single(p), p, p + l);
}

/// An output covers the points of its logical rectangle, and no others: its left
/// and top edges with it, its right and bottom edges without.
pub proof fn law_output_covers_its_rectangle(o: CapturedOutput, x: Value<false>, y: Value<false>)
    requires
        is_in_range(o),
        is_finite(x),
        is_finite(y),
    ensures
        covers(o, x, y) <==> is_inside(o, x.units(), y.units()),
{
    lemma_edges(o.pos_x, o.logical_width);
    lemma_edges(o.pos_y, o.logical_height);
}

/// The colour at a point of the desktop is that of the captured pixel there, on
/// the first output whose rectangle holds the point; where none does, there is no
/// colour.
pub proof fn law_sample_is_at_point(
    captures: Seq<CapturedOutput>,
    i: int,
    x: Value<false>,
    y: Value<false>,
)
    requires
        is_finite(x),
        is_finite(y),
        forall|j: int| 0 <= j < captures.len() ==> is_in_range(#[trigger] captures[j]),
        0 <= i <= captures.len(),
        forall|j: int| 0 <= j < i ==> !is_inside(#[trigger] captures[j], x.units(), y.units()),
        i < captures.len() ==> {
            let o = captures[i];
            &&& is_inside(o, x.units(), y.units())
            &&& is_ordinary(o)
            &&& is_on_axis(x.minus(single(o.pos_x as int)), o.logical_width)
            &&& is_on_axis(y.minus(single(o.pos_y as int)), o.logical_height)
        },
    ensures
        i == captures.len() ==> sample(captures, x, y) is None,
        i < captures.len() ==> {
            let o = captures[i];
            let (dx, dy) = (x.units() - whole(o.pos_x as int), y.units() - whole(o.pos_y as int));
            exists|u: int, v: int, a: int, b: int|
                {
                    &&& abs(u - dx) * 0x100_0000 <= abs(dx)
                    &&& abs(v - dy) * 0x100_0000 <= abs(dy)
                    &&& #[trigger] is_pixel_at(a, u, o.width, o.logical_width)
                    &&& #[trigger] is_pixel_at(b, v, o.height, o.logical_height)
                    &&& o.rgba.has(a, b)
                    &&& sample(captures, x, y) == Some(
                        Color {
                            r: o.rgba.rgb(a, b).0,
                            g: o.rgba.rgb(a, b).1,
                            b: o.rgba.rgb(a, b).2,
                            a: 255,
                        },
                    )
                }
        },
{
    lemma_first_covering(captures, x, y);
    assert forall|j: int| 0 <= j < captures.len() implies covers(#[trigger] captures[j], x, y)
        == is_inside(captures[j], x.units(), y.units()) by {
        law_output_covers_its_rectangle(captures[j], x, y);
    }
    if i < captures.len() {
        let o = captures[i];
        let (dx, dy) = (x.minus(single(o.pos_x as int)), y.minus(single(o.pos_y as int)));
        assert(first_covering(captures, x, y) == Some(i));
        lemma_local_position(x, o.pos_x, o.logical_width);
        lemma_local_position(y, o.pos_y, o.logical_height);
        law_pixel_is_at_cursor(dx, o.width, o.logical_width);
        law_pixel_is_at_cursor(dy, o.height, o.logical_height);
        law_pixel_is_captured(dx, o.width, o.logical_width);
        law_pixel_is_captured(dy, o.height, o.logical_height);
        let a = buffer_pixel(dx, o.width, o.logical_width);
        let b = buffer_pixel(dy, o.height, o.logical_height);
        assert(is_pixel_at(a, dx.units(), o.width, o.logical_width));
        assert(is_pixel_at(b, dy.units(), o.height, o.logical_height));
        assert(o.rgba.has(a, b));
    }
}

/// Whether a point, in units, lies in the logical rectangle of an output: its
/// left and top edges belong to it, its right and bottom edges do not.
pub open spec fn is_inside(o: CapturedOutput, x: int, y: int) -> bool {
    &&& whole(o.pos_x as int) <= x < whole(o.pos_x + o.logical_width)
    &&& whole(o.pos_y as int) <= y < whole(o.pos_y + o.logical_height)
}

/// The difference of a position on the desktop and an output's own.
proof fn lemma_local_position(x: Value<false>, pos: i32, logical: u32)
    requires
        is_finite(x),
        0 < logical <= 0x100_0000,
        -0x100_0000 <= pos,
        pos + logical <= 0x100_0000,
        whole(pos as int) <= x.units() < whole(pos + logical),
    ensures
        ({
            let d = x.units() - whole(pos as int);
            abs(x.minus(single(pos as int)).units() - d) * 0x100_0000 <= abs(d)
        }),
{
    let (p, l) = (pos as int, logical as int);
    lemma_whole(p);
    lemma_whole_add(p + l, p);
    lemma_whole_add(p, p);
    let back = single(p).negated();
    assert(back.units() == -whole(p) && is_finite(back));
    lemma_sum_error(x, back, 0, l);
}

} // verus!
