//! How the zoom level follows the wheel.

use crate::arithmetic::law_sum_is_nearest;
use crate::float::Value;
use crate::order::{
    is_beyond, is_finite, is_single, law_round_keeps_order, law_sum_stays_between,
    lemma_rounded_at_least, lemma_rounded_at_most, lemma_single_exact, lemma_sum_beyond,
    lemma_whole, lemma_whole_order, whole,
};
use crate::rounding::{
    exp2, is_mantissa, is_spacing, lemma_error_both, lemma_exp2_add, lemma_exp2_le, lemma_exp2_lt,
    lemma_exp2_pos, lemma_exp2_succ, lemma_half_even_scale, lemma_round_error,
    lemma_round_nonnegative, lemma_spacing_is, round_bits,
};
use crate::widget::magnifier::{single, zoom_step, zoom_target, zoomed, MAX_ZOOM, MIN_ZOOM};
use vstd::math::{abs, max, min};
use vstd::prelude::*;

verus! {

/// A number from 8 to 24 is rounded to a zoom level, and not past a whole
/// number that is nearer.
proof fn lemma_nearest_level(v: Value<false>, n: int)
    requires
        v is Finite,
        !v->Finite_neg,
        whole(MIN_ZOOM as int) <= v.units() <= whole(MAX_ZOOM as int),
    ensures
        MIN_ZOOM <= v.nearest() <= MAX_ZOOM,
        MIN_ZOOM <= v.nearest_down() <= MAX_ZOOM,
        (2 * n - 1) * exp2(149) <= 2 * v.units() ==> n <= v.nearest(),
        2 * v.units() <= (2 * n + 1) * exp2(149) ==> v.nearest_down() <= n,
{
    let o = exp2(149);
    let m = v.units();
    lemma_exp2_pos(149);
    let a = (2 * m + o) / (2 * o);
    let b = (2 * m + o - 1) / (2 * o);
    vstd::arithmetic::div_mod::lemma_fundamental_div_mod(2 * m + o, 2 * o);
    vstd::arithmetic::div_mod::lemma_fundamental_div_mod(2 * m + o - 1, 2 * o);
    let ra = (2 * m + o) % (2 * o);
    let rb = (2 * m + o - 1) % (2 * o);
    assert(8 <= a <= 24) by (nonlinear_arith)
        requires
            2 * m + o == (2 * o) * a + ra,
            0 <= ra < 2 * o,
            8 * o <= m <= 24 * o,
            1 <= o,
    ;
    assert(8 <= b <= 24) by (nonlinear_arith)
        requires
            2 * m + o - 1 == (2 * o) * b + rb,
            0 <= rb < 2 * o,
            8 * o <= m <= 24 * o,
            1 <= o,
    ;
    if (2 * n - 1) * o <= 2 * m {
        assert(n <= a) by (nonlinear_arith)
            requires
                2 * m + o == (2 * o) * a + ra,
                0 <= ra < 2 * o,
                (2 * n - 1) * o <= 2 * m,
                1 <= o,
        ;
    }
    if 2 * m <= (2 * n + 1) * o {
        assert(b <= n) by (nonlinear_arith)
            requires
                2 * m + o - 1 == (2 * o) * b + rb,
                0 <= rb < 2 * o,
                2 * m <= (2 * n + 1) * o,
                1 <= o,
        ;
    }
}

/// A level below where a step leads can be raised by one, and one above it can
/// be lowered.
pub proof fn lemma_room_to_move(level: u32, delta: Value<false>)
    ensures
        single(level as int).below(zoom_target(level as int, delta)) ==> level < MAX_ZOOM,
        zoom_target(level as int, delta).below(single(level as int)) ==> MIN_ZOOM < level,
{
    let o = exp2(149);
    lemma_exp2_pos(149);
    lemma_whole(MIN_ZOOM as int);
    lemma_whole(MAX_ZOOM as int);
    if level <= MIN_ZOOM {
        lemma_whole(level as int);
        assert(level * o <= 8 * o) by (nonlinear_arith)
            requires
                level <= 8,
                1 <= o,
        ;
    }
    if MAX_ZOOM <= level {
        assert(24 * o * 1 <= level * o) by (nonlinear_arith)
            requires
                24 <= level,
                1 <= o,
        ;
        lemma_rounded_at_least(false, level * o, 1, whole(MAX_ZOOM as int));
    }
}

/// The zoom level stays from 8 to 24, whatever is scrolled.
pub proof fn law_zoom_stays_in_range(level: int, delta: Value<false>)
    requires
        MIN_ZOOM <= level <= MAX_ZOOM,
    ensures
        MIN_ZOOM <= zoomed(level, delta) <= MAX_ZOOM,
{
    lemma_whole(MIN_ZOOM as int);
    lemma_whole(MAX_ZOOM as int);
    lemma_exp2_pos(149);
    let target = zoom_target(level, delta);
    if !(target is Nan) {
        lemma_nearest_level(target, level);
        lemma_room_to_move(level as u32, delta);
    }
}

/// A small count of a power of two is a number of the 32-bit format.
pub proof fn lemma_small(m: int, t: int)
    requires
        0 <= m < 0x100_0000,
        0 <= t <= 200,
    ensures
        is_single(m * exp2(t)),
        0 <= m * exp2(t),
{
    let e = exp2(t);
    lemma_exp2_pos(t);
    vstd::arithmetic::power2::lemma2_to64();
    assert(exp2(24) == 0x100_0000);
    lemma_exp2_add(24, t);
    lemma_exp2_lt(24 + t, 277);
    assert(0 <= m * e < exp2(24) * e) by (nonlinear_arith)
        requires
            0 <= m < exp2(24),
            1 <= e,
    ;
    assert(is_mantissa(24, m * e, m, t));
}

/// Three quarters is a number of the format.
proof fn lemma_three_quarters()
    ensures
        Value::<false>::ratio(3, 4) == (Value::<false>::Finite {
            neg: false,
            mag: 3 * exp2(147),
        }),
{
    let u = 3 * exp2(147);
    lemma_small(3, 147);
    lemma_exp2_succ(147);
    lemma_exp2_succ(148);
    Value::<false>::lemma_rounded_scale(false, u, 1, 4);
    assert(3 * exp2(149) == u * 4);
    lemma_single_exact(u, false);
}

/// Two thirds, rounded to a number of the format.
proof fn lemma_two_thirds()
    ensures
        round_bits(24, 2 * exp2(149), 3) == 11184811 * exp2(125),
{
    let n = 2 * exp2(149);
    let e = exp2(125);
    lemma_exp2_pos(125);
    vstd::arithmetic::power2::lemma2_to64();
    assert(exp2(24) == 0x100_0000);
    lemma_exp2_add(24, 125);
    lemma_exp2_add(23, 125);
    assert(exp2(23) == 0x80_0000);
    assert(n == 33554432 * e);
    assert(is_spacing(24, n, 3, 125)) by {
        assert(exp2(149) == 0x100_0000 * e);
        assert(exp2(148) == 0x80_0000 * e);
    }
    lemma_spacing_is(24, n, 3, 125);
    lemma_half_even_scale(33554432, 3, e);
}

/// The factor by which a step shrinks with the zoom.
proof fn lemma_step_factor(level: int)
    requires
        MIN_ZOOM <= level <= MAX_ZOOM,
    ensures
        ({
            let q = single(16).over(single(level));
            &&& is_finite(q)
            &&& !(q->Finite_neg)
            &&& 11184811 * exp2(125) <= q->Finite_mag <= whole(2)
        }),
{
    let o = exp2(149);
    lemma_exp2_pos(149);
    lemma_whole(16);
    lemma_whole(level);
    lemma_whole(2);
    let n = 16 * o * o;
    let d = level * o;
    assert(0 < d && 0 <= n) by (nonlinear_arith)
        requires
            n == 16 * o * o,
            d == level * o,
            8 <= level,
            1 <= o,
    ;
    assert(2 * o * d <= n * 3) by (nonlinear_arith)
        requires
            n == 16 * o * o,
            d == level * o,
            level <= 24,
            1 <= o,
    ;
    assert(n <= (2 * o) * d) by (nonlinear_arith)
        requires
            n == 16 * o * o,
            d == level * o,
            8 <= level,
            1 <= o,
    ;
    lemma_two_thirds();
    law_round_keeps_order(24, 2 * o, 3, n, d);
    lemma_rounded_at_most(false, n, d, 2 * o);
}

/// A scroll delta of a sign gives a step of that sign; a delta of at least
/// `2^e` units gives a step of at least half as many.
proof fn lemma_step_sign(level: int, delta: Value<false>, neg: bool, e: int)
    requires
        MIN_ZOOM <= level <= MAX_ZOOM,
        is_beyond(delta, neg, 1),
        2 <= e <= 149,
    ensures
        is_beyond(zoom_step(level, delta), neg, 0),
        is_beyond(delta, neg, exp2(e)) ==> is_beyond(zoom_step(level, delta), neg, exp2(e - 1)),
{
    let o = exp2(149);
    let q = single(16).over(single(level));
    let first = delta.times(Value::ratio(3, 4));
    lemma_exp2_pos(149);
    lemma_exp2_pos(147);
    lemma_exp2_pos(125);
    lemma_exp2_pos(e - 2);
    lemma_three_quarters();
    lemma_step_factor(level);
    let tq = 3 * exp2(147);
    let f = q->Finite_mag;
    let x = exp2(e - 2);
    lemma_exp2_succ(e - 2);
    lemma_exp2_succ(e - 1);
    lemma_exp2_succ(147);
    lemma_exp2_succ(148);
    lemma_small(0, 0);
    lemma_exp2_pos(0);
    assert(0 * exp2(0) == 0) by (nonlinear_arith);
    lemma_small(3, e - 2);
    lemma_small(1, e - 1);
    if delta is Finite {
        let m = delta->Finite_mag;
        assert(0 <= m * tq) by (nonlinear_arith)
            requires
                0 <= m,
                1 <= tq,
        ;
        assert(0 * o == 0) by (nonlinear_arith);
        lemma_rounded_at_least(neg, m * tq, o, 0);
        if exp2(e) <= m {
            assert((3 * x) * o <= m * tq) by (nonlinear_arith)
                requires
                    4 * x <= m,
                    tq == 3 * exp2(147),
                    o == 4 * exp2(147),
                    1 <= tq,
            ;
            lemma_rounded_at_least(neg, m * tq, o, 3 * x);
        }
    }
    assert(is_beyond(first, neg, 0));
    if first is Finite {
        let m = first->Finite_mag;
        assert(0 <= m * f) by (nonlinear_arith)
            requires
                0 <= m,
                0 <= f,
        ;
        assert(0 * o == 0) by (nonlinear_arith);
        lemma_rounded_at_least(neg, m * f, o, 0);
        if is_beyond(delta, neg, exp2(e)) {
            assert(3 * x <= m);
            let h = exp2(e - 1);
            let y = exp2(125);
            lemma_exp2_add(24, 125);
            vstd::arithmetic::power2::lemma2_to64();
            assert(exp2(24) == 0x100_0000);
            assert(h * o <= m * f) by (nonlinear_arith)
                requires
                    3 * x <= m,
                    11184811 * y <= f,
                    h == 2 * x,
                    o == 0x100_0000 * y,
                    1 <= x,
                    1 <= y,
            ;
            assert(1 * h == h);
            lemma_rounded_at_least(neg, m * f, o, h);
        }
    }
}

/// The smallest scroll that is sure to move the zoom: one part in 2^18.
pub open spec fn least_scroll() -> Value<false> {
    Value::ratio(1, 0x4_0000)
}

/// The smallest scroll is a number of the format, above zero.
pub proof fn law_least_scroll()
    ensures
        least_scroll() == (Value::<false>::Finite { neg: false, mag: exp2(131) }),
        0 < exp2(131),
{
    let u = exp2(131);
    lemma_exp2_pos(131);
    lemma_small(1, 131);
    assert(1 * u == u);
    lemma_exp2_add(18, 131);
    vstd::arithmetic::power2::lemma2_to64();
    assert(exp2(18) == 0x4_0000);
    Value::<false>::lemma_rounded_scale(false, u, 1, 0x4_0000);
    assert(1 * exp2(149) == u * 0x4_0000) by (nonlinear_arith)
        requires
            exp2(149) == exp2(18) * u,
            exp2(18) == 0x4_0000,
    ;
    lemma_single_exact(u, false);
}

/// Wheel forward zooms in and wheel backward zooms out: every scroll that leads
/// off the level moves it that way, and so does every scroll of at least one
/// part in 2^18 unless the level is at the limit.
pub proof fn law_wheel_zooms(level: int, delta: Value<false>)
    requires
        MIN_ZOOM <= level <= MAX_ZOOM,
        is_finite(delta) || delta is Infinite,
    ensures
        single(level).below(zoom_target(level, delta)) ==> level < zoomed(level, delta),
        zoom_target(level, delta).below(single(level)) ==> zoomed(level, delta) < level,
        single(0).below(delta) ==> level <= zoomed(level, delta),
        delta.below(single(0)) ==> zoomed(level, delta) <= level,
        delta.at_least(least_scroll()) && level < MAX_ZOOM ==> level < zoomed(level, delta),
        least_scroll().negated().at_least(delta) && MIN_ZOOM < level ==> zoomed(level, delta)
            < level,
{
    let o = exp2(149);
    let least = exp2(131);
    lemma_exp2_pos(149);
    lemma_exp2_pos(131);
    lemma_whole(0);
    lemma_whole(level);
    lemma_whole(MIN_ZOOM as int);
    lemma_whole(MAX_ZOOM as int);
    lemma_whole_order(level, MAX_ZOOM as int);
    lemma_whole_order(MIN_ZOOM as int, level);
    law_least_scroll();
    assert(whole(0) == 0) by (nonlinear_arith)
        requires
            whole(0) == 0 * o,
    ;
    let step = zoom_step(level, delta);
    let target = zoom_target(level, delta);
    let neg = delta.below(single(0));
    if neg || single(0).below(delta) {
        assert(is_beyond(delta, neg, 1));
        lemma_step_sign(level, delta, neg, 131);
        lemma_sum_beyond(single(level), step, neg, 0, whole(level));
        assert(!(target is Nan));
        if is_beyond(delta, neg, least) {
            let h = exp2(130);
            let next = if neg {
                0x8_0000 * level - 1
            } else {
                0x8_0000 * level + 1
            };
            lemma_small(next, 130);
            lemma_exp2_add(19, 130);
            vstd::arithmetic::power2::lemma2_to64();
            assert(exp2(19) == 0x8_0000);
            lemma_exp2_pos(130);
            assert(next * h == if neg {
                whole(level) - h
            } else {
                whole(level) + h
            }) by (nonlinear_arith)
                requires
                    whole(level) == level * o,
                    o == 0x8_0000 * h,
                    next == if neg {
                        0x8_0000 * level - 1
                    } else {
                        0x8_0000 * level + 1
                    },
            ;
            lemma_sum_beyond(single(level), step, neg, h, next * h);
        }
        assert((2 * level - 1) * o == 2 * whole(level) - o && (2 * level + 1) * o == 2 * whole(
            level,
        ) + o) by (nonlinear_arith)
            requires
                whole(level) == level * o,
        ;
        lemma_nearest_level(target, level);
    } else {
        lemma_no_scroll(level, delta);
    }
}

/// A scroll of zero leads nowhere.
proof fn lemma_no_scroll(level: int, delta: Value<false>)
    requires
        MIN_ZOOM <= level <= MAX_ZOOM,
        is_finite(delta),
        delta.units() == 0,
    ensures
        zoom_target(level, delta).units() == whole(level),
        zoom_target(level, delta) is Finite,
{
    let o = exp2(149);
    lemma_exp2_pos(149);
    lemma_whole(level);
    lemma_whole(MIN_ZOOM as int);
    lemma_whole(MAX_ZOOM as int);
    lemma_whole_order(level, MAX_ZOOM as int);
    lemma_whole_order(MAX_ZOOM as int, level);
    lemma_whole_order(level, MIN_ZOOM as int);
    lemma_three_quarters();
    lemma_step_factor(level);
    lemma_small(0, 0);
    lemma_exp2_pos(0);
    assert(0 * exp2(0) == 0) by (nonlinear_arith);
    let q = single(16).over(single(level))->Finite_mag;
    let tq = 3 * exp2(147);
    let m = delta->Finite_mag;
    assert(m * tq == 0) by (nonlinear_arith)
        requires
            m == 0,
    ;
    assert(0 * o == 0) by (nonlinear_arith);
    lemma_rounded_at_most(delta->Finite_neg, 0, o, 0);
    let first = delta.times(Value::ratio(3, 4));
    assert(first->Finite_mag == 0);
    let f = first->Finite_mag;
    assert(f * q == 0) by (nonlinear_arith)
        requires
            f == 0,
    ;
    let step = zoom_step(level, delta);
    assert(is_finite(step) && step.units() == 0);
    law_sum_stays_between(single(level), step, whole(level), whole(level));
}

/// The step shrinks as the zoom rises, so that high magnification gives finer
/// control.
pub proof fn law_step_shrinks(delta: Value<false>, low: int, high: int)
    requires
        MIN_ZOOM <= low <= high <= MAX_ZOOM,
        is_finite(delta),
        !delta.below(single(0)),
    ensures
        !zoom_step(low, delta).below(zoom_step(high, delta)),
{
    let o = exp2(149);
    lemma_exp2_pos(149);
    lemma_whole(0);
    lemma_whole(16);
    lemma_whole(low);
    lemma_whole(high);
    lemma_step_factor(low);
    lemma_step_factor(high);
    let (a, b) = (single(16).over(single(low)), single(16).over(single(high)));
    let n = 16 * o * o;
    assert(0 <= n && 0 < low * o && 0 < high * o && n * (low * o) <= n * (high * o))
        by (nonlinear_arith)
        requires
            n == 16 * o * o,
            8 <= low <= high,
            1 <= o,
    ;
    law_round_keeps_order(24, n, high * o, n, low * o);
    assert(b->Finite_mag <= a->Finite_mag);
    lemma_three_quarters();
    lemma_exp2_pos(147);
    lemma_exp2_succ(147);
    lemma_exp2_succ(148);
    let tq = 3 * exp2(147);
    let m = delta->Finite_mag;
    assert(0 <= m * tq && m * tq <= m * o) by (nonlinear_arith)
        requires
            0 <= m,
            0 <= tq <= o,
    ;
    assert(is_single(m));
    lemma_rounded_at_most(delta->Finite_neg, m * tq, o, m);
    let first = delta.times(Value::ratio(3, 4));
    let f = first->Finite_mag;
    let (x, y) = (f * a->Finite_mag, f * b->Finite_mag);
    let (fa, fb) = (a->Finite_mag, b->Finite_mag);
    assert(0 <= y * o <= x * o) by (nonlinear_arith)
        requires
            y == f * fb,
            x == f * fa,
            0 <= f,
            0 <= fb <= fa,
            1 <= o,
    ;
    assert(0 <= y && 0 <= x) by (nonlinear_arith)
        requires
            y == f * fb,
            x == f * fa,
            0 <= f,
            0 <= fb <= fa,
    ;
    law_round_keeps_order(24, y, o, x, o);
    assert(whole(0) == 0) by (nonlinear_arith)
        requires
            whole(0) == 0 * o,
    ;
    if delta->Finite_neg {
        assert(m == 0);
        assert(f == 0);
        assert(x == 0 && y == 0) by (nonlinear_arith)
            requires
                x == f * fa,
                y == f * fb,
                f == 0,
        ;
    }
}

/// How far the three roundings of a step lead, in units: `m` is the size of the
/// scroll, `f` three quarters of it, `q` sixteen over the level, `g` the step.
proof fn lemma_step_error(level: int, m: int, f: int, q: int, g: int, o: int, p: int)
    requires
        8 <= level <= 24,
        0 <= m,
        0 <= f,
        0 <= q,
        p == 0x100_0000,
        0x1_0000_0000 <= o,
        abs(4 * f - 3 * m) * p <= 3 * m + 4 * p,
        abs(q * level - 16 * o) * p <= 16 * o + level * p,
        abs(g * o - f * q) * p <= f * q + o * p,
    ensures
        abs(g * level - 12 * m) * p <= 47 * m + 41 * p,
{
    let e1 = 4 * f - 3 * m;
    let e2 = q * level - 16 * o;
    let e3 = g * o - f * q;
    let fq = f * q;
    assert(f <= m + 1);
    assert(abs(e2) <= o);
    assert(fq * level == 16 * (f * o) + f * e2) by (nonlinear_arith)
        requires
            fq == f * q,
            e2 == q * level - 16 * o,
    ;
    let fe = f * e2;
    assert(abs(fe) * p <= 16 * (f * o) + 24 * (f * p)) by (nonlinear_arith)
        requires
            fe == f * e2,
            abs(e2) * p <= 16 * o + level * p,
            0 <= f,
            level <= 24,
            0 <= p,
    ;
    assert(abs(fe) <= f * o) by (nonlinear_arith)
        requires
            fe == f * e2,
            abs(e2) <= o,
            0 <= f,
    ;
    let y = (g * level - 12 * m) * o;
    assert(y == 4 * (e1 * o) + fe + level * e3) by (nonlinear_arith)
        requires
            y == (g * level - 12 * m) * o,
            e1 == 4 * f - 3 * m,
            e3 == g * o - fq,
            fq * level == 16 * (f * o) + fe,
    ;
    let eo = e1 * o;
    assert(abs(eo) * p <= 3 * (m * o) + 4 * (o * p)) by (nonlinear_arith)
        requires
            eo == e1 * o,
            abs(e1) * p <= 3 * m + 4 * p,
            1 <= o,
    ;
    let le = level * e3;
    assert(abs(le) * p <= fq * level + 24 * (o * p)) by (nonlinear_arith)
        requires
            le == level * e3,
            abs(e3) * p <= fq + o * p,
            8 <= level <= 24,
            0 <= o,
            0 <= p,
    ;
    assert(abs(y) * p <= 4 * (abs(eo) * p) + abs(fe) * p + abs(le) * p) by (nonlinear_arith)
        requires
            abs(y) <= 4 * abs(eo) + abs(fe) + abs(le),
            0 <= p,
    ;
    let fo = f * o;
    let mo = m * o;
    assert(fo <= mo + o && f * p <= fo && 0 <= fo) by (nonlinear_arith)
        requires
            fo == f * o,
            mo == m * o,
            0 <= f <= m + 1,
            0 <= p <= o,
    ;
    assert(24 * (f * p) <= fo) by (nonlinear_arith)
        requires
            fo == f * o,
            0 <= f,
            24 * p <= o,
    ;
    assert(abs(y) * p <= 47 * mo + 41 * (o * p));
    let w = abs(g * level - 12 * m) as int;
    assert(w * p <= 47 * m + 41 * p) by (nonlinear_arith)
        requires
            abs(y) * p <= 47 * mo + 41 * (o * p),
            y == (g * level - 12 * m) * o,
            w == abs(g * level - 12 * m),
            mo == m * o,
            1 <= o,
    ;
}

/// The step of a scroll of at most 128 is a number of the format, near to twelve
/// times the scroll over the level.
proof fn lemma_step_near(level: int, delta: Value<false>)
    requires
        MIN_ZOOM <= level <= MAX_ZOOM,
        is_finite(delta),
        delta->Finite_mag <= whole(128),
    ensures
        ({
            let step = zoom_step(level, delta);
            &&& is_finite(step)
            &&& step->Finite_neg == delta->Finite_neg
            &&& step->Finite_mag <= whole(256)
            &&& abs(step->Finite_mag * level - 12 * delta->Finite_mag) * 0x800 <= exp2(149)
        }),
{
    let o = exp2(149);
    let p = exp2(24);
    let e = exp2(147);
    let m = delta->Finite_mag;
    let neg = delta->Finite_neg;
    lemma_exp2_pos(147);
    lemma_exp2_pos(149);
    lemma_exp2_succ(147);
    lemma_exp2_succ(148);
    lemma_exp2_le(60, 149);
    vstd::arithmetic::power2::lemma2_to64();
    vstd::arithmetic::power2::lemma2_to64_rest();
    assert(p == 0x100_0000);
    assert(exp2(60) == 0x1000_0000_0000_0000);
    lemma_three_quarters();
    lemma_step_factor(level);
    lemma_whole(128);
    lemma_whole(256);
    lemma_whole(16);
    lemma_whole(level);
    // Three quarters of the scroll.
    let tq = 3 * e;
    let n1 = m * tq;
    assert(0 <= n1 && n1 <= m * o) by (nonlinear_arith)
        requires
            n1 == m * tq,
            0 <= m,
            0 <= tq <= o,
    ;
    let f = round_bits(24, n1, o);
    lemma_rounded_at_most(neg, n1, o, m);
    lemma_round_error(24, n1, o);
    lemma_error_both(f, n1, o, p);
    assert(abs(4 * f - 3 * m) * p <= 3 * m + 4 * p) by (nonlinear_arith)
        requires
            abs(f * o - n1) * p <= n1 + o * p,
            n1 == m * (3 * e),
            o == 4 * e,
            1 <= e,
    ;
    let first = delta.times(Value::ratio(3, 4));
    assert(first == (Value::<false>::Finite { neg, mag: f }));
    // Sixteen over the level.
    let n2 = (16 * o) * o;
    let d2 = level * o;
    assert(0 < d2 && 0 <= n2) by (nonlinear_arith)
        requires
            n2 == (16 * o) * o,
            d2 == level * o,
            8 <= level,
            1 <= o,
    ;
    let q = round_bits(24, n2, d2);
    lemma_round_error(24, n2, d2);
    lemma_error_both(q, n2, d2, p);
    assert(abs(q * level - 16 * o) * p <= 16 * o + level * p) by (nonlinear_arith)
        requires
            abs(q * d2 - n2) * p <= n2 + d2 * p,
            n2 == (16 * o) * o,
            d2 == level * o,
            1 <= o,
    ;
    let quot = single(16).over(single(level));
    assert(quot == (Value::<false>::Finite { neg: false, mag: q }));
    // The step.
    let n3 = f * q;
    assert(0 <= n3 && n3 <= whole(256) * o) by (nonlinear_arith)
        requires
            n3 == f * q,
            0 <= f <= whole(128),
            0 <= q <= whole(2),
            whole(128) == 128 * o,
            whole(256) == 256 * o,
            whole(2) == 2 * o,
    ;
    let g = round_bits(24, n3, o);
    lemma_rounded_at_most(neg, n3, o, whole(256));
    lemma_round_error(24, n3, o);
    lemma_error_both(g, n3, o, p);
    lemma_step_error(level, m, f, q, g, o, p);
}

/// A scroll beyond 128 leads out of the levels.
proof fn lemma_far_scroll(level: int, delta: Value<false>)
    requires
        MIN_ZOOM <= level <= MAX_ZOOM,
        is_finite(delta),
        whole(128) <= delta->Finite_mag,
    ensures
        zoom_target(level, delta) == single(
            if delta->Finite_neg {
                8
            } else {
                24
            },
        ),
{
    let o = exp2(149);
    let m = delta->Finite_mag;
    let neg = delta->Finite_neg;
    lemma_exp2_pos(147);
    lemma_exp2_pos(149);
    lemma_exp2_pos(125);
    lemma_exp2_succ(147);
    lemma_exp2_succ(148);
    lemma_exp2_add(24, 125);
    vstd::arithmetic::power2::lemma2_to64();
    assert(exp2(24) == 0x100_0000);
    lemma_three_quarters();
    lemma_step_factor(level);
    lemma_whole(96);
    lemma_whole(32);
    lemma_whole(8);
    lemma_whole(24);
    lemma_whole(level);
    lemma_whole(level + 32);
    lemma_whole(level - 32);
    let tq = 3 * exp2(147);
    let n1 = m * tq;
    assert(0 <= n1 && n1 <= m * o && whole(96) * o <= n1) by (nonlinear_arith)
        requires
            n1 == m * tq,
            tq == 3 * exp2(147),
            o == 4 * exp2(147),
            128 * o <= m,
            whole(96) == 96 * o,
            1 <= o,
            0 <= tq,
    ;
    lemma_rounded_at_most(neg, n1, o, m);
    assert(abs(whole(96)) == whole(96) && 0 <= whole(96)) by (nonlinear_arith)
        requires
            whole(96) == 96 * o,
            1 <= o,
    ;
    lemma_rounded_at_least(neg, n1, o, whole(96));
    let first = delta.times(Value::ratio(3, 4));
    let f = first->Finite_mag;
    let q = single(16).over(single(level))->Finite_mag;
    let n2 = f * q;
    let y = exp2(125);
    assert(whole(32) * o <= n2 && 0 <= n2 && 0 <= whole(32)) by (nonlinear_arith)
        requires
            n2 == f * q,
            96 * o <= f,
            11184811 * y <= q,
            o == 0x100_0000 * y,
            whole(32) == 32 * o,
            1 <= y,
    ;
    lemma_rounded_at_least(neg, n2, o, whole(32));
    let step = zoom_step(level, delta);
    let bound = if neg {
        whole(level - 32)
    } else {
        whole(level + 32)
    };
    assert(bound == if neg {
        whole(level) - whole(32)
    } else {
        whole(level) + whole(32)
    }) by (nonlinear_arith)
        requires
            bound == if neg {
                (level - 32) * o
            } else {
                (level + 32) * o
            },
            whole(level) == level * o,
            whole(32) == 32 * o,
    ;
    lemma_sum_beyond(single(level), step, neg, whole(32), bound);
    lemma_whole_order(24, level + 32);
    lemma_whole_order(level - 32, 8);
}

/// The zoom follows the scroll: the new level is at most one from the exact one,
/// which is the old level and twelve times the scroll over the level, kept from 8
/// to 24. Unless it is next to the old level, it is the whole number nearest to
/// the exact one, up to one part in 2^12 half-way between two.
pub proof fn law_zoom_follows_scroll(level: int, delta: Value<false>)
    requires
        MIN_ZOOM <= level <= MAX_ZOOM,
        is_finite(delta),
    ensures
        ({
            // All of them times the level, in units.
            let exact = whole(level * level) + 12 * delta.units();
            let kept = max(whole(8 * level), min(exact, whole(24 * level)));
            let off = abs(whole(zoomed(level, delta) * level) - kept);
            &&& off <= whole(level)
            &&& zoomed(level, delta) == level + 1 || zoomed(level, delta) == level - 1 || 2 * off
                * 0x1000 <= whole(level) * 0x1001
        }),
{
    let o = exp2(149);
    let u = delta.units();
    let m = delta->Finite_mag;
    let n = zoomed(level, delta);
    let target = zoom_target(level, delta);
    let t = target.units();
    let sq = level * level;
    let exact = whole(sq) + 12 * u;
    let kept = max(whole(8 * level), min(exact, whole(24 * level)));
    lemma_exp2_pos(149);
    lemma_whole(0);
    lemma_whole(8);
    lemma_whole(24);
    lemma_whole(level);
    lemma_whole_order(level, 24);
    lemma_whole_order(24, level);
    lemma_whole_order(level, 8);
    lemma_levels(level, n, t, o);
    assert(whole(0) == 0) by (nonlinear_arith)
        requires
            whole(0) == 0 * o,
    ;
    // Where the step leads.
    if m <= whole(128) {
        lemma_target_near(level, delta);
    } else {
        lemma_far_scroll(level, delta);
        lemma_far_exact(level, u, o);
    }
    let w = whole(level);
    if m > whole(128) {
        assert((8 * o) * level == 8 * w && (24 * o) * level == 24 * w) by (nonlinear_arith)
            requires
                w == level * o,
        ;
    }
    assert(abs(t * level - kept) * 0x2000 <= w);
    // The whole number there.
    lemma_nearest_level(target, level);
    lemma_nearest_half(target);
    law_wheel_zooms(level, delta);
    let near = if delta.below(single(0)) {
        target.nearest_down()
    } else {
        target.nearest()
    };
    assert(2 * abs(near * w - t * level) <= w) by (nonlinear_arith)
        requires
            2 * abs(near * o - t) <= o,
            w == level * o,
            8 <= level,
    ;
    if n == level + 1 {
        assert(n * w == level * w + w) by (nonlinear_arith)
            requires
                n == level + 1,
        ;
        assert(near <= n);
        assert(near * w <= n * w) by (nonlinear_arith)
            requires
                near <= n,
                0 < w,
        ;
    } else if n == level - 1 {
        assert(n * w == level * w - w) by (nonlinear_arith)
            requires
                n == level - 1,
        ;
        assert(near * w >= n * w) by (nonlinear_arith)
            requires
                near >= n,
                0 < w,
        ;
    }
}

/// Levels and their products in units.
proof fn lemma_levels(level: int, n: int, t: int, o: int)
    requires
        o == exp2(149),
        8 <= level <= 24,
    ensures
        whole(8 * level) == 8 * whole(level),
        whole(24 * level) == 24 * whole(level),
        whole(level * level) == level * whole(level),
        whole(n * level) == n * whole(level),
        whole((level + 1) * level) == whole(level * level) + whole(level),
        whole((level - 1) * level) == whole(level * level) - whole(level),
        8 * whole(level) <= whole(level * level) <= 24 * whole(level),
        0 < whole(level),
{
    lemma_exp2_pos(149);
    assert((8 * level) * o == 8 * (level * o) && (24 * level) * o == 24 * (level * o)
        && (level * level) * o == level * (level * o) && (n * level) * o == n * (level * o)
        && ((level + 1) * level) * o == (level * level) * o + level * o
        && ((level - 1) * level) * o == (level * level) * o - level * o
        && 8 * (level * o) <= (level * level) * o && (level * level) * o <= 24 * (level * o)
        && 0 < level * o) by (nonlinear_arith)
        requires
            8 <= level <= 24,
            1 <= o,
    ;
}

/// A scroll far out of the levels is so exactly too.
proof fn lemma_far_exact(level: int, u: int, o: int)
    requires
        8 <= level <= 24,
        o == exp2(149),
        abs(u) > whole(128),
    ensures
        u > 0 ==> whole(level * level) + 12 * u >= 24 * whole(level),
        u < 0 ==> whole(level * level) + 12 * u <= 8 * whole(level),
{
    lemma_exp2_pos(149);
    assert(whole(level * level) <= 576 * o && 24 * whole(level) <= 576 * o && 0 <= whole(
        level * level,
    ) && 0 <= whole(level)) by (nonlinear_arith)
        requires
            whole(level * level) == (level * level) * o,
            whole(level) == level * o,
            8 <= level <= 24,
            1 <= o,
    ;
    assert(whole(128) == 128 * o);
}

/// The whole number nearest to a level is within half.
proof fn lemma_nearest_half(v: Value<false>)
    requires
        v is Finite,
        !v->Finite_neg,
        whole(MIN_ZOOM as int) <= v.units() <= whole(MAX_ZOOM as int),
    ensures
        2 * abs(whole(v.nearest()) - v.units()) <= exp2(149),
        2 * abs(whole(v.nearest_down()) - v.units()) <= exp2(149),
{
    let o = exp2(149);
    let m = v.units();
    lemma_exp2_pos(149);
    lemma_nearest_level(v, 8);
    let a = (2 * m + o) / (2 * o);
    let b = (2 * m + o - 1) / (2 * o);
    let ra = (2 * m + o) % (2 * o);
    let rb = (2 * m + o - 1) % (2 * o);
    vstd::arithmetic::div_mod::lemma_fundamental_div_mod(2 * m + o, 2 * o);
    vstd::arithmetic::div_mod::lemma_fundamental_div_mod(2 * m + o - 1, 2 * o);
    assert(a <= 24) by (nonlinear_arith)
        requires
            2 * m + o == (2 * o) * a + ra,
            0 <= ra,
            m <= 24 * o,
            1 <= o,
    ;
    assert(b <= 24) by (nonlinear_arith)
        requires
            2 * m + o - 1 == (2 * o) * b + rb,
            0 <= rb,
            m <= 24 * o,
            1 <= o,
    ;
    assert(2 * (a * o) == 2 * m + o - ra && 2 * (b * o) == 2 * m + o - 1 - rb) by (nonlinear_arith)
        requires
            2 * m + o == (2 * o) * a + ra,
            2 * m + o - 1 == (2 * o) * b + rb,
    ;
}

/// Where a scroll of at most 128 leads is near to where it leads exactly.
proof fn lemma_target_near(level: int, delta: Value<false>)
    requires
        MIN_ZOOM <= level <= MAX_ZOOM,
        is_finite(delta),
        delta->Finite_mag <= whole(128),
    ensures
        ({
            let target = zoom_target(level, delta);
            let exact = whole(level * level) + 12 * delta.units();
            let kept = max(8 * whole(level), min(exact, 24 * whole(level)));
            &&& target is Finite
            &&& !target->Finite_neg
            &&& abs(target.units() * level - kept) * 0x2000 <= whole(level)
        }),
{
    let o = exp2(149);
    let p = exp2(24);
    let step = zoom_step(level, delta);
    let s = step.units();
    lemma_step_near(level, delta);
    lemma_exp2_pos(149);
    lemma_exp2_le(60, 149);
    vstd::arithmetic::power2::lemma2_to64();
    vstd::arithmetic::power2::lemma2_to64_rest();
    assert(p == 0x100_0000);
    assert(exp2(60) == 0x1000_0000_0000_0000);
    lemma_whole(level);
    lemma_whole(8);
    lemma_whole(24);
    lemma_whole(-300);
    lemma_whole(300);
    let sum = whole(level) + s;
    let mag = step->Finite_mag;
    assert(s * level == if step->Finite_neg {
        -(mag * level)
    } else {
        mag * level
    }) by (nonlinear_arith)
        requires
            s == if step->Finite_neg {
                -mag
            } else {
                mag
            },
    ;
    assert(abs(s * level - 12 * delta.units()) * 0x800 <= o);
    assert(whole(level) <= 24 * o && 0 <= whole(level) && whole(256) == 256 * o && whole(300)
        == 300 * o && whole(-300) == -300 * o && whole(8) == 8 * o && whole(24) == 24 * o)
        by (nonlinear_arith)
        requires
            whole(level) == level * o,
            whole(256) == 256 * o,
            whole(300) == 300 * o,
            whole(-300) == (-300) * o,
            whole(8) == 8 * o,
            whole(24) == 24 * o,
            8 <= level <= 24,
            1 <= o,
    ;
    law_sum_stays_between(single(level), step, whole(-300), whole(300));
    let r = single(level).plus(step);
    let t = r.units();
    // The sum, rounded.
    if sum != 0 {
        let n = abs(sum) as int;
        let k = round_bits(24, n, 1);
        lemma_round_error(24, n, 1);
        lemma_error_both(k, n, 1, p);
        lemma_round_nonnegative(24, n, 1);
        assert(k * 1 == k);
        assert(abs(k - n) * p <= n + p);
    }
    assert(abs(t - sum) * p <= abs(sum) + p);
    assert(abs(t - sum) * 0x8000 <= o);
    let exact = whole(level * level) + 12 * delta.units();
    assert(sum * level - exact == s * level - 12 * delta.units()) by (nonlinear_arith)
        requires
            sum == level * o + s,
            exact == (level * level) * o + 12 * delta.units(),
    ;
    let w = whole(level);
    let off = t - sum;
    assert(t * level - sum * level == off * level) by (nonlinear_arith)
        requires
            off == t - sum,
    ;
    assert(abs(off * level) * 0x8000 <= w) by (nonlinear_arith)
        requires
            abs(off) * 0x8000 <= o,
            w == level * o,
            8 <= level,
    ;
    assert(8 * o <= w) by (nonlinear_arith)
        requires
            w == level * o,
            8 <= level,
            1 <= o,
    ;
    assert(abs(t * level - exact) * 0x2000 <= w);
    // Keeping both within the levels brings them no further apart.
    let target = zoom_target(level, delta);
    assert(target.units() == max(8 * o, min(t, 24 * o)));
    assert(8 * o * level == 8 * w && 24 * o * level == 24 * w && (t < 8 * o ==> t * level <= 8 * w)
        && (t >= 8 * o ==> t * level >= 8 * w) && (t <= 24 * o ==> t * level <= 24 * w) && (t > 24
        * o ==> t * level >= 24 * w)) by (nonlinear_arith)
        requires
            w == level * o,
            8 <= level,
            1 <= o,
    ;
}

/// An endless scroll goes to the limit, and one that is no number goes nowhere.
pub proof fn law_extreme_scrolls(level: int, delta: Value<false>)
    requires
        MIN_ZOOM <= level <= MAX_ZOOM,
    ensures
        delta matches Value::Infinite { neg } ==> zoomed(level, delta) == if neg {
            8int
        } else {
            24
        },
        delta is Nan ==> zoomed(level, delta) == level,
{
    let o = exp2(149);
    lemma_exp2_pos(149);
    lemma_exp2_pos(147);
    lemma_three_quarters();
    lemma_step_factor(level);
    lemma_exp2_pos(125);
    lemma_whole(8);
    lemma_whole(24);
    lemma_whole(level);
    lemma_whole_order(level, 24);
    lemma_whole_order(24, level);
    lemma_whole_order(level, 8);
    lemma_whole_order(8, level);
    lemma_nearest_half(single(8));
    lemma_nearest_half(single(24));
    lemma_nearest_level(single(8), 8);
    lemma_nearest_level(single(24), 24);
    assert((2 * 24 - 1) * o <= 2 * whole(24) && 2 * whole(8) <= (2 * 8 + 1) * o) by (nonlinear_arith)
        requires
            whole(24) == 24 * o,
            whole(8) == 8 * o,
            1 <= o,
    ;
}

/// A number of the format near a level is a multiple of one part in 2^21.
proof fn lemma_near_level(r: int) -> (k: int)
    requires
        is_single(r),
        whole(4) <= r,
    ensures
        r == k * exp2(128),
{
    let (m, t) = choose|m: int, t: int| is_mantissa(24, abs(r) as int, m, t);
    let e = exp2(128);
    lemma_exp2_pos(t);
    lemma_exp2_pos(149);
    lemma_exp2_add(2, 149);
    vstd::arithmetic::power2::lemma2_to64();
    assert(exp2(2) == 4 && exp2(24) == 0x100_0000);
    assert(0 <= r) by (nonlinear_arith)
        requires
            4 * exp2(149) <= r,
            1 <= exp2(149),
    ;
    if t < 128 {
        lemma_exp2_le(t, 127);
        lemma_exp2_add(24, 127);
        assert(m * exp2(t) < exp2(151)) by (nonlinear_arith)
            requires
                0 <= m < exp2(24),
                1 <= exp2(t) <= exp2(127),
                exp2(151) == exp2(24) * exp2(127),
        ;
        assert(false);
    }
    lemma_exp2_add(t - 128, 128);
    let k = m * exp2(t - 128);
    assert(m * exp2(t) == k * e) by (nonlinear_arith)
        requires
            k == m * exp2(t - 128),
            exp2(t) == exp2(t - 128) * e,
    ;
    k
}

/// A scroll below one part in 2^23 is too small to move the zoom.
pub proof fn law_tiny_scroll_stays(level: int, delta: Value<false>)
    requires
        MIN_ZOOM <= level <= MAX_ZOOM,
        is_finite(delta),
        abs(delta.units()) < exp2(126),
    ensures
        zoomed(level, delta) == level,
{
    let o = exp2(149);
    let e = exp2(128);
    let m = delta->Finite_mag;
    let neg = delta->Finite_neg;
    lemma_exp2_pos(126);
    lemma_exp2_pos(147);
    lemma_exp2_pos(149);
    lemma_exp2_succ(126);
    lemma_exp2_succ(127);
    lemma_exp2_succ(147);
    lemma_exp2_succ(148);
    lemma_exp2_add(21, 128);
    vstd::arithmetic::power2::lemma2_to64();
    assert(exp2(21) == 0x20_0000);
    lemma_three_quarters();
    lemma_step_factor(level);
    lemma_whole(level);
    lemma_whole(8);
    lemma_whole(24);
    lemma_whole(4);
    lemma_whole(25);
    // The step is at most twice the scroll.
    let tq = 3 * exp2(147);
    let n1 = m * tq;
    assert(0 <= n1 && n1 <= m * o) by (nonlinear_arith)
        requires
            n1 == m * tq,
            0 <= m,
            0 <= tq <= o,
    ;
    lemma_rounded_at_most(neg, n1, o, m);
    let f = delta.times(Value::ratio(3, 4))->Finite_mag;
    let q = single(16).over(single(level))->Finite_mag;
    lemma_exp2_pos(125);
    let n2 = f * q;
    assert(0 <= n2 && n2 <= (2 * m) * o) by (nonlinear_arith)
        requires
            n2 == f * q,
            0 <= f <= m,
            0 <= q <= 2 * o,
            1 <= o,
    ;
    lemma_double_is_single(m);
    lemma_rounded_at_most(neg, n2, o, 2 * m);
    let step = zoom_step(level, delta);
    let g = step.units();
    assert(abs(g) < exp2(127));
    // The sum with the level is rounded to the level.
    let w = whole(level);
    assert(4 * o <= w - o && w + o <= 25 * o && w == (0x20_0000 * level) * e && e <= o)
        by (nonlinear_arith)
        requires
            w == level * o,
            o == 0x20_0000 * e,
            8 <= level <= 24,
            1 <= o,
            0 <= e,
    ;
    law_sum_stays_between(single(level), step, whole(4), whole(25));
    let r = single(level).plus(step);
    let k = lemma_near_level(r.units());
    law_sum_is_nearest(single(level), step, w);
    let l = 0x20_0000 * level;
    assert(k == l) by (nonlinear_arith)
        requires
            abs(k * e - l * e) < e,
            1 <= e,
    ;
    lemma_whole_order(8, level);
    lemma_whole_order(level, 8);
    lemma_whole_order(24, level);
    lemma_whole_order(level, 24);
    let target = zoom_target(level, delta);
    assert(target.units() == w && target is Finite && !target->Finite_neg);
    lemma_nearest_half(target);
    lemma_nearest_level(target, level);
    let (a, b) = (target.nearest(), target.nearest_down());
    assert(a == level && b == level) by (nonlinear_arith)
        requires
            2 * abs(a * o - level * o) <= o,
            2 * abs(b * o - level * o) <= o,
            1 <= o,
    ;
}

/// Twice a small number of the format is one too.
proof fn lemma_double_is_single(m: int)
    requires
        is_single(m),
        0 <= m < exp2(126),
    ensures
        is_single(2 * m),
{
    let (a, t) = choose|a: int, t: int| is_mantissa(24, abs(m) as int, a, t);
    lemma_exp2_succ(t);
    lemma_exp2_succ(126);
    lemma_exp2_lt(127, 277);
    assert(a * exp2(t + 1) == 2 * (a * exp2(t))) by (nonlinear_arith)
        requires
            exp2(t + 1) == 2 * exp2(t),
    ;
    assert(is_mantissa(24, 2 * m, a, t + 1));
}

} // verus!
