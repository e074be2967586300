//! How far double-precision results can be from the exact ones.
//!
//! An error is counted in steps: one rounding of a number below 512 is off by
//! no more than one step.

use crate::float::Value;
use crate::picker::color::double;
use crate::rounding::{
    exp2, half_even, lemma_exp2_add, lemma_exp2_lt, lemma_exp2_pos, lemma_exp2_succ,
    lemma_half_even_near, lemma_round_error, lemma_round_exact, lemma_round_nonnegative, round_bits,
};
use vstd::math::abs;
use vstd::prelude::*;

verus! {

/// An error of one step, in units.
pub open spec fn step() -> int {
    exp2(1030)
}

/// The number one, in units.
pub open spec fn one() -> int {
    exp2(1074)
}

/// Whether a number is at most `e` steps from the fraction `n / d`.
pub open spec fn near(v: Value<true>, n: int, d: int, e: int) -> bool {
    &&& v is Finite
    &&& 0 <= v->Finite_mag
    &&& 0 < d
    &&& abs(v.units() * d - n * one()) <= e * step() * d
}

/// The number one in steps.
pub proof fn lemma_steps()
    ensures
        step() > 0,
        one() == 0x1000_0000_0000 * step(),
        one() == Value::<true>::one(),
{
    lemma_exp2_pos(1030);
    lemma_exp2_add(44, 1030);
    vstd::arithmetic::power2::lemma2_to64_rest();
    assert(exp2(44) == 0x1000_0000_0000);
}

/// A number below 512 is rounded by at most one step.
proof fn lemma_rounded(neg: bool, n: int, d: int)
    requires
        0 <= n,
        0 < d,
        n < 512 * one() * d,
    ensures
        ({
            let v = Value::<true>::rounded(neg, n, d);
            &&& v is Finite
            &&& v->Finite_neg == neg
            &&& 0 <= v->Finite_mag
            &&& abs(v->Finite_mag * d - n) <= step() * d
        }),
{
    let mag = round_bits(53, n, d);
    let p = exp2(53);
    let s = step();
    let off = abs(mag * d - n) as int;
    lemma_steps();
    lemma_round_error(53, n, d);
    lemma_exp2_pos(53);
    lemma_exp2_add(53, 1030);
    lemma_exp2_add(9, 1074);
    vstd::arithmetic::power2::lemma2_to64();
    assert(exp2(9) == 512);
    assert(p * s == 512 * one());
    if d * p <= n {
        assert(off <= s * d) by (nonlinear_arith)
            requires
                off * p <= n,
                n < 512 * one() * d,
                p * s == 512 * one(),
                p >= 1,
        ;
    } else {
        assert(off <= s * d) by (nonlinear_arith)
            requires
                2 * off <= d,
                s >= 1,
                d > 0,
        ;
    }
    lemma_exp2_lt(1084, 2098);
    lemma_exp2_succ(1083);
    lemma_exp2_lt(1030, 1083);
    assert(mag < exp2(1084)) by (nonlinear_arith)
        requires
            mag * d - n <= s * d,
            n < 512 * one() * d,
            512 * one() == exp2(1083),
            s < exp2(1083),
            exp2(1084) == 2 * exp2(1083),
            d > 0,
    ;
    lemma_round_nonnegative(53, n, d);
}

/// Whole numbers below 2^53 are exact.
pub proof fn lemma_double_whole(n: int)
    requires
        0 <= n < 0x20_0000_0000_0000,
    ensures
        double(n) == (Value::<true>::Finite { neg: false, mag: n * one() }),
        0 <= n * one(),
{
    vstd::arithmetic::power2::lemma2_to64_rest();
    assert(exp2(53) == 0x20_0000_0000_0000);
    lemma_round_exact(53, n, 1074);
    lemma_steps();
    lemma_exp2_add(53, 1074);
    lemma_exp2_lt(1127, 2098);
    assert(n * one() < exp2(53) * one()) by (nonlinear_arith)
        requires
            n < exp2(53),
            one() > 0,
    ;
}

/// A whole number is exact.
pub proof fn lemma_near_whole(n: int)
    requires
        0 <= n <= 500,
    ensures
        double(n) == (Value::<true>::Finite { neg: false, mag: n * one() }),
        near(double(n), n, 1, 0),
{
    lemma_double_whole(n);
    lemma_steps();
}

/// The fraction may be written with a multiple of the denominator.
pub proof fn lemma_near_scale(v: Value<true>, n: int, d: int, e: int, c: int)
    requires
        near(v, n, d, e),
        0 < c,
    ensures
        near(v, n * c, d * c, e),
{
    let u = v.units();
    let o = one();
    let x = u * d - n * o;
    let bound = e * step() * d;
    assert(u * (d * c) - (n * c) * o == x * c) by (nonlinear_arith)
        requires
            x == u * d - n * o,
    ;
    assert(e * step() * (d * c) == bound * c) by (nonlinear_arith)
        requires
            bound == e * step() * d,
    ;
    assert(abs(x * c) <= bound * c) by (nonlinear_arith)
        requires
            abs(x) <= bound,
            0 < c,
    ;
    assert(0 < d * c) by (nonlinear_arith)
        requires
            0 < d,
            0 < c,
    ;
}

/// The number with the other sign.
pub proof fn lemma_near_negated(v: Value<true>, n: int, d: int, e: int)
    requires
        near(v, n, d, e),
    ensures
        near(v.negated(), -n, d, e),
{
    let u = v.units();
    assert(v.negated().units() == -u);
    assert((-u) * d - (-n) * one() == -(u * d - n * one())) by (nonlinear_arith);
}

/// A sum adds the errors, and one step.
pub proof fn lemma_near_plus(
    a: Value<true>,
    na: int,
    ea: int,
    b: Value<true>,
    nb: int,
    eb: int,
    d: int,
)
    requires
        near(a, na, d, ea),
        near(b, nb, d, eb),
        -500 * d <= na + nb <= 500 * d,
        0 <= ea <= 0x100_0000,
        0 <= eb <= 0x100_0000,
    ensures
        near(a.plus(b), na + nb, d, ea + eb + 1),
{
    lemma_steps();
    let s = step();
    let o = one();
    let sum = a.units() + b.units();
    let n = na + nb;
    let off = sum * d - n * o;
    assert(off == (a.units() * d - na * o) + (b.units() * d - nb * o)) by (nonlinear_arith)
        requires
            off == sum * d - n * o,
            sum == a.units() + b.units(),
            n == na + nb,
    ;
    assert(ea * s * d + eb * s * d == (ea + eb) * s * d) by (nonlinear_arith);
    assert(abs(off) <= (ea + eb) * s * d);
    assert((ea + eb + 1) * s * d == (ea + eb) * s * d + s * d) by (nonlinear_arith);
    assert(0 < s * d) by (nonlinear_arith)
        requires
            0 < s,
            0 < d,
    ;
    let r = a.plus(b);
    if sum != 0 {
        let mag = abs(sum) as int;
        assert(mag < 512 * o * 1) by (nonlinear_arith)
            requires
                abs(sum * d - n * o) <= (ea + eb) * s * d,
                -500 * d <= n <= 500 * d,
                o == 0x1000_0000_0000 * s,
                0 <= ea <= 0x100_0000,
                0 <= eb <= 0x100_0000,
                0 < s,
                0 < d,
                mag == abs(sum),
        ;
        lemma_rounded(sum < 0, mag, 1);
        let got = r.units();
        assert(abs(got - sum) <= s);
        assert(abs(got * d - n * o) <= (ea + eb + 1) * s * d) by (nonlinear_arith)
            requires
                abs(got - sum) <= s,
                abs(sum * d - n * o) <= (ea + eb) * s * d,
                (ea + eb + 1) * s * d == (ea + eb) * s * d + s * d,
                0 < d,
        ;
    }
}

/// A difference adds the errors, and one step.
pub proof fn lemma_near_minus(
    a: Value<true>,
    na: int,
    ea: int,
    b: Value<true>,
    nb: int,
    eb: int,
    d: int,
)
    requires
        near(a, na, d, ea),
        near(b, nb, d, eb),
        -500 * d <= na - nb <= 500 * d,
        0 <= ea <= 0x100_0000,
        0 <= eb <= 0x100_0000,
    ensures
        near(a.minus(b), na - nb, d, ea + eb + 1),
{
    lemma_near_negated(b, nb, d, eb);
    lemma_near_plus(a, na, ea, b.negated(), -nb, eb, d);
}

/// A product with a whole number multiplies the error, and adds one step.
pub proof fn lemma_near_times(a: Value<true>, n: int, d: int, e: int, k: int)
    requires
        near(a, n, d, e),
        0 <= k <= 500,
        -500 * d <= n * k <= 500 * d,
        0 <= e <= 0x100_0000,
    ensures
        near(a.times(double(k)), n * k, d, e * k + 1),
{
    lemma_steps();
    lemma_near_whole(k);
    let s = step();
    let o = one();
    let u = a.units();
    let mag = a->Finite_mag;
    let exact = u * k;
    let ek = e * k;
    let nk = n * k;
    assert(exact * d - nk * o == (u * d - n * o) * k) by (nonlinear_arith)
        requires
            exact == u * k,
            nk == n * k,
    ;
    assert(abs(exact * d - nk * o) <= e * s * d * k) by (nonlinear_arith)
        requires
            exact * d - nk * o == (u * d - n * o) * k,
            abs(u * d - n * o) <= e * s * d,
            0 <= k,
    ;
    assert(e * s * d * k == ek * s * d) by (nonlinear_arith)
        requires
            ek == e * k,
    ;
    assert(0 <= ek <= 0x2_0000_0000) by (nonlinear_arith)
        requires
            0 <= e <= 0x100_0000,
            0 <= k <= 500,
            ek == e * k,
    ;
    let product = mag * k;
    assert(0 <= product && (exact == product || exact == -product)) by (nonlinear_arith)
        requires
            exact == u * k,
            product == mag * k,
            u == mag || u == -mag,
            0 <= mag,
            0 <= k,
    ;
    assert(product < 512 * o) by (nonlinear_arith)
        requires
            exact == product || exact == -product,
            abs(exact * d - nk * o) <= ek * s * d,
            -500 * d <= nk <= 500 * d,
            o == 0x1000_0000_0000 * s,
            0 <= ek <= 0x2_0000_0000,
            0 < s,
            0 < d,
    ;
    let top = mag * (k * o);
    assert(top == product * o) by (nonlinear_arith)
        requires
            top == mag * (k * o),
            product == mag * k,
    ;
    assert(0 <= top < 512 * o * o) by (nonlinear_arith)
        requires
            top == product * o,
            0 <= product < 512 * o,
            0 < o,
    ;
    let r = a.times(double(k));
    lemma_rounded(a->Finite_neg != false, top, o);
    let got = r->Finite_mag;
    assert(abs(got - product) <= s) by (nonlinear_arith)
        requires
            abs(got * o - top) <= s * o,
            top == product * o,
            0 < o,
    ;
    assert(exact == if a->Finite_neg {
        -product
    } else {
        product
    }) by (nonlinear_arith)
        requires
            exact == u * k,
            product == mag * k,
            u == if a->Finite_neg {
                -mag
            } else {
                mag
            },
    ;
    let gu = r.units();
    assert(abs(gu - exact) <= s);
    lemma_near_rounding(gu, exact, d, nk, ek);
}

/// One more rounding adds one step.
proof fn lemma_near_rounding(got: int, exact: int, d: int, n: int, e: int)
    requires
        0 < d,
        abs(got - exact) <= step(),
        abs(exact * d - n * one()) <= e * step() * d,
    ensures
        abs(got * d - n * one()) <= (e + 1) * step() * d,
{
    let s = step();
    let o = one();
    assert((e + 1) * s * d == e * s * d + s * d) by (nonlinear_arith);
    assert(abs(got * d - n * o) <= (e + 1) * s * d) by (nonlinear_arith)
        requires
            abs(got - exact) <= s,
            abs(exact * d - n * o) <= e * s * d,
            (e + 1) * s * d == e * s * d + s * d,
            0 < d,
    ;
}

/// A half has half the error, and one step.
pub proof fn lemma_near_half(a: Value<true>, n: int, d: int, e: int)
    requires
        near(a, n, d, e),
        0 <= n <= 500 * d,
        0 <= e <= 0x100_0000,
    ensures
        near(a.over(double(2)), n, 2 * d, e + 1),
{
    lemma_steps();
    lemma_near_whole(2);
    let s = step();
    let o = one();
    let u = a.units();
    let mag = a->Finite_mag;
    assert(mag < 511 * o) by (nonlinear_arith)
        requires
            u == mag || u == -mag,
            abs(u * d - n * o) <= e * s * d,
            0 <= n <= 500 * d,
            o == 0x1000_0000_0000 * s,
            0 <= e <= 0x100_0000,
            0 < s,
            0 < d,
    ;
    let top = mag * o;
    let bottom = 2 * o;
    assert(0 <= top < 512 * o * bottom) by (nonlinear_arith)
        requires
            top == mag * o,
            bottom == 2 * o,
            0 <= mag < 511 * o,
            0 < o,
    ;
    lemma_rounded(a->Finite_neg != false, top, bottom);
    let r = a.over(double(2));
    let got = r->Finite_mag;
    assert(abs(2 * got - mag) <= 2 * s) by (nonlinear_arith)
        requires
            abs(got * bottom - top) <= s * bottom,
            top == mag * o,
            bottom == 2 * o,
            0 < o,
    ;
    let gu = r.units();
    assert(abs(2 * gu - u) <= 2 * s);
    assert(abs(gu * (2 * d) - n * o) <= (e + 1) * s * (2 * d)) by (nonlinear_arith)
        requires
            abs(2 * gu - u) <= 2 * s,
            abs(u * d - n * o) <= e * s * d,
            0 < d,
            0 <= e,
            0 < s,
    ;
}

/// The whole number nearest to a number is one nearest to the fraction.
pub proof fn lemma_near_nearest(v: Value<true>, n: int, d: int, e: int)
    requires
        near(v, n, d, e),
        0 <= n <= 500 * d,
        0 <= e <= 0x200_0000,
        d <= 1000,
    ensures
        2 * abs(v.nearest_even() * d - n) <= d,
        0 <= v.nearest_even() <= 501,
{
    lemma_steps();
    let s = step();
    let o = one();
    let u = v.units();
    let k = v.nearest_even();
    assert(2 * (e * s * d) < o) by (nonlinear_arith)
        requires
            0 <= e <= 0x200_0000,
            0 < d <= 1000,
            o == 0x1000_0000_0000 * s,
            0 < s,
    ;
    let bound = e * s * d;
    if v->Finite_neg {
        assert(u * d <= 0) by (nonlinear_arith)
            requires
                u <= 0,
                0 < d,
        ;
        assert(n == 0) by (nonlinear_arith)
            requires
                abs(u * d - n * o) <= bound,
                u * d <= 0,
                2 * bound < o,
                0 <= n,
                0 < o,
        ;
        assert(0 * d == 0) by (nonlinear_arith);
    } else {
        lemma_half_even_near(u, o);
        let h = half_even(u, o);
        assert(h <= 501) by (nonlinear_arith)
            requires
                2 * h * o <= 2 * u + o,
                abs(u * d - n * o) <= bound,
                2 * bound < o,
                0 <= n <= 500 * d,
                0 < d,
                0 < o,
        ;
        assert(k == h);
        let off = abs(h * d - n) as int;
        assert(abs(2 * (h * o) - 2 * u) <= o) by (nonlinear_arith)
            requires
                2 * h * o <= 2 * u + o,
                2 * u - o <= 2 * h * o,
        ;
        assert(2 * (off * o) <= d * o + 2 * bound) by (nonlinear_arith)
            requires
                off == abs(h * d - n),
                abs(2 * (h * o) - 2 * u) <= o,
                abs(u * d - n * o) <= bound,
                0 < d,
                0 < o,
        ;
        assert(2 * off <= d) by (nonlinear_arith)
            requires
                2 * (off * o) <= d * o + 2 * bound,
                2 * bound < o,
                0 < o,
        ;
    }
}

/// A quotient of two numbers that are near to fractions with one denominator.
pub proof fn lemma_near_over(
    a: Value<true>,
    na: int,
    b: Value<true>,
    nb: int,
    d: int,
)
    requires
        near(a, na, d, 4),
        near(b, nb, d, 4),
        -nb <= na <= nb,
        0 < nb <= 500 * d,
        d <= 500,
    ensures
        near(a.over(b), na, nb, 8001),
{
    lemma_steps();
    let s = step();
    let o = one();
    let (ua, ub) = (a.units(), b.units());
    let (ma, mb) = (a->Finite_mag, b->Finite_mag);
    assert(o <= 500 * 2 * ub && 0 < ub) by (nonlinear_arith)
        requires
            abs(ub * d - nb * o) <= 4 * s * d,
            1 <= nb,
            0 < d <= 500,
            o == 0x1000_0000_0000 * s,
            0 < s,
    ;
    assert(ub == mb);
    let cross = nb * ua - na * ub;
    assert(abs(cross) <= 8 * s * nb) by {
        let x = ua * d - na * o;
        let y = ub * d - nb * o;
        assert(cross * d == nb * x - na * y) by (nonlinear_arith)
            requires
                cross == nb * ua - na * ub,
                x == ua * d - na * o,
                y == ub * d - nb * o,
        ;
        assert(abs(nb * x) <= nb * (4 * s * d)) by (nonlinear_arith)
            requires
                abs(x) <= 4 * s * d,
                0 < nb,
        ;
        assert(abs(na * y) <= nb * (4 * s * d)) by (nonlinear_arith)
            requires
                abs(y) <= 4 * s * d,
                -nb <= na <= nb,
        ;
        assert(abs(cross) <= 8 * s * nb) by (nonlinear_arith)
            requires
                abs(cross * d) <= 2 * (nb * (4 * s * d)),
                0 < d,
        ;
    }
    assert(ma < 2 * mb) by (nonlinear_arith)
        requires
            ma == abs(ua),
            abs(nb * ua - na * ub) <= 8 * s * nb,
            -nb <= na <= nb,
            0 < nb,
            0 < ub,
            ub == mb,
            o <= 1000 * ub,
            o == 0x1000_0000_0000 * s,
            0 < s,
    ;
    let top = ma * o;
    assert(0 <= top < 512 * o * mb) by (nonlinear_arith)
        requires
            top == ma * o,
            0 <= ma < 2 * mb,
            0 < o,
    ;
    lemma_rounded(a->Finite_neg != b->Finite_neg, top, mb);
    let r = a.over(b);
    let rm = r->Finite_mag;
    let ru = r.units();
    let off = ru * ub - ua * o;
    assert(abs(off) <= s * ub) by (nonlinear_arith)
        requires
            off == ru * ub - ua * o,
            abs(rm * mb - top) <= s * mb,
            top == ma * o,
            ub == mb,
            (ru == rm && ua == ma) || (ru == -rm && ua == -ma),
    ;
    let e = ru * nb - na * o;
    assert(e * ub == nb * off + o * cross) by (nonlinear_arith)
        requires
            e == ru * nb - na * o,
            off == ru * ub - ua * o,
            cross == nb * ua - na * ub,
    ;
    assert(abs(nb * off) <= nb * s * ub) by (nonlinear_arith)
        requires
            abs(off) <= s * ub,
            0 < nb,
    ;
    assert(abs(o * cross) <= 8000 * (nb * s * ub)) by (nonlinear_arith)
        requires
            abs(cross) <= 8 * s * nb,
            0 < o <= 1000 * ub,
            0 < s,
            0 < nb,
    ;
    assert(abs(e) <= 8001 * s * nb) by (nonlinear_arith)
        requires
            abs(e * ub) <= 8001 * (nb * s * ub),
            0 < ub,
    ;
}

/// An error bound may be given away.
pub proof fn lemma_near_weaken(v: Value<true>, n: int, d: int, e: int, wide: int)
    requires
        near(v, n, d, e),
        e <= wide,
    ensures
        near(v, n, d, wide),
{
    lemma_steps();
    let s = step();
    assert(e * s * d <= wide * s * d) by (nonlinear_arith)
        requires
            e <= wide,
            0 < s,
            0 < d,
    ;
}

/// A fraction of two whole numbers is rounded once.
pub proof fn lemma_near_ratio(n: int, d: int)
    requires
        0 <= n <= 500,
        0 < d <= 500,
    ensures
        near(double(n).over(double(d)), n, d, 1),
{
    lemma_steps();
    lemma_near_whole(n);
    lemma_near_whole(d);
    let s = step();
    let o = one();
    let top = n * o * o;
    let bottom = d * o;
    assert(0 < bottom && 0 <= top < 512 * o * bottom) by (nonlinear_arith)
        requires
            top == n * o * o,
            bottom == d * o,
            0 <= n <= 500,
            0 < d,
            0 < o,
    ;
    lemma_rounded(false, top, bottom);
    let mag = double(n).over(double(d))->Finite_mag;
    assert(abs(mag * d - n * o) <= 1 * s * d) by (nonlinear_arith)
        requires
            abs(mag * bottom - top) <= s * bottom,
            top == n * o * o,
            bottom == d * o,
            0 < o,
    ;
}

} // verus!
