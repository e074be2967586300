//! What the floating-point operations give.
//!
//! No number of the format is nearer to the exact result of an operation than
//! the number that it gives.

use crate::float::{widened, Value};
use crate::order::law_round_keeps_order;
use crate::rounding::{
    exp2, is_mantissa, law_round_is_nearest, law_round_is_representable, lemma_exp2_add,
    lemma_exp2_lt, lemma_exp2_pos, lemma_half_even_near, lemma_round_exact,
    lemma_round_nonnegative, representable, round_bits,
};
use vstd::math::abs;
use vstd::prelude::*;

verus! {

/// Whether a signed count of units is a number of the format, if its size does
/// not matter.
pub open spec fn is_number_of<const DOUBLE: bool>(u: int) -> bool {
    representable(Value::<DOUBLE>::precision(), abs(u) as int)
}

/// Zero is a number of every format.
proof fn lemma_zero(p: int)
    requires
        0 < p,
    ensures
        representable(p, 0),
{
    lemma_exp2_pos(p);
    lemma_exp2_pos(0);
    assert(0 * exp2(0) == 0) by (nonlinear_arith);
    assert(is_mantissa(p, 0, 0, 0));
}

/// A count of units from which on results may be infinite: half of what is.
pub open spec fn safe_limit<const DOUBLE: bool>() -> int {
    exp2(Value::<DOUBLE>::limit_bits() - 1)
}

/// A fraction below the limit is rounded to a finite number.
proof fn lemma_rounded_is_finite<const DOUBLE: bool>(neg: bool, n: int, d: int)
    requires
        0 <= n,
        0 < d,
        n <= safe_limit::<DOUBLE>() * d,
    ensures
        Value::<DOUBLE>::rounded(neg, n, d) is Finite,
{
    let p = Value::<DOUBLE>::precision();
    let t = Value::<DOUBLE>::limit_bits() - 1;
    let v = exp2(t);
    lemma_exp2_pos(t);
    lemma_exp2_lt(t, t + 1);
    lemma_exp2_pos(p - 1);
    lemma_exp2_lt(0, p);
    vstd::arithmetic::power2::lemma2_to64();
    assert(1 * v == v);
    lemma_round_exact(p, 1, t);
    assert(n * 1 <= v * d);
    law_round_keeps_order(p, n, d, v, 1);
}

/// The rounding of a fraction, with a sign, is a number of the format, and none
/// is nearer to the fraction.
proof fn lemma_rounded_is_nearest<const DOUBLE: bool>(neg: bool, n: int, d: int, v: int)
    requires
        0 <= n,
        0 < d,
        is_number_of::<DOUBLE>(v),
    ensures
        ({
            let r = Value::<DOUBLE>::rounded(neg, n, d);
            let exact = if neg {
                -n
            } else {
                n
            };
            r is Finite ==> {
                &&& is_number_of::<DOUBLE>(r.units())
                &&& r->Finite_neg == neg
                &&& abs(r.units() * d - exact) <= abs(v * d - exact)
            }
        }),
{
    let p = Value::<DOUBLE>::precision();
    let mag = round_bits(p, n, d);
    let w = abs(v) as int;
    law_round_is_representable(p, n, d);
    lemma_round_nonnegative(p, n, d);
    law_round_is_nearest(p, n, d, w);
    lemma_zero(p);
    law_round_is_nearest(p, n, d, 0);
    let (md, vd, wd) = (mag * d, v * d, w * d);
    assert((-mag) * d == -md && 0 * d == 0) by (nonlinear_arith)
        requires
            md == mag * d,
    ;
    assert(wd == if v < 0 {
        -vd
    } else {
        vd
    }) by (nonlinear_arith)
        requires
            wd == w * d,
            vd == v * d,
            w == if v < 0 {
                -v
            } else {
                v
            },
    ;
    assert(v < 0 ==> vd <= 0) by (nonlinear_arith)
        requires
            vd == v * d,
            0 < d,
    ;
    assert(v >= 0 ==> vd >= 0) by (nonlinear_arith)
        requires
            vd == v * d,
            0 < d,
    ;
}

/// No number of the format is nearer to the exact sum, or to the difference; it is
/// finite unless it is out of range.
pub proof fn law_sum_is_nearest<const DOUBLE: bool>(a: Value<DOUBLE>, b: Value<DOUBLE>, v: int)
    requires
        a is Finite,
        b is Finite,
        is_number_of::<DOUBLE>(v),
    ensures
        a.plus(b) is Finite ==> abs(a.plus(b).units() - (a.units() + b.units())) <= abs(
            v - (a.units() + b.units()),
        ),
        a.minus(b) is Finite ==> abs(a.minus(b).units() - (a.units() - b.units())) <= abs(
            v - (a.units() - b.units()),
        ),
        abs(a.units() + b.units()) <= safe_limit::<DOUBLE>() ==> a.plus(b) is Finite,
        abs(a.units() - b.units()) <= safe_limit::<DOUBLE>() ==> a.minus(b) is Finite,
{
    lemma_sum(a, b, v);
    lemma_sum(a, b.negated(), v);
    assert(b.negated().units() == -b.units());
}

proof fn lemma_sum<const DOUBLE: bool>(a: Value<DOUBLE>, b: Value<DOUBLE>, v: int)
    requires
        a is Finite,
        b is Finite,
        is_number_of::<DOUBLE>(v),
    ensures
        a.plus(b) is Finite ==> abs(a.plus(b).units() - (a.units() + b.units())) <= abs(
            v - (a.units() + b.units()),
        ),
        abs(a.units() + b.units()) <= safe_limit::<DOUBLE>() ==> a.plus(b) is Finite,
{
    let sum = a.units() + b.units();
    if sum != 0 {
        if abs(sum) <= safe_limit::<DOUBLE>() {
            assert(safe_limit::<DOUBLE>() * 1 == safe_limit::<DOUBLE>());
            lemma_rounded_is_finite::<DOUBLE>(sum < 0, abs(sum) as int, 1);
        }
        lemma_rounded_is_nearest::<DOUBLE>(sum < 0, abs(sum) as int, 1, v);
        let r = a.plus(b).units();
        assert(r * 1 == r && v * 1 == v);
    }
}

/// No number of the format is nearer to the exact product; it is finite unless it
/// is out of range.
pub proof fn law_product_is_nearest<const DOUBLE: bool>(
    a: Value<DOUBLE>,
    b: Value<DOUBLE>,
    v: int,
)
    requires
        a is Finite,
        b is Finite,
        0 <= a->Finite_mag,
        0 <= b->Finite_mag,
        is_number_of::<DOUBLE>(v),
    ensures
        ({
            let one = Value::<DOUBLE>::one();
            let exact = a.units() * b.units();
            &&& a.times(b) is Finite ==> abs(a.times(b).units() * one - exact) <= abs(
                v * one - exact,
            )
            &&& abs(exact) <= safe_limit::<DOUBLE>() * one ==> a.times(b) is Finite
        }),
{
    let one = Value::<DOUBLE>::one();
    let (x, y) = (a->Finite_mag, b->Finite_mag);
    lemma_exp2_pos(Value::<DOUBLE>::unit_bits());
    let n = x * y;
    assert(0 <= n && (-x) * y == -n && x * (-y) == -n && (-x) * (-y) == n) by (nonlinear_arith)
        requires
            n == x * y,
            0 <= x,
            0 <= y,
    ;
    lemma_rounded_is_nearest::<DOUBLE>(a->Finite_neg != b->Finite_neg, n, one, v);
    if n <= safe_limit::<DOUBLE>() * one {
        lemma_rounded_is_finite::<DOUBLE>(a->Finite_neg != b->Finite_neg, n, one);
    }
}

/// No number of the format is nearer to the exact quotient; it is finite unless it
/// is out of range.
pub proof fn law_quotient_is_nearest<const DOUBLE: bool>(
    a: Value<DOUBLE>,
    b: Value<DOUBLE>,
    v: int,
)
    requires
        a is Finite,
        b is Finite,
        0 <= a->Finite_mag,
        0 < b->Finite_mag,
        is_number_of::<DOUBLE>(v),
    ensures
        ({
            let exact = a.units() * Value::<DOUBLE>::one();
            &&& a.over(b) is Finite ==> abs(a.over(b).units() * b.units() - exact) <= abs(
                v * b.units() - exact,
            )
            &&& abs(exact) <= safe_limit::<DOUBLE>() * b->Finite_mag ==> a.over(b) is Finite
        }),
{
    let one = Value::<DOUBLE>::one();
    let (x, y) = (a->Finite_mag, b->Finite_mag);
    lemma_exp2_pos(Value::<DOUBLE>::unit_bits());
    let n = x * one;
    assert(0 <= n && (-x) * one == -n) by (nonlinear_arith)
        requires
            n == x * one,
            0 <= x,
            1 <= one,
    ;
    let neg = a->Finite_neg != b->Finite_neg;
    lemma_rounded_is_nearest::<DOUBLE>(neg, n, y, v);
    if n <= safe_limit::<DOUBLE>() * y {
        lemma_rounded_is_finite::<DOUBLE>(neg, n, y);
    }
    let r = a.over(b).units();
    let exact = a.units() * one;
    if b->Finite_neg {
        assert(r * (-y) == -(r * y) && v * (-y) == -(v * y)) by (nonlinear_arith);
    }
}

/// No number of the format is nearer to a fraction than the one that stands for
/// it.
pub proof fn law_ratio_is_nearest<const DOUBLE: bool>(n: int, d: int, v: int)
    requires
        0 < d,
        is_number_of::<DOUBLE>(v),
    ensures
        ({
            let r = Value::<DOUBLE>::ratio(n, d);
            let exact = n * Value::<DOUBLE>::one();
            &&& r is Finite ==> abs(r.units() * d - exact) <= abs(v * d - exact)
            &&& abs(exact) <= safe_limit::<DOUBLE>() * d ==> r is Finite
        }),
{
    let one = Value::<DOUBLE>::one();
    lemma_exp2_pos(Value::<DOUBLE>::unit_bits());
    let m = abs(n) as int;
    assert(0 <= m * one && -n * one == -(n * one) && n * one == if n < 0 {
        -(m * one)
    } else {
        m * one
    }) by (nonlinear_arith)
        requires
            m == abs(n),
            1 <= one,
    ;
    lemma_rounded_is_nearest::<DOUBLE>(n < 0, m * one, d, v);
    if m * one <= safe_limit::<DOUBLE>() * d {
        lemma_rounded_is_finite::<DOUBLE>(n < 0, m * one, d);
    }
}

/// A number that a 32-bit count can hold is turned into a whole number: the one
/// at or below it, or the nearest one. Half-way between two, `nearest` takes the
/// upper one, `nearest_down` the lower and `nearest_even` the even one.
pub proof fn law_whole_numbers<const DOUBLE: bool>(v: Value<DOUBLE>)
    requires
        v is Finite,
        !v->Finite_neg,
        0 <= v->Finite_mag < 0xffff_fffe * Value::<DOUBLE>::one(),
    ensures
        ({
            let one = Value::<DOUBLE>::one();
            let u = v.units();
            &&& v.truncated() * one <= u < (v.truncated() + 1) * one
            &&& -one < 2 * (u - v.nearest() * one) < one || 2 * (u - v.nearest() * one) == -one
            &&& -one < 2 * (u - v.nearest_down() * one) < one || 2 * (u - v.nearest_down() * one)
                == one
            &&& 2 * abs(u - v.nearest_even() * one) <= one
            &&& 2 * abs(u - v.nearest_even() * one) == one ==> v.nearest_even() % 2 == 0
        }),
{
    let o = Value::<DOUBLE>::one();
    let m = v->Finite_mag;
    lemma_exp2_pos(Value::<DOUBLE>::unit_bits());
    let (a, ra) = (m / o, m % o);
    let (b, rb) = ((2 * m + o) / (2 * o), (2 * m + o) % (2 * o));
    let (c, rc) = ((2 * m + o - 1) / (2 * o), (2 * m + o - 1) % (2 * o));
    vstd::arithmetic::div_mod::lemma_fundamental_div_mod(m, o);
    vstd::arithmetic::div_mod::lemma_fundamental_div_mod(2 * m + o, 2 * o);
    vstd::arithmetic::div_mod::lemma_fundamental_div_mod(2 * m + o - 1, 2 * o);
    lemma_half_even_near(m, o);
    assert(m == a * o + ra && 2 * m + o == 2 * (b * o) + rb && 2 * m + o - 1 == 2 * (c * o) + rc
        && (a + 1) * o == a * o + o) by (nonlinear_arith)
        requires
            m == o * a + ra,
            2 * m + o == (2 * o) * b + rb,
            2 * m + o - 1 == (2 * o) * c + rc,
    ;
    assert(a < 0xffff_fffe && b <= 0xffff_fffe && c <= 0xffff_fffe) by (nonlinear_arith)
        requires
            a * o <= m,
            2 * (b * o) <= 2 * m + o,
            2 * (c * o) <= 2 * m + o,
            m < 0xffff_fffe * o,
            1 <= o,
    ;
    let e = crate::rounding::half_even(m, o);
    assert(2 * e * o == 2 * (e * o)) by (nonlinear_arith);
    if e != a {
        assert(e == a + 1);
    }
}

/// A number of the 32-bit format is the same number in the 64-bit one.
pub proof fn law_widening_keeps_numbers(v: Value<false>)
    requires
        v is Finite,
    ensures
        widened(v) is Finite,
        widened(v).units() * Value::<false>::one() == v.units() * Value::<true>::one(),
        widened(v)->Finite_neg == v->Finite_neg,
{
    lemma_exp2_add(149, 925);
    let (m, a, b) = (v->Finite_mag, exp2(149), exp2(925));
    assert((m * b) * a == m * (a * b) && (-(m * b)) * a == (-m) * (a * b)) by (nonlinear_arith);
}

/// Numbers are ordered as their counts of units are, and infinities lie beyond
/// them; the larger, the smaller and the kept number are chosen by that order.
pub proof fn law_order<const DOUBLE: bool>(
    a: Value<DOUBLE>,
    b: Value<DOUBLE>,
    c: Value<DOUBLE>,
)
    requires
        a is Finite,
        b is Finite,
        c is Finite,
    ensures
        ({
            let (x, y, z) = (a.units(), b.units(), c.units());
            let (least, most) = (
                Value::<DOUBLE>::Infinite { neg: true },
                Value::<DOUBLE>::Infinite { neg: false },
            );
            &&& a.below(b) <==> x < y
            &&& a.equals(b) <==> x == y
            &&& a.at_least(b) <==> x >= y
            &&& least.below(a) && a.below(most) && least.below(most)
            &&& !a.below(Value::Nan) && !Value::Nan.below(a) && !Value::Nan.equals(a)
            &&& a.larger(b).units() == if x < y {
                y
            } else {
                x
            }
            &&& a.smaller(b).units() == if y < x {
                y
            } else {
                x
            }
            &&& y <= z ==> a.kept_within(b, c).units() == if x < y {
                y
            } else if z < x {
                z
            } else {
                x
            }
            &&& Value::Nan.larger(a) == a && a.larger(Value::Nan) == a
            &&& Value::Nan.smaller(a) == a && a.smaller(Value::Nan) == a
            &&& most.kept_within(b, c) == c && least.kept_within(b, c) == b
            &&& a.negated().units() == -x
        }),
{
}

} // verus!
