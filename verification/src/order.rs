//! Rounding keeps the order of numbers.
//!
//! A sum in single precision stays between two numbers of the format where the
//! exact sum does; whole numbers up to 2^24 are numbers of the format.

use crate::float::{single_value, Value};
use crate::rounding::{
    exp2, is_mantissa, law_round_is_nearest, law_round_is_representable, lemma_exp2_add,
    lemma_exp2_le, lemma_exp2_lt, lemma_exp2_pos, lemma_round_error, lemma_round_exact,
    lemma_round_nonnegative, lemma_round_scale, representable, round_bits,
};
use vstd::math::abs;
use vstd::prelude::*;

verus! {

/// Whether a signed count of units is a number of the 32-bit format.
pub open spec fn is_single(u: int) -> bool {
    representable(24, abs(u) as int) && abs(u) < exp2(277)
}

/// Whether a value is a finite number of the 32-bit format.
pub open spec fn is_finite(v: Value<false>) -> bool {
    &&& v is Finite
    &&& 0 <= v->Finite_mag
    &&& is_single(v.units())
}

/// A whole number in units of the 32-bit format.
pub open spec fn whole(n: int) -> int {
    n * exp2(149)
}

/// Rounding keeps the order of fractions.
pub proof fn law_round_keeps_order(p: int, n1: int, d1: int, n2: int, d2: int)
    requires
        0 < p,
        0 <= n1,
        0 < d1,
        0 <= n2,
        0 < d2,
        n1 * d2 <= n2 * d1,
    ensures
        round_bits(p, n1, d1) <= round_bits(p, n2, d2),
{
    let r1 = round_bits(p, n1, d1);
    let r2 = round_bits(p, n2, d2);
    law_round_is_representable(p, n1, d1);
    law_round_is_representable(p, n2, d2);
    law_round_is_nearest(p, n1, d1, r2);
    law_round_is_nearest(p, n2, d2, r1);
    if r2 < r1 {
        // Both fractions lie half-way between the two, so that they are equal.
        assert((r1 + r2) * d1 <= 2 * n1) by (nonlinear_arith)
            requires
                abs(r1 * d1 - n1) <= abs(r2 * d1 - n1),
                r2 < r1,
                0 < d1,
        ;
        assert(2 * n2 <= (r1 + r2) * d2) by (nonlinear_arith)
            requires
                abs(r2 * d2 - n2) <= abs(r1 * d2 - n2),
                r2 < r1,
                0 < d2,
        ;
        assert(n2 * d1 <= n1 * d2) by (nonlinear_arith)
            requires
                (r1 + r2) * d1 <= 2 * n1,
                2 * n2 <= (r1 + r2) * d2,
                0 < d1,
                0 < d2,
        ;
        lemma_round_scale(p, n1, d1, d2);
        lemma_round_scale(p, n2, d2, d1);
        assert(d1 * d2 == d2 * d1) by (nonlinear_arith);
    }
}

/// A number of the format is its own rounding.
pub proof fn lemma_single_exact(u: int, neg: bool)
    requires
        is_single(u),
    ensures
        Value::<false>::rounded(neg, abs(u) as int, 1) == (Value::<false>::Finite {
            neg,
            mag: abs(u) as int,
        }),
{
    let v = abs(u) as int;
    let (m, t) = choose|m: int, t: int| is_mantissa(24, v, m, t);
    lemma_round_exact(24, m, t);
}

/// The numbers of the format from below to above a sum bound the rounded sum.
pub proof fn law_sum_stays_between(a: Value<false>, b: Value<false>, low: int, high: int)
    requires
        is_finite(a),
        is_finite(b),
        is_single(low),
        is_single(high),
        low <= a.units() + b.units() <= high,
    ensures
        is_finite(a.plus(b)),
        low <= a.plus(b).units() <= high,
{
    let sum = a.units() + b.units();
    if sum == 0 {
        assert(is_single(0)) by {
            lemma_exp2_pos(24);
            lemma_exp2_pos(277);
            lemma_exp2_pos(0);
            assert(0 * exp2(0) == 0) by (nonlinear_arith);
            assert(is_mantissa(24, 0, 0, 0));
        }
    } else {
        let n = abs(sum) as int;
        let mag = round_bits(24, n, 1);
        law_round_is_representable(24, n, 1);
        lemma_round_nonnegative(24, n, 1);
        // The bound on the side away from zero.
        let far = if sum < 0 {
            low
        } else {
            high
        };
        let f = abs(far) as int;
        lemma_single_exact(far, false);
        assert(n * 1 <= f * 1);
        law_round_keeps_order(24, n, 1, f, 1);
        assert(round_bits(24, f, 1) == f) by {
            let (m, t) = choose|m: int, t: int| is_mantissa(24, f, m, t);
            lemma_round_exact(24, m, t);
        }
        // The bound on the side of zero.
        let near = if sum < 0 {
            high
        } else {
            low
        };
        if (near < 0) == (sum < 0) && near != 0 {
            let g = abs(near) as int;
            assert(g * 1 <= n * 1);
            law_round_keeps_order(24, g, 1, n, 1);
            assert(round_bits(24, g, 1) == g) by {
                let (m, t) = choose|m: int, t: int| is_mantissa(24, g, m, t);
                lemma_round_exact(24, m, t);
            }
        }
        assert(abs(if sum < 0 {
            -mag
        } else {
            mag
        }) == mag);
    }
}

/// Whether a value has the sign and is at least so many units in size.
pub open spec fn is_beyond(v: Value<false>, neg: bool, low: int) -> bool {
    match v {
        Value::Nan => false,
        Value::Infinite { neg: sign } => sign == neg,
        Value::Finite { neg: sign, mag } => sign == neg && low <= mag,
    }
}

/// A fraction that is at least a number of the format is rounded to at least
/// that number.
pub proof fn lemma_rounded_at_least(neg: bool, n: int, d: int, low: int)
    requires
        0 <= n,
        0 < d,
        0 <= low,
        is_single(low),
        low * d <= n,
    ensures
        is_beyond(Value::<false>::rounded(neg, n, d), neg, low),
{
    let (m, t) = choose|m: int, t: int| is_mantissa(24, low, m, t);
    lemma_round_exact(24, m, t);
    law_round_keeps_order(24, low, 1, n, d);
}

/// A fraction that is at most a number of the format is rounded to at most that
/// number.
pub proof fn lemma_rounded_at_most(neg: bool, n: int, d: int, high: int)
    requires
        0 <= n,
        0 < d,
        0 <= high,
        is_single(high),
        n <= high * d,
    ensures
        ({
            let v = Value::<false>::rounded(neg, n, d);
            &&& is_finite(v)
            &&& v->Finite_neg == neg
            &&& v->Finite_mag <= high
        }),
{
    let (m, t) = choose|m: int, t: int| is_mantissa(24, high, m, t);
    lemma_round_exact(24, m, t);
    law_round_keeps_order(24, n, d, high, 1);
    law_round_is_representable(24, n, d);
    lemma_round_nonnegative(24, n, d);
}

/// A sum with a number beyond some size stays beyond what that size gives.
pub proof fn lemma_sum_beyond(a: Value<false>, b: Value<false>, neg: bool, low: int, bound: int)
    requires
        is_finite(a),
        is_beyond(b, neg, low),
        0 <= low,
        is_single(bound),
        !neg ==> bound == a.units() + low,
        neg ==> bound == a.units() - low,
    ensures
        ({
            let r = a.plus(b);
            match r {
                Value::Nan => false,
                Value::Infinite { neg: sign } => sign == neg,
                Value::Finite { .. } => if neg {
                    r.units() <= bound
                } else {
                    bound <= r.units()
                },
            }
        }),
{
    if b is Finite {
        let sum = a.units() + b.units();
        let (n, f) = (abs(sum) as int, abs(bound) as int);
        let (m, t) = choose|m: int, t: int| is_mantissa(24, f, m, t);
        lemma_round_exact(24, m, t);
        lemma_round_nonnegative(24, n, 1);
        if f <= n {
            law_round_keeps_order(24, f, 1, n, 1);
        } else {
            law_round_keeps_order(24, n, 1, f, 1);
        }
    }
}

/// Whole numbers up to 2^24 are numbers of the format.
pub proof fn lemma_whole(n: int)
    requires
        -0x100_0000 <= n <= 0x100_0000,
    ensures
        is_single(whole(n)),
        Value::<false>::ratio(n, 1) == (Value::<false>::Finite {
            neg: n < 0,
            mag: abs(whole(n)) as int,
        }),
        is_finite(Value::<false>::ratio(n, 1)),
        Value::<false>::ratio(n, 1).units() == whole(n),
{
    let o = exp2(149);
    let m = abs(n) as int;
    lemma_exp2_pos(149);
    vstd::arithmetic::power2::lemma2_to64();
    vstd::arithmetic::power2::lemma2_to64_rest();
    assert(exp2(24) == 0x100_0000);
    assert(abs(whole(n)) == m * o) by (nonlinear_arith)
        requires
            m == abs(n),
            whole(n) == n * o,
            1 <= o,
    ;
    assert(-n * o == -(n * o)) by (nonlinear_arith);
    lemma_exp2_add(24, 149);
    lemma_exp2_lt(173, 277);
    assert(m * o <= exp2(173)) by (nonlinear_arith)
        requires
            m <= exp2(24),
            exp2(173) == exp2(24) * o,
            1 <= o,
    ;
    if m < exp2(24) {
        assert(is_mantissa(24, m * o, m, 149));
    } else {
        lemma_exp2_pos(173);
        assert(1 * exp2(173) == exp2(173));
        assert(is_mantissa(24, m * o, 1, 173));
    }
    lemma_single_exact(whole(n), n < 0);
}

/// Whole numbers add up in units.
pub proof fn lemma_whole_add(a: int, b: int)
    ensures
        whole(a) + whole(b) == whole(a + b),
        whole(a) - whole(b) == whole(a - b),
{
    let o = exp2(149);
    assert(a * o + b * o == (a + b) * o) by (nonlinear_arith);
    assert(a * o - b * o == (a - b) * o) by (nonlinear_arith);
}

/// Whole numbers are ordered in units as they are.
pub proof fn lemma_whole_order(a: int, b: int)
    ensures
        a < b <==> whole(a) < whole(b),
{
    let o = exp2(149);
    lemma_exp2_pos(149);
    assert(a < b <==> a * o < b * o) by (nonlinear_arith)
        requires
            1 <= o,
    ;
}

/// The whole numbers around a count of units.
pub proof fn lemma_whole_floor(u: int) -> (f: int)
    ensures
        whole(f) <= u < whole(f + 1),
{
    let o = exp2(149);
    lemma_exp2_pos(149);
    let f = u / o;
    vstd::arithmetic::div_mod::lemma_fundamental_div_mod(u, o);
    assert(f * o <= u < (f + 1) * o) by (nonlinear_arith)
        requires
            u == o * f + u % o,
            0 <= u % o < o,
    ;
    f
}

/// Every pattern of bits of the interchange format that stands for a finite
/// value stands for a finite number of the format.
pub proof fn law_bits_are_finite(bits: u32)
    requires
        single_value(bits) is Finite,
    ensures
        is_finite(single_value(bits)),
{
    let field = (bits % 0x8000_0000) / 0x80_0000;
    let low = bits % 0x80_0000;
    vstd::arithmetic::power2::lemma2_to64();
    assert(exp2(24) == 0x100_0000);
    let (m, t) = if field == 0 {
        (low as int, 0int)
    } else {
        (0x80_0000 + low, field - 1)
    };
    let e = exp2(t);
    lemma_exp2_pos(t);
    assert(exp2(0) == 1);
    let mag = m * e;
    lemma_exp2_add(24, t);
    lemma_exp2_le(24 + t, 277);
    assert(0 <= mag < exp2(24) * e) by (nonlinear_arith)
        requires
            mag == m * e,
            0 <= m < exp2(24),
            1 <= e,
    ;
    assert(is_mantissa(24, mag, m, t));
    assert(single_value(bits)->Finite_mag == mag);
}

/// A sum is off by at most one part in 2^24.
pub proof fn lemma_sum_error(a: Value<false>, b: Value<false>, low: int, high: int)
    requires
        is_finite(a),
        is_finite(b),
        -0x100_0000 <= low <= 0x100_0000,
        -0x100_0000 <= high <= 0x100_0000,
        whole(low) <= a.units() + b.units() <= whole(high),
    ensures
        is_finite(a.plus(b)),
        whole(low) <= a.plus(b).units() <= whole(high),
        abs(a.plus(b).units() - (a.units() + b.units())) * 0x100_0000 <= abs(
            a.units() + b.units(),
        ),
{
    lemma_whole(low);
    lemma_whole(high);
    law_sum_stays_between(a, b, whole(low), whole(high));
    let sum = a.units() + b.units();
    if sum != 0 {
        let n = abs(sum) as int;
        let k = round_bits(24, n, 1);
        vstd::arithmetic::power2::lemma2_to64();
        assert(exp2(24) == 0x100_0000);
        lemma_round_error(24, n, 1);
        assert(k * 1 == k);
    }
}

} // verus!
