//! Rounding of exact fractions to a fixed number of significant bits.
//!
//! Magnitudes are counted in units of the smallest positive number of a
//! floating-point format, so that every number of the format is a whole count
//! of units. A count is representable with `p` significant bits when it is
//! `m * 2^t` with `m < 2^p`.

use vstd::arithmetic::div_mod::{lemma_fundamental_div_mod, lemma_fundamental_div_mod_converse};
use vstd::arithmetic::mul::{
    lemma_mul_inequality, lemma_mul_is_commutative, lemma_mul_strict_inequality,
    lemma_mul_strictly_positive,
};
use vstd::arithmetic::power2::{
    lemma_pow2_adds, lemma_pow2_pos, lemma_pow2_strictly_increases, lemma_pow2_unfold, pow2,
};
use vstd::prelude::*;

verus! {

/// Two to the power `e`, as an integer.
pub open spec fn exp2(e: int) -> int {
    pow2(e as nat) as int
}

/// The whole number nearest to `n / d`; a fraction half-way between two whole
/// numbers goes to the even one.
pub open spec fn half_even(n: int, d: int) -> int {
    let q = n / d;
    let r = n % d;
    if 2 * r < d || (2 * r == d && q % 2 == 0) {
        q
    } else {
        q + 1
    }
}

/// Whether `2^t` is the spacing of the numbers with `p` significant bits
/// around `n / d`: the least power of two (and at least one) for which `n / d`
/// is below `2^(p + t)`.
pub open spec fn is_spacing(p: int, n: int, d: int, t: int) -> bool {
    &&& 0 <= t
    &&& n < d * exp2(p + t)
    &&& t == 0 || d * exp2(p + t - 1) <= n
}

/// The exponent of the spacing around `n / d`.
pub open spec fn spacing(p: int, n: int, d: int) -> int {
    choose|t: int| is_spacing(p, n, d, t)
}

/// `n / d` rounded to `p` significant bits, to nearest and ties to even.
pub open spec fn round_bits(p: int, n: int, d: int) -> int {
    let t = spacing(p, n, d);
    half_even(n, d * exp2(t)) * exp2(t)
}

/// Whether a count is representable with `p` significant bits.
pub open spec fn representable(p: int, v: int) -> bool {
    exists|m: int, t: int| is_mantissa(p, v, m, t)
}

/// Whether `m * 2^t` is a way to write `v` with `p` significant bits.
pub open spec fn is_mantissa(p: int, v: int, m: int, t: int) -> bool {
    &&& 0 <= m < exp2(p)
    &&& 0 <= t
    &&& v == m * exp2(t)
}

pub proof fn lemma_exp2_pos(e: int)
    ensures
        exp2(e) >= 1,
{
    lemma_pow2_pos(e as nat);
}

pub proof fn lemma_exp2_zero()
    ensures
        exp2(0) == 1,
        exp2(1) == 2,
{
    vstd::arithmetic::power2::lemma2_to64();
}

pub proof fn lemma_exp2_succ(e: int)
    requires
        0 <= e,
    ensures
        exp2(e + 1) == 2 * exp2(e),
{
    lemma_pow2_unfold((e + 1) as nat);
}

pub proof fn lemma_exp2_add(a: int, b: int)
    requires
        0 <= a,
        0 <= b,
    ensures
        exp2(a + b) == exp2(a) * exp2(b),
        exp2(a + b) == exp2(b) * exp2(a),
{
    lemma_pow2_adds(a as nat, b as nat);
    lemma_mul_is_commutative(exp2(a), exp2(b));
}

pub proof fn lemma_exp2_le(a: int, b: int)
    requires
        0 <= a <= b,
    ensures
        exp2(a) <= exp2(b),
{
    if a < b {
        lemma_pow2_strictly_increases(a as nat, b as nat);
    }
}

pub proof fn lemma_exp2_lt(a: int, b: int)
    requires
        0 <= a < b,
    ensures
        exp2(a) < exp2(b),
{
    lemma_pow2_strictly_increases(a as nat, b as nat);
}

/// A power of two is above its exponent.
proof fn lemma_exp2_above(e: int)
    requires
        0 <= e,
    ensures
        e < exp2(e),
    decreases e,
{
    if e == 0 {
        lemma_exp2_zero();
    } else {
        lemma_exp2_above(e - 1);
        lemma_exp2_succ(e - 1);
    }
}

/// Multiplying both sides of a fraction by `c` keeps what `half_even` gives.
pub proof fn lemma_half_even_scale(n: int, d: int, c: int)
    requires
        0 <= n,
        0 < d,
        0 < c,
    ensures
        0 < d * c,
        half_even(n * c, d * c) == half_even(n, d),
{
    let q = n / d;
    let r = n % d;
    lemma_fundamental_div_mod(n, d);
    lemma_mul_strictly_positive(d, c);
    assert(n * c == q * (d * c) + r * c) by (nonlinear_arith)
        requires
            n == d * q + r,
    ;
    assert(0 <= r * c < d * c) by (nonlinear_arith)
        requires
            0 <= r < d,
            0 < c,
    ;
    lemma_fundamental_div_mod_converse(n * c, d * c, q, r * c);
    assert((2 * r < d) == (2 * (r * c) < d * c)) by (nonlinear_arith)
        requires
            0 < c,
    ;
    assert((2 * r == d) == (2 * (r * c) == d * c)) by (nonlinear_arith)
        requires
            0 < c,
    ;
}

/// A whole number is what `half_even` gives for it.
pub proof fn lemma_half_even_whole(m: int, d: int)
    requires
        0 <= m,
        0 < d,
    ensures
        half_even(m * d, d) == m,
{
    lemma_fundamental_div_mod_converse(m * d, d, m, 0);
}

/// What `half_even` gives is within half of the fraction.
pub proof fn lemma_half_even_near(n: int, d: int)
    requires
        0 <= n,
        0 < d,
    ensures
        0 <= half_even(n, d),
        2 * half_even(n, d) * d <= 2 * n + d,
        2 * n - d <= 2 * half_even(n, d) * d,
        n / d <= half_even(n, d) <= n / d + 1,
{
    let q = n / d;
    let r = n % d;
    lemma_fundamental_div_mod(n, d);
    vstd::arithmetic::div_mod::lemma_div_pos_is_pos(n, d);
    assert(2 * q * d == 2 * (n - r)) by (nonlinear_arith)
        requires
            n == d * q + r,
    ;
    assert(2 * (q + 1) * d == 2 * (n - r) + 2 * d) by (nonlinear_arith)
        requires
            n == d * q + r,
    ;
}

/// At most one exponent is a spacing.
pub proof fn lemma_spacing_unique(p: int, n: int, d: int, t1: int, t2: int)
    requires
        0 < p,
        0 <= n,
        0 < d,
        is_spacing(p, n, d, t1),
        is_spacing(p, n, d, t2),
    ensures
        t1 == t2,
{
    if t1 < t2 {
        lemma_exp2_le(p + t1, p + t2 - 1);
        lemma_mul_inequality(exp2(p + t1), exp2(p + t2 - 1), d);
        lemma_mul_is_commutative(exp2(p + t1), d);
        lemma_mul_is_commutative(exp2(p + t2 - 1), d);
    } else if t2 < t1 {
        lemma_exp2_le(p + t2, p + t1 - 1);
        lemma_mul_inequality(exp2(p + t2), exp2(p + t1 - 1), d);
        lemma_mul_is_commutative(exp2(p + t2), d);
        lemma_mul_is_commutative(exp2(p + t1 - 1), d);
    }
}

/// Descends from an exponent that is large enough to the spacing.
proof fn lemma_spacing_below(p: int, n: int, d: int, t: int)
    requires
        0 < p,
        0 <= n,
        0 < d,
        0 <= t,
        n < d * exp2(p + t),
    ensures
        exists|u: int| is_spacing(p, n, d, u),
    decreases t,
{
    if t == 0 || d * exp2(p + t - 1) <= n {
        assert(is_spacing(p, n, d, t));
    } else {
        lemma_spacing_below(p, n, d, t - 1);
    }
}

/// Every fraction has a spacing.
pub proof fn lemma_spacing(p: int, n: int, d: int)
    requires
        0 < p,
        0 <= n,
        0 < d,
    ensures
        is_spacing(p, n, d, spacing(p, n, d)),
{
    lemma_exp2_above(n);
    lemma_exp2_le(n, p + n);
    let e = exp2(p + n);
    assert(n < d * e) by (nonlinear_arith)
        requires
            n < e,
            1 <= d,
            0 <= e,
    ;
    lemma_spacing_below(p, n, d, n);
}

/// The exponent that is a spacing is the one that `spacing` names.
pub proof fn lemma_spacing_is(p: int, n: int, d: int, t: int)
    requires
        0 < p,
        0 <= n,
        0 < d,
        is_spacing(p, n, d, t),
    ensures
        spacing(p, n, d) == t,
{
    lemma_spacing(p, n, d);
    lemma_spacing_unique(p, n, d, t, spacing(p, n, d));
}

/// Rounding depends on the fraction only, not on how it is written.
pub proof fn lemma_round_scale(p: int, n: int, d: int, c: int)
    requires
        0 < p,
        0 <= n,
        0 < d,
        0 < c,
    ensures
        0 <= n * c,
        0 < d * c,
        round_bits(p, n * c, d * c) == round_bits(p, n, d),
{
    let t = spacing(p, n, d);
    lemma_spacing(p, n, d);
    lemma_mul_strictly_positive(d, c);
    assert(0 <= n * c) by (nonlinear_arith)
        requires
            0 <= n,
            0 < c,
    ;
    let hi = exp2(p + t);
    assert(n * c < (d * c) * hi) by (nonlinear_arith)
        requires
            n < d * hi,
            0 < c,
    ;
    if t != 0 {
        let lo = exp2(p + t - 1);
        assert((d * c) * lo <= n * c) by (nonlinear_arith)
            requires
                d * lo <= n,
                0 < c,
        ;
    }
    assert(is_spacing(p, n * c, d * c, t));
    lemma_spacing_is(p, n * c, d * c, t);
    lemma_exp2_pos(t);
    lemma_mul_strictly_positive(d, exp2(t));
    lemma_half_even_scale(n, d * exp2(t), c);
    let e = exp2(t);
    assert((d * c) * e == (d * e) * c) by (nonlinear_arith);
}

/// A representable count is its own rounding.
pub proof fn lemma_round_exact(p: int, m: int, k: int)
    requires
        0 < p,
        0 <= m < exp2(p),
        0 <= k,
    ensures
        0 <= m * exp2(k),
        round_bits(p, m * exp2(k), 1) == m * exp2(k),
{
    let n = m * exp2(k);
    lemma_exp2_pos(k);
    assert(0 <= n) by (nonlinear_arith)
        requires
            0 <= m,
            1 <= exp2(k),
            n == m * exp2(k),
    ;
    lemma_spacing(p, n, 1);
    let t = spacing(p, n, 1);
    lemma_exp2_zero();
    if t > 0 {
        if k < t {
            lemma_exp2_le(p + k, p + t - 1);
            lemma_exp2_add(p, k);
            lemma_mul_strict_inequality(m, exp2(p), exp2(k));
        }
        lemma_exp2_add(k - t, t);
        let a = exp2(k - t);
        let b = exp2(t);
        assert(n == (m * a) * b) by (nonlinear_arith)
            requires
                n == m * exp2(k),
                exp2(k) == a * b,
        ;
        lemma_exp2_pos(k - t);
        lemma_exp2_pos(t);
        assert(0 <= m * a) by (nonlinear_arith)
            requires
                0 <= m,
                1 <= a,
        ;
        lemma_half_even_whole(m * a, b);
    } else {
        lemma_half_even_whole(n, 1);
    }
}

/// No multiple of `d` is nearer to `n` than the one that `half_even` picks.
pub proof fn lemma_half_even_nearest(n: int, d: int, m: int)
    requires
        0 <= n,
        0 < d,
    ensures
        vstd::math::abs(half_even(n, d) * d - n) <= vstd::math::abs(m * d - n),
{
    let q = n / d;
    let r = n % d;
    lemma_fundamental_div_mod(n, d);
    assert(q * d == n - r) by (nonlinear_arith)
        requires
            n == d * q + r,
    ;
    assert((q + 1) * d == n - r + d) by (nonlinear_arith)
        requires
            n == d * q + r,
    ;
    if m <= q {
        assert(m * d <= q * d) by (nonlinear_arith)
            requires
                m <= q,
                0 < d,
        ;
    } else {
        assert((q + 1) * d <= m * d) by (nonlinear_arith)
            requires
                q + 1 <= m,
                0 < d,
        ;
    }
}

/// The rounding of a fraction is a whole count of the spacing around it and
/// at most `2^p` of those.
pub proof fn lemma_round_mantissa(p: int, n: int, d: int)
    requires
        0 < p,
        0 <= n,
        0 < d,
    ensures
        ({
            let t = spacing(p, n, d);
            let m = half_even(n, d * exp2(t));
            &&& 0 < d * exp2(t)
            &&& 0 <= m <= exp2(p)
            &&& t > 0 ==> exp2(p - 1) <= m
        }),
{
    let t = spacing(p, n, d);
    lemma_spacing(p, n, d);
    lemma_exp2_pos(t);
    lemma_mul_strictly_positive(d, exp2(t));
    let u = d * exp2(t);
    lemma_half_even_near(n, u);
    lemma_exp2_add(p, t);
    let e = exp2(p);
    assert(d * exp2(p + t) == e * u) by (nonlinear_arith)
        requires
            exp2(p + t) == e * exp2(t),
            u == d * exp2(t),
    ;
    lemma_fundamental_div_mod(n, u);
    assert(n / u < e) by (nonlinear_arith)
        requires
            n == u * (n / u) + n % u,
            0 <= n % u,
            n < e * u,
            0 < u,
    ;
    if t > 0 {
        lemma_exp2_add(p - 1, t);
        let f = exp2(p - 1);
        assert(d * exp2(p + t - 1) == f * u) by (nonlinear_arith)
            requires
                exp2(p + t - 1) == f * exp2(t),
                u == d * exp2(t),
        ;
        assert(f <= n / u) by (nonlinear_arith)
            requires
                n == u * (n / u) + n % u,
                n % u < u,
                f * u <= n,
                0 < u,
        ;
    }
}

/// The rounding of a fraction is representable.
pub proof fn law_round_is_representable(p: int, n: int, d: int)
    requires
        0 < p,
        0 <= n,
        0 < d,
    ensures
        representable(p, round_bits(p, n, d)),
{
    let t = spacing(p, n, d);
    let m = half_even(n, d * exp2(t));
    lemma_spacing(p, n, d);
    lemma_round_mantissa(p, n, d);
    if m < exp2(p) {
        assert(is_mantissa(p, m * exp2(t), m, t));
    } else {
        lemma_exp2_succ(p - 1);
        lemma_exp2_succ(t);
        lemma_exp2_pos(p - 1);
        let h = exp2(p - 1);
        let e = exp2(t);
        assert((2 * h) * e == h * (2 * e)) by (nonlinear_arith);
        assert(is_mantissa(p, m * exp2(t), exp2(p - 1), t + 1));
    }
}

/// Rounding a fraction gives no negative number.
pub proof fn lemma_round_nonnegative(p: int, n: int, d: int)
    requires
        0 < p,
        0 <= n,
        0 < d,
    ensures
        0 <= round_bits(p, n, d),
{
    law_round_is_representable(p, n, d);
    let mag = round_bits(p, n, d);
    let (a, b) = choose|a: int, b: int| is_mantissa(p, mag, a, b);
    lemma_exp2_pos(b);
    let e = exp2(b);
    assert(0 <= a * e) by (nonlinear_arith)
        requires
            0 <= a,
            1 <= e,
    ;
}

/// No representable count is nearer to a fraction than its rounding.
pub proof fn law_round_is_nearest(p: int, n: int, d: int, v: int)
    requires
        0 < p,
        0 <= n,
        0 < d,
        representable(p, v),
    ensures
        vstd::math::abs(round_bits(p, n, d) * d - n) <= vstd::math::abs(v * d - n),
{
    let t = spacing(p, n, d);
    lemma_spacing(p, n, d);
    lemma_exp2_pos(t);
    let e = exp2(t);
    lemma_mul_strictly_positive(d, e);
    let u = d * e;
    let m = half_even(n, u);
    assert(round_bits(p, n, d) * d == m * u) by (nonlinear_arith)
        requires
            round_bits(p, n, d) == m * e,
            u == d * e,
    ;
    let (a, k) = choose|a: int, k: int| is_mantissa(p, v, a, k);
    lemma_exp2_pos(k);
    if t <= k {
        lemma_exp2_add(k - t, t);
        let w = a * exp2(k - t);
        assert(v * d == w * u) by (nonlinear_arith)
            requires
                v == a * exp2(k),
                exp2(k) == exp2(k - t) * e,
                w == a * exp2(k - t),
                u == d * e,
        ;
        lemma_half_even_nearest(n, u, w);
    } else {
        lemma_exp2_add(p, k);
        lemma_exp2_le(p + k, p + t - 1);
        lemma_exp2_add(p - 1, t);
        let w = exp2(p - 1);
        assert(v < exp2(p) * exp2(k)) by (nonlinear_arith)
            requires
                v == a * exp2(k),
                a < exp2(p),
                1 <= exp2(k),
        ;
        assert(v * d <= exp2(p + t - 1) * d) by (nonlinear_arith)
            requires
                v <= exp2(p + t - 1),
                0 < d,
        ;
        assert(exp2(p + t - 1) * d == w * u) by (nonlinear_arith)
            requires
                exp2(p + t - 1) == w * e,
                u == d * e,
        ;
        assert(d * exp2(p + t - 1) == exp2(p + t - 1) * d) by (nonlinear_arith);
        lemma_half_even_nearest(n, u, w);
    }
}

/// Rounding a fraction below `2^p` leaves it within half a unit; a larger
/// fraction changes by at most one part in `2^p`.
pub proof fn lemma_round_error(p: int, n: int, d: int)
    requires
        0 < p,
        0 <= n,
        0 < d,
    ensures
        d * exp2(p) <= n ==> vstd::math::abs(round_bits(p, n, d) * d - n) * exp2(p) <= n,
        n < d * exp2(p) ==> 2 * vstd::math::abs(round_bits(p, n, d) * d - n) <= d,
{
    let t = spacing(p, n, d);
    lemma_spacing(p, n, d);
    lemma_exp2_pos(t);
    let e = exp2(t);
    lemma_mul_strictly_positive(d, e);
    let u = d * e;
    let m = half_even(n, u);
    let r = round_bits(p, n, d) * d;
    assert(r == m * u) by (nonlinear_arith)
        requires
            r == round_bits(p, n, d) * d,
            round_bits(p, n, d) == m * e,
            u == d * e,
    ;
    lemma_half_even_near(n, u);
    let x = vstd::math::abs(r - n);
    assert(2 * m * u == 2 * r) by (nonlinear_arith)
        requires
            r == m * u,
    ;
    assert(2 * x <= u);
    if d * exp2(p) <= n {
        if t == 0 {
            assert(false);
        }
        lemma_exp2_add(p - 1, t);
        lemma_exp2_succ(p - 1);
        lemma_exp2_pos(p - 1);
        let h = exp2(p - 1);
        assert(u * h <= n) by (nonlinear_arith)
            requires
                d * exp2(p + t - 1) <= n,
                exp2(p + t - 1) == h * e,
                u == d * e,
        ;
        assert(x * (2 * h) <= n) by (nonlinear_arith)
            requires
                2 * x <= u,
                u * h <= n,
                1 <= h,
        ;
    } else {
        lemma_exp2_zero();
        assert(is_spacing(p, n, d, 0));
        lemma_spacing_unique(p, n, d, 0, t);
        assert(u == d) by (nonlinear_arith)
            requires
                u == d * e,
                e == 1,
        ;
    }
}

/// A rounding is off by at most one part in `p`, and one unit.
pub proof fn lemma_error_both(q: int, n: int, d: int, p: int)
    requires
        0 < d,
        0 <= n,
        1 <= p,
        d * p <= n ==> vstd::math::abs(q * d - n) * p <= n,
        n < d * p ==> 2 * vstd::math::abs(q * d - n) <= d,
    ensures
        vstd::math::abs(q * d - n) * p <= n + d * p,
{
    let off = vstd::math::abs(q * d - n) as int;
    if n < d * p {
        assert(off * p <= d * p) by (nonlinear_arith)
            requires
                2 * off <= d,
                0 <= off,
                1 <= p,
        ;
    } else {
        assert(0 <= d * p) by (nonlinear_arith)
            requires
                0 < d,
                1 <= p,
        ;
    }
}

} // verus!
