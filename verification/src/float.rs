//! IEEE 754 binary floating-point numbers, computed with integers.
//!
//! [`Single`] has the numbers of the 32-bit format and [`Double`] those of the
//! 64-bit one. The view of a number is a [`Value`]: a sign and a magnitude,
//! counted in units of the smallest positive number of its format. Every
//! operation is the exact result on those values, rounded once to the nearest
//! number of the format, ties to even.

use crate::rounding::{
    exp2, half_even, is_spacing, lemma_exp2_add, lemma_exp2_le, lemma_exp2_lt, lemma_exp2_pos,
    lemma_exp2_succ, lemma_exp2_zero, lemma_half_even_near, lemma_half_even_scale,
    lemma_half_even_whole, lemma_round_exact, lemma_round_mantissa, lemma_round_scale,
    lemma_spacing_is, round_bits,
};
use vstd::arithmetic::div_mod::{lemma_fundamental_div_mod, lemma_fundamental_div_mod_converse};
use vstd::prelude::*;

verus! {

/// The value of a floating-point number.
pub enum Value<const DOUBLE: bool> {
    /// Not a number.
    Nan,
    /// An infinity.
    Infinite { neg: bool },
    /// A finite number: `mag` units of the smallest positive number.
    Finite { neg: bool, mag: int },
}

impl<const DOUBLE: bool> Value<DOUBLE> {
    /// The number of significant bits.
    pub open spec fn precision() -> int {
        if DOUBLE {
            53
        } else {
            24
        }
    }

    /// The number one is `2^unit_bits()` units.
    pub open spec fn unit_bits() -> int {
        if DOUBLE {
            1074
        } else {
            149
        }
    }

    /// The number one, in units.
    pub open spec fn one() -> int {
        exp2(Self::unit_bits())
    }

    /// Magnitudes from `2^limit_bits()` units on are infinite.
    pub open spec fn limit_bits() -> int {
        if DOUBLE {
            2098
        } else {
            277
        }
    }

    /// The number nearest to `n / d` units, with the given sign.
    pub open spec fn rounded(neg: bool, n: int, d: int) -> Self {
        let mag = round_bits(Self::precision(), n, d);
        if exp2(Self::limit_bits()) <= mag {
            Value::Infinite { neg }
        } else {
            Value::Finite { neg, mag }
        }
    }

    /// The number nearest to the fraction `n / d`.
    pub open spec fn ratio(n: int, d: int) -> Self {
        if n < 0 {
            Self::rounded(true, -n * Self::one(), d)
        } else {
            Self::rounded(false, n * Self::one(), d)
        }
    }

    /// A finite number as a signed count of units.
    pub open spec fn units(self) -> int {
        match self {
            Value::Finite { neg, mag } => if neg {
                -mag
            } else {
                mag
            },
            _ => 0,
        }
    }

    /// The sum.
    pub open spec fn plus(self, other: Self) -> Self {
        match (self, other) {
            (Value::Nan, _) => Value::Nan,
            (_, Value::Nan) => Value::Nan,
            (Value::Infinite { neg }, Value::Infinite { neg: neg2 }) => if neg == neg2 {
                self
            } else {
                Value::Nan
            },
            (Value::Infinite { .. }, _) => self,
            (_, Value::Infinite { .. }) => other,
            (Value::Finite { neg, .. }, Value::Finite { neg: neg2, .. }) => {
                let sum = self.units() + other.units();
                if sum == 0 {
                    Value::Finite { neg: neg && neg2, mag: 0 }
                } else if sum < 0 {
                    Self::rounded(true, -sum, 1)
                } else {
                    Self::rounded(false, sum, 1)
                }
            },
        }
    }

    /// The number with the other sign.
    pub open spec fn negated(self) -> Self {
        match self {
            Value::Nan => Value::Nan,
            Value::Infinite { neg } => Value::Infinite { neg: !neg },
            Value::Finite { neg, mag } => Value::Finite { neg: !neg, mag },
        }
    }

    /// The difference.
    pub open spec fn minus(self, other: Self) -> Self {
        self.plus(other.negated())
    }

    /// The product.
    pub open spec fn times(self, other: Self) -> Self {
        match (self, other) {
            (Value::Nan, _) => Value::Nan,
            (_, Value::Nan) => Value::Nan,
            (Value::Infinite { neg }, Value::Infinite { neg: neg2 }) => Value::Infinite {
                neg: neg != neg2,
            },
            (Value::Infinite { neg }, Value::Finite { neg: neg2, mag }) => if mag == 0 {
                Value::Nan
            } else {
                Value::Infinite { neg: neg != neg2 }
            },
            (Value::Finite { neg, mag }, Value::Infinite { neg: neg2 }) => if mag == 0 {
                Value::Nan
            } else {
                Value::Infinite { neg: neg != neg2 }
            },
            (Value::Finite { neg, mag }, Value::Finite { neg: neg2, mag: mag2 }) => Self::rounded(
                neg != neg2,
                mag * mag2,
                Self::one(),
            ),
        }
    }

    /// The quotient.
    pub open spec fn over(self, other: Self) -> Self {
        match (self, other) {
            (Value::Nan, _) => Value::Nan,
            (_, Value::Nan) => Value::Nan,
            (Value::Infinite { .. }, Value::Infinite { .. }) => Value::Nan,
            (Value::Infinite { neg }, Value::Finite { neg: neg2, .. }) => Value::Infinite {
                neg: neg != neg2,
            },
            (Value::Finite { neg, .. }, Value::Infinite { neg: neg2 }) => Value::Finite {
                neg: neg != neg2,
                mag: 0,
            },
            (Value::Finite { neg, mag }, Value::Finite { neg: neg2, mag: mag2 }) => if mag2 != 0 {
                Self::rounded(neg != neg2, mag * Self::one(), mag2)
            } else if mag == 0 {
                Value::Nan
            } else {
                Value::Infinite { neg: neg != neg2 }
            },
        }
    }

    /// Whether the number is below the other; never so for what is not a
    /// number.
    pub open spec fn below(self, other: Self) -> bool {
        match (self, other) {
            (Value::Nan, _) => false,
            (_, Value::Nan) => false,
            (Value::Infinite { neg }, Value::Infinite { neg: neg2 }) => neg && !neg2,
            (Value::Infinite { neg }, Value::Finite { .. }) => neg,
            (Value::Finite { .. }, Value::Infinite { neg: neg2 }) => !neg2,
            (Value::Finite { .. }, Value::Finite { .. }) => self.units() < other.units(),
        }
    }

    /// Whether the two numbers are equal; the two zeros are.
    pub open spec fn equals(self, other: Self) -> bool {
        match (self, other) {
            (Value::Nan, _) => false,
            (_, Value::Nan) => false,
            (Value::Infinite { neg }, Value::Infinite { neg: neg2 }) => neg == neg2,
            (Value::Finite { .. }, Value::Finite { .. }) => self.units() == other.units(),
            _ => false,
        }
    }

    /// Whether the number is the other or above it.
    pub open spec fn at_least(self, other: Self) -> bool {
        other.below(self) || self.equals(other)
    }

    /// The larger of two numbers; the other one where one is not a number.
    pub open spec fn larger(self, other: Self) -> Self {
        if self is Nan || self.below(other) {
            other
        } else {
            self
        }
    }

    /// The smaller of two numbers; the other one where one is not a number.
    pub open spec fn smaller(self, other: Self) -> Self {
        if self is Nan || other.below(self) {
            other
        } else {
            self
        }
    }

    /// The number kept from `low` to `high`.
    pub open spec fn kept_within(self, low: Self, high: Self) -> Self {
        if self.below(low) {
            low
        } else if high.below(self) {
            high
        } else {
            self
        }
    }

    /// The number without its fraction, kept within what a `u32` holds; zero
    /// for what is not a number.
    pub open spec fn truncated(self) -> int {
        match self {
            Value::Nan => 0,
            Value::Infinite { neg } => if neg {
                0
            } else {
                u32::MAX as int
            },
            Value::Finite { neg, mag } => if neg {
                0
            } else {
                vstd::math::min(mag / Self::one(), u32::MAX as int)
            },
        }
    }

    /// The whole number nearest to the number, ties away from zero, kept
    /// within what a `u32` holds; zero for what is not a number.
    pub open spec fn nearest(self) -> int {
        match self {
            Value::Nan => 0,
            Value::Infinite { neg } => if neg {
                0
            } else {
                u32::MAX as int
            },
            Value::Finite { neg, mag } => if neg {
                0
            } else {
                vstd::math::min((2 * mag + Self::one()) / (2 * Self::one()), u32::MAX as int)
            },
        }
    }

    /// The whole number nearest to the number, ties towards zero, kept within
    /// what a `u32` holds; zero for what is not a number.
    pub open spec fn nearest_down(self) -> int {
        match self {
            Value::Nan => 0,
            Value::Infinite { neg } => if neg {
                0
            } else {
                u32::MAX as int
            },
            Value::Finite { neg, mag } => if neg {
                0
            } else {
                vstd::math::min((2 * mag + Self::one() - 1) / (2 * Self::one()), u32::MAX as int)
            },
        }
    }

    /// The whole number nearest to the number, ties to the even one, kept
    /// within what a `u32` holds; zero for what is not a number.
    pub open spec fn nearest_even(self) -> int {
        match self {
            Value::Nan => 0,
            Value::Infinite { neg } => if neg {
                0
            } else {
                u32::MAX as int
            },
            Value::Finite { neg, mag } => if neg {
                0
            } else {
                vstd::math::min(half_even(mag, Self::one()), u32::MAX as int)
            },
        }
    }
}

/// How a number is stored.
#[derive(Debug, Clone, Copy)]
enum Repr {
    Nan,
    Infinite(bool),
    Finite(bool, u64, u32),
}

/// A floating-point number: `mantissa * 2^exponent` units with a sign, an
/// infinity, or not a number. The mantissa of a finite number uses all bits of
/// the precision, or the exponent is zero.
#[derive(Debug, Clone, Copy)]
pub struct Float<const DOUBLE: bool> {
    repr: Repr,
}

/// A number of the 32-bit format.
pub type Single = Float<false>;

/// A number of the 64-bit format.
pub type Double = Float<true>;

impl<const DOUBLE: bool> View for Float<DOUBLE> {
    type V = Value<DOUBLE>;

    closed spec fn view(&self) -> Value<DOUBLE> {
        match self.repr {
            Repr::Nan => Value::Nan,
            Repr::Infinite(neg) => Value::Infinite { neg },
            Repr::Finite(neg, mant, exp) => Value::Finite {
                neg,
                mag: mant * exp2(exp as int),
            },
        }
    }
}

/// Whether a mantissa and an exponent are in the stored form.
spec fn is_stored(double: bool, mant: int, exp: int) -> bool {
    if double {
        &&& 0 <= mant < 0x20_0000_0000_0000
        &&& 0 <= exp <= 2045
        &&& exp == 0 || 0x10_0000_0000_0000 <= mant
    } else {
        &&& 0 <= mant < 0x100_0000
        &&& 0 <= exp <= 253
        &&& exp == 0 || 0x80_0000 <= mant
    }
}

/// The powers of two that the stored form speaks of.
proof fn lemma_format_powers()
    ensures
        exp2(23) == 0x80_0000,
        exp2(24) == 0x100_0000,
        exp2(52) == 0x10_0000_0000_0000,
        exp2(53) == 0x20_0000_0000_0000,
        exp2(64) == 0x1_0000_0000_0000_0000,
{
    vstd::arithmetic::power2::lemma2_to64();
    vstd::arithmetic::power2::lemma2_to64_rest();
}

proof fn lemma_exp2_118()
    ensures
        exp2(118) == 0x40_0000_0000_0000_0000_0000_0000_0000,
{
    vstd::arithmetic::power2::lemma2_to64_rest();
    lemma_exp2_add(64, 54);
    let a = exp2(64);
    let b = exp2(54);
    assert(a * b == 0x40_0000_0000_0000_0000_0000_0000_0000) by (nonlinear_arith)
        requires
            a == 0x1_0000_0000_0000_0000,
            b == 0x40_0000_0000_0000,
    ;
}

/// `num * 2^shift / den` as a fraction of whole numbers.
spec fn scaled(num: int, den: int, shift: int) -> (int, int) {
    if shift >= 0 {
        (num * exp2(shift), den)
    } else {
        (num, den * exp2(-shift))
    }
}

impl<const DOUBLE: bool> Float<DOUBLE> {
    #[verifier::type_invariant]
    spec fn stored(self) -> bool {
        self.repr matches Repr::Finite(_, mant, exp) ==> is_stored(DOUBLE, mant as int, exp as int)
    }

    /// The number nearest to `num * 2^shift / den` units.
    #[verifier::rlimit(60)]
    fn from_scaled(neg: bool, num: u128, den: u128, shift: i32) -> (r: Self)
        requires
            num < 0x40_0000_0000_0000_0000_0000_0000_0000,
            0 < den < 0x1_0000_0000_0000_0000,
            -5000 <= shift <= 5000,
        ensures
            ({
                let (n, d) = scaled(num as int, den as int, shift as int);
                r@ == Value::<DOUBLE>::rounded(neg, n, d)
            }),
    {
        let bits: u32 = if DOUBLE {
            53
        } else {
            24
        };
        let full: u128 = if DOUBLE {
            0x20_0000_0000_0000
        } else {
            0x100_0000
        };
        let ghost p = Value::<DOUBLE>::precision();
        proof {
            lemma_format_powers();
            lemma_exp2_zero();
        }
        let ghost n0 = scaled(num as int, den as int, shift as int).0;
        let ghost d0 = scaled(num as int, den as int, shift as int).1;
        let mut n: u128 = num;
        let mut s: i32 = shift;
        // Gain bits as long as there are powers of two to draw from.
        while s > 0 && n / den < full
            invariant
                0 < den < 0x1_0000_0000_0000_0000,
                full <= 0x20_0000_0000_0000,
                n < 0x40_0000_0000_0000_0000_0000_0000_0000,
                s <= shift <= 5000,
                shift >= 0 ==> s >= 0,
                shift < 0 ==> s == shift && n == num,
                s >= 0 ==> n * exp2(s as int) == num * exp2(shift as int),
            decreases s,
        {
            proof {
                lemma_fundamental_div_mod(n as int, den as int);
                let q = n as int / den as int;
                assert(n < den * full) by (nonlinear_arith)
                    requires
                        n == den * q + n as int % den as int,
                        n as int % (den as int) < den,
                        q + 1 <= full,
                        0 < den,
                ;
                assert(den * full < 0x20_0000_0000_0000_0000_0000_0000_0000) by (nonlinear_arith)
                    requires
                        0 < den < 0x1_0000_0000_0000_0000,
                        full <= 0x20_0000_0000_0000,
                ;
                lemma_exp2_succ(s as int - 1);
                let e = exp2(s as int - 1);
                assert((n * 2) * e == n * (2 * e)) by (nonlinear_arith);
            }
            n = n * 2;
            s = s - 1;
        }
        let q: u128 = n / den;
        // Count the bits beyond the precision.
        let mut top: u128 = full;
        let mut extra: i32 = 0;
        while q >= top
            invariant
                0 <= extra,
                q < 0x40_0000_0000_0000_0000_0000_0000_0000,
                bits as int == p,
                0 < p,
                top == exp2(p + extra),
                extra < top,
                extra > 0 ==> q >= exp2(p + extra - 1),
                top <= 0x80_0000_0000_0000_0000_0000_0000_0000,
                extra <= 120,
                full >= 0x100_0000,
                top >= full,
                extra <= 0 || top >= 2 * full,
            decreases 0x80_0000_0000_0000_0000_0000_0000_0000 - top,
        {
            proof {
                lemma_exp2_succ(p + extra);
            }
            assert(extra < 120) by {
                if extra >= 120 {
                    lemma_exp2_le(118, p + extra);
                    lemma_exp2_118();
                }
            }
            top = top * 2;
            extra = extra + 1;
        }
        let drop: i32 = if s + extra >= 0 {
            extra
        } else {
            -s
        };
        let t: i32 = s + drop;
        let ghost nn = n as int;
        let ghost dd = den as int;
        proof {
            // The spacing around the fraction is `2^t`.
            lemma_fundamental_div_mod(nn, dd);
            let hi = exp2(p + extra);
            assert(nn < dd * hi) by (nonlinear_arith)
                requires
                    nn == dd * (q as int) + nn % dd,
                    nn % dd < dd,
                    q + 1 <= hi,
                    0 < dd,
            ;
            if extra > 0 {
                let lo = exp2(p + extra - 1);
                assert(dd * lo <= nn) by (nonlinear_arith)
                    requires
                        nn == dd * (q as int) + nn % dd,
                        0 <= nn % dd,
                        lo <= q,
                        0 < dd,
                ;
            }
            if s >= 0 {
                let e = exp2(s as int);
                lemma_exp2_pos(s as int);
                lemma_exp2_add(p + extra, s as int);
                assert(n0 == nn * e);
                assert(n0 < d0 * exp2(p + t)) by (nonlinear_arith)
                    requires
                        n0 == nn * e,
                        d0 == dd,
                        exp2(p + t) == hi * e,
                        nn < dd * hi,
                        1 <= e,
                ;
                if t > 0 {
                    lemma_exp2_add(p + extra - 1, s as int);
                    let lo = exp2(p + extra - 1);
                    assert(d0 * exp2(p + t - 1) <= n0) by (nonlinear_arith)
                        requires
                            n0 == nn * e,
                            d0 == dd,
                            exp2(p + t - 1) == lo * e,
                            dd * lo <= nn,
                            1 <= e,
                    ;
                }
            } else if s + extra >= 0 {
                lemma_exp2_add(p + t, -s as int);
                let e = exp2(-s as int);
                assert(dd * hi == (dd * e) * exp2(p + t)) by (nonlinear_arith)
                    requires
                        hi == e * exp2(p + t),
                ;
                if t > 0 {
                    lemma_exp2_add(p + t - 1, -s as int);
                    let lo = exp2(p + extra - 1);
                    assert(dd * lo == (dd * e) * exp2(p + t - 1)) by (nonlinear_arith)
                        requires
                            lo == e * exp2(p + t - 1),
                    ;
                }
            } else {
                lemma_exp2_le(p + extra, p - s);
                lemma_exp2_add(p, -s as int);
                let e = exp2(-s as int);
                assert(nn < (dd * e) * exp2(p)) by (nonlinear_arith)
                    requires
                        nn < dd * hi,
                        hi <= exp2(p - s),
                        exp2(p - s) == e * exp2(p),
                        0 < dd,
                ;
            }
            assert(is_spacing(p, n0, d0, t as int));
            assert(0 <= n0 && 0 < d0) by {
                lemma_exp2_pos(s as int);
                lemma_exp2_pos(-s as int);
                if s >= 0 {
                    let e = exp2(s as int);
                    assert(0 <= nn * e) by (nonlinear_arith)
                        requires
                            0 <= nn,
                            1 <= e,
                    ;
                } else {
                    let e = exp2(-s as int);
                    assert(0 < dd * e) by (nonlinear_arith)
                        requires
                            0 < dd,
                            1 <= e,
                    ;
                }
            }
            lemma_spacing_is(p, n0, d0, t as int);
            lemma_round_mantissa(p, n0, d0);
            // In units of the spacing, the fraction is `n / (den * 2^drop)`.
            lemma_exp2_pos(drop as int);
            assert(0 < dd * exp2(drop as int)) by (nonlinear_arith)
                requires
                    0 < dd,
                    1 <= exp2(drop as int),
            ;
            if s >= 0 {
                let e = exp2(s as int);
                lemma_exp2_pos(s as int);
                lemma_exp2_add(drop as int, s as int);
                lemma_half_even_scale(nn, dd * exp2(drop as int), e);
                assert((dd * exp2(drop as int)) * e == d0 * exp2(t as int)) by (nonlinear_arith)
                    requires
                        d0 == dd,
                        exp2(t as int) == exp2(drop as int) * e,
                ;
            } else {
                lemma_exp2_add(-s as int, t as int);
                let e = exp2(-s as int);
                assert((dd * e) * exp2(t as int) == dd * exp2(drop as int)) by (nonlinear_arith)
                    requires
                        exp2(drop as int) == e * exp2(t as int),
                ;
            }
            assert(round_bits(p, n0, d0) == half_even(nn, dd * exp2(drop as int)) * exp2(t as int));
        }
        let mut unit: u128 = den;
        let mut k: i32 = 0;
        while k < drop
            invariant
                0 <= k <= drop,
                drop <= 5000,
                n < 0x40_0000_0000_0000_0000_0000_0000_0000,
                0 < den,
                unit == den * exp2(k as int),
                unit < 0x80_0000_0000_0000_0000_0000_0000_0000,
                n == nn,
                den == dd,
                t >= 0,
                t == s + drop,
                drop == extra || t == 0,
                s + extra >= 0 ==> drop == extra,
                extra > 0 ==> dd * exp2(p + extra - 1) <= nn,
                0 < p,
                round_bits(p, n0, d0) == half_even(nn, dd * exp2(drop as int)) * exp2(t as int),
                p == Value::<DOUBLE>::precision(),
                ({
                    let (a, b) = scaled(num as int, den as int, shift as int);
                    a == n0 && b == d0
                }),
            decreases drop - k,
        {
            if unit > n {
                proof {
                    lemma_exp2_add(k as int, drop - k);
                    lemma_exp2_succ(drop - k - 1);
                    lemma_exp2_pos(drop - k - 1);
                    let a = exp2(k as int);
                    let b = exp2(drop - k - 1);
                    let w = dd * exp2(drop as int);
                    assert(w == 2 * (unit as int * b)) by (nonlinear_arith)
                        requires
                            w == dd * exp2(drop as int),
                            exp2(drop as int) == a * (2 * b),
                            unit as int == dd * a,
                    ;
                    assert(unit as int <= unit as int * b) by (nonlinear_arith)
                        requires
                            1 <= b,
                            0 <= unit as int,
                    ;
                    lemma_fundamental_div_mod_converse(nn, w, 0, nn);
                    assert(half_even(nn, w) == 0);
                    assert(0 * exp2(t as int) == 0);
                    lemma_exp2_pos(Value::<DOUBLE>::limit_bits());
                    lemma_exp2_zero();
                }
                return Float { repr: Repr::Finite(neg, 0, 0) };
            }
            proof {
                lemma_exp2_succ(k as int);
                let e = exp2(k as int);
                assert(dd * (2 * e) == 2 * (dd * e)) by (nonlinear_arith);
            }
            unit = unit * 2;
            k = k + 1;
        }
        let m: u128 = n / unit;
        let rem: u128 = n % unit;
        let up: bool = rem > unit - rem || (rem == unit - rem && m % 2 == 1);
        proof {
            lemma_format_powers();
            lemma_half_even_near(nn, unit as int);
            assert(half_even(nn, unit as int) == if up {
                m + 1
            } else {
                m as int
            });
        }
        let mant: u64 = if up {
            (m + 1) as u64
        } else {
            m as u64
        };
        let ghost mag = mant * exp2(t as int);
        assert(mag == round_bits(p, n0, d0));
        assert(0 <= mant <= full);
        assert(t > 0 ==> full <= 2 * mant);
        let (mant, exp): (u64, u32) = if mant as u128 == full {
            proof {
                lemma_exp2_succ(t as int);
                let e = exp2(t as int);
                let h = full as int / 2;
                assert((2 * h) * e == h * (2 * e)) by (nonlinear_arith);
            }
            (mant / 2, t as u32 + 1)
        } else {
            (mant, t as u32)
        };
        let last: u32 = if DOUBLE {
            2045
        } else {
            253
        };
        assert(mag == mant * exp2(exp as int));
        assert(Value::<DOUBLE>::limit_bits() == p + last);
        if exp > last {
            proof {
                lemma_exp2_add(p - 1, last as int + 1);
                lemma_exp2_le(last as int + 1, exp as int);
                assert(exp2(p + last) <= mag) by (nonlinear_arith)
                    requires
                        exp2(p + last) == exp2(p - 1) * exp2(last as int + 1),
                        exp2(last as int + 1) <= exp2(exp as int),
                        mag == mant * exp2(exp as int),
                        exp2(p - 1) <= mant,
                        0 <= exp2(last as int + 1),
                        0 <= exp2(p - 1),
                ;
            }
            Float { repr: Repr::Infinite(neg) }
        } else {
            proof {
                lemma_exp2_add(p, last as int);
                lemma_exp2_le(exp as int, last as int);
                lemma_exp2_pos(exp as int);
                assert(mag < exp2(p + last)) by (nonlinear_arith)
                    requires
                        exp2(p + last) == exp2(p) * exp2(last as int),
                        exp2(exp as int) <= exp2(last as int),
                        mag == mant * exp2(exp as int),
                        mant < exp2(p),
                        1 <= exp2(exp as int),
                        0 <= mant,
                ;
            }
            Float { repr: Repr::Finite(neg, mant, exp) }
        }
    }
}

/// Adding or taking away less than a quarter of the spacing leaves a number as
/// it is.
proof fn lemma_round_absorbs(p: int, m: int, e: int, small: int)
    requires
        2 < p,
        exp2(p - 1) <= m < exp2(p),
        3 <= e,
        -exp2(e - 3) < small < exp2(e - 3),
    ensures
        0 < m * exp2(e) + small,
        round_bits(p, m * exp2(e) + small, 1) == m * exp2(e),
{
    let n = m * exp2(e) + small;
    let x = exp2(e);
    let h = exp2(p - 1);
    lemma_exp2_zero();
    lemma_exp2_succ(e - 1);
    lemma_exp2_succ(e - 2);
    lemma_exp2_succ(e - 3);
    lemma_exp2_succ(p - 1);
    lemma_exp2_pos(e - 3);
    lemma_exp2_pos(p - 1);
    assert(h * x <= m * x && (m + 1) * x <= (2 * h) * x) by (nonlinear_arith)
        requires
            h <= m < 2 * h,
            0 < x,
    ;
    assert((m + 1) * x == m * x + x) by (nonlinear_arith);
    lemma_exp2_add(p, e);
    lemma_exp2_add(p - 1, e);
    assert(x <= h * x) by (nonlinear_arith)
        requires
            1 <= h,
            0 < x,
    ;
    if small >= 0 {
        assert(is_spacing(p, n, 1, e));
        lemma_spacing_is(p, n, 1, e);
        lemma_fundamental_div_mod_converse(n, x, m, small);
    } else if m > h {
        assert((h + 1) * x <= m * x) by (nonlinear_arith)
            requires
                h + 1 <= m,
                0 < x,
        ;
        assert((h + 1) * x == h * x + x) by (nonlinear_arith);
        assert((m - 1) * x == m * x - x) by (nonlinear_arith);
        assert(is_spacing(p, n, 1, e));
        lemma_spacing_is(p, n, 1, e);
        lemma_fundamental_div_mod_converse(n, x, m - 1, x + small);
    } else {
        let y = exp2(e - 1);
        lemma_exp2_add(p, e - 1);
        lemma_exp2_add(p - 1, e - 1);
        assert(h * (2 * y) == (2 * h) * y) by (nonlinear_arith);
        assert(2 * (h * y) == (2 * h) * y) by (nonlinear_arith);
        assert(y <= h * y) by (nonlinear_arith)
            requires
                1 <= h,
                0 < y,
        ;
        assert((2 * h - 1) * y == (2 * h) * y - y) by (nonlinear_arith);
        assert(is_spacing(p, n, 1, e - 1));
        lemma_spacing_is(p, n, 1, e - 1);
        lemma_fundamental_div_mod_converse(n, y, 2 * h - 1, y + small);
    }
}

impl<const DOUBLE: bool> Value<DOUBLE> {
    /// Rounding depends on the fraction only, not on how it is written.
    pub proof fn lemma_rounded_scale(neg: bool, n: int, d: int, c: int)
        requires
            0 <= n,
            0 < d,
            0 < c,
        ensures
            Self::rounded(neg, n * c, d * c) == Self::rounded(neg, n, d),
    {
        lemma_round_scale(Self::precision(), n, d, c);
    }
}

impl<const DOUBLE: bool> Float<DOUBLE> {
    /// A stored finite number is below the limit.
    proof fn lemma_below_limit(self)
        requires
            self.stored(),
        ensures
            self@ matches Value::Finite { mag, .. } ==> 0 <= mag < exp2(
                Value::<DOUBLE>::limit_bits(),
            ),
    {
        if let Repr::Finite(neg, mant, exp) = self.repr {
            let p = Value::<DOUBLE>::precision();
            let mag = mant * exp2(exp as int);
            lemma_format_powers();
            lemma_exp2_pos(exp as int);
            let last = Value::<DOUBLE>::limit_bits() - p;
            lemma_exp2_le(exp as int, last);
            lemma_exp2_add(p, last);
            assert(0 <= mag < exp2(p) * exp2(last)) by (nonlinear_arith)
                requires
                    mag == mant * exp2(exp as int),
                    0 <= mant < exp2(p),
                    1 <= exp2(exp as int) <= exp2(last),
            ;
        }
    }

    /// The number nearest to the fraction `n / d`.
    pub fn ratio(n: i32, d: u32) -> (r: Self)
        requires
            0 < d,
        ensures
            r@ == Value::<DOUBLE>::ratio(n as int, d as int),
    {
        let shift: i32 = if DOUBLE {
            1074
        } else {
            149
        };
        let neg: bool = n < 0;
        let num: u128 = if neg {
            (-(n as i64)) as u128
        } else {
            n as u128
        };
        Self::from_scaled(neg, num, d as u128, shift)
    }

    /// A whole number, rounded to the format.
    pub fn from_u32(n: u32) -> (r: Self)
        ensures
            r@ == Value::<DOUBLE>::ratio(n as int, 1),
    {
        let shift: i32 = if DOUBLE {
            1074
        } else {
            149
        };
        Self::from_scaled(false, n as u128, 1, shift)
    }

    /// A whole number, rounded to the format.
    pub fn from_usize(n: usize) -> (r: Self)
        ensures
            r@ == Value::<DOUBLE>::ratio(n as int, 1),
    {
        let shift: i32 = if DOUBLE {
            1074
        } else {
            149
        };
        Self::from_scaled(false, n as u128, 1, shift)
    }

    /// The sum of two finite numbers, the first with the larger exponent.
    fn sum(a: Self, b: Self) -> (r: Self)
        requires
            a.repr matches Repr::Finite(_, _, e1) && b.repr matches Repr::Finite(_, _, e2)
                && e2 <= e1,
        ensures
            r@ == a@.plus(b@),
    {
        proof {
            use_type_invariant(&a);
            use_type_invariant(&b);
        }
        if let (Repr::Finite(neg1, m1, e1), Repr::Finite(neg2, m2, e2)) = (a.repr, b.repr) {
            let gap: u32 = e1 - e2;
            if gap <= 60 {
                let mut wide: u128 = m1 as u128;
                let mut k: u32 = 0;
                proof {
                    lemma_format_powers();
                    lemma_exp2_zero();
                    vstd::arithmetic::power2::lemma2_to64_rest();
                }
                while k < gap
                    invariant
                        k <= gap <= 60,
                        m1 < 0x20_0000_0000_0000,
                        wide == m1 * exp2(k as int),
                        wide <= 0x2_0000_0000_0000_0000_0000_0000_0000,
                        exp2(53) == 0x20_0000_0000_0000,
                        exp2(60) == 0x1000_0000_0000_0000,
                    decreases gap - k,
                {
                    proof {
                        lemma_exp2_succ(k as int);
                        lemma_exp2_le(k as int + 1, 60);
                        let e = exp2(k as int);
                        assert(m1 * (2 * e) == 2 * (m1 * e)) by (nonlinear_arith);
                        assert(m1 * (2 * e) <= 0x20_0000_0000_0000 * 0x1000_0000_0000_0000)
                            by (nonlinear_arith)
                            requires
                                m1 < 0x20_0000_0000_0000,
                                2 * e <= 0x1000_0000_0000_0000,
                                0 <= m1,
                        ;
                    }
                    wide = wide * 2;
                    k = k + 1;
                }
                proof {
                    lemma_exp2_add(gap as int, e2 as int);
                    let x = exp2(gap as int);
                    let y = exp2(e2 as int);
                    assert(m1 * exp2(e1 as int) == wide as int * y) by (nonlinear_arith)
                        requires
                            exp2(e1 as int) == x * y,
                            wide as int == m1 * x,
                    ;
                    lemma_exp2_pos(e2 as int);
                }
                let x: i128 = if neg1 {
                    -(wide as i128)
                } else {
                    wide as i128
                };
                let y: i128 = if neg2 {
                    -(m2 as i128)
                } else {
                    m2 as i128
                };
                let total: i128 = x + y;
                proof {
                    let u = exp2(e2 as int);
                    let w = wide as int;
                    let v = m2 as int;
                    assert((-w) * u == -(w * u) && (-v) * u == -(v * u)) by (nonlinear_arith);
                    assert(a@.units() + b@.units() == total * u) by (nonlinear_arith)
                        requires
                            a@.units() == x * u,
                            b@.units() == y * u,
                            total == x + y,
                    ;
                    assert((total == 0) == (total * u == 0)) by (nonlinear_arith)
                        requires
                            1 <= u,
                    ;
                    assert((total < 0) == (total * u < 0)) by (nonlinear_arith)
                        requires
                            1 <= u,
                    ;
                    assert((-total) * u == -(total * u)) by (nonlinear_arith);
                }
                if total == 0 {
                    assert(0 * exp2(0) == 0);
                    Float { repr: Repr::Finite(neg1 && neg2, 0, 0) }
                } else if total < 0 {
                    Self::from_scaled(true, (-total) as u128, 1, e2 as i32)
                } else {
                    Self::from_scaled(false, total as u128, 1, e2 as i32)
                }
            } else {
                proof {
                    let p = Value::<DOUBLE>::precision();
                    lemma_format_powers();
                    lemma_exp2_pos(e2 as int);
                    lemma_exp2_add(p, e2 as int);
                    lemma_exp2_lt(p + e2, e1 - 3);
                    let y = m2 * exp2(e2 as int);
                    assert(0 <= y < exp2(p + e2)) by (nonlinear_arith)
                        requires
                            y == m2 * exp2(e2 as int),
                            exp2(p + e2) == exp2(p) * exp2(e2 as int),
                            0 <= m2 < exp2(p),
                            1 <= exp2(e2 as int),
                    ;
                    lemma_round_absorbs(p, m1 as int, e1 as int, y);
                    lemma_round_absorbs(p, m1 as int, e1 as int, -y);
                    a.lemma_below_limit();
                }
                a
            }
        } else {
            a
        }
    }

    /// The sum.
    pub fn plus(self, other: Self) -> (r: Self)
        ensures
            r@ == self@.plus(other@),
    {
        match (self.repr, other.repr) {
            (Repr::Nan, _) => self,
            (_, Repr::Nan) => other,
            (Repr::Infinite(neg), Repr::Infinite(neg2)) => if neg == neg2 {
                self
            } else {
                Float { repr: Repr::Nan }
            },
            (Repr::Infinite(_), _) => self,
            (_, Repr::Infinite(_)) => other,
            (Repr::Finite(_, _, e1), Repr::Finite(_, _, e2)) => if e2 <= e1 {
                Self::sum(self, other)
            } else {
                Self::sum(other, self)
            },
        }
    }

    /// The number with the other sign.
    pub fn negated(self) -> (r: Self)
        ensures
            r@ == self@.negated(),
    {
        proof {
            use_type_invariant(&self);
        }
        match self.repr {
            Repr::Nan => self,
            Repr::Infinite(neg) => Float { repr: Repr::Infinite(!neg) },
            Repr::Finite(neg, mant, exp) => Float { repr: Repr::Finite(!neg, mant, exp) },
        }
    }

    /// The difference.
    pub fn minus(self, other: Self) -> (r: Self)
        ensures
            r@ == self@.minus(other@),
    {
        self.plus(other.negated())
    }

    /// The product.
    pub fn times(self, other: Self) -> (r: Self)
        ensures
            r@ == self@.times(other@),
    {
        proof {
            use_type_invariant(&self);
            use_type_invariant(&other);
        }
        match (self.repr, other.repr) {
            (Repr::Nan, _) => self,
            (_, Repr::Nan) => other,
            (Repr::Infinite(neg), Repr::Infinite(neg2)) => Float {
                repr: Repr::Infinite(neg != neg2),
            },
            (Repr::Infinite(neg), Repr::Finite(neg2, mant, exp)) => {
                proof {
                    lemma_mantissa_zero(mant as int, exp as int);
                }
                if mant == 0 {
                    Float { repr: Repr::Nan }
                } else {
                    Float { repr: Repr::Infinite(neg != neg2) }
                }
            },
            (Repr::Finite(neg, mant, exp), Repr::Infinite(neg2)) => {
                proof {
                    lemma_mantissa_zero(mant as int, exp as int);
                }
                if mant == 0 {
                    Float { repr: Repr::Nan }
                } else {
                    Float { repr: Repr::Infinite(neg != neg2) }
                }
            },
            (Repr::Finite(neg, m1, e1), Repr::Finite(neg2, m2, e2)) => {
                let one: i32 = if DOUBLE {
                    1074
                } else {
                    149
                };
                proof {
                    assert(0 <= m1 * m2 < 0x400_0000_0000_0000_0000_0000_0000) by (nonlinear_arith)
                        requires
                            0 <= m1 < 0x20_0000_0000_0000,
                            0 <= m2 < 0x20_0000_0000_0000,
                    ;
                }
                let num: u128 = m1 as u128 * m2 as u128;
                let shift: i32 = e1 as i32 + e2 as i32 - one;
                proof {
                    let a = exp2(e1 as int);
                    let b = exp2(e2 as int);
                    let n = num as int;
                    lemma_exp2_add(e1 as int, e2 as int);
                    lemma_exp2_pos(e1 + e2);
                    assert((m1 * a) * (m2 * b) == n * exp2(e1 + e2)) by (nonlinear_arith)
                        requires
                            n == m1 * m2,
                            exp2(e1 + e2) == a * b,
                    ;
                    lemma_scaled_ratio::<DOUBLE>(neg != neg2, n, 1, e1 + e2, one as int);
                }
                Self::from_scaled(neg != neg2, num, 1, shift)
            },
        }
    }

    /// The quotient.
    pub fn over(self, other: Self) -> (r: Self)
        ensures
            r@ == self@.over(other@),
    {
        proof {
            use_type_invariant(&self);
            use_type_invariant(&other);
        }
        match (self.repr, other.repr) {
            (Repr::Nan, _) => self,
            (_, Repr::Nan) => other,
            (Repr::Infinite(_), Repr::Infinite(_)) => Float { repr: Repr::Nan },
            (Repr::Infinite(neg), Repr::Finite(neg2, _, _)) => Float {
                repr: Repr::Infinite(neg != neg2),
            },
            (Repr::Finite(neg, _, _), Repr::Infinite(neg2)) => {
                assert(0 * exp2(0) == 0);
                Float { repr: Repr::Finite(neg != neg2, 0, 0) }
            },
            (Repr::Finite(neg, m1, e1), Repr::Finite(neg2, m2, e2)) => {
                proof {
                    lemma_mantissa_zero(m1 as int, e1 as int);
                    lemma_mantissa_zero(m2 as int, e2 as int);
                }
                if m2 != 0 {
                    let one: i32 = if DOUBLE {
                        1074
                    } else {
                        149
                    };
                    let shift: i32 = e1 as i32 + one - e2 as i32;
                    proof {
                        let a = exp2(e1 as int);
                        lemma_exp2_add(e1 as int, one as int);
                        assert((m1 * a) * exp2(one as int) == m1 * exp2(e1 + one))
                            by (nonlinear_arith)
                            requires
                                exp2(e1 + one) == a * exp2(one as int),
                        ;
                        lemma_scaled_ratio::<DOUBLE>(
                            neg != neg2,
                            m1 as int,
                            m2 as int,
                            e1 + one,
                            e2 as int,
                        );
                    }
                    Self::from_scaled(neg != neg2, m1 as u128, m2 as u128, shift)
                } else if m1 == 0 {
                    Float { repr: Repr::Nan }
                } else {
                    Float { repr: Repr::Infinite(neg != neg2) }
                }
            },
        }
    }
}

/// A mantissa is zero where its number is.
proof fn lemma_mantissa_zero(mant: int, exp: int)
    requires
        0 <= mant,
    ensures
        (mant == 0) == (mant * exp2(exp) == 0),
        0 <= mant * exp2(exp),
{
    lemma_exp2_pos(exp);
    let e = exp2(exp);
    assert((mant == 0) == (mant * e == 0) && 0 <= mant * e) by (nonlinear_arith)
        requires
            1 <= e,
            0 <= mant,
    ;
}

/// `num * 2^up / (den * 2^down)` is `num / den`, scaled by the difference.
proof fn lemma_scaled_ratio<const DOUBLE: bool>(neg: bool, num: int, den: int, up: int, down: int)
    requires
        0 <= num,
        0 < den,
        0 <= up,
        0 <= down,
    ensures
        ({
            let (n, d) = scaled(num, den, up - down);
            Value::<DOUBLE>::rounded(neg, num * exp2(up), den * exp2(down)) == Value::<
                DOUBLE,
            >::rounded(neg, n, d)
        }),
{
    let (n, d) = scaled(num, den, up - down);
    if up >= down {
        let c = exp2(down);
        lemma_exp2_add(up - down, down);
        lemma_exp2_pos(down);
        lemma_mantissa_zero(num, up - down);
        assert(num * exp2(up) == n * c) by (nonlinear_arith)
            requires
                exp2(up) == exp2(up - down) * c,
                n == num * exp2(up - down),
        ;
        Value::<DOUBLE>::lemma_rounded_scale(neg, n, d, c);
    } else {
        let c = exp2(up);
        lemma_exp2_add(down - up, up);
        lemma_exp2_pos(up);
        lemma_mantissa_zero(den, down - up);
        assert(den * exp2(down) == d * c) by (nonlinear_arith)
            requires
                exp2(down) == exp2(down - up) * c,
                d == den * exp2(down - up),
        ;
        Value::<DOUBLE>::lemma_rounded_scale(neg, n, d, c);
    }
}

/// The ways to take the whole number of a fraction do not depend on how the
/// fraction is written.
proof fn lemma_whole_scale(n: int, d: int, c: int)
    requires
        0 <= n,
        0 < d,
        0 < c,
    ensures
        0 < d * c,
        (n * c) / (d * c) == n / d,
        (2 * (n * c) + d * c) / (2 * (d * c)) == (2 * n + d) / (2 * d),
        (2 * (n * c) + d * c - 1) / (2 * (d * c)) == (2 * n + d - 1) / (2 * d),
        half_even(n * c, d * c) == half_even(n, d),
{
    let a = 2 * n + d - 1;
    let b = 2 * d;
    lemma_fundamental_div_mod(a, b);
    assert(2 * (n * c) + d * c - 1 == (a / b) * (2 * (d * c)) + ((a % b) * c + c - 1))
        by (nonlinear_arith)
        requires
            a == 2 * n + d - 1,
            b == 2 * d,
            a == b * (a / b) + a % b,
    ;
    assert(0 <= (a % b) * c + c - 1 < 2 * (d * c)) by (nonlinear_arith)
        requires
            0 <= a % b,
            a % b + 1 <= b,
            b == 2 * d,
            0 < c,
    ;
    lemma_fundamental_div_mod_converse(
        2 * (n * c) + d * c - 1,
        2 * (d * c),
        a / b,
        (a % b) * c + c - 1,
    );
    lemma_half_even_scale(n, d, c);
    vstd::arithmetic::mul::lemma_mul_is_commutative(n, c);
    vstd::arithmetic::mul::lemma_mul_is_commutative(d, c);
    vstd::arithmetic::div_mod::lemma_div_multiples_vanish_quotient(c, n, d);
    vstd::arithmetic::div_mod::lemma_div_multiples_vanish_quotient(c, 2 * n + d, 2 * d);
    assert(c * (2 * n + d) == 2 * (n * c) + d * c && c * (2 * d) == 2 * (d * c))
        by (nonlinear_arith);
}

/// Below one half, all ways give zero.
proof fn lemma_whole_tiny(n: int, d: int)
    requires
        0 <= n,
        2 * n < d,
    ensures
        n / d == 0,
        (2 * n + d) / (2 * d) == 0,
        (2 * n + d - 1) / (2 * d) == 0,
        half_even(n, d) == 0,
{
    lemma_fundamental_div_mod_converse(2 * n + d - 1, 2 * d, 0, 2 * n + d - 1);
    lemma_fundamental_div_mod_converse(n, d, 0, n);
    lemma_fundamental_div_mod_converse(2 * n + d, 2 * d, 0, 2 * n + d);
}

/// On a whole number, all ways give that number.
proof fn lemma_whole_whole(n: int, d: int)
    requires
        0 <= n,
        0 < d,
    ensures
        (n * d) / d == n,
        (2 * (n * d) + d) / (2 * d) == n,
        (2 * (n * d) + d - 1) / (2 * d) == n,
        half_even(n * d, d) == n,
{
    lemma_half_even_whole(n, d);
    lemma_fundamental_div_mod_converse(n * d, d, n, 0);
    assert(2 * (n * d) + d == n * (2 * d) + d) by (nonlinear_arith);
    lemma_fundamental_div_mod_converse(2 * (n * d) + d, 2 * d, n, d);
    lemma_fundamental_div_mod_converse(2 * (n * d) + d - 1, 2 * d, n, d - 1);
}

/// Two to the power `k`.
fn power(k: u32) -> (r: u128)
    requires
        k <= 100,
    ensures
        r == exp2(k as int),
        1 <= r <= 0x10_0000_0000_0000_0000_0000_0000,
{
    let mut r: u128 = 1;
    let mut i: u32 = 0;
    proof {
        lemma_exp2_zero();
        lemma_exp2_100();
    }
    while i < k
        invariant
            i <= k <= 100,
            r == exp2(i as int),
            1 <= r <= 0x10_0000_0000_0000_0000_0000_0000,
            exp2(100) == 0x10_0000_0000_0000_0000_0000_0000,
        decreases k - i,
    {
        proof {
            lemma_exp2_succ(i as int);
            lemma_exp2_le(i as int + 1, 100);
        }
        r = r * 2;
        i = i + 1;
    }
    r
}

proof fn lemma_exp2_100()
    ensures
        exp2(100) == 0x10_0000_0000_0000_0000_0000_0000,
{
    vstd::arithmetic::power2::lemma2_to64();
    vstd::arithmetic::power2::lemma2_to64_rest();
    lemma_exp2_add(64, 36);
    let a = exp2(64);
    let b = exp2(36);
    assert(a * b == 0x10_0000_0000_0000_0000_0000_0000) by (nonlinear_arith)
        requires
            a == 0x1_0000_0000_0000_0000,
            b == 0x10_0000_0000,
    ;
}

/// Stored magnitudes are ordered by exponent, then by mantissa.
proof fn lemma_stored_order(double: bool, m1: int, e1: int, m2: int, e2: int)
    requires
        is_stored(double, m1, e1),
        is_stored(double, m2, e2),
    ensures
        (m1 * exp2(e1) < m2 * exp2(e2)) == (e1 < e2 || (e1 == e2 && m1 < m2)),
        (m1 * exp2(e1) == m2 * exp2(e2)) == (e1 == e2 && m1 == m2),
{
    if e1 < e2 {
        lemma_stored_gap(double, m1, e1, m2, e2);
    } else if e2 < e1 {
        lemma_stored_gap(double, m2, e2, m1, e1);
    } else {
        let e = exp2(e1);
        lemma_exp2_pos(e1);
        assert((m1 < m2) == (m1 * e < m2 * e)) by (nonlinear_arith)
            requires
                1 <= e,
        ;
        assert((m1 == m2) == (m1 * e == m2 * e)) by (nonlinear_arith)
            requires
                1 <= e,
        ;
    }
}

proof fn lemma_stored_gap(double: bool, m1: int, e1: int, m2: int, e2: int)
    requires
        is_stored(double, m1, e1),
        is_stored(double, m2, e2),
        e1 < e2,
    ensures
        m1 * exp2(e1) < m2 * exp2(e2),
{
    let a = exp2(e1);
    let b = exp2(e2);
    lemma_exp2_pos(e1);
    lemma_exp2_le(e1 + 1, e2);
    lemma_exp2_succ(e1);
    assert(m1 * a < m2 * b) by (nonlinear_arith)
        requires
            m1 < 2 * m2,
            0 <= m1,
            1 <= a,
            2 * a <= b,
            0 < m2,
    ;
}

impl<const DOUBLE: bool> Float<DOUBLE> {
    /// Whether the number is below the other.
    pub fn below(self, other: Self) -> (r: bool)
        ensures
            r == self@.below(other@),
    {
        proof {
            use_type_invariant(&self);
            use_type_invariant(&other);
        }
        match (self.repr, other.repr) {
            (Repr::Nan, _) => false,
            (_, Repr::Nan) => false,
            (Repr::Infinite(neg), Repr::Infinite(neg2)) => neg && !neg2,
            (Repr::Infinite(neg), Repr::Finite(_, _, _)) => neg,
            (Repr::Finite(_, _, _), Repr::Infinite(neg2)) => !neg2,
            (Repr::Finite(neg, m1, e1), Repr::Finite(neg2, m2, e2)) => {
                proof {
                    lemma_stored_order(DOUBLE, m1 as int, e1 as int, m2 as int, e2 as int);
                    lemma_stored_order(DOUBLE, m2 as int, e2 as int, m1 as int, e1 as int);
                    lemma_mantissa_zero(m1 as int, e1 as int);
                    lemma_mantissa_zero(m2 as int, e2 as int);
                }
                if neg && neg2 {
                    e2 < e1 || (e1 == e2 && m2 < m1)
                } else if neg {
                    m1 != 0 || m2 != 0
                } else if neg2 {
                    false
                } else {
                    e1 < e2 || (e1 == e2 && m1 < m2)
                }
            },
        }
    }

    /// Whether the two numbers are equal.
    pub fn equals(self, other: Self) -> (r: bool)
        ensures
            r == self@.equals(other@),
    {
        proof {
            use_type_invariant(&self);
            use_type_invariant(&other);
        }
        match (self.repr, other.repr) {
            (Repr::Infinite(neg), Repr::Infinite(neg2)) => neg == neg2,
            (Repr::Finite(neg, m1, e1), Repr::Finite(neg2, m2, e2)) => {
                proof {
                    lemma_stored_order(DOUBLE, m1 as int, e1 as int, m2 as int, e2 as int);
                    lemma_mantissa_zero(m1 as int, e1 as int);
                    lemma_mantissa_zero(m2 as int, e2 as int);
                }
                if neg == neg2 {
                    e1 == e2 && m1 == m2
                } else {
                    m1 == 0 && m2 == 0
                }
            },
            _ => false,
        }
    }

    /// Whether the number is the other or above it.
    pub fn at_least(self, other: Self) -> (r: bool)
        ensures
            r == self@.at_least(other@),
    {
        other.below(self) || self.equals(other)
    }

    /// Whether this is not a number.
    pub fn is_nan(self) -> (r: bool)
        ensures
            r == (self@ is Nan),
    {
        match self.repr {
            Repr::Nan => true,
            _ => false,
        }
    }

    /// The larger of two numbers.
    pub fn larger(self, other: Self) -> (r: Self)
        ensures
            r@ == self@.larger(other@),
    {
        if self.is_nan() || self.below(other) {
            other
        } else {
            self
        }
    }

    /// The smaller of two numbers.
    pub fn smaller(self, other: Self) -> (r: Self)
        ensures
            r@ == self@.smaller(other@),
    {
        if self.is_nan() || other.below(self) {
            other
        } else {
            self
        }
    }

    /// The number kept from `low` to `high`.
    pub fn kept_within(self, low: Self, high: Self) -> (r: Self)
        ensures
            r@ == self@.kept_within(low@, high@),
    {
        if self.below(low) {
            low
        } else if high.below(self) {
            high
        } else {
            self
        }
    }

    /// A fraction of small whole numbers with the same whole number as a stored
    /// magnitude, as far as a `u32` tells.
    fn fraction(mant: u64, exp: u32) -> (r: (u128, u128))
        requires
            is_stored(DOUBLE, mant as int, exp as int),
        ensures
            r.0 <= 0x1_0000_0000_0000_0000_0000_0000,
            1 <= r.1 <= 0x10_0000_0000_0000_0000_0000_0000,
            ({
                let mag = mant * exp2(exp as int);
                let one = Value::<DOUBLE>::one();
                let top = u32::MAX as int;
                let (n, d) = (r.0 as int, r.1 as int);
                &&& vstd::math::min(mag / one, top) == vstd::math::min(n / d, top)
                &&& vstd::math::min((2 * mag + one) / (2 * one), top) == vstd::math::min(
                    (2 * n + d) / (2 * d),
                    top,
                )
                &&& vstd::math::min((2 * mag + one - 1) / (2 * one), top) == vstd::math::min(
                    (2 * n + d - 1) / (2 * d),
                    top,
                )
                &&& vstd::math::min(half_even(mag, one), top) == vstd::math::min(
                    half_even(n, d),
                    top,
                )
            }),
    {
        let bits: u32 = if DOUBLE {
            1074
        } else {
            149
        };
        let ghost mag = mant * exp2(exp as int);
        let ghost one = Value::<DOUBLE>::one();
        proof {
            lemma_format_powers();
            vstd::arithmetic::power2::lemma2_to64_rest();
            lemma_exp2_pos(bits as int);
            lemma_exp2_pos(exp as int);
        }
        if exp >= bits {
            let up: u32 = exp - bits;
            proof {
                lemma_exp2_add(up as int, bits as int);
                let x = exp2(up as int);
                assert(mag == (mant * x) * one) by (nonlinear_arith)
                    requires
                        mag == mant * exp2(exp as int),
                        exp2(exp as int) == x * one,
                ;
                lemma_mantissa_zero(mant as int, up as int);
                lemma_whole_whole(mant * x, one);
            }
            if up > 40 {
                proof {
                    lemma_exp2_le(40, up as int);
                    let x = exp2(up as int);
                    assert(0x100_0000_0000 <= mant * x) by (nonlinear_arith)
                        requires
                            1 <= mant,
                            0x100_0000_0000 <= x,
                    ;
                    lemma_whole_whole(0x1_0000_0000, 1);
                }
                (0x1_0000_0000, 1)
            } else {
                let x: u128 = power(up);
                proof {
                    lemma_exp2_le(up as int, 40);
                    assert(mant * x <= 0x20_0000_0000_0000 * 0x100_0000_0000) by (nonlinear_arith)
                        requires
                            0 <= mant < 0x20_0000_0000_0000,
                            0 <= x <= 0x100_0000_0000,
                    ;
                    lemma_whole_whole(mant * x, 1);
                }
                (mant as u128 * x, 1)
            }
        } else {
            let down: u32 = bits - exp;
            proof {
                lemma_exp2_add(down as int, exp as int);
            }
            if down > 100 {
                proof {
                    lemma_exp2_le(64, down as int);
                    let x = exp2(exp as int);
                    let y = exp2(down as int);
                    assert(2 * mag < one) by (nonlinear_arith)
                        requires
                            mag == mant * x,
                            one == y * x,
                            0 <= mant,
                            2 * mant < y,
                            1 <= x,
                    ;
                    lemma_mantissa_zero(mant as int, exp as int);
                    lemma_whole_tiny(mag, one);
                    lemma_whole_tiny(0, 1);
                }
                (0, 1)
            } else {
                let y: u128 = power(down);
                proof {
                    lemma_whole_scale(mant as int, y as int, exp2(exp as int));
                }
                (mant as u128, y)
            }
        }
    }

    /// The number without its fraction.
    pub fn truncated(self) -> (r: u32)
        ensures
            r == self@.truncated(),
    {
        proof {
            use_type_invariant(&self);
        }
        match self.repr {
            Repr::Finite(false, mant, exp) => {
                let (n, d) = Self::fraction(mant, exp);
                let q: u128 = n / d;
                if q > u32::MAX as u128 {
                    u32::MAX
                } else {
                    q as u32
                }
            },
            Repr::Infinite(false) => u32::MAX,
            _ => 0,
        }
    }

    /// The whole number nearest to the number, ties away from zero.
    pub fn nearest(self) -> (r: u32)
        ensures
            r == self@.nearest(),
    {
        proof {
            use_type_invariant(&self);
        }
        match self.repr {
            Repr::Finite(false, mant, exp) => {
                let (n, d) = Self::fraction(mant, exp);
                let q: u128 = (2 * n + d) / (2 * d);
                if q > u32::MAX as u128 {
                    u32::MAX
                } else {
                    q as u32
                }
            },
            Repr::Infinite(false) => u32::MAX,
            _ => 0,
        }
    }

    /// The whole number nearest to the number, ties towards zero.
    pub fn nearest_down(self) -> (r: u32)
        ensures
            r == self@.nearest_down(),
    {
        proof {
            use_type_invariant(&self);
        }
        match self.repr {
            Repr::Finite(false, mant, exp) => {
                let (n, d) = Self::fraction(mant, exp);
                let q: u128 = (2 * n + d - 1) / (2 * d);
                if q > u32::MAX as u128 {
                    u32::MAX
                } else {
                    q as u32
                }
            },
            Repr::Infinite(false) => u32::MAX,
            _ => 0,
        }
    }

    /// The whole number nearest to the number, ties to the even one.
    pub fn nearest_even(self) -> (r: u32)
        ensures
            r == self@.nearest_even(),
    {
        proof {
            use_type_invariant(&self);
        }
        match self.repr {
            Repr::Finite(false, mant, exp) => {
                let (n, d) = Self::fraction(mant, exp);
                let q: u128 = n / d;
                let rem: u128 = n % d;
                let whole: u128 = if 2 * rem < d || (2 * rem == d && q % 2 == 0) {
                    q
                } else {
                    q + 1
                };
                if whole > u32::MAX as u128 {
                    u32::MAX
                } else {
                    whole as u32
                }
            },
            Repr::Infinite(false) => u32::MAX,
            _ => 0,
        }
    }
}

/// The value that the 32 bits of the interchange format stand for.
pub open spec fn single_value(bits: u32) -> Value<false> {
    let neg = 0x8000_0000 <= bits;
    let field = (bits % 0x8000_0000) / 0x80_0000;
    let low = bits % 0x80_0000;
    if field == 0xff {
        if low == 0 {
            Value::Infinite { neg }
        } else {
            Value::Nan
        }
    } else if field == 0 {
        Value::Finite { neg, mag: low as int }
    } else {
        Value::Finite { neg, mag: (0x80_0000 + low) * exp2(field - 1) }
    }
}

/// The same number in the 64-bit format.
pub open spec fn widened(value: Value<false>) -> Value<true> {
    match value {
        Value::Nan => Value::Nan,
        Value::Infinite { neg } => Value::Infinite { neg },
        Value::Finite { neg, mag } => Value::Finite { neg, mag: mag * exp2(925) },
    }
}

impl Float<false> {
    /// The number whose interchange format has these bits.
    pub fn from_bits(bits: u32) -> (r: Self)
        ensures
            r@ == single_value(bits),
    {
        let neg: bool = bits >= 0x8000_0000;
        let field: u32 = (bits % 0x8000_0000) / 0x80_0000;
        let low: u32 = bits % 0x80_0000;
        proof {
            lemma_exp2_zero();
        }
        if field == 0xff {
            if low == 0 {
                Float { repr: Repr::Infinite(neg) }
            } else {
                Float { repr: Repr::Nan }
            }
        } else if field == 0 {
            Float { repr: Repr::Finite(neg, low as u64, 0) }
        } else {
            Float { repr: Repr::Finite(neg, 0x80_0000 + low as u64, field - 1) }
        }
    }

    /// The bits of the number in the interchange format. What is not a number
    /// has one pattern here, the quiet one without a payload.
    pub fn to_bits(self) -> (r: u32)
        ensures
            single_value(r) == self@,
            self@ is Nan ==> r == 0x7fc0_0000,
    {
        proof {
            use_type_invariant(&self);
            lemma_exp2_zero();
        }
        match self.repr {
            Repr::Nan => 0x7fc0_0000,
            Repr::Infinite(neg) => if neg {
                0xff80_0000
            } else {
                0x7f80_0000
            },
            Repr::Finite(neg, mant, exp) => {
                let rest: u32 = exp * 0x80_0000 + mant as u32;
                if neg {
                    0x8000_0000 + rest
                } else {
                    rest
                }
            },
        }
    }

    /// The same number in the 64-bit format.
    pub fn widened(self) -> (r: Double)
        ensures
            r@ == widened(self@),
    {
        proof {
            use_type_invariant(&self);
        }
        match self.repr {
            Repr::Nan => Float { repr: Repr::Nan },
            Repr::Infinite(neg) => Float { repr: Repr::Infinite(neg) },
            Repr::Finite(neg, mant, exp) => {
                proof {
                    lemma_format_powers();
                    lemma_exp2_add(exp as int, 925);
                    lemma_exp2_pos(exp + 925);
                    let e = exp2(exp as int);
                    assert((mant * e) * exp2(925) == mant * exp2(exp + 925)) by (nonlinear_arith)
                        requires
                            exp2(exp + 925) == e * exp2(925),
                    ;
                    lemma_round_exact(53, mant as int, exp + 925);
                    lemma_exp2_le(exp + 925, 2000);
                    lemma_exp2_add(53, 2000);
                    lemma_exp2_lt(2053, 2098);
                    assert(mant * exp2(exp + 925) < exp2(2053)) by (nonlinear_arith)
                        requires
                            0 <= mant < exp2(53),
                            exp2(exp + 925) <= exp2(2000),
                            exp2(2053) == exp2(53) * exp2(2000),
                            1 <= exp2(exp + 925),
                    ;
                }
                Float::<true>::from_scaled(neg, mant as u128, 1, exp as i32 + 925)
            },
        }
    }
}

/// A number's bits determine it, and a number that is one has one pattern of
/// bits.
pub proof fn law_single_bits(a: u32, b: u32)
    requires
        single_value(a) == single_value(b),
        !(single_value(a) is Nan),
    ensures
        a == b,
{
    let fa = (a % 0x8000_0000) / 0x80_0000;
    let fb = (b % 0x8000_0000) / 0x80_0000;
    let la = a % 0x80_0000;
    let lb = b % 0x80_0000;
    lemma_exp2_zero();
    if fa != 0xff {
        let ma = if fa == 0 {
            la as int
        } else {
            0x80_0000 + la
        };
        let mb = if fb == 0 {
            lb as int
        } else {
            0x80_0000 + lb
        };
        let ea = if fa == 0 {
            0
        } else {
            fa - 1
        };
        let eb = if fb == 0 {
            0
        } else {
            fb - 1
        };
        assert(fb != 0xff);
        assert(la * 1 == la && lb * 1 == lb);
        assert(single_value(a)->Finite_mag == ma * exp2(ea));
        assert(single_value(b)->Finite_mag == mb * exp2(eb));
        lemma_stored_order(false, ma, ea, mb, eb);
        assert(ma == mb && ea == eb);
    }
    assert(fa == fb && la == lb);
    assert((a % 0x8000_0000) % 0x80_0000 == la && (b % 0x8000_0000) % 0x80_0000 == lb);
    assert(a % 0x8000_0000 == b % 0x8000_0000);
}

/// Consecutive patterns of bits stand for consecutive numbers, which lie one unit
/// apart at first and twice as far with each further exponent.
pub proof fn law_bits_count_up(bits: u32)
    requires
        bits < 0x7f7f_ffff,
    ensures
        single_value(0) == (Value::<false>::Finite { neg: false, mag: 0 }),
        ({
            let (a, b) = (single_value(bits), single_value((bits + 1) as u32));
            let field = bits / 0x80_0000;
            &&& a is Finite && !a->Finite_neg
            &&& b is Finite && !b->Finite_neg
            &&& b.units() - a.units() == exp2(
                if field == 0 {
                    0
                } else {
                    field - 1
                },
            )
        }),
{
    lemma_exp2_zero();
    let field = (bits / 0x80_0000) as int;
    let low = (bits % 0x80_0000) as int;
    let next = (bits + 1) as u32;
    assert(bits % 0x8000_0000 == bits && next % 0x8000_0000 == next);
    if low + 1 < 0x80_0000 {
        assert(next / 0x80_0000 == field && next % 0x80_0000 == low + 1);
        if field > 0 {
            let e = exp2(field - 1);
            assert((0x80_0000 + low + 1) * e == (0x80_0000 + low) * e + e) by (nonlinear_arith);
        }
    } else {
        assert(next / 0x80_0000 == field + 1 && next % 0x80_0000 == 0);
        if field > 0 {
            let e = exp2(field - 1);
            lemma_exp2_succ(field - 1);
            assert(0x80_0000 * (2 * e) == (0x80_0000 + low) * e + e) by (nonlinear_arith)
                requires
                    low == 0x7f_ffff,
            ;
        }
    }
}

/// The highest bit is the sign, and the bits from 0x7f80_0000 on stand for no
/// finite number: infinity, and then what is not a number.
pub proof fn law_bits_have_a_sign(bits: u32)
    requires
        bits < 0x8000_0000,
    ensures
        single_value(bits) is Finite <==> bits < 0x7f80_0000,
        single_value(bits) is Infinite <==> bits == 0x7f80_0000,
        !(single_value(bits) is Nan) ==> single_value((bits + 0x8000_0000) as u32)
            == single_value(bits).negated(),
        single_value(bits) is Nan ==> single_value((bits + 0x8000_0000) as u32) is Nan,
{
    let up = (bits + 0x8000_0000) as u32;
    assert(up % 0x8000_0000 == bits && bits % 0x8000_0000 == bits);
    assert(up % 0x80_0000 == bits % 0x80_0000);
}

} // verus!
