//! Binary32 floating point on bit patterns.
//!
//! `Single` holds the bits of an IEEE 754 single precision number. Every
//! finite number is a whole number of units of 2^-149, so each operation is
//! stated as exact integer arithmetic on units followed by one rounding to
//! the nearest number, ties to even.

use crate::rounding;
use crate::rounding::{bit_length, power_of_two, round_scaled, BINADE, INFINITE};
use vstd::arithmetic::div_mod;
use vstd::arithmetic::mul;
use vstd::arithmetic::power2;
use vstd::prelude::*;

verus! {

/// The sign bit.
pub const SIGN: u32 = 0x8000_0000;

/// The bits of a quiet NaN.
pub const QUIET: u32 = 0x7fc0_0000;

/// The bits of 1.0.
pub const ONE: u32 = 0x3f80_0000;

/// A single precision number, by its bits. Two of them are the same value of
/// this type when their bits are the same: both zeros are different values
/// here, and a NaN is the same value as itself.
#[derive(Clone, Copy, Debug, PartialEq, Eq, Structural)]
pub struct Single {
    pub bits: u32,
}

impl Single {
    /// Whether the sign bit is set.
    pub open spec fn negative(self) -> bool {
        self.bits >= SIGN
    }

    /// The bits below the sign.
    pub open spec fn pattern(self) -> int {
        self.bits as int % SIGN as int
    }

    pub open spec fn is_nan(self) -> bool {
        self.pattern() > INFINITE
    }

    pub open spec fn is_infinite(self) -> bool {
        self.pattern() == INFINITE
    }

    pub open spec fn is_finite(self) -> bool {
        self.pattern() < INFINITE
    }

    /// The magnitude in units of 2^-149.
    pub open spec fn magnitude(self) -> int {
        rounding::magnitude(self.pattern())
    }

    /// The value in units of 2^-149.
    pub open spec fn units(self) -> int {
        if self.negative() {
            -self.magnitude()
        } else {
            self.magnitude()
        }
    }

    /// The number with a sign and a pattern.
    pub open spec fn signed(negative: bool, pattern: int) -> Single {
        Single {
            bits: if negative {
                (pattern + SIGN) as u32
            } else {
                pattern as u32
            },
        }
    }

    /// The number with these bits.
    pub open spec fn of_bits(bits: u32) -> Single {
        Single { bits }
    }

    /// The canonical NaN.
    pub open spec fn nan() -> Single {
        Single::of_bits(QUIET)
    }

    /// `self + other`.
    #[verifier::opaque]
    pub open spec fn sum(self, other: Single) -> Single {
        if self.is_nan() || other.is_nan() {
            Single::nan()
        } else if self.is_infinite() {
            if other.is_infinite() && self.negative() != other.negative() {
                Single::nan()
            } else {
                self
            }
        } else if other.is_infinite() {
            other
        } else {
            let exact = self.units() + other.units();
            if exact == 0 {
                Single::signed(self.negative() && other.negative(), 0)
            } else {
                Single::signed(exact < 0, rounding::nearest(vstd::math::abs(exact) as int, 1))
            }
        }
    }

    /// `-self`.
    pub open spec fn negation(self) -> Single {
        Single::signed(!self.negative(), self.pattern())
    }

    /// `self - other`.
    pub open spec fn difference(self, other: Single) -> Single {
        self.sum(other.negation())
    }

    /// `self * other`.
    #[verifier::opaque]
    pub open spec fn product(self, other: Single) -> Single {
        let negative = self.negative() != other.negative();
        if self.is_nan() || other.is_nan() {
            Single::nan()
        } else if self.is_infinite() || other.is_infinite() {
            if self.pattern() == 0 || other.pattern() == 0 {
                Single::nan()
            } else {
                Single::signed(negative, INFINITE as int)
            }
        } else {
            Single::signed(
                negative,
                rounding::nearest(self.magnitude() * other.magnitude(), power2::pow2(149) as int),
            )
        }
    }

    /// `self / other`.
    #[verifier::opaque]
    pub open spec fn quotient(self, other: Single) -> Single {
        let negative = self.negative() != other.negative();
        if self.is_nan() || other.is_nan() {
            Single::nan()
        } else if self.is_infinite() {
            if other.is_infinite() {
                Single::nan()
            } else {
                Single::signed(negative, INFINITE as int)
            }
        } else if other.is_infinite() {
            Single::signed(negative, 0)
        } else if other.pattern() == 0 {
            if self.pattern() == 0 {
                Single::nan()
            } else {
                Single::signed(negative, INFINITE as int)
            }
        } else {
            Single::signed(
                negative,
                rounding::nearest(self.magnitude() * power2::pow2(149), other.magnitude()),
            )
        }
    }

    /// `self < other`, which no NaN takes part in.
    #[verifier::opaque]
    pub open spec fn lt(self, other: Single) -> bool {
        !self.is_nan() && !other.is_nan() && self.units() < other.units()
    }

    /// The lesser of two numbers, or the one that is a number.
    pub open spec fn lesser(self, other: Single) -> Single {
        if self.is_nan() || other.lt(self) {
            other
        } else {
            self
        }
    }

    /// The greater of two numbers, or the one that is a number.
    pub open spec fn greater(self, other: Single) -> Single {
        if self.is_nan() || self.lt(other) {
            other
        } else {
            self
        }
    }

    /// The least of four numbers, where those that are none are left out, and
    /// infinity where all are.
    pub open spec fn least_of(a: Single, b: Single, c: Single, d: Single) -> Single {
        Single::of_bits(INFINITE).lesser(a).lesser(b).lesser(c).lesser(d)
    }

    /// The greatest of four numbers, where those that are none are left out,
    /// and negative infinity where all are.
    pub open spec fn greatest_of(a: Single, b: Single, c: Single, d: Single) -> Single {
        Single::of_bits((INFINITE + SIGN) as u32).greater(a).greater(b).greater(c).greater(d)
    }

    /// The number closest to an integer.
    #[verifier::opaque]
    pub open spec fn of_int(n: int) -> Single {
        Single::signed(n < 0, rounding::nearest((vstd::math::abs(n) * power2::pow2(149)) as int, 1))
    }

    /// The integer closest to the number, halves away from zero, held within
    /// 32 bits. A NaN counts as zero.
    #[verifier::opaque]
    pub open spec fn rounded(self) -> int {
        let whole = if self.is_nan() {
            0
        } else {
            (2 * self.magnitude() + power2::pow2(149)) / (2 * power2::pow2(149) as int)
        };
        let signed = if self.negative() {
            -whole
        } else {
            whole
        };
        vstd::math::max(i32::MIN as int, vstd::math::min(signed, i32::MAX as int))
    }
}

/// The place of a pattern.
fn place_of(pattern: u32) -> (place: u32)
    requires
        pattern < INFINITE,
    ensures
        place == rounding::place(pattern as int),
        place <= 253,
{
    if pattern < BINADE {
        0
    } else {
        pattern / BINADE - 1
    }
}

/// The significand of a pattern.
fn significand_of(pattern: u32) -> (sig: u64)
    requires
        pattern < INFINITE,
    ensures
        sig == rounding::significand(pattern as int),
        sig < 2 * BINADE,
        pattern >= BINADE ==> sig >= BINADE,
        pattern > 0 ==> sig > 0,
        pattern as int == rounding::place(pattern as int) * BINADE + sig,
{
    let place: u32 = place_of(pattern);
    (pattern - place * BINADE) as u64
}

/// A sum or difference of magnitudes, once both are counted in units of
/// 2^place, cut at 2^(place + j).
proof fn lemma_aligned(num: int, sig: int, extra: int, place: nat, j: nat)
    requires
        num == (sig * power2::pow2(j) + extra) * power2::pow2(place),
        0 <= extra < power2::pow2(j),
    ensures
        rounding::scaled_to(num, 1, sig, place + j, 0, extra != 0),
{
    let unit = power2::pow2(j) as int;
    let base = power2::pow2(place) as int;
    power2::lemma2_to64();
    power2::lemma_pow2_pos(place);
    power2::lemma_pow2_adds(place, j);
    assert(num == sig * (base * unit) + extra * base) by (nonlinear_arith)
        requires
            num == (sig * unit + extra) * base,
    ;
    assert((sig + 1) * (base * unit) == sig * (base * unit) + base * unit) by (nonlinear_arith);
    if extra != 0 {
        assert(0 < extra * base < base * unit) by (nonlinear_arith)
            requires
                0 < extra < unit,
                base > 0,
        ;
    }
}

/// The pattern closest to the sum of two magnitudes, or to their difference.
fn combine(big: u32, small: u32, same: bool) -> (pattern: u32)
    requires
        small <= big < INFINITE,
    ensures
        ({
            let low = rounding::magnitude(small as int);
            let exact = rounding::magnitude(big as int) + (if same {
                low
            } else {
                -low
            });
            &&& exact >= 0
            &&& pattern == rounding::nearest(exact, 1)
            &&& rounding::rounds_to(exact, 1, pattern as int)
        }),
{
    let big_place: u32 = place_of(big);
    let small_place: u32 = place_of(small);
    let big_sig: u64 = significand_of(big);
    let small_sig: u64 = significand_of(small);
    let ghost low = rounding::magnitude(small as int);
    let ghost high = rounding::magnitude(big as int);
    let ghost exact = high + (if same {
        low
    } else {
        -low
    });
    let ghost base = power2::pow2(small_place as nat) as int;
    proof {
        if small < big {
            rounding::lemma_magnitude_increases(small as int, big as int);
        }
        assert(small_place <= big_place) by {
            if small >= BINADE {
                div_mod::lemma_div_is_ordered(small as int, big as int, BINADE as int);
            }
        }
        power2::lemma_pow2_pos(small_place as nat);
        power2::lemma2_to64();
        power2::lemma2_to64_rest();
    }
    let d: u32 = big_place - small_place;
    if d <= 38 {
        let shifted: u64 = {
            proof {
                if d < 38 {
                    power2::lemma_pow2_strictly_increases(d as nat, 38);
                }
                mul::lemma_mul_upper_bound(
                    big_sig as int,
                    0xff_ffff,
                    power2::pow2(d as nat) as int,
                    0x40_0000_0000,
                );
                power2::lemma_pow2_adds(d as nat, small_place as nat);
            }
            big_sig * power_of_two(d)
        };
        proof {
            mul::lemma_mul_is_associative(
                big_sig as int,
                power2::pow2(d as nat) as int,
                base,
            );
            assert(high == shifted * base);
            assert(low == small_sig * base);
            if small_sig > shifted {
                mul::lemma_mul_strict_inequality(shifted as int, small_sig as int, base);
            }
            mul::lemma_mul_is_distributive_add_other_way(base, shifted as int, small_sig as int);
            mul::lemma_mul_is_distributive_sub_other_way(base, shifted as int, small_sig as int);
        }
        let sig: u64 = if same {
            shifted + small_sig
        } else {
            shifted - small_sig
        };
        proof {
            lemma_aligned(exact, sig as int, 0, small_place as nat, 0);
        }
        round_scaled(sig, small_place, 0, false, Ghost(exact), Ghost(1int))
    } else {
        let j: u32 = d - 38;
        let shifted: u64 = big_sig * power_of_two(38);
        let ghost unit = power2::pow2(j as nat) as int;
        let kept: u64 = if j < 24 {
            small_sig / power_of_two(j)
        } else {
            0
        };
        let rest: u64 = if j < 24 {
            small_sig % power_of_two(j)
        } else {
            small_sig
        };
        proof {
            power2::lemma_pow2_pos(j as nat);
            if j > 24 {
                power2::lemma_pow2_strictly_increases(24, j as nat);
            }
            if j < 24 {
                div_mod::lemma_fundamental_div_mod(small_sig as int, unit);
                div_mod::lemma_div_is_ordered_by_denominator(small_sig as int, 1, unit);
            }
            assert(small_sig == kept * unit + rest) by (nonlinear_arith)
                requires
                    j < 24 ==> small_sig == unit * kept + rest,
                    j >= 24 ==> kept == 0 && rest == small_sig,
            ;
            power2::lemma_pow2_adds(38, j as nat);
            power2::lemma_pow2_adds(d as nat, small_place as nat);
            assert(high == (shifted * unit) * base) by (nonlinear_arith)
                requires
                    shifted == big_sig * 0x40_0000_0000,
                    power2::pow2(d as nat) == 0x40_0000_0000 * unit,
                    high == big_sig * power2::pow2(big_place as nat),
                    power2::pow2(big_place as nat) == power2::pow2(d as nat) * base,
            ;
            assert(low == (kept * unit + rest) * base);
        }
        if same {
            let sig: u64 = shifted + kept;
            proof {
                assert(exact == (sig * unit + rest) * base) by (nonlinear_arith)
                    requires
                        exact == (shifted * unit) * base + (kept * unit + rest) * base,
                        sig == shifted + kept,
                ;
                lemma_aligned(exact, sig as int, rest as int, small_place as nat, j as nat);
            }
            round_scaled(sig, small_place + j, 0, rest != 0, Ghost(exact), Ghost(1int))
        } else if rest == 0 {
            let sig: u64 = shifted - kept;
            proof {
                assert(exact == (sig * unit + 0) * base) by (nonlinear_arith)
                    requires
                        exact == (shifted * unit) * base - (kept * unit + 0) * base,
                        sig == shifted - kept,
                ;
                lemma_aligned(exact, sig as int, 0, small_place as nat, j as nat);
            }
            round_scaled(sig, small_place + j, 0, false, Ghost(exact), Ghost(1int))
        } else {
            let sig: u64 = shifted - kept - 1;
            proof {
                assert(exact == (sig * unit + (unit - rest)) * base) by (nonlinear_arith)
                    requires
                        exact == (shifted * unit) * base - (kept * unit + rest) * base,
                        sig == shifted - kept - 1,
                ;
                lemma_aligned(
                    exact,
                    sig as int,
                    unit - rest,
                    small_place as nat,
                    j as nat,
                );
            }
            round_scaled(sig, small_place + j, 0, true, Ghost(exact), Ghost(1int))
        }
    }
}

impl Single {
    /// The number with these bits.
    pub fn from_bits(bits: u32) -> (number: Single)
        ensures
            number.bits == bits,
    {
        Single { bits }
    }

    /// The bits of the number.
    pub fn to_bits(self) -> (bits: u32)
        ensures
            bits == self.bits,
    {
        self.bits
    }

    /// The bits below the sign, and the sign.
    fn parts(self) -> (parts: (u32, bool))
        ensures
            parts.0 == self.pattern(),
            parts.1 == self.negative(),
    {
        (self.bits % SIGN, self.bits >= SIGN)
    }

    /// The number with this sign and pattern.
    fn with_sign(negative: bool, pattern: u32) -> (number: Single)
        requires
            pattern < SIGN,
        ensures
            number == Single::signed(negative, pattern as int),
            number.negative() == negative,
            number.pattern() == pattern,
    {
        if negative {
            Single { bits: pattern + SIGN }
        } else {
            Single { bits: pattern }
        }
    }

    /// Addition.
    pub fn plus(self, other: Single) -> (number: Single)
        ensures
            number == self.sum(other),
    {
        proof {
            reveal(Single::sum);
        }
        let (a, a_negative) = self.parts();
        let (b, b_negative) = other.parts();
        if a > INFINITE || b > INFINITE {
            Single { bits: QUIET }
        } else if a == INFINITE {
            if b == INFINITE && a_negative != b_negative {
                Single { bits: QUIET }
            } else {
                self
            }
        } else if b == INFINITE {
            other
        } else {
            let same: bool = a_negative == b_negative;
            proof {
                rounding::lemma_magnitude_sign(a as int);
                rounding::lemma_magnitude_sign(b as int);
                if a < b {
                    rounding::lemma_magnitude_increases(a as int, b as int);
                }
                if b < a {
                    rounding::lemma_magnitude_increases(b as int, a as int);
                }
                rounding::lemma_exact(1, 0);
            }
            if a == b && !same {
                Single { bits: 0 }
            } else if a >= b {
                Single::with_sign(a_negative, combine(a, b, same))
            } else {
                Single::with_sign(b_negative, combine(b, a, same))
            }
        }
    }

    /// Change of sign.
    pub fn negated(self) -> (number: Single)
        ensures
            number == self.negation(),
    {
        let (pattern, negative) = self.parts();
        Single::with_sign(!negative, pattern)
    }

    /// Subtraction.
    pub fn minus(self, other: Single) -> (number: Single)
        ensures
            number == self.difference(other),
    {
        self.plus(other.negated())
    }

    /// Multiplication.
    pub fn times(self, other: Single) -> (number: Single)
        ensures
            number == self.product(other),
    {
        proof {
            reveal(Single::product);
        }
        let (a, a_negative) = self.parts();
        let (b, b_negative) = other.parts();
        let negative: bool = a_negative != b_negative;
        if a > INFINITE || b > INFINITE {
            Single { bits: QUIET }
        } else if a == INFINITE || b == INFINITE {
            if a == 0 || b == 0 {
                Single { bits: QUIET }
            } else {
                Single::with_sign(negative, INFINITE)
            }
        } else {
            let a_sig: u64 = significand_of(a);
            let b_sig: u64 = significand_of(b);
            let a_place: u32 = place_of(a);
            let b_place: u32 = place_of(b);
            proof {
                mul::lemma_mul_upper_bound(a_sig as int, 0xff_ffff, b_sig as int, 0xff_ffff);
            }
            let sig: u64 = a_sig * b_sig;
            let ghost num = self.magnitude() * other.magnitude();
            let ghost den = power2::pow2(149) as int;
            proof {
                let a_base = power2::pow2(a_place as nat) as int;
                let b_base = power2::pow2(b_place as nat) as int;
                power2::lemma_pow2_pos(149);
                power2::lemma_pow2_adds(a_place as nat, b_place as nat);
                assert(num * den == sig * ((a_base * b_base) * den)) by (nonlinear_arith)
                    requires
                        num == (a_sig * a_base) * (b_sig * b_base),
                        sig == a_sig * b_sig,
                ;
            }
            let pattern: u32 = round_scaled(
                sig,
                a_place + b_place,
                149,
                false,
                Ghost(num),
                Ghost(den),
            );
            Single::with_sign(negative, pattern)
        }
    }

    /// Division.
    pub fn divided_by(self, other: Single) -> (number: Single)
        ensures
            number == self.quotient(other),
    {
        proof {
            reveal(Single::quotient);
        }
        let (a, a_negative) = self.parts();
        let (b, b_negative) = other.parts();
        let negative: bool = a_negative != b_negative;
        if a > INFINITE || b > INFINITE {
            Single { bits: QUIET }
        } else if a == INFINITE {
            if b == INFINITE {
                Single { bits: QUIET }
            } else {
                Single::with_sign(negative, INFINITE)
            }
        } else if b == INFINITE {
            Single::with_sign(negative, 0)
        } else if b == 0 {
            if a == 0 {
                Single { bits: QUIET }
            } else {
                Single::with_sign(negative, INFINITE)
            }
        } else {
            Single::with_sign(negative, divide(a, b))
        }
    }
}

/// The pattern closest to the quotient of two magnitudes.
fn divide(a: u32, b: u32) -> (pattern: u32)
    requires
        a < INFINITE,
        0 < b < INFINITE,
    ensures
        ({
            let num = rounding::magnitude(a as int) * power2::pow2(149);
            let den = rounding::magnitude(b as int);
            &&& pattern == rounding::nearest(num, den)
            &&& rounding::rounds_to(num, den, pattern as int)
        }),
{
    let a_place: u32 = place_of(a);
    let b_place: u32 = place_of(b);
    let a_sig: u64 = significand_of(a);
    let b_sig: u64 = significand_of(b);
    let ghost num = rounding::magnitude(a as int) * power2::pow2(149);
    let ghost den = rounding::magnitude(b as int);
    let ghost a_base = power2::pow2(a_place as nat) as int;
    let ghost b_base = power2::pow2(b_place as nat) as int;
    proof {
        rounding::lemma_magnitude_sign(b as int);
        power2::lemma2_to64();
        power2::lemma2_to64_rest();
    }
    if a == 0 {
        proof {
            rounding::lemma_magnitude_sign(0);
            rounding::lemma_exact(den, 0);
            mul::lemma_mul_basics(power2::pow2(149) as int);
            mul::lemma_mul_basics(den);
        }
        return 0;
    }
    let length: u32 = bit_length(a_sig);
    proof {
        if length > 24 {
            if length > 25 {
                power2::lemma_pow2_strictly_increases(24, (length - 1) as nat);
            }
        }
    }
    let shift: u32 = 24 - length;
    proof {
        power2::lemma_pow2_adds(length as nat, shift as nat);
        power2::lemma_pow2_adds((length - 1) as nat, shift as nat);
        power2::lemma_pow2_pos(shift as nat);
        mul::lemma_mul_strict_inequality(
            a_sig as int,
            power2::pow2(length as nat) as int,
            power2::pow2(shift as nat) as int,
        );
        mul::lemma_mul_inequality(
            power2::pow2((length - 1) as nat) as int,
            a_sig as int,
            power2::pow2(shift as nat) as int,
        );
    }
    let dividend: u64 = a_sig * power_of_two(shift) * power_of_two(39);
    let sig: u64 = dividend / b_sig;
    let rest: u64 = dividend % b_sig;
    let e: u32 = a_place + 110 - shift;
    proof {
        let raised = power2::pow2(shift as nat) as int;
        let big_e = power2::pow2(e as nat) as int;
        div_mod::lemma_fundamental_div_mod(dividend as int, b_sig as int);
        div_mod::lemma_div_is_ordered_by_denominator(dividend as int, 1, b_sig as int);
        div_mod::lemma_div_is_ordered_by_denominator(
            dividend as int,
            b_sig as int,
            0x100_0000,
        );
        power2::lemma_pow2_pos(e as nat);
        power2::lemma_pow2_pos(b_place as nat);
        power2::lemma_pow2_adds(a_place as nat, 149);
        power2::lemma_pow2_adds(e as nat, 39);
        power2::lemma_pow2_adds((e + 39) as nat, shift as nat);
        assert(num == dividend * big_e) by (nonlinear_arith)
            requires
                num == (a_sig * a_base) * power2::pow2(149),
                a_base * power2::pow2(149) == (big_e * 0x80_0000_0000) * raised,
                dividend == (a_sig * raised) * 0x80_0000_0000,
        ;
        let scale = big_e * den;
        let cut = rest * (big_e * b_base);
        assert(num * b_base == sig * scale + cut) by (nonlinear_arith)
            requires
                num == dividend * big_e,
                dividend == b_sig * sig + rest,
                scale == big_e * den,
                den == b_sig * b_base,
                cut == rest * (big_e * b_base),
        ;
        assert((sig + 1) * scale == sig * scale + scale) by (nonlinear_arith);
        assert(0 <= cut < scale && (rest > 0 ==> cut > 0) && (rest == 0 ==> cut == 0))
            by (nonlinear_arith)
            requires
                scale == big_e * den,
                den == b_sig * b_base,
                cut == rest * (big_e * b_base),
                0 <= rest < b_sig,
                big_e > 0,
                b_base > 0,
        {
            assert(big_e * b_base > 0);
            assert(scale == b_sig * (big_e * b_base));
        }
    }
    round_scaled(sig, e, b_place, rest != 0, Ghost(num), Ghost(den))
}

/// A whole number of units and a half, counted in larger units.
proof fn lemma_scaled_half(sig: int, place: nat)
    requires
        0 <= sig,
    ensures
        place >= 149 ==> (2 * (sig * power2::pow2(place)) + power2::pow2(149)) / (2
            * power2::pow2(149) as int) == sig * power2::pow2((place - 149) as nat),
        place < 149 ==> (2 * (sig * power2::pow2(place)) + power2::pow2(149)) / (2
            * power2::pow2(149) as int) == (2 * sig + power2::pow2((149 - place) as nat)) / (2
            * power2::pow2((149 - place) as nat) as int),
{
    let whole = power2::pow2(149) as int;
    power2::lemma_pow2_pos(149);
    if place >= 149 {
        let t = (place - 149) as nat;
        let w = sig * power2::pow2(t);
        power2::lemma_pow2_adds(t, 149);
        assert(2 * (sig * power2::pow2(place)) + whole == (2 * whole) * w + whole)
            by (nonlinear_arith)
            requires
                power2::pow2(place) == power2::pow2(t) * whole,
                w == sig * power2::pow2(t),
        ;
        div_mod::lemma_fundamental_div_mod_converse(
            2 * (sig * power2::pow2(place)) + whole,
            2 * whole,
            w,
            whole,
        );
    } else {
        let s = (149 - place) as nat;
        let part = power2::pow2(s) as int;
        let base = power2::pow2(place) as int;
        power2::lemma_pow2_pos(s);
        power2::lemma_pow2_pos(place);
        power2::lemma_pow2_adds(place, s);
        assert(2 * (sig * base) + whole == base * (2 * sig + part)) by (nonlinear_arith)
            requires
                whole == base * part,
        ;
        assert(2 * whole == base * (2 * part)) by (nonlinear_arith)
            requires
                whole == base * part,
        ;
        div_mod::lemma_div_denominator(base * (2 * sig + part), base, 2 * part);
        div_mod::lemma_div_multiples_vanish(2 * sig + part, base);
    }
}

impl Single {
    /// Comparison.
    pub fn less_than(self, other: Single) -> (less: bool)
        ensures
            less == self.lt(other),
    {
        proof {
            reveal(Single::lt);
        }
        let (a, a_negative) = self.parts();
        let (b, b_negative) = other.parts();
        proof {
            rounding::lemma_magnitude_sign(a as int);
            rounding::lemma_magnitude_sign(b as int);
            if a < b {
                rounding::lemma_magnitude_increases(a as int, b as int);
            }
            if b < a {
                rounding::lemma_magnitude_increases(b as int, a as int);
            }
        }
        if a > INFINITE || b > INFINITE {
            false
        } else if a_negative {
            if b_negative {
                b < a
            } else {
                a > 0 || b > 0
            }
        } else {
            !b_negative && a < b
        }
    }

    /// Whether the number is a NaN.
    pub fn not_a_number(self) -> (nan: bool)
        ensures
            nan == self.is_nan(),
    {
        self.parts().0 > INFINITE
    }

    /// The lesser of two numbers.
    pub fn min(self, other: Single) -> (number: Single)
        ensures
            number == self.lesser(other),
    {
        if self.not_a_number() || other.less_than(self) {
            other
        } else {
            self
        }
    }

    /// The greater of two numbers.
    pub fn max(self, other: Single) -> (number: Single)
        ensures
            number == self.greater(other),
    {
        if self.not_a_number() || self.less_than(other) {
            other
        } else {
            self
        }
    }

    /// The least of four numbers.
    pub fn min_of(a: Single, b: Single, c: Single, d: Single) -> (number: Single)
        ensures
            number == Single::least_of(a, b, c, d),
    {
        Single { bits: INFINITE }.min(a).min(b).min(c).min(d)
    }

    /// The greatest of four numbers.
    pub fn max_of(a: Single, b: Single, c: Single, d: Single) -> (number: Single)
        ensures
            number == Single::greatest_of(a, b, c, d),
    {
        Single { bits: INFINITE + SIGN }.max(a).max(b).max(c).max(d)
    }

    /// Conversion from an unsigned integer.
    pub fn from_u32(n: u32) -> (number: Single)
        ensures
            number == Single::of_int(n as int),
    {
        proof {
            reveal(Single::of_int);
        }
        let ghost num = n * power2::pow2(149);
        proof {
            power2::lemma2_to64();
        }
        let pattern: u32 = round_scaled(n as u64, 149, 0, false, Ghost(num), Ghost(1int));
        Single::with_sign(false, pattern)
    }

    /// Conversion from a signed integer.
    pub fn from_i32(n: i32) -> (number: Single)
        ensures
            number == Single::of_int(n as int),
    {
        proof {
            reveal(Single::of_int);
        }
        if n >= 0 {
            Single::from_u32(n as u32)
        } else {
            let size: u64 = (-(n as i64)) as u64;
            let ghost num = size * power2::pow2(149);
            proof {
                power2::lemma2_to64();
            }
            let pattern: u32 = round_scaled(size, 149, 0, false, Ghost(num), Ghost(1int));
            Single::with_sign(true, pattern)
        }
    }

    /// Rounding to the closest integer, held within 32 bits.
    pub fn round(self) -> (n: i32)
        ensures
            n == self.rounded(),
    {
        proof {
            reveal(Single::rounded);
        }
        let (pattern, negative) = self.parts();
        if pattern > INFINITE {
            return 0;
        }
        let size: u64 = whole_part(pattern);
        if negative {
            if size > 0x8000_0000 {
                i32::MIN
            } else {
                (-(size as i64)) as i32
            }
        } else if size > 0x7fff_ffff {
            i32::MAX
        } else {
            size as i32
        }
    }
}

/// The integer closest to a magnitude, or a number above 32 bits where it is.
fn whole_part(pattern: u32) -> (size: u64)
    requires
        pattern <= INFINITE,
    ensures
        ({
            let exact = (2 * rounding::magnitude(pattern as int) + power2::pow2(149)) / (2
                * power2::pow2(149) as int);
            if exact < 0x1_0000_0000 {
                size == exact
            } else {
                size >= 0x1_0000_0000
            }
        }),
{
    proof {
        power2::lemma2_to64();
        power2::lemma2_to64_rest();
        lemma_scaled_half(
            rounding::significand(pattern as int),
            rounding::place(pattern as int),
        );
    }
    if pattern == INFINITE {
        proof {
            lemma_large(BINADE as int, 105);
        }
        return 0x1_0000_0000;
    }
    let place: u32 = place_of(pattern);
    let sig: u64 = significand_of(pattern);
    if place >= 149 {
        let t: u32 = place - 149;
        if t > 8 {
            proof {
                lemma_large(sig as int, t as nat);
            }
            0x1_0000_0000
        } else {
            proof {
                if t < 8 {
                    power2::lemma_pow2_strictly_increases(t as nat, 8);
                }
                mul::lemma_mul_upper_bound(
                    sig as int,
                    0xff_ffff,
                    power2::pow2(t as nat) as int,
                    0x100,
                );
            }
            sig * power_of_two(t)
        }
    } else {
        let s: u32 = 149 - place;
        if s > 25 {
            proof {
                let part = power2::pow2(s as nat) as int;
                power2::lemma_pow2_strictly_increases(25, s as nat);
                div_mod::lemma_basic_div(2 * sig + part, 2 * part);
            }
            0
        } else {
            let part: u64 = power_of_two(s);
            proof {
                if s < 25 {
                    power2::lemma_pow2_strictly_increases(s as nat, 25);
                }
                div_mod::lemma_div_is_ordered_by_denominator(2 * sig + part, 1, 2 * part);
            }
            (2 * sig + part) / (2 * part)
        }
    }
}

/// A significand of full length, shifted far enough, exceeds 32 bits.
proof fn lemma_large(sig: int, t: nat)
    requires
        sig >= BINADE,
        t > 8,
    ensures
        sig * power2::pow2(t) >= 0x1_0000_0000,
{
    power2::lemma2_to64();
    if t > 9 {
        power2::lemma_pow2_strictly_increases(9, t);
    }
    mul::lemma_mul_inequality(BINADE as int, sig, power2::pow2(t) as int);
    mul::lemma_mul_inequality(0x200, power2::pow2(t) as int, BINADE as int);
}

impl Single {
    /// Whether two numbers are finite and have the same value: they differ at
    /// most as the two zeros do.
    pub open spec fn same_value(self, other: Single) -> bool {
        self.is_finite() && other.is_finite() && self.units() == other.units()
    }

    /// Whether two numbers are the same: of the same value where either is
    /// finite, and of the same bits where neither is.
    pub open spec fn same_number(self, other: Single) -> bool {
        if self.is_finite() || other.is_finite() {
            self.same_value(other)
        } else {
            self == other
        }
    }

    /// Whether a sum is a number that no rounding has changed.
    pub open spec fn sum_is_exact(self, other: Single) -> bool {
        let total = self.sum(other);
        &&& self.is_finite() && other.is_finite() && total.is_finite()
        &&& total.units() == self.units() + other.units()
    }

    /// Whether a product is a number that no rounding has changed.
    pub open spec fn product_is_exact(self, other: Single) -> bool {
        let total = self.product(other);
        &&& self.is_finite() && other.is_finite() && total.is_finite()
        &&& total.units() * power2::pow2(149) == self.units() * other.units()
    }
}

/// The magnitude of one, in units of 2^-149.
pub proof fn lemma_magnitude_of_one()
    ensures
        rounding::magnitude(ONE as int) == power2::pow2(149),
{
    power2::lemma2_to64();
    power2::lemma_pow2_adds(23, 126);
}

/// One times a finite number is that number.
pub proof fn lemma_one_times(x: Single)
    requires
        x.is_finite(),
    ensures
        Single::of_bits(ONE).product(x) == x,
        x.product(Single::of_bits(ONE)) == x,
{
    reveal(Single::product);
    lemma_magnitude_of_one();
    power2::lemma_pow2_pos(149);
    rounding::lemma_exact(power2::pow2(149) as int, x.pattern());
    mul::lemma_mul_is_commutative(x.magnitude(), power2::pow2(149) as int);
}

/// A zero times a finite number is a zero.
pub proof fn lemma_zero_times(zero: Single, x: Single)
    requires
        zero.pattern() == 0,
        x.is_finite(),
    ensures
        zero.product(x).pattern() == 0,
        x.product(zero).pattern() == 0,
{
    reveal(Single::product);
    let den = power2::pow2(149) as int;
    power2::lemma_pow2_pos(149);
    rounding::lemma_magnitude_sign(0);
    rounding::lemma_exact(den, 0);
    mul::lemma_mul_basics(x.magnitude());
    mul::lemma_mul_basics(den);
}

/// Adding a zero to a finite number keeps its value.
pub proof fn lemma_plus_zero(x: Single, zero: Single)
    requires
        x.is_finite(),
        zero.pattern() == 0,
    ensures
        x.sum(zero).same_value(x),
        zero.sum(x).same_value(x),
        x.pattern() != 0 ==> x.sum(zero) == x && zero.sum(x) == x,
{
    reveal(Single::sum);
    rounding::lemma_magnitude_sign(0);
    rounding::lemma_magnitude_sign(x.pattern());
    rounding::lemma_exact(1, x.pattern());
}

/// The sum of two zeros is a zero.
pub proof fn lemma_zero_sum(a: Single, b: Single)
    requires
        a.pattern() == 0,
        b.pattern() == 0,
    ensures
        a.sum(b).pattern() == 0,
{
    reveal(Single::sum);
    rounding::lemma_magnitude_sign(0);
}

/// A sum depends on the values of what is added only.
pub proof fn lemma_sum_respects_value(a: Single, b: Single, c: Single)
    requires
        a.same_value(b),
        c.is_finite(),
    ensures
        a.sum(c).units() == b.sum(c).units(),
        a.sum(c).is_finite() == b.sum(c).is_finite(),
        c.sum(a).units() == c.sum(b).units(),
        c.sum(a).is_finite() == c.sum(b).is_finite(),
{
    reveal(Single::sum);
    rounding::lemma_magnitude_sign(0);
}

/// The sum of numbers of at most 2^32 in size is finite.
pub proof fn lemma_sum_is_finite(a: Single, b: Single)
    requires
        a.pattern() <= 0x4f80_0000,
        b.pattern() <= 0x4f80_0000,
    ensures
        a.sum(b).pattern() <= 0x5000_0000,
        a.sum(b).is_finite(),
{
    reveal(Single::sum);
    let exact = a.units() + b.units();
    let size = vstd::math::abs(exact) as int;
    rounding::lemma_magnitude_sign(a.pattern());
    rounding::lemma_magnitude_sign(b.pattern());
    if a.pattern() < 0x4f80_0000 {
        rounding::lemma_magnitude_increases(a.pattern(), 0x4f80_0000);
    }
    if b.pattern() < 0x4f80_0000 {
        rounding::lemma_magnitude_increases(b.pattern(), 0x4f80_0000);
    }
    rounding::lemma_next_binade(0x4f80_0000);
    rounding::lemma_nearest_is_bounded(size, 1, 0x5000_0000);
}

/// The sum of two numbers without a sign grows with both of them.
pub proof fn lemma_sum_is_monotone(
    a: Single,
    larger_a: Single,
    b: Single,
    larger_b: Single,
    bound: int,
)
    requires
        0 <= a.bits <= larger_a.bits <= bound,
        0 <= b.bits <= larger_b.bits <= bound,
        BINADE <= bound,
        bound + BINADE < INFINITE,
    ensures
        a.sum(b).bits <= larger_a.sum(larger_b).bits <= bound + BINADE,
{
    reveal(Single::sum);
    let exact = a.magnitude() + b.magnitude();
    let larger = larger_a.magnitude() + larger_b.magnitude();
    rounding::lemma_magnitude_sign(a.pattern());
    rounding::lemma_magnitude_sign(b.pattern());
    lemma_units_follow_patterns(false, a.pattern(), larger_a.pattern());
    lemma_units_follow_patterns(false, b.pattern(), larger_b.pattern());
    lemma_units_follow_patterns(false, larger_a.pattern(), bound);
    lemma_units_follow_patterns(false, larger_b.pattern(), bound);
    rounding::lemma_next_binade(bound);
    rounding::lemma_magnitude_sign(0);
    rounding::lemma_exact(1, 0);
    rounding::lemma_nearest_is_monotone(exact, larger, 1);
    rounding::lemma_nearest_is_bounded(exact, 1, bound + BINADE);
    rounding::lemma_nearest_is_bounded(larger, 1, bound + BINADE);
}

/// The product with a factor of at most one, all without a sign, grows with
/// the other factor and does not exceed it.
pub proof fn lemma_product_is_monotone(factor: Single, x: Single, larger: Single)
    requires
        factor.bits <= ONE,
        x.bits <= larger.bits < INFINITE,
    ensures
        factor.product(x).bits <= factor.product(larger).bits <= larger.bits,
{
    reveal(Single::product);
    let den = power2::pow2(149) as int;
    power2::lemma_pow2_pos(149);
    lemma_magnitude_of_one();
    rounding::lemma_magnitude_sign(factor.pattern());
    rounding::lemma_magnitude_sign(x.pattern());
    rounding::lemma_magnitude_sign(larger.pattern());
    lemma_units_follow_patterns(false, factor.pattern(), ONE as int);
    lemma_units_follow_patterns(false, x.pattern(), larger.pattern());
    mul::lemma_mul_inequality(x.magnitude(), larger.magnitude(), factor.magnitude());
    mul::lemma_mul_is_commutative(factor.magnitude(), x.magnitude());
    mul::lemma_mul_is_commutative(factor.magnitude(), larger.magnitude());
    mul::lemma_mul_inequality(factor.magnitude(), den, larger.magnitude());
    rounding::lemma_nearest_is_monotone(
        factor.magnitude() * x.magnitude(),
        factor.magnitude() * larger.magnitude(),
        den,
    );
    rounding::lemma_nearest_is_bounded(
        factor.magnitude() * larger.magnitude(),
        den,
        larger.pattern(),
    );
    rounding::lemma_nearest_total(factor.magnitude() * x.magnitude(), den);
}

/// A 32-bit integer, as a number, is at most 2^32 in size.
pub proof fn lemma_of_int_is_finite(n: int)
    requires
        -0x1_0000_0000 <= n <= 0x1_0000_0000,
    ensures
        Single::of_int(n).pattern() <= 0x4f80_0000,
        Single::of_int(n).is_finite(),
{
    reveal(Single::of_int);
    let size = vstd::math::abs(n) as int;
    let scale = power2::pow2(149) as int;
    power2::lemma_pow2_pos(149);
    assert(rounding::magnitude(0x4f80_0000) == 0x1_0000_0000 * scale) by {
        assert(rounding::place(0x4f80_0000) == 158);
        power2::lemma_pow2_adds(9, 149);
        power2::lemma2_to64();
        mul::lemma_mul_is_associative(BINADE as int, 0x200, scale);
    }
    mul::lemma_mul_inequality(size, 0x1_0000_0000, scale);
    rounding::lemma_nearest_is_bounded(size * scale, 1, 0x4f80_0000);
}

/// Dividing by a number of at least one does not make a number larger.
pub proof fn lemma_quotient_is_bounded(x: Single, divisor: Single)
    requires
        x.is_finite(),
        ONE <= divisor.bits < INFINITE,
    ensures
        x.quotient(divisor).pattern() <= x.pattern(),
        x.quotient(divisor).negative() == x.negative(),
{
    reveal(Single::quotient);
    let scale = power2::pow2(149) as int;
    lemma_magnitude_of_one();
    rounding::lemma_magnitude_sign(x.pattern());
    rounding::lemma_magnitude_sign(divisor.pattern());
    if ONE < divisor.pattern() {
        rounding::lemma_magnitude_increases(ONE as int, divisor.pattern());
    }
    mul::lemma_mul_inequality(scale, divisor.magnitude(), x.magnitude());
    mul::lemma_mul_is_commutative(scale, x.magnitude());
    rounding::lemma_nearest_is_bounded(
        x.magnitude() * scale,
        divisor.magnitude(),
        x.pattern(),
    );
}

/// Neither of two numbers is below the lesser or above the greater of them,
/// and the greater is not below the lesser.
pub proof fn lemma_lesser_and_greater(a: Single, b: Single)
    ensures
        !a.lt(a.lesser(b)),
        !b.lt(a.lesser(b)),
        !a.greater(b).lt(a),
        !a.greater(b).lt(b),
        !a.greater(b).lt(a.lesser(b)),
{
    reveal(Single::lt);
}

/// What is not below a number is not below the lesser of that number and
/// another.
pub proof fn lemma_lesser_goes_down(x: Single, a: Single, b: Single)
    requires
        !x.lt(a),
        !a.is_nan(),
    ensures
        !x.lt(a.lesser(b)),
        !a.lesser(b).is_nan(),
{
    reveal(Single::lt);
}

/// What is not above a number is not above the greater of that number and
/// another.
pub proof fn lemma_greater_goes_up(x: Single, a: Single, b: Single)
    requires
        !a.lt(x),
        !a.is_nan(),
    ensures
        !a.greater(b).lt(x),
        !a.greater(b).is_nan(),
{
    reveal(Single::lt);
}

/// Numbers of the same sign are ordered as their patterns are, or against
/// them.
proof fn lemma_units_follow_patterns(negative: bool, p1: int, p2: int)
    requires
        0 <= p1 <= p2 < INFINITE,
    ensures
        !negative ==> Single::signed(negative, p1).units() <= Single::signed(negative, p2).units(),
        negative ==> Single::signed(negative, p2).units() <= Single::signed(negative, p1).units(),
{
    if p1 < p2 {
        rounding::lemma_magnitude_increases(p1, p2);
    }
}

/// Conversion of 32-bit integers keeps their order.
pub proof fn lemma_of_int_is_monotone(n1: int, n2: int)
    requires
        -0x1_0000_0000 <= n1 <= n2 <= 0x1_0000_0000,
    ensures
        Single::of_int(n1).units() <= Single::of_int(n2).units(),
{
    lemma_of_int_is_finite(n1);
    lemma_of_int_is_finite(n2);
    reveal(Single::of_int);
    let scale = power2::pow2(149) as int;
    let size1 = vstd::math::abs(n1) as int;
    let size2 = vstd::math::abs(n2) as int;
    power2::lemma_pow2_pos(149);
    rounding::lemma_nearest_total(size1 * scale, 1);
    rounding::lemma_nearest_total(size2 * scale, 1);
    let p1 = rounding::nearest(size1 * scale, 1);
    let p2 = rounding::nearest(size2 * scale, 1);
    if n1 >= 0 {
        mul::lemma_mul_inequality(size1, size2, scale);
        rounding::lemma_nearest_is_monotone(size1 * scale, size2 * scale, 1);
        lemma_units_follow_patterns(false, p1, p2);
    } else if n2 < 0 {
        mul::lemma_mul_inequality(size2, size1, scale);
        rounding::lemma_nearest_is_monotone(size2 * scale, size1 * scale, 1);
        lemma_units_follow_patterns(true, p2, p1);
    } else {
        rounding::lemma_magnitude_sign(p1);
        rounding::lemma_magnitude_sign(p2);
    }
}

/// Conversion of integers that are not negative, by their bits.
pub proof fn lemma_of_int_grows(n: int, larger: int)
    requires
        0 <= n <= larger <= 0x1_0000_0000,
    ensures
        Single::of_int(n).bits <= Single::of_int(larger).bits < INFINITE,
{
    lemma_of_int_is_finite(n);
    lemma_of_int_is_finite(larger);
    reveal(Single::of_int);
    let scale = power2::pow2(149) as int;
    power2::lemma_pow2_pos(149);
    rounding::lemma_nearest_total(n * scale, 1);
    rounding::lemma_nearest_total(larger * scale, 1);
    mul::lemma_mul_inequality(n, larger, scale);
    rounding::lemma_nearest_is_monotone(n * scale, larger * scale, 1);
}

/// Of two numbers without a sign, the one with the larger bits is not below
/// the other.
pub proof fn lemma_larger_bits(x: Single, larger: Single)
    requires
        x.bits <= larger.bits <= INFINITE,
    ensures
        !larger.lt(x),
{
    reveal(Single::lt);
    if x.bits < larger.bits {
        rounding::lemma_magnitude_increases(x.pattern(), larger.pattern());
    }
}

/// What is not below a finite number without a sign is not below a smaller
/// one.
pub proof fn lemma_below(x: Single, small: Single, large: Single)
    requires
        small.bits <= large.bits < INFINITE,
        !x.lt(large),
    ensures
        !x.lt(small),
{
    reveal(Single::lt);
    if small.bits < large.bits {
        rounding::lemma_magnitude_increases(small.pattern(), large.pattern());
    }
}

/// Numbers of equal units are the same.
pub proof fn lemma_equal_units(a: Single, b: Single)
    requires
        !a.is_nan(),
        !b.is_nan(),
        a.units() == b.units(),
    ensures
        a.same_number(b),
        a == b || (a.pattern() == 0 && b.pattern() == 0),
{
    rounding::lemma_magnitude_sign(a.pattern());
    rounding::lemma_magnitude_sign(b.pattern());
    if a.pattern() < b.pattern() {
        rounding::lemma_magnitude_increases(a.pattern(), b.pattern());
    }
    if b.pattern() < a.pattern() {
        rounding::lemma_magnitude_increases(b.pattern(), a.pattern());
    }
}

/// The same numbers differ at most as the two zeros do.
pub proof fn lemma_same_number(a: Single, b: Single)
    ensures
        a.same_number(b) <==> a == b || (a.pattern() == 0 && b.pattern() == 0),
{
    rounding::lemma_magnitude_sign(0);
    if a.same_value(b) {
        lemma_equal_units(a, b);
    }
}

/// Sums of the same numbers are the same.
pub proof fn lemma_sum_same(a: Single, a2: Single, b: Single, b2: Single)
    requires
        a.same_number(a2),
        b.same_number(b2),
    ensures
        a.sum(b).same_number(a2.sum(b2)),
{
    reveal(Single::sum);
    lemma_same_number(a, a2);
    lemma_same_number(b, b2);
    lemma_same_number(a.sum(b), a2.sum(b2));
    rounding::lemma_magnitude_sign(0);
}

/// Differences of the same numbers are the same.
pub proof fn lemma_difference_same(a: Single, a2: Single, b: Single, b2: Single)
    requires
        a.same_number(a2),
        b.same_number(b2),
    ensures
        a.difference(b).same_number(a2.difference(b2)),
{
    lemma_same_number(b, b2);
    lemma_same_number(b.negation(), b2.negation());
    lemma_sum_same(a, a2, b.negation(), b2.negation());
}

/// Products with the same numbers are the same.
pub proof fn lemma_product_same(a: Single, a2: Single, b: Single)
    requires
        a.same_number(a2),
    ensures
        a.product(b).same_number(a2.product(b)),
{
    lemma_same_number(a, a2);
    if a != a2 {
        lemma_same_number(a.product(b), a2.product(b));
        if b.is_finite() {
            lemma_zero_times(a, b);
            lemma_zero_times(a2, b);
        } else {
            reveal(Single::product);
        }
    }
}

/// The same numbers compare in the same way.
pub proof fn lemma_lt_same(a: Single, a2: Single, b: Single, b2: Single)
    requires
        a.same_number(a2),
        b.same_number(b2),
    ensures
        a.lt(b) == a2.lt(b2),
        a.is_nan() == a2.is_nan(),
{
    reveal(Single::lt);
    lemma_same_number(a, a2);
    lemma_same_number(b, b2);
    rounding::lemma_magnitude_sign(0);
}

/// The lesser and the greater of the same numbers are the same.
pub proof fn lemma_extremes_same(a: Single, a2: Single, b: Single, b2: Single)
    requires
        a.same_number(a2),
        b.same_number(b2),
    ensures
        a.lesser(b).same_number(a2.lesser(b2)),
        a.greater(b).same_number(a2.greater(b2)),
{
    lemma_lt_same(a, a2, b, b2);
    lemma_lt_same(b, b2, a, a2);
}

/// A sum does not depend on the order of what is added.
pub proof fn lemma_sum_commutes(a: Single, b: Single)
    ensures
        a.sum(b) == b.sum(a),
{
    reveal(Single::sum);
}

/// Minus one times a finite number is its negation.
pub proof fn lemma_minus_one_times(x: Single)
    requires
        x.is_finite(),
    ensures
        Single::of_bits(ONE).negation().product(x) == x.negation(),
{
    reveal(Single::product);
    lemma_magnitude_of_one();
    power2::lemma_pow2_pos(149);
    rounding::lemma_exact(power2::pow2(149) as int, x.pattern());
}

/// Where an exact sum comes to lie when it is rounded.
proof fn lemma_sum_value(a: Single, b: Single)
    requires
        a.is_finite(),
        b.is_finite(),
    ensures
        ({
            let exact = a.units() + b.units();
            let size = rounding::magnitude(rounding::nearest(vstd::math::abs(exact) as int, 1));
            &&& !a.sum(b).is_nan()
            &&& a.sum(b).units() == (if exact < 0 {
                -size
            } else {
                size
            })
            &&& size >= 0
            &&& 0 <= rounding::nearest(vstd::math::abs(exact) as int, 1) <= INFINITE
        }),
{
    reveal(Single::sum);
    let size = vstd::math::abs(a.units() + b.units()) as int;
    rounding::lemma_nearest_total(size, 1);
    rounding::lemma_magnitude_sign(rounding::nearest(size, 1));
    rounding::lemma_magnitude_sign(0);
    rounding::lemma_exact(1, 0);
}

/// Adding a number keeps the order of numbers.
pub proof fn lemma_sum_keeps_order(a: Single, b: Single, c: Single)
    requires
        a.is_finite(),
        b.is_finite(),
        c.is_finite(),
        a.units() <= b.units(),
    ensures
        a.sum(c).units() <= b.sum(c).units(),
        !a.sum(c).is_nan(),
        !b.sum(c).is_nan(),
{
    let low = a.units() + c.units();
    let high = b.units() + c.units();
    let low_size = vstd::math::abs(low) as int;
    let high_size = vstd::math::abs(high) as int;
    lemma_sum_value(a, c);
    lemma_sum_value(b, c);
    let p = rounding::nearest(low_size, 1);
    let q = rounding::nearest(high_size, 1);
    if low >= 0 {
        rounding::lemma_nearest_is_monotone(low_size, high_size, 1);
        if p < q {
            rounding::lemma_magnitude_increases(p, q);
        }
    } else if high < 0 {
        rounding::lemma_nearest_is_monotone(high_size, low_size, 1);
        if q < p {
            rounding::lemma_magnitude_increases(q, p);
        }
    }
}

/// A number less another that does not exceed it is not below zero, and is
/// zero where both are the same.
pub proof fn lemma_difference_sign(a: Single, b: Single)
    requires
        a.is_finite(),
        b.is_finite(),
        b.units() <= a.units(),
    ensures
        !a.difference(b).lt(Single::of_bits(0)),
        a == b ==> a.difference(b).pattern() == 0,
{
    reveal(Single::lt);
    reveal(Single::sum);
    lemma_sum_value(a, b.negation());
    rounding::lemma_magnitude_sign(0);
}

/// Of two numbers in order, the first is the lesser and the second the
/// greater, whichever way they are compared.
pub proof fn lemma_extremes_of_ordered(low: Single, high: Single)
    requires
        !low.is_nan(),
        !high.is_nan(),
        low.units() <= high.units(),
    ensures
        low.lesser(high).same_number(low),
        high.lesser(low).same_number(low),
        low.greater(high).same_number(high),
        high.greater(low).same_number(high),
{
    reveal(Single::lt);
    if low.units() == high.units() {
        lemma_equal_units(low, high);
        lemma_equal_units(high, low);
    }
}

/// The value of a quotient, by a number of at least one.
proof fn lemma_quotient_value(x: Single, divisor: Single) -> (pattern: int)
    requires
        x.is_finite(),
        ONE <= divisor.bits < INFINITE,
    ensures
        divisor.magnitude() > 0,
        0 <= pattern < INFINITE,
        pattern == rounding::nearest(x.magnitude() * power2::pow2(149), divisor.magnitude()),
        x.quotient(divisor).units() == (if x.negative() {
            -rounding::magnitude(pattern)
        } else {
            rounding::magnitude(pattern)
        }),
        rounding::magnitude(pattern) >= 0,
{
    let pattern = rounding::nearest(x.magnitude() * power2::pow2(149), divisor.magnitude());
    lemma_quotient_is_bounded(x, divisor);
    rounding::lemma_magnitude_sign(divisor.pattern());
    rounding::lemma_nearest_total(x.magnitude() * power2::pow2(149), divisor.magnitude());
    rounding::lemma_magnitude_sign(pattern);
    reveal(Single::quotient);
    pattern
}

/// Division of magnitudes keeps their order.
proof fn lemma_divided_magnitudes(small: int, large: int, den: int)
    requires
        0 <= small <= large,
        den > 0,
        0 <= rounding::nearest(small * power2::pow2(149), den),
    ensures
        ({
            let p = rounding::nearest(small * power2::pow2(149), den);
            let q = rounding::nearest(large * power2::pow2(149), den);
            rounding::magnitude(p) <= rounding::magnitude(q)
        }),
{
    let scale = power2::pow2(149) as int;
    let p = rounding::nearest(small * scale, den);
    let q = rounding::nearest(large * scale, den);
    power2::lemma_pow2_pos(149);
    mul::lemma_mul_inequality(small, large, scale);
    rounding::lemma_nearest_is_monotone(small * scale, large * scale, den);
    if p < q {
        rounding::lemma_magnitude_increases(p, q);
    }
}

/// Division by a number of at least one keeps the order of numbers.
pub proof fn lemma_quotient_is_monotone(x: Single, y: Single, divisor: Single)
    requires
        x.is_finite(),
        y.is_finite(),
        x.units() <= y.units(),
        ONE <= divisor.bits < INFINITE,
    ensures
        x.quotient(divisor).units() <= y.quotient(divisor).units(),
{
    let p = lemma_quotient_value(x, divisor);
    let q = lemma_quotient_value(y, divisor);
    rounding::lemma_magnitude_sign(x.pattern());
    rounding::lemma_magnitude_sign(y.pattern());
    if x.magnitude() <= y.magnitude() {
        lemma_divided_magnitudes(x.magnitude(), y.magnitude(), divisor.magnitude());
    }
    if y.magnitude() <= x.magnitude() {
        lemma_divided_magnitudes(y.magnitude(), x.magnitude(), divisor.magnitude());
    }
    if y.negative() && !x.negative() {
        // Both are zero.
        rounding::lemma_magnitude_sign(0);
        rounding::lemma_exact(divisor.magnitude(), 0);
        mul::lemma_mul_basics(divisor.magnitude());
        mul::lemma_mul_basics(power2::pow2(149) as int);
    }
}

/// How far `num / den` is from a number, in parts of `den`.
pub open spec fn distance(num: int, den: int, number: Single) -> nat {
    vstd::math::abs(num - den * number.units())
}

impl Single {
    /// Whether no number is closer to `num / den` units, and where another one
    /// is as close, this one is even. An infinity counts as the number that
    /// would follow the largest finite one.
    pub open spec fn is_closest(self, num: int, den: int) -> bool {
        &&& !self.is_nan()
        &&& forall|other: Single|
            !other.is_nan() ==> {
                &&& distance(num, den, self) <= #[trigger] distance(num, den, other)
                &&& distance(num, den, self) == distance(num, den, other) && other.units()
                    != self.units() ==> self.bits % 2 == 0
            }
    }
}

/// A sign and the pattern that a magnitude rounds to make the closest number.
proof fn lemma_signed_is_closest(negative: bool, num: int, den: int)
    requires
        den > 0,
        num >= 0,
    ensures
        Single::signed(negative, rounding::nearest(num, den)).is_closest(
            if negative {
                -num
            } else {
                num
            },
            den,
        ),
        Single::signed(negative, rounding::nearest(num, den)).negative() == negative,
{
    let pattern = rounding::nearest(num, den);
    let own = Single::signed(negative, pattern);
    let target = if negative {
        -num
    } else {
        num
    };
    rounding::lemma_nearest_total(num, den);
    assert(own.pattern() == pattern && own.negative() == negative);
    assert(own.bits % 2 == pattern % 2);
    rounding::lemma_magnitude_sign(0);
    rounding::lemma_nearest_is_closest(num, den, 0);
    mul::lemma_mul_basics(den);
    assert forall|other: Single| !other.is_nan() implies {
        &&& distance(target, den, own) <= #[trigger] distance(target, den, other)
        &&& distance(target, den, own) == distance(target, den, other) && other.units()
            != own.units() ==> own.bits % 2 == 0
    } by {
        let size = other.magnitude();
        rounding::lemma_magnitude_sign(other.pattern());
        rounding::lemma_nearest_is_closest(num, den, other.pattern());
        mul::lemma_mul_unary_negation(den, size);
        mul::lemma_mul_unary_negation(den, own.magnitude());
        if other.pattern() != pattern && vstd::math::abs(num - den * size) == vstd::math::abs(
            num - den * own.magnitude(),
        ) {
            rounding::lemma_nearest_tie_is_even(num, den, other.pattern());
        }
        if other.negative() != negative {
            if size > 0 {
                mul::lemma_mul_strictly_positive(den, size);
            }
        }
    }
}

/// A sum of finite numbers is the number closest to the exact sum.
pub proof fn lemma_sum_is_closest(a: Single, b: Single)
    requires
        a.is_finite(),
        b.is_finite(),
    ensures
        a.sum(b).is_closest(a.units() + b.units(), 1),
{
    reveal(Single::sum);
    let exact = a.units() + b.units();
    lemma_signed_is_closest(exact < 0, vstd::math::abs(exact) as int, 1);
    if exact == 0 {
        rounding::lemma_magnitude_sign(0);
        rounding::lemma_exact(1, 0);
        lemma_signed_is_closest(a.negative() && b.negative(), 0, 1);
    }
}

/// A difference of finite numbers is the number closest to the exact
/// difference.
pub proof fn lemma_difference_is_closest(a: Single, b: Single)
    requires
        a.is_finite(),
        b.is_finite(),
    ensures
        a.difference(b).is_closest(a.units() - b.units(), 1),
{
    lemma_sum_is_closest(a, b.negation());
}

/// A product of finite numbers is the number closest to the exact product.
pub proof fn lemma_product_is_closest(a: Single, b: Single)
    requires
        a.is_finite(),
        b.is_finite(),
    ensures
        a.product(b).is_closest(a.units() * b.units(), power2::pow2(149) as int),
{
    reveal(Single::product);
    power2::lemma_pow2_pos(149);
    rounding::lemma_magnitude_sign(a.pattern());
    rounding::lemma_magnitude_sign(b.pattern());
    mul::lemma_mul_nonnegative(a.magnitude(), b.magnitude());
    mul::lemma_mul_unary_negation(a.magnitude(), b.magnitude());
    mul::lemma_mul_cancels_negatives(a.magnitude(), b.magnitude());
    lemma_signed_is_closest(
        a.negative() != b.negative(),
        a.magnitude() * b.magnitude(),
        power2::pow2(149) as int,
    );
}

/// A quotient of a finite number by a positive one is the number closest to
/// the exact quotient.
pub proof fn lemma_quotient_is_closest(a: Single, b: Single)
    requires
        a.is_finite(),
        0 < b.bits < INFINITE,
    ensures
        a.quotient(b).is_closest(a.units() * power2::pow2(149), b.units()),
{
    reveal(Single::quotient);
    power2::lemma_pow2_pos(149);
    rounding::lemma_magnitude_sign(a.pattern());
    rounding::lemma_magnitude_sign(b.pattern());
    mul::lemma_mul_nonnegative(a.magnitude(), power2::pow2(149) as int);
    mul::lemma_mul_unary_negation(a.magnitude(), power2::pow2(149) as int);
    lemma_signed_is_closest(
        a.negative(),
        a.magnitude() * power2::pow2(149),
        b.magnitude(),
    );
}

/// An integer converts to the number closest to it.
pub proof fn lemma_of_int_is_closest(n: int)
    ensures
        Single::of_int(n).is_closest(n * power2::pow2(149), 1),
{
    reveal(Single::of_int);
    let size = vstd::math::abs(n) as int;
    power2::lemma_pow2_pos(149);
    mul::lemma_mul_nonnegative(size, power2::pow2(149) as int);
    mul::lemma_mul_unary_negation(size, power2::pow2(149) as int);
    lemma_signed_is_closest(n < 0, size * power2::pow2(149), 1);
}

/// A finite number rounds to an integer at most a half away, halves away from
/// zero, unless that does not fit in 32 bits: then to the last one that does.
pub proof fn lemma_rounded_is_closest(x: Single)
    requires
        x.is_finite(),
    ensures
        ({
            let one = power2::pow2(149) as int;
            let n = x.rounded();
            &&& i32::MIN <= n <= i32::MAX
            &&& n < i32::MAX ==> 2 * x.units() <= 2 * (n * one) + one
            &&& n > i32::MIN ==> 2 * (n * one) - one <= 2 * x.units()
            &&& n < i32::MAX && x.units() >= 0 ==> 2 * x.units() < 2 * (n * one) + one
            &&& n > i32::MIN && x.units() <= 0 ==> 2 * (n * one) - one < 2 * x.units()
        }),
{
    reveal(Single::rounded);
    let one = power2::pow2(149) as int;
    let size = x.magnitude();
    let whole = (2 * size + one) / (2 * one);
    let n = x.rounded();
    power2::lemma_pow2_pos(149);
    rounding::lemma_magnitude_sign(x.pattern());
    div_mod::lemma_fundamental_div_mod(2 * size + one, 2 * one);
    div_mod::lemma_mod_bound(2 * size + one, 2 * one);
    assert((2 * one) * whole == 2 * (whole * one)) by (nonlinear_arith);
    div_mod::lemma_div_pos_is_pos(2 * size + one, 2 * one);
    mul::lemma_mul_unary_negation(whole, one);
    if size == 0 {
        assert(whole == 0) by (nonlinear_arith)
            requires
                2 * (whole * one) <= one,
                whole >= 0,
                one > 0,
        ;
    }
    if x.negative() {
        if n != -whole {
            mul::lemma_mul_inequality(-whole, n, one);
        }
    } else {
        if n != whole {
            mul::lemma_mul_inequality(n, whole, one);
        }
    }
}

/// A product does not depend on the order of its factors.
pub proof fn lemma_product_commutes(a: Single, b: Single)
    ensures
        a.product(b) == b.product(a),
{
    reveal(Single::product);
    mul::lemma_mul_is_commutative(a.magnitude(), b.magnitude());
}

/// Adding zero to a sum or to a product gives the same number.
pub proof fn lemma_result_plus_zero(a: Single, b: Single, zero: Single)
    requires
        zero.pattern() == 0,
    ensures
        a.sum(b).sum(zero).same_number(a.sum(b)),
        a.product(b).sum(zero).same_number(a.product(b)),
        zero.sum(a.product(b)).same_number(a.product(b)),
{
    lemma_sum_commutes(zero, a.product(b));
    if a.sum(b).is_finite() {
        lemma_plus_zero(a.sum(b), zero);
    } else {
        lemma_sum_is_number_or_nan(a, b);
        reveal(Single::sum);
    }
    if a.product(b).is_finite() {
        lemma_plus_zero(a.product(b), zero);
    } else {
        lemma_product_is_number_or_nan(a, b);
        reveal(Single::sum);
    }
}

/// There is one NaN that a sum can be.
proof fn lemma_sum_is_number_or_nan(a: Single, b: Single)
    ensures
        a.sum(b).is_nan() ==> a.sum(b) == Single::nan(),
{
    reveal(Single::sum);
    if a.is_finite() && b.is_finite() {
        lemma_sum_value(a, b);
    }
}

/// There is one NaN that a product can be.
proof fn lemma_product_is_number_or_nan(a: Single, b: Single)
    ensures
        a.product(b).is_nan() ==> a.product(b) == Single::nan(),
{
    if a.is_finite() && b.is_finite() {
        lemma_product_is_closest(a, b);
    } else {
        reveal(Single::product);
    }
}

/// Whether two numbers are the ends of the range of some numbers: each of the
/// numbers lies between the ends, and each end is one of them. Those that are
/// NaN do not count.
pub open spec fn are_ends(low: Single, high: Single, numbers: Seq<Single>) -> bool {
    forall|i: int|
        0 <= i < numbers.len() && !(#[trigger] numbers[i]).is_nan() ==> {
            &&& !low.is_nan() && !high.is_nan()
            &&& low.units() <= numbers[i].units() <= high.units()
            &&& numbers.contains(low) && numbers.contains(high)
        }
}

/// Whether all numbers are NaN.
pub open spec fn all_nan(numbers: Seq<Single>) -> bool {
    forall|i: int| 0 <= i < numbers.len() ==> (#[trigger] numbers[i]).is_nan()
}

/// Whether a least and a greatest number have been found that the search can
/// go on from.
pub open spec fn found_ends(low: Single, high: Single, numbers: Seq<Single>) -> bool {
    &&& are_ends(low, high, numbers)
    &&& all_nan(numbers) ==> {
        ||| low.is_nan() && high.is_nan()
        ||| low.bits == INFINITE && high.bits == INFINITE + SIGN
    }
}

/// The lesser of the least and one more number, and the greater of the
/// greatest and it, are the ends of the range with that number.
pub proof fn lemma_found_ends(low: Single, high: Single, numbers: Seq<Single>, next: Single)
    requires
        found_ends(low, high, numbers),
    ensures
        found_ends(low.lesser(next), high.greater(next), numbers.push(next)),
{
    reveal(Single::lt);
    let all = numbers.push(next);
    let least = low.lesser(next);
    let greatest = high.greater(next);
    assert(all[numbers.len() as int] == next);
    assert forall|x: Single| numbers.contains(x) implies all.contains(x) by {
        let at = choose|i: int| 0 <= i < numbers.len() && numbers[i] == x;
        assert(all[at] == x);
    }
    if all_nan(numbers) {
        if !next.is_nan() {
            rounding::lemma_magnitude_sign(next.pattern());
            if next.pattern() < INFINITE {
                rounding::lemma_magnitude_increases(next.pattern(), INFINITE as int);
            }
            rounding::lemma_magnitude_sign(INFINITE as int);
            assert(least == next);
            assert(greatest == next);
        }
        assert forall|i: int| 0 <= i < all.len() && !(#[trigger] all[i]).is_nan() implies i
            == numbers.len() by {
            if i < numbers.len() {
                assert(all[i] == numbers[i]);
            }
        }
    } else {
        let known = choose|i: int| 0 <= i < numbers.len() && !(#[trigger] numbers[i]).is_nan();
        assert(!numbers[known].is_nan());
        assert(!all[known].is_nan());
        assert forall|i: int| 0 <= i < all.len() && !(#[trigger] all[i]).is_nan() implies {
            &&& !least.is_nan() && !greatest.is_nan()
            &&& least.units() <= all[i].units() <= greatest.units()
            &&& all.contains(least) && all.contains(greatest)
        } by {
            if i < numbers.len() {
                assert(all[i] == numbers[i]);
            }
        }
    }
}

/// The lesser and the greater of two numbers are the ends of their range.
pub proof fn lemma_ends_of_two(a: Single, b: Single)
    ensures
        are_ends(a.lesser(b), a.greater(b), seq![a, b]),
{
    lemma_ends_of_one(a);
    lemma_found_ends(a, a, seq![a], b);
    assert(seq![a].push(b) =~= seq![a, b]);
}

/// A number is both ends of its range.
proof fn lemma_ends_of_one(a: Single)
    ensures
        found_ends(a, a, seq![a]),
{
    assert(seq![a][0] == a);
    assert(seq![a].contains(a));
}

/// The least and the greatest of four numbers, compared one after the other,
/// are the ends of their range.
pub proof fn lemma_ends_of_four(a: Single, b: Single, c: Single, d: Single)
    ensures
        are_ends(
            a.lesser(b).lesser(c).lesser(d),
            a.greater(b).greater(c).greater(d),
            seq![a, b, c, d],
        ),
        are_ends(
            Single::least_of(a, b, c, d),
            Single::greatest_of(a, b, c, d),
            seq![a, b, c, d],
        ),
{
    let two = seq![a].push(b);
    let three = two.push(c);
    lemma_ends_of_one(a);
    lemma_found_ends(a, a, seq![a], b);
    lemma_found_ends(a.lesser(b), a.greater(b), two, c);
    lemma_found_ends(a.lesser(b).lesser(c), a.greater(b).greater(c), three, d);
    assert(three.push(d) =~= seq![a, b, c, d]);
    let up = Single::of_bits(INFINITE);
    let down = Single::of_bits((INFINITE + SIGN) as u32);
    let none = Seq::<Single>::empty();
    lemma_found_ends(up, down, none, a);
    assert(none.push(a) =~= seq![a]);
    lemma_found_ends(up.lesser(a), down.greater(a), seq![a], b);
    lemma_found_ends(up.lesser(a).lesser(b), down.greater(a).greater(b), two, c);
    lemma_found_ends(
        up.lesser(a).lesser(b).lesser(c),
        down.greater(a).greater(b).greater(c),
        three,
        d,
    );
}

/// Integers of up to 24 bits convert without rounding.
pub proof fn lemma_of_int_is_exact(n: int)
    requires
        -0x100_0000 <= n <= 0x100_0000,
    ensures
        Single::of_int(n).is_finite(),
        Single::of_int(n).units() == n * power2::pow2(149),
{
    reveal(Single::of_int);
    let size = vstd::math::abs(n) as int;
    let pattern = rounding::lemma_integer_pattern(size);
    rounding::lemma_exact(1, pattern);
    mul::lemma_mul_unary_negation(size, power2::pow2(149) as int);
}

/// What is closest to a fraction is closest to the reduced fraction.
pub proof fn lemma_closest_reduced(number: Single, num: int, den: int, factor: int)
    requires
        factor > 0,
        number.is_closest(num * factor, den * factor),
    ensures
        number.is_closest(num, den),
{
    assert forall|other: Single| #[trigger]
        distance(num, den, other) * factor == distance(num * factor, den * factor, other) by {
        let away = num - den * other.units();
        assert(num * factor - (den * factor) * other.units() == away * factor) by (nonlinear_arith)
            requires
                away == num - den * other.units(),
        ;
        mul::lemma_mul_unary_negation(away, factor);
        if away >= 0 {
            mul::lemma_mul_nonnegative(away, factor);
        } else {
            mul::lemma_mul_nonnegative(-away, factor);
        }
    }
    assert forall|other: Single| !other.is_nan() implies {
        &&& distance(num, den, number) <= #[trigger] distance(num, den, other)
        &&& distance(num, den, number) == distance(num, den, other) && other.units()
            != number.units() ==> number.bits % 2 == 0
    } by {
        let own = distance(num, den, number) as int;
        let far = distance(num, den, other) as int;
        assert(own * factor == distance(num * factor, den * factor, number));
        assert(far * factor == distance(num * factor, den * factor, other));
        if far < own {
            mul::lemma_mul_strict_inequality(far, own, factor);
        }
    }
}

/// A number rounds to an integer of 32 bits.
pub proof fn lemma_rounded_fits(x: Single)
    ensures
        i32::MIN <= x.rounded() <= i32::MAX,
{
    reveal(Single::rounded);
}

/// A NaN rounds to zero, and an infinity to the last integer of 32 bits on its
/// side.
pub proof fn lemma_rounded_beyond(x: Single)
    ensures
        x.is_nan() ==> x.rounded() == 0,
        x.is_infinite() && !x.negative() ==> x.rounded() == i32::MAX,
        x.is_infinite() && x.negative() ==> x.rounded() == i32::MIN,
{
    reveal(Single::rounded);
    if x.is_infinite() {
        lemma_scaled_half(
            rounding::significand(INFINITE as int),
            rounding::place(INFINITE as int),
        );
        lemma_large(BINADE as int, 105);
    }
}

/// A difference with a NaN is NaN, and one with a single infinity is an
/// infinity.
pub proof fn lemma_difference_beyond(a: Single, b: Single)
    ensures
        a.is_nan() || b.is_nan() ==> a.difference(b).is_nan(),
        a.is_infinite() && b.is_finite() ==> a.difference(b) == a,
        a.is_finite() && b.is_infinite() ==> a.difference(b) == b.negation(),
{
    reveal(Single::sum);
}

} // verus!
