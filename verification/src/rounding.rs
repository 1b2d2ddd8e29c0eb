//! Magnitudes of binary32 bit patterns, and rounding to the nearest of them.
//!
//! A pattern is the low 31 bits of a binary32 number: its exponent field and
//! its fraction, read as one integer. Patterns grow with the magnitude they
//! stand for, neighbouring patterns are neighbouring magnitudes, and the
//! parity of a pattern is the parity of its significand.

use vstd::arithmetic::div_mod;
use vstd::arithmetic::mul;
use vstd::arithmetic::power2;
use vstd::prelude::*;

verus! {

/// The number of patterns that share one exponent field.
pub const BINADE: u32 = 0x80_0000;

/// The pattern of the infinities.
pub const INFINITE: u32 = 0x7f80_0000;

/// The exponent of the last place of a pattern, counted from the smallest
/// magnitude, which is 2^-149.
pub open spec fn place(pattern: int) -> nat {
    if pattern < BINADE {
        0
    } else {
        (pattern / BINADE as int - 1) as nat
    }
}

/// The significand of a pattern, hidden bit included.
pub open spec fn significand(pattern: int) -> int {
    pattern - place(pattern) * BINADE
}

/// The magnitude of a pattern in units of 2^-149. The infinite pattern counts
/// here as the magnitude that would follow the largest finite one.
pub open spec fn magnitude(pattern: int) -> int {
    significand(pattern) * power2::pow2(place(pattern))
}

/// Whether `num / den` lies no further from `pattern` than from either of its
/// neighbours, where a tie goes to the even pattern.
pub open spec fn rounds_to(num: int, den: int, pattern: int) -> bool {
    &&& 0 <= pattern <= INFINITE
    &&& pattern > 0 ==> {
        let midpoints = den * (magnitude(pattern - 1) + magnitude(pattern));
        if pattern % 2 == 0 {
            midpoints <= 2 * num
        } else {
            midpoints < 2 * num
        }
    }
    &&& pattern < INFINITE ==> {
        let midpoints = den * (magnitude(pattern) + magnitude(pattern + 1));
        if pattern % 2 == 0 {
            2 * num <= midpoints
        } else {
            2 * num < midpoints
        }
    }
}

/// The pattern that `num / den`, in units of 2^-149, rounds to.
pub open spec fn nearest(num: int, den: int) -> int {
    choose|pattern: int| rounds_to(num, den, pattern)
}

/// The magnitude of the pattern that a significand and a place make, where
/// the significand may already have been carried into the next place.
proof fn lemma_magnitude_of_parts(m: int, q: nat)
    requires
        0 <= m <= 2 * BINADE,
        q == 0 || m >= BINADE,
    ensures
        magnitude(q * BINADE + m) == m * power2::pow2(q),
{
    let p = q * BINADE + m;
    if m < 2 * BINADE {
        if p < BINADE {
            assert(q == 0);
        } else {
            assert(p / BINADE as int == q + 1);
        }
    } else {
        assert(p / BINADE as int == q + 2);
        assert(place(p) == q + 1);
        assert(significand(p) == BINADE);
        power2::lemma_pow2_unfold(q + 1);
        mul::lemma_mul_is_associative(BINADE as int, 2, power2::pow2(q) as int);
    }
}

/// Each pattern exceeds the one before it by a unit in the last place.
pub proof fn lemma_step(pattern: int)
    requires
        0 <= pattern,
    ensures
        magnitude(pattern + 1) == magnitude(pattern) + power2::pow2(place(pattern)),
        power2::pow2(place(pattern)) > 0,
{
    let q = place(pattern);
    let m = significand(pattern);
    power2::lemma_pow2_pos(q);
    assert(0 <= m < 2 * BINADE);
    lemma_magnitude_of_parts(m + 1, q);
    mul::lemma_mul_is_distributive_add_other_way(power2::pow2(q) as int, m, 1);
}

/// Larger patterns stand for larger magnitudes.
pub proof fn lemma_magnitude_increases(p1: int, p2: int)
    requires
        0 <= p1 < p2,
    ensures
        magnitude(p1) < magnitude(p2),
    decreases p2,
{
    lemma_step(p2 - 1);
    if p1 < p2 - 1 {
        lemma_magnitude_increases(p1, p2 - 1);
    }
}

/// A step of the exponent field doubles the magnitude.
pub proof fn lemma_next_binade(pattern: int)
    requires
        BINADE <= pattern,
    ensures
        magnitude(pattern + BINADE) == 2 * magnitude(pattern),
{
    let q = place(pattern);
    let m = significand(pattern);
    assert(place(pattern + BINADE) == q + 1);
    assert(significand(pattern + BINADE) == m);
    power2::lemma_pow2_unfold(q + 1);
    mul::lemma_mul_is_associative(m, 2, power2::pow2(q) as int);
    mul::lemma_mul_is_associative(2, m, power2::pow2(q) as int);
}

/// No magnitude is negative, and only the pattern zero has magnitude zero.
pub proof fn lemma_magnitude_sign(pattern: int)
    requires
        0 <= pattern,
    ensures
        magnitude(pattern) >= 0,
        magnitude(pattern) == 0 <==> pattern == 0,
{
    assert(magnitude(0) == 0) by {
        mul::lemma_mul_basics(power2::pow2(0) as int);
    }
    if pattern > 0 {
        lemma_magnitude_increases(0, pattern);
    }
}

/// A number rounds to at most one pattern.
pub proof fn lemma_rounds_to_unique(num: int, den: int, p1: int, p2: int)
    requires
        den > 0,
        rounds_to(num, den, p1),
        rounds_to(num, den, p2),
    ensures
        p1 == p2,
{
    lemma_rounding_ordered(num, den, p1, p2);
    lemma_rounding_ordered(num, den, p2, p1);
}

/// A number that rounds to `p1` rounds to nothing above it.
proof fn lemma_rounding_ordered(num: int, den: int, p1: int, p2: int)
    requires
        den > 0,
        rounds_to(num, den, p1),
        rounds_to(num, den, p2),
    ensures
        p1 >= p2,
{
    let low = magnitude(p1) + magnitude(p1 + 1);
    let high = magnitude(p2 - 1) + magnitude(p2);
    if p1 + 1 < p2 {
        lemma_magnitude_increases(p1 + 1, p2);
        lemma_magnitude_increases(p1, p2 - 1);
        mul::lemma_mul_strict_inequality(low, high, den);
        mul::lemma_mul_is_commutative(low, den);
        mul::lemma_mul_is_commutative(high, den);
    } else if p1 + 1 == p2 {
        assert(low == high);
    }
}

/// What a number rounds to is what `nearest` names.
pub proof fn lemma_nearest(num: int, den: int, pattern: int)
    requires
        den > 0,
        rounds_to(num, den, pattern),
    ensures
        nearest(num, den) == pattern,
{
    lemma_rounds_to_unique(num, den, nearest(num, den), pattern);
}

/// Whatever rounds to a pattern or beyond rounds to some pattern.
proof fn lemma_rounds_from(num: int, den: int, pattern: int) -> (found: int)
    requires
        den > 0,
        0 <= pattern <= INFINITE,
        pattern > 0 ==> {
            let midpoints = den * (magnitude(pattern - 1) + magnitude(pattern));
            if pattern % 2 == 0 {
                midpoints <= 2 * num
            } else {
                midpoints < 2 * num
            }
        },
    ensures
        rounds_to(num, den, found),
    decreases INFINITE - pattern,
{
    if rounds_to(num, den, pattern) {
        pattern
    } else {
        lemma_rounds_from(num, den, pattern + 1)
    }
}

/// Every number rounds to a pattern, and to one only.
pub proof fn lemma_nearest_total(num: int, den: int)
    requires
        den > 0,
    ensures
        rounds_to(num, den, nearest(num, den)),
        forall|pattern: int| rounds_to(num, den, pattern) ==> pattern == nearest(num, den),
{
    let found = lemma_rounds_from(num, den, 0);
    lemma_nearest(num, den, found);
    assert forall|pattern: int| rounds_to(num, den, pattern) implies pattern == nearest(
        num,
        den,
    ) by {
        lemma_nearest(num, den, pattern);
    }
}

/// No pattern is closer to a number than the one that it rounds to.
pub proof fn lemma_nearest_is_closest(num: int, den: int, other: int)
    requires
        den > 0,
        0 <= other <= INFINITE,
    ensures
        ({
            let away = num - den * magnitude(nearest(num, den));
            let other_away = num - den * magnitude(other);
            vstd::math::abs(away) <= vstd::math::abs(other_away)
        }),
{
    lemma_nearest_total(num, den);
    let own = nearest(num, den);
    if other < own {
        lemma_magnitude_increases(other, own);
        if other < own - 1 {
            lemma_magnitude_increases(other, own - 1);
        }
        mul::lemma_mul_left_inequality(den, magnitude(other), magnitude(own - 1));
        mul::lemma_mul_left_inequality(den, magnitude(other), magnitude(own));
        mul::lemma_mul_is_distributive_add(den, magnitude(own - 1), magnitude(own));
    } else if other > own {
        lemma_magnitude_increases(own, other);
        if own + 1 < other {
            lemma_magnitude_increases(own + 1, other);
        }
        mul::lemma_mul_left_inequality(den, magnitude(own + 1), magnitude(other));
        mul::lemma_mul_left_inequality(den, magnitude(own), magnitude(other));
        mul::lemma_mul_is_distributive_add(den, magnitude(own), magnitude(own + 1));
    }
}

/// Rounding keeps the order of numbers.
pub proof fn lemma_nearest_is_monotone(num1: int, num2: int, den: int)
    requires
        den > 0,
        num1 <= num2,
    ensures
        nearest(num1, den) <= nearest(num2, den),
{
    lemma_nearest_total(num1, den);
    lemma_nearest_total(num2, den);
    let p1 = nearest(num1, den);
    let p2 = nearest(num2, den);
    if p2 + 1 < p1 {
        lemma_magnitude_increases(p2 + 1, p1);
        lemma_magnitude_increases(p2, p1 - 1);
        mul::lemma_mul_left_inequality(
            den,
            magnitude(p2) + magnitude(p2 + 1),
            magnitude(p1 - 1) + magnitude(p1),
        );
    } else if p2 + 1 == p1 {
        assert(magnitude(p2) + magnitude(p2 + 1) == magnitude(p1 - 1) + magnitude(p1));
    }
}

/// A magnitude rounds to its own pattern.
pub proof fn lemma_exact(den: int, pattern: int)
    requires
        den > 0,
        0 <= pattern <= INFINITE,
    ensures
        rounds_to(den * magnitude(pattern), den, pattern),
        nearest(den * magnitude(pattern), den) == pattern,
{
    let own = magnitude(pattern);
    mul::lemma_mul_is_distributive_add(den, own, own);
    if pattern > 0 {
        let below = magnitude(pattern - 1);
        lemma_magnitude_increases(pattern - 1, pattern);
        mul::lemma_mul_left_inequality(den, below + own + 1, own + own);
        mul::lemma_mul_is_distributive_add(den, below + own, 1);
    }
    let above = magnitude(pattern + 1);
    lemma_magnitude_increases(pattern, pattern + 1);
    mul::lemma_mul_left_inequality(den, own + own + 1, own + above);
    mul::lemma_mul_is_distributive_add(den, own + own, 1);
    lemma_nearest(den * own, den, pattern);
}

/// A number that is no larger than a magnitude rounds to no larger pattern.
pub proof fn lemma_nearest_is_bounded(num: int, den: int, pattern: int)
    requires
        den > 0,
        0 <= pattern <= INFINITE,
        num <= den * magnitude(pattern),
    ensures
        0 <= nearest(num, den) <= pattern,
{
    lemma_exact(den, pattern);
    lemma_nearest_is_monotone(num, den * magnitude(pattern), den);
    lemma_nearest_total(num, den);
}

/// Between two neighbouring patterns, the midpoint decides which one a number
/// rounds to.
proof fn lemma_between(num: int, den: int, m: int, q: nat)
    requires
        den > 0,
        0 <= m < 2 * BINADE,
        q == 0 || m >= BINADE,
        q <= 253,
        den * (m * power2::pow2(q)) <= num < den * ((m + 1) * power2::pow2(q)),
    ensures
        ({
            let low = q * BINADE + m;
            let midpoints = den * ((2 * m + 1) * power2::pow2(q));
            &&& 2 * num < midpoints ==> rounds_to(num, den, low)
            &&& 2 * num > midpoints ==> rounds_to(num, den, low + 1)
            &&& 2 * num == midpoints ==> rounds_to(num, den, low + m % 2)
        }),
{
    let low = q * BINADE + m;
    let unit = power2::pow2(q) as int;
    power2::lemma_pow2_pos(q);
    lemma_magnitude_of_parts(m, q);
    lemma_magnitude_of_parts(m + 1, q);
    assert(low + 1 <= INFINITE);
    assert(low % 2 == m % 2);
    assert(magnitude(low) + magnitude(low + 1) == (2 * m + 1) * unit) by (nonlinear_arith)
        requires
            magnitude(low) == m * unit,
            magnitude(low + 1) == (m + 1) * unit,
    ;
    if low > 0 {
        lemma_magnitude_increases(low - 1, low);
        lemma_scaled_midpoint(den, magnitude(low - 1), magnitude(low));
    }
    if low + 1 < INFINITE {
        lemma_magnitude_increases(low + 1, low + 2);
        lemma_scaled_midpoint(den, magnitude(low + 1), magnitude(low + 2));
    }
}

/// A scaled midpoint lies strictly between the numbers that it halves.
proof fn lemma_scaled_midpoint(den: int, low: int, high: int)
    requires
        den > 0,
        low < high,
    ensures
        2 * (den * low) < den * (low + high) < 2 * (den * high),
{
    assert(2 * (den * low) < den * (low + high) < 2 * (den * high)) by (nonlinear_arith)
        requires
            den > 0,
            low < high,
    ;
}

/// Two to the power `n`.
pub(crate) fn power_of_two(n: u32) -> (power: u64)
    requires
        n < 64,
    ensures
        power == power2::pow2(n as nat),
        power > 0,
{
    proof {
        power2::lemma_pow2_pos(n as nat);
        power2::lemma2_to64();
        power2::lemma2_to64_rest();
        if n < 63 {
            power2::lemma_pow2_strictly_increases(n as nat, 63);
        }
        vstd::bits::lemma_u64_shl_is_mul(1, n as u64);
    }
    1u64 << (n as u64)
}

/// The number of bits that `x` needs.
pub(crate) fn bit_length(x: u64) -> (length: u32)
    requires
        x > 0,
    ensures
        1 <= length <= 64,
        power2::pow2((length - 1) as nat) <= x < power2::pow2(length as nat),
    decreases x,
{
    proof {
        power2::lemma2_to64();
    }
    if x == 1 {
        1
    } else {
        let rest: u32 = bit_length(x / 2);
        proof {
            power2::lemma_pow2_unfold(rest as nat);
            power2::lemma_pow2_unfold(rest as nat + 1);
            if rest == 64 {
                power2::lemma2_to64_rest();
            }
        }
        rest + 1
    }
}

/// How the place where a number is cut, and what is cut off, relate it to the
/// two neighbours that it lies between.
proof fn lemma_cut(num: int, scale: int, sig: int, m: int, rem: int, unit: int, sticky: bool)
    requires
        scale > 0,
        unit > 0,
        sig == m * unit + rem,
        0 <= rem < unit,
        sticky ==> unit % 2 == 0,
        !sticky ==> num == sig * scale,
        sticky ==> sig * scale < num < (sig + 1) * scale,
    ensures
        m * (unit * scale) <= num < (m + 1) * (unit * scale),
        2 * rem < unit ==> 2 * num < (2 * m + 1) * (unit * scale),
        2 * rem > unit ==> 2 * num > (2 * m + 1) * (unit * scale),
        2 * rem == unit && sticky ==> 2 * num > (2 * m + 1) * (unit * scale),
        2 * rem == unit && !sticky ==> 2 * num == (2 * m + 1) * (unit * scale),
{
    let whole = m * (unit * scale);
    assert(sig * scale == whole + rem * scale) by (nonlinear_arith)
        requires
            sig == m * unit + rem,
            whole == m * (unit * scale),
    ;
    assert((m + 1) * (unit * scale) == whole + unit * scale) by (nonlinear_arith)
        requires
            whole == m * (unit * scale),
    ;
    assert((2 * m + 1) * (unit * scale) == 2 * whole + unit * scale) by (nonlinear_arith)
        requires
            whole == m * (unit * scale),
    ;
    assert((sig + 1) * scale == sig * scale + scale) by (nonlinear_arith);
    assert(0 <= rem * scale) by (nonlinear_arith)
        requires
            0 <= rem,
            scale > 0,
    ;
    assert(rem * scale + scale <= unit * scale) by (nonlinear_arith)
        requires
            rem + 1 <= unit,
            scale > 0,
    ;
    if 2 * rem < unit {
        if sticky {
            assert(2 * rem + 2 <= unit);
            assert(2 * (rem * scale) + 2 * scale <= unit * scale) by (nonlinear_arith)
                requires
                    2 * rem + 2 <= unit,
                    scale > 0,
            ;
        } else {
            assert(2 * (rem * scale) < unit * scale) by (nonlinear_arith)
                requires
                    2 * rem < unit,
                    scale > 0,
            ;
        }
    } else if 2 * rem > unit {
        assert(2 * (rem * scale) > unit * scale) by (nonlinear_arith)
            requires
                2 * rem > unit,
                scale > 0,
        ;
    } else {
        assert(2 * (rem * scale) == unit * scale) by (nonlinear_arith)
            requires
                2 * rem == unit,
        ;
    }
}

/// How a scaled number compares with a scaled pattern midpoint says how the
/// numbers themselves compare.
proof fn lemma_rescale(num: int, den: int, c: int, e: nat, k: nat, q: nat, s: nat)
    requires
        q + k == s + e,
    ensures
        ({
            let scaled = c * (power2::pow2(s) * (power2::pow2(e) * den));
            let bound = den * (c * power2::pow2(q));
            &&& scaled <= num * power2::pow2(k) ==> bound <= num
            &&& scaled < num * power2::pow2(k) ==> bound < num
            &&& scaled > num * power2::pow2(k) ==> bound > num
            &&& scaled == num * power2::pow2(k) ==> bound == num
        }),
{
    let big_k = power2::pow2(k) as int;
    let bound = den * (c * power2::pow2(q));
    power2::lemma_pow2_pos(k);
    power2::lemma_pow2_adds(q, k);
    power2::lemma_pow2_adds(s, e);
    assert(c * (power2::pow2(s) * (power2::pow2(e) * den)) == bound * big_k) by (nonlinear_arith)
        requires
            power2::pow2(s) * power2::pow2(e) == power2::pow2(q) * big_k,
            bound == den * (c * power2::pow2(q)),
    ;
    if bound < num {
        mul::lemma_mul_strict_inequality(bound, num, big_k);
    } else if bound > num {
        mul::lemma_mul_strict_inequality(num, bound, big_k);
    }
}

/// Whether `num / den` is the number `sig * 2^(e - k)`, or, where something
/// was cut off, lies strictly between it and `(sig + 1) * 2^(e - k)`.
pub open spec fn scaled_to(
    num: int,
    den: int,
    sig: int,
    e: nat,
    k: nat,
    sticky: bool,
) -> bool {
    let scale = power2::pow2(e) * den;
    if sticky {
        sig * scale < num * power2::pow2(k) < (sig + 1) * scale
    } else {
        num * power2::pow2(k) == sig * scale
    }
}

/// A significand that is cut at `unit` rounds by what is cut off.
proof fn lemma_round_cut(
    num: int,
    den: int,
    sig: int,
    e: nat,
    k: nat,
    sticky: bool,
    q: nat,
    s: nat,
    m: int,
    rem: int,
)
    requires
        den > 0,
        scaled_to(num, den, sig, e, k, sticky),
        q + k == s + e,
        sticky ==> s >= 1,
        sig == m * power2::pow2(s) + rem,
        0 <= rem < power2::pow2(s),
        0 <= m < 2 * BINADE,
        q == 0 || m >= BINADE,
        q <= 253,
    ensures
        ({
            let low = q * BINADE + m;
            let unit = power2::pow2(s);
            &&& 2 * rem < unit ==> rounds_to(num, den, low)
            &&& 2 * rem > unit ==> rounds_to(num, den, low + 1)
            &&& 2 * rem == unit && sticky ==> rounds_to(num, den, low + 1)
            &&& 2 * rem == unit && !sticky ==> rounds_to(num, den, low + m % 2)
        }),
{
    let unit = power2::pow2(s) as int;
    let scale = power2::pow2(e) * den;
    power2::lemma_pow2_pos(s);
    power2::lemma_pow2_pos(e);
    mul::lemma_mul_strictly_positive(power2::pow2(e) as int, den);
    if sticky {
        power2::lemma_pow2_unfold(s);
    }
    lemma_cut(num * power2::pow2(k), scale, sig, m, rem, unit, sticky);
    lemma_rescale(num, den, m, e, k, q, s);
    lemma_rescale(num, den, m + 1, e, k, q, s);
    lemma_rescale(2 * num, den, 2 * m + 1, e, k, q, s);
    mul::lemma_mul_is_associative(2, num, power2::pow2(k) as int);
    lemma_between(num, den, m, q);
}

/// A number of two to the power of 128 or more rounds to the infinite pattern.
proof fn lemma_overflow(
    num: int,
    den: int,
    sig: int,
    e: nat,
    k: nat,
    sticky: bool,
    length: nat,
)
    requires
        den > 0,
        scaled_to(num, den, sig, e, k, sticky),
        length >= 1,
        sig >= power2::pow2((length - 1) as nat),
        length + e >= k + 278,
    ensures
        rounds_to(num, den, INFINITE as int),
{
    let floor = (length - 1) as nat;
    let big_k = power2::pow2(k) as int;
    let big_e = power2::pow2(e) as int;
    let rest = (floor + e - k - 277) as nat;
    power2::lemma_pow2_pos(k);
    power2::lemma_pow2_pos(e);
    power2::lemma_pow2_pos(rest);
    power2::lemma2_to64();
    power2::lemma_pow2_adds(23, 254);
    power2::lemma_pow2_adds(floor, e);
    power2::lemma_pow2_adds(277, k);
    power2::lemma_pow2_adds(277 + k, rest);
    let top = magnitude(INFINITE as int);
    assert(top == power2::pow2(277));
    assert(sig * (big_e * den) >= den * top * big_k) by (nonlinear_arith)
        requires
            sig >= power2::pow2(floor),
            big_e > 0,
            den > 0,
            big_k > 0,
            top * big_k == power2::pow2(277 + k),
            power2::pow2(floor) * big_e == power2::pow2(277 + k) * power2::pow2(rest),
            power2::pow2(rest) >= 1,
            power2::pow2(277 + k) >= 0,
    {
        assert(sig * big_e >= power2::pow2(floor) * big_e);
        assert(power2::pow2(277 + k) * power2::pow2(rest) >= power2::pow2(277 + k));
        assert(sig * big_e >= top * big_k);
        assert((sig * big_e) * den >= (top * big_k) * den);
        assert(sig * (big_e * den) == (sig * big_e) * den);
        assert(den * top * big_k == (top * big_k) * den);
    }
    mul::lemma_mul_inequality_converse(den * top, num, big_k);
    lemma_magnitude_increases(INFINITE - 1, INFINITE as int);
    lemma_scaled_midpoint(den, magnitude(INFINITE - 1), top);
}

/// The bits that remain of a number when its last `s` bits are cut off.
proof fn lemma_cut_length(sig: u64, length: nat, s: nat)
    requires
        length >= 1,
        power2::pow2((length - 1) as nat) <= sig < power2::pow2(length),
    ensures
        power2::pow2(s) > 0,
        s + 24 >= length ==> sig as int / (power2::pow2(s) as int) < 2 * BINADE,
        s + 24 == length ==> sig as int / (power2::pow2(s) as int) >= BINADE,
{
    let unit = power2::pow2(s) as int;
    power2::lemma_pow2_pos(s);
    power2::lemma2_to64();
    if s + 24 >= length {
        power2::lemma_pow2_adds(s, 24);
        if s + 24 > length {
            power2::lemma_pow2_strictly_increases(length, s + 24);
        }
        div_mod::lemma_multiply_divide_lt(sig as int, unit, 2 * BINADE as int);
    }
    if s + 24 == length {
        power2::lemma_pow2_adds(s, 23);
        div_mod::lemma_div_multiples_vanish(BINADE as int, unit);
        div_mod::lemma_div_is_ordered(unit * BINADE, sig as int, unit);
    }
}

/// The pattern of a number that is short enough to need no rounding.
fn round_exact(
    sig: u64,
    e: u32,
    k: u32,
    q: u32,
    length: u32,
    Ghost(num): Ghost<int>,
    Ghost(den): Ghost<int>,
) -> (pattern: u32)
    requires
        den > 0,
        e <= 1000,
        k <= 1000,
        1 <= length,
        power2::pow2((length - 1) as nat) <= sig < power2::pow2(length as nat),
        e > q + k,
        q <= 253,
        length + e <= k + 24 + q,
        q > 0 ==> length + e == k + 24 + q,
        scaled_to(num, den, sig as int, e as nat, k as nat, false),
    ensures
        rounds_to(num, den, pattern as int),
        pattern == nearest(num, den),
{
    let t: u32 = e - q - k;
    proof {
        power2::lemma2_to64();
        power2::lemma_pow2_pos(t as nat);
        power2::lemma_pow2_adds(length as nat, t as nat);
        power2::lemma_pow2_adds((length - 1) as nat, t as nat);
        mul::lemma_mul_strict_inequality(
            sig as int,
            power2::pow2(length as nat) as int,
            power2::pow2(t as nat) as int,
        );
        mul::lemma_mul_inequality(
            power2::pow2((length - 1) as nat) as int,
            sig as int,
            power2::pow2(t as nat) as int,
        );
        if length + t < 24 {
            power2::lemma_pow2_strictly_increases((length + t) as nat, 24);
        }
    }
    let m: u64 = sig * power_of_two(t);
    let low: u32 = q * BINADE + m as u32;
    proof {
        let big_k = power2::pow2(k as nat) as int;
        let big_q = power2::pow2(q as nat) as int;
        let big_t = power2::pow2(t as nat) as int;
        power2::lemma_pow2_pos(k as nat);
        power2::lemma_pow2_adds(q as nat, k as nat);
        power2::lemma_pow2_adds(t as nat, (q + k) as nat);
        lemma_magnitude_of_parts(m as int, q as nat);
        let own = magnitude(low as int);
        assert((den * own) * big_k == num * big_k) by (nonlinear_arith)
            requires
                num * big_k == sig as int * (power2::pow2(e as nat) * den),
                power2::pow2(e as nat) == big_t * (big_q * big_k),
                own == (sig as int * big_t) * big_q,
        ;
        assert(den * own == num) by (nonlinear_arith)
            requires
                (den * own) * big_k == num * big_k,
                big_k > 0,
        ;
        lemma_exact(den, low as int);
    }
    low
}

/// The pattern that `sig * 2^(e - k)` rounds to, where `sticky` says that
/// something less than one more `2^(e - k)` was cut off.
pub(crate) fn round_scaled(
    sig: u64,
    e: u32,
    k: u32,
    sticky: bool,
    Ghost(num): Ghost<int>,
    Ghost(den): Ghost<int>,
) -> (pattern: u32)
    requires
        den > 0,
        sig < 0x8000_0000_0000_0000,
        sticky ==> sig >= 0x200_0000,
        e <= 1000,
        k <= 1000,
        scaled_to(num, den, sig as int, e as nat, k as nat, sticky),
    ensures
        rounds_to(num, den, pattern as int),
        pattern == nearest(num, den),
{
    if sig == 0 {
        proof {
            power2::lemma_pow2_pos(k as nat);
            mul::lemma_mul_basics(power2::pow2(e as nat) * den);
            assert(num == 0) by (nonlinear_arith)
                requires
                    num * power2::pow2(k as nat) == 0,
                    power2::pow2(k as nat) > 0,
            ;
            lemma_magnitude_sign(0);
            lemma_exact(den, 0);
        }
        return 0;
    }
    let length: u32 = bit_length(sig);
    let q: u32 = if length + e > k + 24 {
        length + e - k - 24
    } else {
        0
    };
    if q > 253 {
        proof {
            lemma_overflow(
                num,
                den,
                sig as int,
                e as nat,
                k as nat,
                sticky,
                length as nat,
            );
            lemma_nearest(num, den, INFINITE as int);
        }
        return INFINITE;
    }
    proof {
        power2::lemma2_to64();
        power2::lemma2_to64_rest();
    }
    if e > q + k {
        round_exact(sig, e, k, q, length, Ghost(num), Ghost(den))
    } else {
        let s: u32 = q + k - e;
        if s >= 64 {
            proof {
                if s > 64 {
                    power2::lemma_pow2_strictly_increases(64, s as nat);
                }
                lemma_round_cut(
                    num,
                    den,
                    sig as int,
                    e as nat,
                    k as nat,
                    sticky,
                    0,
                    s as nat,
                    0,
                    sig as int,
                );
                lemma_nearest(num, den, 0);
            }
            return 0;
        }
        let unit: u64 = power_of_two(s);
        let m: u64 = sig / unit;
        let rem: u64 = sig % unit;
        proof {
            lemma_cut_length(sig, length as nat, s as nat);
            if sticky && length < 26 {
                if length < 25 {
                    power2::lemma_pow2_strictly_increases(length as nat, 25);
                }
            }
            div_mod::lemma_fundamental_div_mod(sig as int, unit as int);
            mul::lemma_mul_is_commutative(unit as int, m as int);
            lemma_round_cut(
                num,
                den,
                sig as int,
                e as nat,
                k as nat,
                sticky,
                q as nat,
                s as nat,
                m as int,
                rem as int,
            );
        }
        let low: u32 = q * BINADE + m as u32;
        let up: bool = rem > unit - rem || (rem == unit - rem && (sticky || m % 2 == 1));
        let pattern: u32 = if up {
            low + 1
        } else {
            low
        };
        proof {
            lemma_nearest(num, den, pattern as int);
        }
        pattern
    }
}

/// Where another pattern is as close to a number as the one that it rounds to,
/// the latter is even.
pub proof fn lemma_nearest_tie_is_even(num: int, den: int, other: int)
    requires
        den > 0,
        0 <= other <= INFINITE,
        other != nearest(num, den),
        vstd::math::abs(num - den * magnitude(other)) == vstd::math::abs(
            num - den * magnitude(nearest(num, den)),
        ),
    ensures
        nearest(num, den) % 2 == 0,
{
    lemma_nearest_total(num, den);
    let own = nearest(num, den);
    if other < own {
        lemma_magnitude_increases(other, own);
        if other < own - 1 {
            lemma_magnitude_increases(other, own - 1);
        }
        mul::lemma_mul_left_inequality(den, magnitude(other), magnitude(own - 1));
        mul::lemma_mul_strict_inequality(magnitude(other), magnitude(own), den);
        mul::lemma_mul_is_commutative(den, magnitude(other));
        mul::lemma_mul_is_commutative(den, magnitude(own));
        mul::lemma_mul_is_distributive_add(den, magnitude(own - 1), magnitude(own));
    } else {
        lemma_magnitude_increases(own, other);
        if own + 1 < other {
            lemma_magnitude_increases(own + 1, other);
        }
        mul::lemma_mul_left_inequality(den, magnitude(own + 1), magnitude(other));
        mul::lemma_mul_strict_inequality(magnitude(own), magnitude(other), den);
        mul::lemma_mul_is_commutative(den, magnitude(other));
        mul::lemma_mul_is_commutative(den, magnitude(own));
        mul::lemma_mul_is_distributive_add(den, magnitude(own), magnitude(own + 1));
    }
}

/// The pattern of an integer that needs no more bits than a significand has.
pub proof fn lemma_integer_pattern(n: int) -> (pattern: int)
    requires
        0 <= n <= 2 * BINADE,
    ensures
        0 <= pattern < INFINITE,
        magnitude(pattern) == n * power2::pow2(149),
{
    power2::lemma2_to64();
    if n == 0 {
        lemma_magnitude_sign(0);
        mul::lemma_mul_basics(power2::pow2(149) as int);
        0
    } else {
        lemma_shifted_integer(n, n, 0)
    }
}

/// The pattern of an integer, from the integer shifted by some places.
proof fn lemma_shifted_integer(n: int, m: int, t: nat) -> (pattern: int)
    requires
        n >= 1,
        m == n * power2::pow2(t),
        0 < m <= 2 * BINADE,
    ensures
        0 <= pattern < INFINITE,
        magnitude(pattern) == n * power2::pow2(149),
    decreases 2 * BINADE - m,
{
    power2::lemma2_to64();
    power2::lemma_pow2_pos(t);
    mul::lemma_mul_inequality(1, n, power2::pow2(t) as int);
    if t > 24 {
        power2::lemma_pow2_strictly_increases(24, t);
    }
    if m >= BINADE {
        let q = (149 - t) as nat;
        lemma_magnitude_of_parts(m, q);
        power2::lemma_pow2_adds(t, q);
        mul::lemma_mul_is_associative(n, power2::pow2(t) as int, power2::pow2(q) as int);
        q * BINADE + m
    } else {
        power2::lemma_pow2_unfold(t + 1);
        mul::lemma_mul_is_associative(n, power2::pow2(t) as int, 2);
        lemma_shifted_integer(n, 2 * m, t + 1)
    }
}

} // verus!
