//! Colours of page objects.

use crate::rounding;
use crate::rounding::INFINITE;
use crate::single;
use crate::single::Single;
use vstd::arithmetic::mul;
use vstd::arithmetic::power2;
use vstd::prelude::*;

verus! {

/// The bits of 0.299, 0.587 and 0.114: the weights of red, green and blue in
/// the luminance of a colour.
pub const RED_WEIGHT: u32 = 0x3e99_1687;

pub const GREEN_WEIGHT: u32 = 0x3f16_45a2;

pub const BLUE_WEIGHT: u32 = 0x3de9_78d5;

/// The bits of 140.0, the luminance above which a fill counts as light.
pub const LIGHT: u32 = 0x430c_0000;

/// The alpha below which a fill counts as transparent.
pub const OPAQUE: u32 = 128;

/// The answer to a query of the PDF engine: a status that is zero on failure,
/// and the value that the query left in its output.
#[derive(Debug)]
pub struct Answer<T> {
    pub ok: i32,
    pub value: T,
}

impl<T> Answer<T> {
    /// Whether the query succeeded.
    pub open spec fn given(self) -> bool {
        self.ok != 0
    }
}

/// The channels of a colour as the engine reports them.
#[derive(Clone, Copy, Debug, PartialEq, Eq, Structural)]
pub struct Channels {
    pub r: u32,
    pub g: u32,
    pub b: u32,
    pub a: u32,
}

/// A colour with eight bits per channel.
#[derive(Clone, Copy, Debug, PartialEq, Eq, Structural)]
pub struct Color {
    pub r: u8,
    pub g: u8,
    pub b: u8,
    pub a: u8,
}

/// The colour that an answer holds: the low eight bits of each channel.
pub open spec fn color_of(answer: Answer<Channels>) -> Option<Color> {
    if answer.given() {
        Some(
            Color {
                r: (answer.value.r % 256) as u8,
                g: (answer.value.g % 256) as u8,
                b: (answer.value.b % 256) as u8,
                a: (answer.value.a % 256) as u8,
            },
        )
    } else {
        None
    }
}

/// Pack the colour channels that the engine reported. `None` when it reported
/// failure.
pub fn read_color(answer: &Answer<Channels>) -> (color: Option<Color>)
    ensures
        color == color_of(*answer),
{
    if answer.ok == 0 {
        return None;
    }
    Some(
        Color {
            r: (answer.value.r % 256) as u8,
            g: (answer.value.g % 256) as u8,
            b: (answer.value.b % 256) as u8,
            a: (answer.value.a % 256) as u8,
        },
    )
}

impl Channels {
    /// The luminance of the colour.
    pub open spec fn brightness(self) -> Single {
        let red = Single::of_bits(RED_WEIGHT).product(Single::of_int(self.r as int));
        let green = Single::of_bits(GREEN_WEIGHT).product(Single::of_int(self.g as int));
        let blue = Single::of_bits(BLUE_WEIGHT).product(Single::of_int(self.b as int));
        red.sum(green).sum(blue)
    }

    /// The luminance of the colour.
    pub fn luminance(&self) -> (luminance: Single)
        ensures
            luminance == self.brightness(),
    {
        let red: Single = Single::from_bits(RED_WEIGHT).times(Single::from_u32(self.r));
        let green: Single = Single::from_bits(GREEN_WEIGHT).times(Single::from_u32(self.g));
        let blue: Single = Single::from_bits(BLUE_WEIGHT).times(Single::from_u32(self.b));
        red.plus(green).plus(blue)
    }
}

/// Whether a fill may be ink: dark and opaque, or of a colour that cannot be
/// read, as that of a pattern or a shading.
pub open spec fn inked(fill: Answer<Channels>) -> bool {
    fill.given() ==> fill.value.a >= OPAQUE && !Single::of_bits(LIGHT).lt(fill.value.brightness())
}

/// Whether a fill may be ink, and not a light or transparent shade.
pub fn is_ink(fill: &Answer<Channels>) -> (ink: bool)
    ensures
        ink == inked(*fill),
{
    if fill.ok != 0 {
        if fill.value.a < OPAQUE {
            return false;
        }
        if Single::from_bits(LIGHT).less_than(fill.value.luminance()) {
            return false;
        }
    }
    true
}

/// Channels of eight bits are kept as they are.
pub proof fn lemma_color_is_exact(answer: Answer<Channels>)
    requires
        answer.given(),
        answer.value.r <= 255,
        answer.value.g <= 255,
        answer.value.b <= 255,
        answer.value.a <= 255,
    ensures
        color_of(answer) matches Some(color) && {
            &&& color.r == answer.value.r
            &&& color.g == answer.value.g
            &&& color.b == answer.value.b
            &&& color.a == answer.value.a
        },
{
}

/// The weighted brightness of a channel grows with the channel.
proof fn lemma_weighted_channel(weight: u32, n: u32, larger: u32)
    requires
        weight <= single::ONE,
        n <= larger,
    ensures
        ({
            let low = Single::of_bits(weight).product(Single::of_int(n as int));
            let high = Single::of_bits(weight).product(Single::of_int(larger as int));
            low.bits <= high.bits <= 0x4f80_0000
        }),
{
    single::lemma_of_int_is_finite(larger as int);
    single::lemma_of_int_grows(n as int, larger as int);
    single::lemma_product_is_monotone(
        Single::of_bits(weight),
        Single::of_int(n as int),
        Single::of_int(larger as int),
    );
}

/// The luminance of a colour grows with its channels.
pub proof fn lemma_luminance_grows(color: Channels, lighter: Channels)
    requires
        color.r <= lighter.r,
        color.g <= lighter.g,
        color.b <= lighter.b,
    ensures
        !lighter.brightness().lt(color.brightness()),
        color.brightness().bits <= lighter.brightness().bits < INFINITE,
{
    lemma_weighted_channel(RED_WEIGHT, color.r, lighter.r);
    lemma_weighted_channel(GREEN_WEIGHT, color.g, lighter.g);
    lemma_weighted_channel(BLUE_WEIGHT, color.b, lighter.b);
    let red = Single::of_bits(RED_WEIGHT).product(Single::of_int(color.r as int));
    let green = Single::of_bits(GREEN_WEIGHT).product(Single::of_int(color.g as int));
    let blue = Single::of_bits(BLUE_WEIGHT).product(Single::of_int(color.b as int));
    let more_red = Single::of_bits(RED_WEIGHT).product(Single::of_int(lighter.r as int));
    let more_green = Single::of_bits(GREEN_WEIGHT).product(Single::of_int(lighter.g as int));
    let more_blue = Single::of_bits(BLUE_WEIGHT).product(Single::of_int(lighter.b as int));
    single::lemma_sum_is_monotone(red, more_red, green, more_green, 0x4f80_0000);
    single::lemma_sum_is_monotone(
        red.sum(green),
        more_red.sum(more_green),
        blue,
        more_blue,
        0x5000_0000,
    );
    single::lemma_larger_bits(color.brightness(), lighter.brightness());
}

/// A fill that is no lighter and no more transparent than ink is ink.
pub proof fn lemma_darker_than_ink_is_ink(fill: Answer<Channels>, ink: Answer<Channels>)
    requires
        inked(ink),
        ink.given(),
        fill.value.r <= ink.value.r,
        fill.value.g <= ink.value.g,
        fill.value.b <= ink.value.b,
        fill.value.a >= ink.value.a,
    ensures
        inked(fill),
{
    lemma_luminance_grows(fill.value, ink.value);
    single::lemma_below(
        Single::of_bits(LIGHT),
        fill.value.brightness(),
        ink.value.brightness(),
    );
}

/// A colour is read exactly where the query did not fail, whatever the sign of
/// its status.
pub proof fn lemma_color_is_read_unless_refused(answer: Answer<Channels>)
    ensures
        color_of(answer) is Some <==> answer.ok != 0,
        answer.given() <==> answer.ok != 0,
{
}

/// What a channel holds beyond eight bits does not show in a colour.
pub proof fn lemma_color_wraps(answer: Answer<Channels>, other: Answer<Channels>)
    requires
        answer.ok != 0,
        other.ok != 0,
        answer.value.r % 256 == other.value.r % 256,
        answer.value.g % 256 == other.value.g % 256,
        answer.value.b % 256 == other.value.b % 256,
        answer.value.a % 256 == other.value.a % 256,
    ensures
        color_of(answer) == color_of(other),
{
}

/// A fill whose colour cannot be read may be ink; of others, those that are
/// opaque by half or more and of a luminance of at most 140.
pub proof fn lemma_ink_is_dark_and_opaque(fill: Answer<Channels>)
    ensures
        fill.ok == 0 ==> inked(fill),
        fill.ok != 0 && fill.value.a < 128 ==> !inked(fill),
        fill.ok != 0 && Single::of_int(140).lt(fill.value.brightness()) ==> !inked(fill),
        fill.value.a >= 128 && !Single::of_int(140).lt(fill.value.brightness()) ==> inked(fill),
{
    reveal(Single::of_int);
    assert(rounding::magnitude(LIGHT as int) == 140 * power2::pow2(149)) by {
        assert(rounding::place(LIGHT as int) == 133);
        power2::lemma_pow2_adds(16, 133);
        power2::lemma2_to64();
        mul::lemma_mul_is_associative(140, 0x1_0000, power2::pow2(133) as int);
    }
    rounding::lemma_exact(1, LIGHT as int);
}

/// Whether a fill is ink depends on its colour only in so far as it can be
/// read, and not on the number that says so.
pub proof fn lemma_ink_depends_on_the_colour(fill: Answer<Channels>, other: Answer<Channels>)
    requires
        (fill.ok != 0) == (other.ok != 0),
        fill.ok != 0 ==> fill.value == other.value,
    ensures
        inked(fill) == inked(other),
{
}

/// The luminance of a colour is that of its red, its green and its blue, added
/// up; and each of these is the channel times its weight.
pub proof fn lemma_luminance_adds_up(color: Channels)
    ensures
        ({
            let red = Channels { g: 0, b: 0, ..color }.brightness();
            let green = Channels { r: 0, b: 0, ..color }.brightness();
            let blue = Channels { r: 0, g: 0, ..color }.brightness();
            let by_weight = |weight: u32, n: u32|
                Single::of_bits(weight).product(Single::of_int(n as int));
            &&& color.brightness().same_number(red.sum(green).sum(blue))
            &&& red.same_number(by_weight(0x3e99_1687, color.r))
            &&& green.same_number(by_weight(0x3f16_45a2, color.g))
            &&& blue.same_number(by_weight(0x3de9_78d5, color.b))
        }),
{
    let zero = Single::of_int(0);
    let no_red = Single::of_bits(RED_WEIGHT).product(zero);
    let no_green = Single::of_bits(GREEN_WEIGHT).product(zero);
    let no_blue = Single::of_bits(BLUE_WEIGHT).product(zero);
    let r = Single::of_int(color.r as int);
    let g = Single::of_int(color.g as int);
    let b = Single::of_int(color.b as int);
    let red = Single::of_bits(RED_WEIGHT).product(r);
    let green = Single::of_bits(GREEN_WEIGHT).product(g);
    let blue = Single::of_bits(BLUE_WEIGHT).product(b);
    assert(zero.pattern() == 0) by {
        reveal(Single::of_int);
        rounding::lemma_magnitude_sign(0);
        rounding::lemma_exact(1, 0);
        mul::lemma_mul_basics(power2::pow2(149) as int);
    }
    single::lemma_zero_times(zero, Single::of_bits(RED_WEIGHT));
    single::lemma_zero_times(zero, Single::of_bits(GREEN_WEIGHT));
    single::lemma_zero_times(zero, Single::of_bits(BLUE_WEIGHT));
    // Each channel alone.
    single::lemma_result_plus_zero(Single::of_bits(RED_WEIGHT), r, no_green);
    single::lemma_result_plus_zero(red, no_green, no_blue);
    single::lemma_result_plus_zero(Single::of_bits(GREEN_WEIGHT), g, no_red);
    single::lemma_result_plus_zero(no_red, green, no_blue);
    single::lemma_zero_sum(no_red, no_green);
    single::lemma_result_plus_zero(Single::of_bits(BLUE_WEIGHT), b, no_red.sum(no_green));
    // All together.
    let red_alone = red.sum(no_green).sum(no_blue);
    let green_alone = no_red.sum(green).sum(no_blue);
    let blue_alone = no_red.sum(no_green).sum(blue);
    single::lemma_sum_same(red, red_alone, green, green_alone);
    single::lemma_sum_same(red.sum(green), red_alone.sum(green_alone), blue, blue_alone);
}

} // verus!
