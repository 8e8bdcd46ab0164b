use vstd::prelude::*;

use crate::blend::blend_spec;
use crate::blend::lemma_blend_between;
use crate::blend::scale_channel;
use crate::blend::CHANNEL_LIMIT;
use crate::fraction::in_unit_interval;
use crate::fraction::Fraction;
use crate::fraction::NEG_ZERO_BITS;
use crate::fraction::ONE_BITS;
use crate::fraction::POS_ZERO_BITS;

verus! {

/// A color: an ordered triple of channel values, conventionally red,
/// green and blue. A channel is held as a signed 64-bit integer; every
/// fixed-width integer channel type that converts losslessly to binary64
/// embeds into it. Equality is structural: all three channels equal.
#[derive(Clone, Copy, PartialEq, Eq, Structural, Debug)]
pub struct Rgb {
    /// The red channel (channel 0).
    pub red: i64,
    /// The green channel (channel 1).
    pub green: i64,
    /// The blue channel (channel 2).
    pub blue: i64,
}

/// All three channels lie within the range the channel scaler accepts.
pub open spec fn channels_in_range(c: Rgb) -> bool {
    &&& -CHANNEL_LIMIT <= c.red <= CHANNEL_LIMIT
    &&& -CHANNEL_LIMIT <= c.green <= CHANNEL_LIMIT
    &&& -CHANNEL_LIMIT <= c.blue <= CHANNEL_LIMIT
}

impl Rgb {
    /// Composes a color from its three channels.
    pub fn new(red: i64, green: i64, blue: i64) -> (c: Rgb)
        ensures
            c == (Rgb { red, green, blue }),
    {
        Rgb { red, green, blue }
    }
}

/// The single caller-visible failure: the fraction lies outside the
/// closed unit interval (NaN and infinities included) while the endpoint
/// colors differ, so no well-defined result exists.
#[derive(Clone, Copy, PartialEq, Eq, Structural, Debug)]
pub struct ValidationError;

/// What a plan directs the caller to do.
#[derive(Clone, Copy, PartialEq, Eq, Structural, Debug)]
pub enum ScaleAction {
    /// The fraction is out of range, but both endpoints are the same
    /// color: the result is the start color, unchanged.
    Keep,
    /// The fraction lies in the closed unit interval: blend each pair of
    /// channels at the fraction.
    Blend,
}

/// The validation policy. A fraction in the closed unit interval always
/// directs a blend; any other fraction is accepted only when the two
/// endpoints are the same color, in which case the start color stands
/// unchanged, and is rejected otherwise.
pub open spec fn plan_spec(fraction: Fraction, endpoints_equal: bool) -> Result<
    ScaleAction,
    ValidationError,
> {
    if in_unit_interval(fraction.bits) {
        Ok(ScaleAction::Blend)
    } else if endpoints_equal {
        Ok(ScaleAction::Keep)
    } else {
        Err(ValidationError)
    }
}

/// Decides what an interpolation with this fraction must do, given
/// whether the two endpoint colors are equal. Callers whose colors do
/// not embed into [`Rgb`] apply the policy through this function and
/// blend their own channels.
pub fn plan(fraction: Fraction, endpoints_equal: bool) -> (r: Result<ScaleAction, ValidationError>)
    ensures
        r == plan_spec(fraction, endpoints_equal),
{
    if fraction.in_unit_interval() {
        Ok(ScaleAction::Blend)
    } else if endpoints_equal {
        Ok(ScaleAction::Keep)
    } else {
        Err(ValidationError)
    }
}

/// The interpolation between two colors at a fraction: a blend of the
/// three channel pairs when the fraction lies in the closed unit
/// interval; the start color unchanged when it does not but the
/// endpoints are the same color; and a validation error otherwise.
pub open spec fn scale_rgb_spec(start: Rgb, end: Rgb, fraction: Fraction) -> Result<
    Rgb,
    ValidationError,
> {
    if in_unit_interval(fraction.bits) {
        Ok(
            Rgb {
                red: blend_spec(start.red as int, end.red as int, fraction.bits) as i64,
                green: blend_spec(start.green as int, end.green as int, fraction.bits) as i64,
                blue: blend_spec(start.blue as int, end.blue as int, fraction.bits) as i64,
            },
        )
    } else if start == end {
        Ok(start)
    } else {
        Err(ValidationError)
    }
}

/// Linearly interpolates between two colors at the encoded fraction.
pub fn scale_rgb(start: &Rgb, end: &Rgb, fraction: Fraction) -> (r: Result<Rgb, ValidationError>)
    requires
        channels_in_range(*start),
        channels_in_range(*end),
    ensures
        r == scale_rgb_spec(*start, *end, fraction),
{
    if fraction.in_unit_interval() {
        let red = scale_channel(start.red, end.red, fraction);
        let green = scale_channel(start.green, end.green, fraction);
        let blue = scale_channel(start.blue, end.blue, fraction);
        Ok(Rgb { red, green, blue })
    } else if *start == *end {
        Ok(*start)
    } else {
        Err(ValidationError)
    }
}

/// For any color and every fraction — NaN, infinities and out-of-range
/// values included — interpolating a color with itself succeeds and
/// returns the color unchanged.
pub proof fn lemma_same_color_unchanged(c: Rgb, fraction: Fraction)
    ensures
        scale_rgb_spec(c, c, fraction) == Ok::<Rgb, ValidationError>(c),
{
}

/// A fraction outside the closed unit interval (NaN and infinities
/// included) with two distinct endpoint colors is rejected with a
/// validation error.
pub proof fn lemma_out_of_range_rejected(start: Rgb, end: Rgb, fraction: Fraction)
    requires
        !in_unit_interval(fraction.bits),
        start != end,
    ensures
        scale_rgb_spec(start, end, fraction) == Err::<Rgb, ValidationError>(ValidationError),
{
}

/// A fraction inside the closed unit interval always succeeds, whatever
/// the endpoint colors.
pub proof fn lemma_in_range_succeeds(start: Rgb, end: Rgb, fraction: Fraction)
    requires
        in_unit_interval(fraction.bits),
    ensures
        scale_rgb_spec(start, end, fraction) is Ok,
{
}

/// The channel `c` lies between the channels `a` and `b`, whichever of
/// the two is larger.
pub open spec fn channel_between(a: i64, b: i64, c: i64) -> bool {
    if a <= b {
        a <= c <= b
    } else {
        b <= c <= a
    }
}

/// A successful interpolation's channels each lie between the
/// corresponding channels of the two endpoints: a result fits wherever
/// both endpoints fit, so converting it back to the endpoints' own
/// channel type cannot overflow.
pub proof fn lemma_channels_between_endpoints(start: Rgb, end: Rgb, fraction: Fraction)
    requires
        channels_in_range(start),
        channels_in_range(end),
        in_unit_interval(fraction.bits),
    ensures
        scale_rgb_spec(start, end, fraction) matches Ok(c) && channel_between(
            start.red,
            end.red,
            c.red,
        ) && channel_between(start.green, end.green, c.green) && channel_between(
            start.blue,
            end.blue,
            c.blue,
        ),
{
    lemma_blend_between(start.red as int, end.red as int, fraction.bits);
    lemma_blend_between(start.green as int, end.green as int, fraction.bits);
    lemma_blend_between(start.blue as int, end.blue as int, fraction.bits);
}

/// Endpoint identity at zero: a fraction of zero, of either sign, yields
/// the start color.
pub proof fn lemma_zero_fraction_yields_start(start: Rgb, end: Rgb, fraction: Fraction)
    requires
        fraction.bits == POS_ZERO_BITS || fraction.bits == NEG_ZERO_BITS,
    ensures
        scale_rgb_spec(start, end, fraction) == Ok::<Rgb, ValidationError>(start),
{
    let b = fraction.bits;
    assert(((b == 0u64 || b == 0x8000_0000_0000_0000u64) ==> !((b >> 52) & 0x7ff == 0x7ffu64 && b
        & 0xf_ffff_ffff_ffff != 0u64) && ((b >> 63 == 0u64) || ((b >> 52) & 0x7ff == 0u64 && b
        & 0xf_ffff_ffff_ffff == 0u64)) && ((b >> 63 == 1u64) || ((b >> 52) & 0x7ff < 0x3ffu64 || (
    (b >> 52) & 0x7ff == 0x3ffu64 && b & 0xf_ffff_ffff_ffff == 0u64))))) by (bit_vector);
    assert(in_unit_interval(b));
}

/// Endpoint identity at one: a fraction of exactly one yields the end
/// color.
pub proof fn lemma_one_fraction_yields_end(start: Rgb, end: Rgb, fraction: Fraction)
    requires
        fraction.bits == ONE_BITS,
    ensures
        scale_rgb_spec(start, end, fraction) == Ok::<Rgb, ValidationError>(end),
{
    let b = fraction.bits;
    assert((b == 0x3FF0_0000_0000_0000u64 ==> !((b >> 52) & 0x7ff == 0x7ffu64 && b
        & 0xf_ffff_ffff_ffff != 0u64) && ((b >> 63 == 0u64) || ((b >> 52) & 0x7ff == 0u64 && b
        & 0xf_ffff_ffff_ffff == 0u64)) && ((b >> 63 == 1u64) || ((b >> 52) & 0x7ff < 0x3ffu64 || (
    (b >> 52) & 0x7ff == 0x3ffu64 && b & 0xf_ffff_ffff_ffff == 0u64))))) by (bit_vector);
    assert(in_unit_interval(b));
    assert(b != POS_ZERO_BITS && b != NEG_ZERO_BITS);
}

} // verus!
