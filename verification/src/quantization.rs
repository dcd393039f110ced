//! Per-channel bit depths and the rescaling of samples between eight bits and
//! a reduced depth.

use vstd::prelude::*;
use vstd::arithmetic::power2::{pow2, lemma2_to64};
use vstd::bits::lemma_u32_shl_is_mul;

verus! {

/// One of the three colour channels of a pixel.
#[derive(Clone, Copy, Debug, PartialEq, Eq)]
pub enum Channel {
    Red,
    Green,
    Blue,
}

/// Why a [`QuantizationSpec`] could not be built.
#[derive(Clone, Copy, Debug, PartialEq, Eq)]
pub enum QuantizationError {
    /// The depth `bits` asked for `channel` is zero or more than eight.
    InvalidBitDepth { channel: Channel, bits: u8 },
}

/// The bit depths at which the three channels of an image are stored.
///
/// Every value of this type holds three depths between one and eight: it is
/// made by `new`, which refuses anything else, or by `full`.
#[derive(Clone, Copy, Debug, PartialEq, Eq)]
pub struct QuantizationSpec {
    bits_r: u8,
    bits_g: u8,
    bits_b: u8,
}

/// A depth that a channel can be stored at.
pub open spec fn valid_depth(bits: int) -> bool {
    1 <= bits <= 8
}

/// The largest level that a channel of `bits` bits can hold, `2^bits - 1`,
/// for each of the eight valid depths.
pub open spec fn max_level(bits: int) -> int {
    if bits == 1 {
        1
    } else if bits == 2 {
        3
    } else if bits == 3 {
        7
    } else if bits == 4 {
        15
    } else if bits == 5 {
        31
    } else if bits == 6 {
        63
    } else if bits == 7 {
        127
    } else {
        255
    }
}

/// The integer nearest to `num / den`, for `num >= 0` and `den > 0`; a
/// fraction of exactly one half goes up.
pub open spec fn round_div(num: int, den: int) -> int {
    (2 * num + den) / (2 * den)
}

/// The level that stands for the 8-bit `sample` at a depth of `bits` bits:
/// `sample * (2^bits - 1) / 255`, rounded to the nearest integer.
pub open spec fn quantized(sample: int, bits: int) -> int {
    round_div(sample * max_level(bits), 255)
}

/// The 8-bit sample that the level `value` of a `bits`-bit channel stands
/// for: `value * 255 / (2^bits - 1)`, rounded to the nearest integer.
pub open spec fn dequantized(value: int, bits: int) -> int {
    round_div(value * 255, max_level(bits))
}

/// The largest level of a valid depth is one less than two to the depth.
pub proof fn lemma_max_level_is_power_of_two(bits: int)
    requires
        valid_depth(bits),
    ensures
        max_level(bits) == pow2(bits as nat) - 1,
{
    lemma2_to64();
}

/// The largest level of a `bits`-bit channel.
pub fn largest_level(bits: u8) -> (max: u16)
    requires
        valid_depth(bits as int),
    ensures
        max as int == max_level(bits as int),
        1 <= max <= 255,
{
    proof {
        lemma2_to64();
        lemma_max_level_is_power_of_two(bits as int);
        lemma_u32_shl_is_mul(1u32, bits as u32);
    }
    let shifted: u32 = 1u32 << (bits as u32);
    (shifted - 1) as u16
}

/// Reduces an 8-bit sample to a level of `bits` bits.
pub fn quantize(sample: u8, bits: u8) -> (level: u16)
    requires
        valid_depth(bits as int),
    ensures
        level as int == quantized(sample as int, bits as int),
        0 <= level <= max_level(bits as int),
{
    let max: u32 = largest_level(bits) as u32;
    proof {
        lemma_quantized_in_range(sample as int, bits as int);
        assert(sample * max <= 255 * 255) by (nonlinear_arith)
            requires
                sample <= 255,
                max <= 255,
        ;
    }
    let level: u32 = (2 * (sample as u32 * max) + 255) / 510;
    level as u16
}

/// Widens a level of a `bits`-bit channel back to an 8-bit sample.
pub fn dequantize(value: u16, bits: u8) -> (sample: u8)
    requires
        valid_depth(bits as int),
        value as int <= max_level(bits as int),
    ensures
        sample as int == dequantized(value as int, bits as int),
{
    let max: u32 = largest_level(bits) as u32;
    proof {
        lemma_dequantized_in_range(value as int, bits as int);
    }
    let sample: u32 = (2 * (value as u32 * 255) + max) / (2 * max);
    sample as u8
}

/// A level computed by `quantized` fits the channel: it lies between 0 and
/// `2^bits - 1`, and the two ends of the sample range go to the two ends of
/// the level range.
pub proof fn lemma_quantized_in_range(sample: int, bits: int)
    requires
        0 <= sample <= 255,
        valid_depth(bits),
    ensures
        0 <= quantized(sample, bits) <= max_level(bits),
        quantized(0, bits) == 0,
        quantized(255, bits) == max_level(bits),
{
}

/// The facts about `dequantized` that need one look at each depth.
proof fn lemma_dequantized_by_depth(value: int, bits: int)
    requires
        valid_depth(bits),
        0 <= value <= max_level(bits),
    ensures
        0 <= dequantized(value, bits) <= 255,
        dequantized(0, bits) == 0,
        dequantized(max_level(bits), bits) == 255,
        ({
            let max = max_level(bits);
            let sample = dequantized(value, bits);
            -max < 2 * (max * sample - value * 255) < max
        }),
{
    if bits == 1 {
        assert(dequantized(value, bits) == (510 * value + 1) / 2);
        assert(dequantized(0, bits) == 1int / 2);
        assert(dequantized(1, bits) == (510 * 1int + 1) / 2);
        assert(-1 < 2 * (1 * dequantized(value, bits) - value * 255) < 1);
    } else if bits == 2 {
        assert(dequantized(value, bits) == (510 * value + 3) / 6);
        assert(dequantized(0, bits) == 3int / 6);
        assert(dequantized(3, bits) == (510 * 3int + 3) / 6);
        assert(-3 < 2 * (3 * dequantized(value, bits) - value * 255) < 3);
    } else if bits == 3 {
        assert(dequantized(value, bits) == (510 * value + 7) / 14);
        assert(dequantized(0, bits) == 7int / 14);
        assert(dequantized(7, bits) == (510 * 7int + 7) / 14);
        assert(-7 < 2 * (7 * dequantized(value, bits) - value * 255) < 7);
    } else if bits == 4 {
        assert(dequantized(value, bits) == (510 * value + 15) / 30);
        assert(dequantized(0, bits) == 15int / 30);
        assert(dequantized(15, bits) == (510 * 15int + 15) / 30);
        assert(-15 < 2 * (15 * dequantized(value, bits) - value * 255) < 15);
    } else if bits == 5 {
        assert(dequantized(value, bits) == (510 * value + 31) / 62);
        assert(dequantized(0, bits) == 31int / 62);
        assert(dequantized(31, bits) == (510 * 31int + 31) / 62);
        assert(-31 < 2 * (31 * dequantized(value, bits) - value * 255) < 31);
    } else if bits == 6 {
        assert(dequantized(value, bits) == (510 * value + 63) / 126);
        assert(dequantized(0, bits) == 63int / 126);
        assert(dequantized(63, bits) == (510 * 63int + 63) / 126);
        assert(-63 < 2 * (63 * dequantized(value, bits) - value * 255) < 63);
    } else if bits == 7 {
        assert(dequantized(value, bits) == (510 * value + 127) / 254);
        assert(dequantized(0, bits) == 127int / 254);
        assert(dequantized(127, bits) == (510 * 127int + 127) / 254);
        assert(-127 < 2 * (127 * dequantized(value, bits) - value * 255) < 127);
    } else {
        assert(dequantized(value, bits) == (510 * value + 255) / 510);
        assert(dequantized(0, bits) == 255int / 510);
        assert(dequantized(255, bits) == (510 * 255int + 255) / 510);
        assert(-255 < 2 * (255 * dequantized(value, bits) - value * 255) < 255);
    }
}

/// A sample computed by `dequantized` is a byte, and the two ends of the
/// level range go to 0 and 255.
pub proof fn lemma_dequantized_in_range(value: int, bits: int)
    requires
        valid_depth(bits),
        0 <= value <= max_level(bits),
    ensures
        0 <= dequantized(value, bits) <= 255,
        dequantized(0, bits) == 0,
        dequantized(max_level(bits), bits) == 255,
{
    lemma_dequantized_by_depth(value, bits);
}

/// `quantized` rounds to the nearest level: the level differs from the exact
/// quotient `sample * (2^bits - 1) / 255` by less than one half. No quotient
/// lies exactly between two levels, so no tie is ever broken.
pub proof fn lemma_quantized_is_nearest(sample: int, bits: int)
    requires
        0 <= sample <= 255,
        valid_depth(bits),
    ensures
        ({
            let exact = sample * max_level(bits);
            let level = quantized(sample, bits);
            -255 < 2 * (255 * level - exact) < 255
        }),
{
    if bits == 1 {
        assert(sample * max_level(bits) == 1 * sample);
        assert(quantized(sample, bits) == (2 * sample + 255) / 510);
        assert(-255 < 2 * (255 * quantized(sample, bits) - 1 * sample) < 255);
    } else if bits == 2 {
        assert(sample * max_level(bits) == 3 * sample);
        assert(quantized(sample, bits) == (6 * sample + 255) / 510);
        assert(-255 < 2 * (255 * quantized(sample, bits) - 3 * sample) < 255);
    } else if bits == 3 {
        assert(sample * max_level(bits) == 7 * sample);
        assert(quantized(sample, bits) == (14 * sample + 255) / 510);
        assert(-255 < 2 * (255 * quantized(sample, bits) - 7 * sample) < 255);
    } else if bits == 4 {
        assert(sample * max_level(bits) == 15 * sample);
        assert(quantized(sample, bits) == (30 * sample + 255) / 510);
        assert(-255 < 2 * (255 * quantized(sample, bits) - 15 * sample) < 255);
    } else if bits == 5 {
        assert(sample * max_level(bits) == 31 * sample);
        assert(quantized(sample, bits) == (62 * sample + 255) / 510);
        assert(-255 < 2 * (255 * quantized(sample, bits) - 31 * sample) < 255);
    } else if bits == 6 {
        assert(sample * max_level(bits) == 63 * sample);
        assert(quantized(sample, bits) == (126 * sample + 255) / 510);
        assert(-255 < 2 * (255 * quantized(sample, bits) - 63 * sample) < 255);
    } else if bits == 7 {
        assert(sample * max_level(bits) == 127 * sample);
        assert(quantized(sample, bits) == (254 * sample + 255) / 510);
        assert(-255 < 2 * (255 * quantized(sample, bits) - 127 * sample) < 255);
    } else {
        assert(sample * max_level(bits) == 255 * sample);
        assert(quantized(sample, bits) == (510 * sample + 255) / 510);
        assert(-255 < 2 * (255 * quantized(sample, bits) - 255 * sample) < 255);
    }
}

/// `dequantized` rounds to the nearest sample: the sample differs from the
/// exact quotient `value * 255 / (2^bits - 1)` by less than one half.
pub proof fn lemma_dequantized_is_nearest(value: int, bits: int)
    requires
        valid_depth(bits),
        0 <= value <= max_level(bits),
    ensures
        ({
            let max = max_level(bits);
            let sample = dequantized(value, bits);
            -max < 2 * (max * sample - value * 255) < max
        }),
{
    lemma_dequantized_by_depth(value, bits);
}

/// Quantizing and then dequantizing a sample moves it by at most
/// `255 / (2^bits - 1)`, and at eight bits it does not move it at all.
pub proof fn lemma_round_trip_bound(sample: int, bits: int)
    requires
        0 <= sample <= 255,
        valid_depth(bits),
    ensures
        ({
            let back = dequantized(quantized(sample, bits), bits);
            &&& (back - sample) * max_level(bits) <= 255
            &&& (sample - back) * max_level(bits) <= 255
            &&& bits == 8 ==> back == sample
        }),
{
    lemma_quantized_in_range(sample, bits);
    lemma_quantized_is_nearest(sample, bits);
    lemma_dequantized_is_nearest(quantized(sample, bits), bits);
}

/// Dequantizing a level and quantizing the sample again gives the level back:
/// nothing more is lost once a sample has been through a channel.
pub proof fn lemma_level_survives(value: int, bits: int)
    requires
        valid_depth(bits),
        0 <= value <= max_level(bits),
    ensures
        quantized(dequantized(value, bits), bits) == value,
{
    lemma_dequantized_in_range(value, bits);
    lemma_dequantized_is_nearest(value, bits);
    lemma_quantized_is_nearest(dequantized(value, bits), bits);
}

/// What a [`QuantizationSpec`] holds, as plain numbers: the depth of each
/// channel.
pub struct Depths {
    pub r: int,
    pub g: int,
    pub b: int,
}

impl Depths {
    /// All three depths are between one and eight.
    pub open spec fn valid(self) -> bool {
        &&& valid_depth(self.r)
        &&& valid_depth(self.g)
        &&& valid_depth(self.b)
    }

    /// The number of bits that one pixel takes in a file.
    pub open spec fn pixel_bit_size(self) -> int {
        self.r + self.g + self.b
    }
}

impl View for QuantizationSpec {
    type V = Depths;

    closed spec fn view(&self) -> Depths {
        Depths { r: self.bits_r as int, g: self.bits_g as int, b: self.bits_b as int }
    }
}

impl QuantizationSpec {
    #[verifier::type_invariant]
    spec fn depths_are_valid(&self) -> bool {
        self@.valid()
    }

    /// Two values with the same three depths are the same value.
    pub proof fn lemma_depths_determine(self, other: QuantizationSpec)
        requires
            self@ == other@,
        ensures
            self == other,
    {
    }

    /// Checks the three depths and keeps them. The error names the first
    /// channel, in the order red, green, blue, whose depth is out of range.
    pub fn new(bits_r: u8, bits_g: u8, bits_b: u8) -> (made: Result<
        QuantizationSpec,
        QuantizationError,
    >)
        ensures
            made is Ok <==> valid_depth(bits_r as int) && valid_depth(bits_g as int)
                && valid_depth(bits_b as int),
            made matches Ok(spec) ==> spec@ == (Depths {
                r: bits_r as int,
                g: bits_g as int,
                b: bits_b as int,
            }),
            made matches Err(error) ==> error == first_invalid_depth(
                bits_r as int,
                bits_g as int,
                bits_b as int,
            ),
    {
        if bits_r < 1 || bits_r > 8 {
            Err(QuantizationError::InvalidBitDepth { channel: Channel::Red, bits: bits_r })
        } else if bits_g < 1 || bits_g > 8 {
            Err(QuantizationError::InvalidBitDepth { channel: Channel::Green, bits: bits_g })
        } else if bits_b < 1 || bits_b > 8 {
            Err(QuantizationError::InvalidBitDepth { channel: Channel::Blue, bits: bits_b })
        } else {
            Ok(QuantizationSpec { bits_r, bits_g, bits_b })
        }
    }

    /// Eight bits on every channel: nothing is lost.
    pub fn full() -> (spec: QuantizationSpec)
        ensures
            spec@ == (Depths { r: 8, g: 8, b: 8 }),
    {
        QuantizationSpec { bits_r: 8, bits_g: 8, bits_b: 8 }
    }

    /// The depth of the red channel.
    pub fn bits_r(&self) -> (bits: u8)
        ensures
            bits as int == self@.r,
            self@.valid(),
    {
        proof {
            use_type_invariant(self);
        }
        self.bits_r
    }

    /// The depth of the green channel.
    pub fn bits_g(&self) -> (bits: u8)
        ensures
            bits as int == self@.g,
            self@.valid(),
    {
        proof {
            use_type_invariant(self);
        }
        self.bits_g
    }

    /// The depth of the blue channel.
    pub fn bits_b(&self) -> (bits: u8)
        ensures
            bits as int == self@.b,
            self@.valid(),
    {
        proof {
            use_type_invariant(self);
        }
        self.bits_b
    }

    /// The number of bits that one pixel takes in a file: the sum of the
    /// three depths, between 3 and 24.
    pub fn pixel_bit_size(&self) -> (bits: u8)
        ensures
            bits as int == self@.pixel_bit_size(),
            3 <= bits <= 24,
            self@.valid(),
    {
        proof {
            use_type_invariant(self);
        }
        self.bits_r + self.bits_g + self.bits_b
    }
}

/// The error that `QuantizationSpec::new` gives for three depths of which at
/// least one is out of range.
pub open spec fn first_invalid_depth(bits_r: int, bits_g: int, bits_b: int) -> QuantizationError {
    if !valid_depth(bits_r) {
        QuantizationError::InvalidBitDepth { channel: Channel::Red, bits: bits_r as u8 }
    } else if !valid_depth(bits_g) {
        QuantizationError::InvalidBitDepth { channel: Channel::Green, bits: bits_g as u8 }
    } else {
        QuantizationError::InvalidBitDepth { channel: Channel::Blue, bits: bits_b as u8 }
    }
}

} // verus!
