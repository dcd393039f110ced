//! The layout of a greenfield file, as functions on bit sequences.

use vstd::prelude::*;
use crate::bits::{bits_of, pack, padded, unpack, value_of};
use crate::quantization::{dequantized, quantized, Depths};

verus! {

/// The eight bytes that every file begins with: the ASCII text `grnfld42`.
pub const MAGIC: [u8; 8] = [103, 114, 110, 102, 108, 100, 52, 50];

/// The number of bytes before the first pixel.
pub const HEADER_LEN: usize = 18;

/// The number of bits before the first pixel.
pub open spec fn header_bit_len() -> nat {
    144
}

/// One pixel: an 8-bit sample for each channel.
#[derive(Clone, Copy, Debug, PartialEq, Eq)]
pub struct Rgb {
    pub r: u8,
    pub g: u8,
    pub b: u8,
}

/// What an image holds, as plain values.
pub struct ImageView {
    pub width: nat,
    pub height: nat,
    pub depths: Depths,
    /// The pixels, row by row from the top, each row from the left.
    pub pixels: Seq<Rgb>,
}

impl ImageView {
    /// The sides fit the 32 bits that a file gives them, the depths are
    /// valid, and there is one pixel for every place.
    pub open spec fn valid(self) -> bool {
        &&& self.width <= u32::MAX
        &&& self.height <= u32::MAX
        &&& self.depths.valid()
        &&& self.pixels.len() == self.width * self.height
    }
}

/// Why a run of bytes is not a greenfield file.
#[derive(Clone, Copy, Debug, PartialEq, Eq)]
pub enum DecodeError {
    /// The first eight bytes are not the magic bytes.
    BadMagic,
    /// The bytes end before the header does.
    UnexpectedEof,
    /// The header is whole, but fewer bytes follow it than its pixels take:
    /// `expected` bytes were announced and `found` are there.
    TruncatedPayload { expected: u128, found: u128 },
}

/// The magic bytes.
pub open spec fn magic() -> Seq<u8> {
    MAGIC@
}

/// The nine bits that give the three depths: each depth minus one, in three
/// bits, red first.
pub open spec fn depth_bits(depths: Depths) -> Seq<bool> {
    bits_of((depths.r - 1) as nat, 3) + bits_of((depths.g - 1) as nat, 3) + bits_of(
        (depths.b - 1) as nat,
        3,
    )
}

/// The bits of a header: the magic bytes, the width and the height in 32
/// bits each, the nine depth bits, and seven zero bits up to the next byte.
pub open spec fn header_bits(width: nat, height: nat, depths: Depths) -> Seq<bool> {
    padded(unpack(magic()) + bits_of(width, 32) + bits_of(height, 32) + depth_bits(depths))
}

/// The bits of one pixel: the level of each channel at its depth, red, green,
/// blue.
pub open spec fn pixel_bits(pixel: Rgb, depths: Depths) -> Seq<bool> {
    bits_of(quantized(pixel.r as int, depths.r) as nat, depths.r as nat) + bits_of(
        quantized(pixel.g as int, depths.g) as nat,
        depths.g as nat,
    ) + bits_of(quantized(pixel.b as int, depths.b) as nat, depths.b as nat)
}

/// The bits of a run of pixels, one pixel after the other with nothing in
/// between.
pub open spec fn payload_bits(pixels: Seq<Rgb>, depths: Depths) -> Seq<bool>
    decreases pixels.len(),
{
    if pixels.len() == 0 {
        Seq::empty()
    } else {
        payload_bits(pixels.drop_last(), depths) + pixel_bits(pixels.last(), depths)
    }
}

/// The bitstream of an image: its header, then its pixels.
pub open spec fn stream_of(image: ImageView) -> Seq<bool> {
    header_bits(image.width, image.height, image.depths) + payload_bits(
        image.pixels,
        image.depths,
    )
}

/// The file of an image: the bytes that hold its bitstream.
pub open spec fn encoded(image: ImageView) -> Seq<u8> {
    pack(stream_of(image))
}

/// The number of bits that the pixels of an image take.
pub open spec fn payload_bit_len(width: nat, height: nat, depths: Depths) -> nat {
    (width * height * depths.pixel_bit_size()) as nat
}

/// The number of bytes that the pixels of an image take: the bits, rounded
/// up to whole bytes.
pub open spec fn payload_byte_len(width: nat, height: nat, depths: Depths) -> nat {
    (payload_bit_len(width, height, depths) + 7) / 8
}

/// The number that `n` bits of a stream spell, from bit `at` on.
pub open spec fn field(stream: Seq<bool>, at: int, n: int) -> int {
    value_of(stream.subrange(at, at + n)) as int
}

/// The depths that a header gives: each 3-bit field plus one.
pub open spec fn depths_in(stream: Seq<bool>) -> Depths {
    Depths {
        r: field(stream, 128, 3) + 1,
        g: field(stream, 131, 3) + 1,
        b: field(stream, 134, 3) + 1,
    }
}

/// The sample that a channel of `bits` bits holds at bit `at` of a stream.
pub open spec fn sample_in(stream: Seq<bool>, at: int, bits: int) -> u8 {
    dequantized(field(stream, at, bits), bits) as u8
}

/// Pixel number `index` of a stream whose pixels are stored at `depths`.
pub open spec fn pixel_in(stream: Seq<bool>, depths: Depths, index: int) -> Rgb {
    let at = header_bit_len() + index * depths.pixel_bit_size();
    Rgb {
        r: sample_in(stream, at, depths.r),
        g: sample_in(stream, at + depths.r, depths.g),
        b: sample_in(stream, at + depths.r + depths.g, depths.b),
    }
}

/// What a run of bytes decodes to.
///
/// Fewer than eight bytes, or fewer than a header after a good magic, end too
/// early; eight bytes that are not the magic are a bad magic, whatever
/// follows; after a whole header, the pixels that it announces must all be
/// there. The seven padding bits of the header, the padding bits of the last
/// byte and any byte after the last pixel are not looked at.
pub open spec fn decoded(bytes: Seq<u8>) -> Result<ImageView, DecodeError> {
    let stream = unpack(bytes);
    let width = field(stream, 64, 32) as nat;
    let height = field(stream, 96, 32) as nat;
    let depths = depths_in(stream);
    let expected = payload_byte_len(width, height, depths);
    let found = bytes.len() - HEADER_LEN;
    if bytes.len() < 8 {
        Err(DecodeError::UnexpectedEof)
    } else if bytes.subrange(0, 8) != magic() {
        Err(DecodeError::BadMagic)
    } else if bytes.len() < HEADER_LEN {
        Err(DecodeError::UnexpectedEof)
    } else if found < expected {
        Err(DecodeError::TruncatedPayload { expected: expected as u128, found: found as u128 })
    } else {
        Ok(
            ImageView {
                width,
                height,
                depths,
                pixels: Seq::new(width * height, |index: int| pixel_in(stream, depths, index)),
            },
        )
    }
}

/// The pixel that comes back when `pixel` is written at `depths` and read
/// again: each sample is taken to its level and back.
pub open spec fn settled(pixel: Rgb, depths: Depths) -> Rgb {
    Rgb {
        r: dequantized(quantized(pixel.r as int, depths.r), depths.r) as u8,
        g: dequantized(quantized(pixel.g as int, depths.g), depths.g) as u8,
        b: dequantized(quantized(pixel.b as int, depths.b), depths.b) as u8,
    }
}

/// The image that comes back when `image` is written and read again: the
/// same sides and depths, and every pixel settled at the depths.
pub open spec fn requantized(image: ImageView) -> ImageView {
    ImageView {
        width: image.width,
        height: image.height,
        depths: image.depths,
        pixels: Seq::new(image.pixels.len(), |index: int| settled(image.pixels[index], image.depths)),
    }
}

/// What a run of bytes becomes when it is read and written again at the
/// depths of its own header.
pub open spec fn converted(bytes: Seq<u8>) -> Result<Seq<u8>, DecodeError> {
    match decoded(bytes) {
        Ok(image) => Ok(encoded(image)),
        Err(error) => Err(error),
    }
}

} // verus!
