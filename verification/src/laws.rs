//! What holds of the format as a whole: the size of a file, and that reading
//! a file gives back what was written.

use vstd::prelude::*;
use vstd::arithmetic::power2::{pow2, lemma2_to64};
use crate::bits::{
    bits_of, lemma_bits_of_len, lemma_unpack_pack, lemma_unpack_window, lemma_value_of_bits_of,
    lemma_value_of_bound, padded, padding, unpack, zeros,
};
use crate::format::{
    converted, decoded, depth_bits, depths_in, encoded, field, header_bit_len, header_bits, magic,
    payload_bit_len, payload_bits, payload_byte_len, pixel_bits, pixel_in, requantized, sample_in,
    settled, stream_of, DecodeError, ImageView, Rgb, HEADER_LEN,
};
use crate::quantization::{
    dequantized, lemma_dequantized_in_range, lemma_level_survives,
    lemma_max_level_is_power_of_two, lemma_quantized_in_range, lemma_round_trip_bound,
    quantized, valid_depth, Depths,
};

verus! {

/// The header before its padding: 137 bits.
pub open spec fn header_fields(width: nat, height: nat, depths: Depths) -> Seq<bool> {
    unpack(magic()) + bits_of(width, 32) + bits_of(height, 32) + depth_bits(depths)
}

/// A header takes 144 bits, and begins with its 137 bits of fields.
pub proof fn lemma_header_len(width: nat, height: nat, depths: Depths)
    ensures
        header_fields(width, height, depths).len() == 137,
        header_bits(width, height, depths).len() == header_bit_len(),
        header_bits(width, height, depths) == header_fields(width, height, depths) + zeros(7),
{
    lemma_bits_of_len(width, 32);
    lemma_bits_of_len(height, 32);
    lemma_bits_of_len((depths.r - 1) as nat, 3);
    lemma_bits_of_len((depths.g - 1) as nat, 3);
    lemma_bits_of_len((depths.b - 1) as nat, 3);
    assert(magic().len() == 8);
    assert(padding(137) == 7);
}

/// A pixel takes as many bits as its three depths together.
pub proof fn lemma_pixel_len(pixel: Rgb, depths: Depths)
    requires
        depths.valid(),
    ensures
        pixel_bits(pixel, depths).len() == depths.pixel_bit_size(),
{
    lemma_bits_of_len(quantized(pixel.r as int, depths.r) as nat, depths.r as nat);
    lemma_bits_of_len(quantized(pixel.g as int, depths.g) as nat, depths.g as nat);
    lemma_bits_of_len(quantized(pixel.b as int, depths.b) as nat, depths.b as nat);
}

/// A run of pixels takes the bits of one pixel times their number, and the
/// bits of pixel `index` begin at `index` times the bits of one pixel.
pub proof fn lemma_payload_chunk(pixels: Seq<Rgb>, depths: Depths, index: int)
    requires
        depths.valid(),
        0 <= index < pixels.len(),
    ensures
        payload_bits(pixels, depths).len() == pixels.len() * depths.pixel_bit_size(),
        0 <= index * depths.pixel_bit_size(),
        (index + 1) * depths.pixel_bit_size() <= payload_bits(pixels, depths).len(),
        payload_bits(pixels, depths).subrange(
            index * depths.pixel_bit_size(),
            (index + 1) * depths.pixel_bit_size(),
        ) == pixel_bits(pixels[index], depths),
    decreases pixels.len(),
{
    let size = depths.pixel_bit_size();
    let n = pixels.len() as int;
    let front = payload_bits(pixels.drop_last(), depths);
    let back = pixel_bits(pixels.last(), depths);
    lemma_payload_len(pixels, depths);
    lemma_payload_len(pixels.drop_last(), depths);
    lemma_pixel_len(pixels.last(), depths);
    assert(0 <= index * size && (index + 1) * size <= n * size && (n - 1) * size + size == n
        * size && (index + 1) * size == index * size + size) by (nonlinear_arith)
        requires
            0 <= index < n,
            size >= 0,
    ;
    if index == n - 1 {
        assert((front + back).subrange(index * size, (index + 1) * size) =~= back);
    } else {
        lemma_payload_chunk(pixels.drop_last(), depths, index);
        assert((index + 1) * size <= (n - 1) * size) by (nonlinear_arith)
            requires
                index + 1 <= n - 1,
                size >= 0,
        ;
        assert((front + back).subrange(index * size, (index + 1) * size) =~= front.subrange(
            index * size,
            (index + 1) * size,
        ));
    }
}

/// A run of pixels takes the bits of one pixel times their number.
pub proof fn lemma_payload_len(pixels: Seq<Rgb>, depths: Depths)
    requires
        depths.valid(),
    ensures
        payload_bits(pixels, depths).len() == pixels.len() * depths.pixel_bit_size(),
    decreases pixels.len(),
{
    let size = depths.pixel_bit_size();
    let n = pixels.len() as int;
    if n > 0 {
        lemma_payload_len(pixels.drop_last(), depths);
        lemma_pixel_len(pixels.last(), depths);
        assert((n - 1) * size + size == n * size) by (nonlinear_arith);
    } else {
        assert(0 * size == 0) by (nonlinear_arith);
    }
}

/// The size of a file: eighteen bytes of header, then the bits of the pixels
/// rounded up to whole bytes.
pub proof fn lemma_encoded_len(image: ImageView)
    requires
        image.valid(),
    ensures
        stream_of(image).len() == header_bit_len() + payload_bit_len(
            image.width,
            image.height,
            image.depths,
        ),
        encoded(image).len() == HEADER_LEN + payload_byte_len(
            image.width,
            image.height,
            image.depths,
        ),
{
    lemma_header_len(image.width, image.height, image.depths);
    lemma_payload_len(image.pixels, image.depths);
    lemma_unpack_pack(stream_of(image));
    assert(image.pixels.len() * image.depths.pixel_bit_size() >= 0) by (nonlinear_arith)
        requires
            image.pixels.len() >= 0,
            image.depths.pixel_bit_size() >= 0,
    ;
}

/// A field that was written as the `n` bits of a number below `2^n` is read
/// as that number.
proof fn lemma_field_of_bits(stream: Seq<bool>, at: int, value: nat, n: nat)
    requires
        0 <= at,
        at + n <= stream.len(),
        forall|k: int| 0 <= k < n ==> stream[at + k] == #[trigger] bits_of(value, n)[k],
        value < pow2(n),
    ensures
        field(stream, at, n as int) == value,
{
    lemma_bits_of_len(value, n);
    lemma_value_of_bits_of(value, n);
    assert(stream.subrange(at, at + n) =~= bits_of(value, n));
}

/// A channel that was written as the level of a sample is read as the
/// settled sample.
proof fn lemma_sample_round_trip(stream: Seq<bool>, at: int, sample: u8, bits: int)
    requires
        valid_depth(bits),
        0 <= at,
        at + bits <= stream.len(),
        forall|k: int|
            0 <= k < bits ==> stream[at + k] == #[trigger] bits_of(
                quantized(sample as int, bits) as nat,
                bits as nat,
            )[k],
    ensures
        sample_in(stream, at, bits) == dequantized(quantized(sample as int, bits), bits) as u8,
{
    lemma_quantized_in_range(sample as int, bits);
    lemma_max_level_is_power_of_two(bits);
    lemma_field_of_bits(stream, at, quantized(sample as int, bits) as nat, bits as nat);
}

/// The stream of the file of an image is the bitstream of the image, then
/// padding.
proof fn lemma_stream_of_file(image: ImageView)
    requires
        image.valid(),
    ensures
        unpack(encoded(image)) == padded(stream_of(image)),
        unpack(encoded(image)).len() >= stream_of(image).len(),
        forall|i: int|
            0 <= i < stream_of(image).len() ==> #[trigger] unpack(encoded(image))[i] == stream_of(
                image,
            )[i],
{
    lemma_unpack_pack(stream_of(image));
}

/// The stream of the file of an image begins with the fields of its header,
/// and holds a whole header.
proof fn lemma_file_begins_with_fields(image: ImageView)
    requires
        image.valid(),
    ensures
        unpack(encoded(image)).len() >= header_bit_len(),
        encoded(image).len() >= HEADER_LEN,
        forall|i: int|
            0 <= i < 137 ==> #[trigger] unpack(encoded(image))[i] == header_fields(
                image.width,
                image.height,
                image.depths,
            )[i],
{
    lemma_stream_of_file(image);
    lemma_header_len(image.width, image.height, image.depths);
    lemma_encoded_len(image);
}

/// The file of an image begins with the magic bytes.
proof fn lemma_magic_round_trip(image: ImageView)
    requires
        image.valid(),
    ensures
        encoded(image).len() >= 8,
        encoded(image).subrange(0, 8) == magic(),
{
    let bytes = encoded(image);
    let stream = unpack(bytes);
    let fields = header_fields(image.width, image.height, image.depths);
    lemma_file_begins_with_fields(image);
    lemma_unpack_pack(stream_of(image));
    lemma2_to64();
    assert forall|j: int| 0 <= j < 8 implies bytes[j] == magic()[j] by {
        let window = padded(stream_of(image)).subrange(8 * j, 8 * j + 8);
        lemma_unpack_window(magic(), j);
        assert(window =~= bits_of(magic()[j] as nat, 8)) by {
            assert forall|k: int| 0 <= k < 8 implies window[k] == unpack(magic()).subrange(
                8 * j,
                8 * j + 8,
            )[k] by {
                assert(window[k] == stream[8 * j + k]);
                assert(fields[8 * j + k] == unpack(magic())[8 * j + k]);
            }
        }
        lemma_value_of_bits_of(magic()[j] as nat, 8);
    }
    assert(bytes.subrange(0, 8) =~= magic());
}

/// The sides of an image are read from its file as they were written.
proof fn lemma_sides_round_trip(image: ImageView)
    requires
        image.valid(),
    ensures
        field(unpack(encoded(image)), 64, 32) == image.width,
        field(unpack(encoded(image)), 96, 32) == image.height,
{
    let width = image.width;
    let height = image.height;
    let stream = unpack(encoded(image));
    let fields = header_fields(width, height, image.depths);
    lemma_file_begins_with_fields(image);
    lemma2_to64();
    lemma_bits_of_len(width, 32);
    lemma_bits_of_len(height, 32);
    assert forall|k: int| 0 <= k < 32 implies stream[64 + k] == #[trigger] bits_of(width, 32)[k] by {
        assert(fields[64 + k] == bits_of(width, 32)[k]);
    }
    lemma_field_of_bits(stream, 64, width, 32);
    assert forall|k: int| 0 <= k < 32 implies stream[96 + k] == #[trigger] bits_of(height, 32)[k] by {
        assert(fields[96 + k] == bits_of(height, 32)[k]);
    }
    lemma_field_of_bits(stream, 96, height, 32);
}

/// The depths of an image are read from its file as they were written.
proof fn lemma_depths_round_trip(image: ImageView)
    requires
        image.valid(),
    ensures
        depths_in(unpack(encoded(image))) == image.depths,
{
    let depths = image.depths;
    let stream = unpack(encoded(image));
    let fields = header_fields(image.width, image.height, depths);
    let red = (depths.r - 1) as nat;
    let green = (depths.g - 1) as nat;
    let blue = (depths.b - 1) as nat;
    lemma_file_begins_with_fields(image);
    lemma2_to64();
    lemma_bits_of_len(image.width, 32);
    lemma_bits_of_len(image.height, 32);
    lemma_bits_of_len(red, 3);
    lemma_bits_of_len(green, 3);
    lemma_bits_of_len(blue, 3);
    assert forall|k: int| 0 <= k < 3 implies stream[128 + k] == #[trigger] bits_of(red, 3)[k] by {
        assert(fields[128 + k] == bits_of(red, 3)[k]);
    }
    lemma_field_of_bits(stream, 128, red, 3);
    assert forall|k: int| 0 <= k < 3 implies stream[131 + k] == #[trigger] bits_of(green, 3)[k] by {
        assert(fields[131 + k] == bits_of(green, 3)[k]);
    }
    lemma_field_of_bits(stream, 131, green, 3);
    assert forall|k: int| 0 <= k < 3 implies stream[134 + k] == #[trigger] bits_of(blue, 3)[k] by {
        assert(fields[134 + k] == bits_of(blue, 3)[k]);
    }
    lemma_field_of_bits(stream, 134, blue, 3);
}

/// Reading the file of an image gives the image back, each pixel settled at
/// the depths of the image: the sides and the three depths come back as they
/// were, for every valid combination of depths.
pub proof fn law_round_trip(image: ImageView)
    requires
        image.valid(),
    ensures
        decoded(encoded(image)) == Ok::<ImageView, DecodeError>(requantized(image)),
{
    let depths = image.depths;
    let stream = unpack(encoded(image));
    lemma_magic_round_trip(image);
    lemma_sides_round_trip(image);
    lemma_depths_round_trip(image);
    lemma_encoded_len(image);
    let read = Seq::new(image.width * image.height, |index: int| pixel_in(stream, depths, index));
    assert forall|index: int| 0 <= index < image.pixels.len() implies pixel_in(
        stream,
        depths,
        index,
    ) == settled(image.pixels[index], depths) by {
        lemma_pixel_round_trip(image, index);
    }
    assert(read =~= requantized(image).pixels);
}

/// Pixel `index` of the file of an image is the settled pixel `index` of the
/// image.
proof fn lemma_pixel_round_trip(image: ImageView, index: int)
    requires
        image.valid(),
        0 <= index < image.pixels.len(),
    ensures
        pixel_in(unpack(encoded(image)), image.depths, index) == settled(
            image.pixels[index],
            image.depths,
        ),
{
    let depths = image.depths;
    let size = depths.pixel_bit_size();
    let pixel = image.pixels[index];
    let payload = payload_bits(image.pixels, depths);
    let stream = unpack(encoded(image));
    let at = header_bit_len() + index * size;
    let chunk = pixel_bits(pixel, depths);
    let red = bits_of(quantized(pixel.r as int, depths.r) as nat, depths.r as nat);
    let green = bits_of(quantized(pixel.g as int, depths.g) as nat, depths.g as nat);
    let blue = bits_of(quantized(pixel.b as int, depths.b) as nat, depths.b as nat);
    lemma_stream_of_file(image);
    lemma_header_len(image.width, image.height, depths);
    lemma_payload_chunk(image.pixels, depths, index);
    lemma_pixel_len(pixel, depths);
    assert((index + 1) * size == index * size + size) by (nonlinear_arith);
    assert(stream_of(image).len() == header_bit_len() + payload.len());
    lemma_bits_of_len(quantized(pixel.r as int, depths.r) as nat, depths.r as nat);
    lemma_bits_of_len(quantized(pixel.g as int, depths.g) as nat, depths.g as nat);
    lemma_bits_of_len(quantized(pixel.b as int, depths.b) as nat, depths.b as nat);
    assert forall|k: int| 0 <= k < size implies stream[at + k] == chunk[k] by {
        assert(payload.subrange(index * size, (index + 1) * size)[k] == payload[index * size + k]);
        assert(stream_of(image)[at + k] == payload[index * size + k]);
    }
    assert forall|k: int| 0 <= k < depths.r implies stream[at + k] == #[trigger] red[k] by {
        assert(chunk[k] == red[k]);
    }
    assert forall|k: int| 0 <= k < depths.g implies stream[at + depths.r + k]
        == #[trigger] green[k] by {
        assert(chunk[depths.r + k] == green[k]);
    }
    assert forall|k: int| 0 <= k < depths.b implies stream[at + depths.r + depths.g + k]
        == #[trigger] blue[k] by {
        assert(chunk[depths.r + depths.g + k] == blue[k]);
    }
    lemma_sample_round_trip(stream, at, pixel.r, depths.r);
    lemma_sample_round_trip(stream, at + depths.r, pixel.g, depths.g);
    lemma_sample_round_trip(stream, at + depths.r + depths.g, pixel.b, depths.b);
}

/// The header survives the file: the width, the height and the three depths
/// that are read are those that were written, for every valid image.
pub proof fn law_header_round_trip(image: ImageView)
    requires
        image.valid(),
    ensures
        decoded(encoded(image)) matches Ok(back) && back.width == image.width && back.height
            == image.height && back.depths == image.depths && back.pixels.len()
            == image.pixels.len(),
{
    law_round_trip(image);
}

/// A pixel that has been through a channel is not changed by going through
/// it again, and it is written with the levels of the pixel it came from.
pub proof fn law_settled_once(pixel: Rgb, depths: Depths)
    requires
        depths.valid(),
    ensures
        settled(settled(pixel, depths), depths) == settled(pixel, depths),
        pixel_bits(settled(pixel, depths), depths) == pixel_bits(pixel, depths),
{
    lemma_sample_settles(pixel.r, depths.r);
    lemma_sample_settles(pixel.g, depths.g);
    lemma_sample_settles(pixel.b, depths.b);
}

/// A sample that has been taken to its level and back has that same level.
proof fn lemma_sample_settles(sample: u8, bits: int)
    requires
        valid_depth(bits),
    ensures
        0 <= dequantized(quantized(sample as int, bits), bits) <= 255,
        quantized(dequantized(quantized(sample as int, bits), bits), bits) == quantized(
            sample as int,
            bits,
        ),
{
    lemma_quantized_in_range(sample as int, bits);
    lemma_dequantized_in_range(quantized(sample as int, bits), bits);
    lemma_level_survives(quantized(sample as int, bits), bits);
}

/// At eight bits on every channel a pixel comes back as it was written.
pub proof fn law_full_depth_pixel(pixel: Rgb)
    ensures
        settled(pixel, Depths { r: 8, g: 8, b: 8 }) == pixel,
{
    lemma_round_trip_bound(pixel.r as int, 8);
    lemma_round_trip_bound(pixel.g as int, 8);
    lemma_round_trip_bound(pixel.b as int, 8);
}

/// An image stored at eight bits on every channel is read back from its file
/// exactly as it was.
pub proof fn law_full_depth_round_trip(image: ImageView)
    requires
        image.valid(),
        image.depths == (Depths { r: 8, g: 8, b: 8 }),
    ensures
        decoded(encoded(image)) == Ok::<ImageView, DecodeError>(image),
{
    law_round_trip(image);
    assert forall|index: int| 0 <= index < image.pixels.len() implies settled(
        image.pixels[index],
        image.depths,
    ) == image.pixels[index] by {
        law_full_depth_pixel(image.pixels[index]);
    }
    assert(requantized(image).pixels =~= image.pixels);
}

/// A sample read from a stream is settled: it is the sample of a level.
proof fn lemma_sample_is_settled(stream: Seq<bool>, at: int, bits: int)
    requires
        valid_depth(bits),
        0 <= at,
        at + bits <= stream.len(),
    ensures
        dequantized(quantized(sample_in(stream, at, bits) as int, bits), bits) as u8 == sample_in(
            stream,
            at,
            bits,
        ),
{
    let level = field(stream, at, bits);
    lemma_value_of_bound(stream.subrange(at, at + bits));
    lemma_max_level_is_power_of_two(bits);
    lemma_dequantized_in_range(level, bits);
    lemma_level_survives(level, bits);
}

/// What is read from a run of bytes is a valid image whose pixels are all
/// settled at its depths.
pub proof fn law_decoded_is_settled(bytes: Seq<u8>)
    requires
        decoded(bytes) is Ok,
    ensures
        decoded(bytes)->Ok_0.valid(),
        requantized(decoded(bytes)->Ok_0) == decoded(bytes)->Ok_0,
{
    let image = decoded(bytes)->Ok_0;
    let stream = unpack(bytes);
    let depths = image.depths;
    let size = depths.pixel_bit_size();
    let count = image.width * image.height;
    lemma2_to64();
    lemma_value_of_bound(stream.subrange(64, 96));
    lemma_value_of_bound(stream.subrange(96, 128));
    lemma_value_of_bound(stream.subrange(128, 131));
    lemma_value_of_bound(stream.subrange(131, 134));
    lemma_value_of_bound(stream.subrange(134, 137));
    assert(image.valid());
    assert(count * size >= 0) by (nonlinear_arith)
        requires
            count >= 0,
            size >= 0,
    ;
    assert(header_bit_len() + count * size <= stream.len());
    assert forall|index: int| 0 <= index < count implies settled(
        #[trigger] image.pixels[index],
        depths,
    ) == image.pixels[index] by {
        let at = header_bit_len() + index * size;
        assert(0 <= index * size && (index + 1) * size <= count * size && (index + 1) * size
            == index * size + size) by (nonlinear_arith)
            requires
                0 <= index < count,
                size >= 0,
        ;
        lemma_sample_is_settled(stream, at, depths.r);
        lemma_sample_is_settled(stream, at + depths.r, depths.g);
        lemma_sample_is_settled(stream, at + depths.r + depths.g, depths.b);
    }
    assert(requantized(image).pixels =~= image.pixels);
}

/// Converting is idempotent: what a conversion gives is a file that a second
/// conversion leaves as it is, byte for byte.
pub proof fn law_convert_idempotent(bytes: Seq<u8>)
    requires
        converted(bytes) is Ok,
    ensures
        converted(converted(bytes)->Ok_0) == converted(bytes),
{
    let image = decoded(bytes)->Ok_0;
    law_decoded_is_settled(bytes);
    law_round_trip(image);
}

/// Eight bytes that are not the magic bytes are refused for that, whatever
/// follows them: nothing after the eighth byte has a part in the answer.
pub proof fn law_bad_magic(bytes: Seq<u8>)
    requires
        bytes.len() >= 8,
        bytes.subrange(0, 8) != magic(),
    ensures
        decoded(bytes) == Err::<ImageView, DecodeError>(DecodeError::BadMagic),
        decoded(bytes.subrange(0, 8)) == decoded(bytes),
{
    assert(bytes.subrange(0, 8).subrange(0, 8) =~= bytes.subrange(0, 8));
}

/// A whole header followed by fewer bytes than its pixels take is refused as
/// truncated.
pub proof fn law_truncated_payload(bytes: Seq<u8>)
    requires
        bytes.len() >= HEADER_LEN,
        bytes.subrange(0, 8) == magic(),
        bytes.len() - HEADER_LEN < payload_byte_len(
            field(unpack(bytes), 64, 32) as nat,
            field(unpack(bytes), 96, 32) as nat,
            depths_in(unpack(bytes)),
        ),
    ensures
        decoded(bytes) is Err,
        decoded(bytes)->Err_0 is TruncatedPayload,
{
}

} // verus!
