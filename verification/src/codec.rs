//! Writing an image to bytes and reading it back.

use vstd::prelude::*;
use vstd::arithmetic::power2::lemma2_to64;
use crate::bits::{bits_of, unpack};
use crate::format::{
    decoded, depth_bits, encoded, header_bit_len, header_bits, magic, payload_bits,
    payload_byte_len, pixel_bits, pixel_in, sample_in, DecodeError, HEADER_LEN, MAGIC, Rgb,
};
use crate::image::Image;
use crate::laws::lemma_encoded_len;
use crate::quantization::{dequantize, lemma_max_level_is_power_of_two, quantize, QuantizationSpec};
use crate::reader::BitReader;
use crate::writer::BitWriter;

verus! {

/// Appends the header of an image of the given sides and depths.
fn write_header(writer: &mut BitWriter, width: u32, height: u32, quantization: QuantizationSpec)
    requires
        old(writer).wf(),
        old(writer)@ == Seq::<bool>::empty(),
    ensures
        final(writer).wf(),
        final(writer)@ == header_bits(width as nat, height as nat, quantization@),
{
    let bits_r = quantization.bits_r();
    let bits_g = quantization.bits_g();
    let bits_b = quantization.bits_b();
    writer.write_bytes(MAGIC.as_slice());
    writer.write_bits(width, 32);
    writer.write_bits(height, 32);
    writer.write_bits((bits_r - 1) as u32, 3);
    writer.write_bits((bits_g - 1) as u32, 3);
    writer.write_bits((bits_b - 1) as u32, 3);
    proof {
        let depths = quantization@;
        assert(writer@ =~= unpack(magic()) + bits_of(width as nat, 32) + bits_of(height as nat, 32)
            + depth_bits(depths));
    }
    writer.align();
}

/// Appends one pixel at the given depths.
fn write_pixel(writer: &mut BitWriter, pixel: Rgb, quantization: QuantizationSpec)
    requires
        old(writer).wf(),
    ensures
        final(writer).wf(),
        final(writer)@ == old(writer)@ + pixel_bits(pixel, quantization@),
{
    let bits_r = quantization.bits_r();
    let bits_g = quantization.bits_g();
    let bits_b = quantization.bits_b();
    let ghost before = writer@;
    writer.write_bits(quantize(pixel.r, bits_r) as u32, bits_r);
    writer.write_bits(quantize(pixel.g, bits_g) as u32, bits_g);
    writer.write_bits(quantize(pixel.b, bits_b) as u32, bits_b);
    proof {
        assert(writer@ =~= before + pixel_bits(pixel, quantization@));
    }
}

/// The file of an image: its header, then its pixels at the depths of the
/// image, most significant bit first, the last byte filled up with zero bits.
pub fn save_image(image: &Image) -> (bytes: Vec<u8>)
    ensures
        bytes@ == encoded(image@),
        bytes@.len() == HEADER_LEN + payload_byte_len(
            image@.width,
            image@.height,
            image@.depths,
        ),
{
    let quantization = image.quantization();
    let pixels = image.pixels();
    let mut writer = BitWriter::new();
    write_header(&mut writer, image.width(), image.height(), quantization);
    let ghost header = writer@;
    let mut i: usize = 0;
    proof {
        assert(header + payload_bits(pixels@.take(0), quantization@) =~= header);
    }
    while i < pixels.len()
        invariant
            writer.wf(),
            i <= pixels.len(),
            writer@ == header + payload_bits(pixels@.take(i as int), quantization@),
        decreases pixels.len() - i,
    {
        let pixel: Rgb = pixels[i];
        proof {
            let done = pixels@.take(i as int);
            let next = pixels@.take(i + 1);
            assert(next.drop_last() =~= done);
            assert(next.last() == pixel);
            assert(header + (payload_bits(done, quantization@) + pixel_bits(pixel, quantization@))
                =~= (header + payload_bits(done, quantization@)) + pixel_bits(
                pixel,
                quantization@,
            ));
        }
        write_pixel(&mut writer, pixel, quantization);
        i = i + 1;
    }
    proof {
        assert(pixels@.take(i as int) =~= pixels@);
        lemma_encoded_len(image@);
    }
    writer.finish()
}

/// Whether `source`, of at least eight bytes, begins with the magic bytes.
fn has_magic(source: &[u8]) -> (found: bool)
    requires
        source@.len() >= 8,
    ensures
        found <==> source@.subrange(0, 8) == magic(),
{
    let mut i: usize = 0;
    while i < 8
        invariant
            i <= 8 <= source@.len(),
            source@.subrange(0, i as int) == magic().subrange(0, i as int),
        decreases 8 - i,
    {
        if source[i] != MAGIC[i] {
            proof {
                assert(source@.subrange(0, 8)[i as int] != magic()[i as int]);
            }
            return false;
        }
        proof {
            assert(source@.subrange(0, i + 1) =~= source@.subrange(0, i as int).push(
                source@[i as int],
            ));
            assert(magic().subrange(0, i + 1) =~= magic().subrange(0, i as int).push(
                magic()[i as int],
            ));
        }
        i = i + 1;
    }
    proof {
        assert(magic().subrange(0, 8) =~= magic());
    }
    true
}

/// Takes one channel of `bits` bits and widens it to a sample.
fn read_sample(reader: &mut BitReader, bits: u8) -> (sample: u8)
    requires
        old(reader).wf(),
        1 <= bits <= 8,
        old(reader).position() + bits <= old(reader).stream().len(),
    ensures
        final(reader).wf(),
        final(reader).stream() == old(reader).stream(),
        final(reader).position() == old(reader).position() + bits,
        sample == sample_in(old(reader).stream(), old(reader).position() as int, bits as int),
{
    let taken = reader.read_bits(bits);
    let level: u32 = taken.unwrap();
    proof {
        lemma_max_level_is_power_of_two(bits as int);
    }
    dequantize(level as u16, bits)
}

/// Takes one pixel at the given depths.
fn read_pixel(
    reader: &mut BitReader,
    quantization: QuantizationSpec,
    Ghost(index): Ghost<int>,
) -> (pixel: Rgb)
    requires
        old(reader).wf(),
        old(reader).position() == header_bit_len() + index * quantization@.pixel_bit_size(),
        old(reader).position() + quantization@.pixel_bit_size() <= old(reader).stream().len(),
    ensures
        final(reader).wf(),
        final(reader).stream() == old(reader).stream(),
        final(reader).position() == old(reader).position() + quantization@.pixel_bit_size(),
        pixel == pixel_in(old(reader).stream(), quantization@, index),
{
    let r = read_sample(reader, quantization.bits_r());
    let g = read_sample(reader, quantization.bits_g());
    let b = read_sample(reader, quantization.bits_b());
    Rgb { r, g, b }
}

/// Reads an image from the bytes of a file.
///
/// The depths are those that the header gives; `fallback_quantization` has no
/// part in the result. Padding bits and bytes after the last pixel are passed
/// over.
pub fn load_image(source: &[u8], fallback_quantization: QuantizationSpec) -> (loaded: Result<
    Image,
    DecodeError,
>)
    ensures
        match decoded(source@) {
            Ok(view) => loaded matches Ok(image) && image@ == view && view.valid(),
            Err(error) => loaded matches Err(e) && e == error,
        },
{
    if source.len() < 8 {
        return Err(DecodeError::UnexpectedEof);
    }
    if !has_magic(source) {
        return Err(DecodeError::BadMagic);
    }
    if source.len() < HEADER_LEN {
        return Err(DecodeError::UnexpectedEof);
    }
    let ghost stream = unpack(source@);
    let mut reader = BitReader::new(source);
    // The magic bytes have been looked at: pass over their 64 bits.
    let _ = reader.read_bits(32);
    let _ = reader.read_bits(32);
    let width: u32 = reader.read_bits(32).unwrap();
    let height: u32 = reader.read_bits(32).unwrap();
    let stored_r: u32 = reader.read_bits(3).unwrap();
    let stored_g: u32 = reader.read_bits(3).unwrap();
    let stored_b: u32 = reader.read_bits(3).unwrap();
    reader.align();
    proof {
        lemma2_to64();
    }
    let quantization = QuantizationSpec::new(
        stored_r as u8 + 1,
        stored_g as u8 + 1,
        stored_b as u8 + 1,
    ).unwrap();
    let pixel_size = quantization.pixel_bit_size();
    assert(width * height <= u64::MAX) by (nonlinear_arith)
        requires
            width <= u32::MAX,
            height <= u32::MAX,
    ;
    let count: u64 = width as u64 * height as u64;
    assert(count * pixel_size <= 24 * u64::MAX) by (nonlinear_arith)
        requires
            count <= u64::MAX,
            pixel_size <= 24,
    ;
    let expected: u128 = (count as u128 * pixel_size as u128 + 7) / 8;
    let found: u128 = (source.len() - HEADER_LEN) as u128;
    if found < expected {
        return Err(DecodeError::TruncatedPayload { expected, found });
    }
    let ghost depths = quantization@;
    let mut pixels: Vec<Rgb> = Vec::new();
    let mut i: u64 = 0;
    while i < count
        invariant
            reader.wf(),
            reader.stream() == stream,
            quantization@ == depths,
            depths.valid(),
            pixel_size == depths.pixel_bit_size(),
            i <= count,
            header_bit_len() + count * pixel_size <= stream.len(),
            reader.position() == header_bit_len() + i * pixel_size,
            pixels@.len() == i,
            forall|k: int| 0 <= k < i ==> pixels@[k] == pixel_in(stream, depths, k),
        decreases count - i,
    {
        proof {
            assert((i + 1) * pixel_size <= count * pixel_size) by (nonlinear_arith)
                requires
                    i + 1 <= count,
                    pixel_size >= 0,
            ;
            assert((i + 1) * pixel_size == i * pixel_size + pixel_size) by (nonlinear_arith);
        }
        let pixel = read_pixel(&mut reader, quantization, Ghost(i as int));
        pixels.push(pixel);
        i = i + 1;
    }
    proof {
        let view = decoded(source@)->Ok_0;
        assert(pixels@ =~= view.pixels);
    }
    Ok(Image::new(width, height, quantization, pixels).unwrap())
}

} // verus!
