use greenfield_codec::codec::{load_image, save_image};
use greenfield_codec::format::{DecodeError, Rgb, HEADER_LEN, MAGIC};
use greenfield_codec::image::Image;
use greenfield_codec::quantization::{dequantize, quantize, QuantizationSpec};

fn spec(r: u8, g: u8, b: u8) -> QuantizationSpec {
    QuantizationSpec::new(r, g, b).unwrap()
}

fn rgb(r: u8, g: u8, b: u8) -> Rgb {
    Rgb { r, g, b }
}

fn header(width: u32, height: u32, depth_bytes: [u8; 2]) -> Vec<u8> {
    let mut bytes = b"grnfld42".to_vec();
    bytes.extend_from_slice(&width.to_be_bytes());
    bytes.extend_from_slice(&height.to_be_bytes());
    bytes.extend_from_slice(&depth_bytes);
    bytes
}

fn gradient(count: usize) -> Vec<Rgb> {
    (0..count)
        .map(|i| rgb((i * 37 % 256) as u8, (i * 101 % 256) as u8, (255 - i * 13 % 256) as u8))
        .collect()
}

#[test]
fn magic_is_the_text_grnfld42() {
    assert_eq!(&MAGIC, b"grnfld42");
    assert_eq!(HEADER_LEN, 18);
}

#[test]
fn image_new_wants_one_pixel_for_every_place() {
    assert!(Image::new(2, 2, spec(8, 8, 8), gradient(4)).is_some());
    assert!(Image::new(2, 2, spec(8, 8, 8), gradient(3)).is_none());
    assert!(Image::new(2, 2, spec(8, 8, 8), gradient(5)).is_none());
    assert!(Image::new(0, 7, spec(8, 8, 8), Vec::new()).is_some());
    assert!(Image::new(u32::MAX, u32::MAX, spec(8, 8, 8), gradient(1)).is_none());
}

#[test]
fn image_gives_back_what_it_was_made_of() {
    let pixels = gradient(6);
    let image = Image::new(3, 2, spec(5, 6, 5), pixels.clone()).unwrap();
    assert_eq!(image.width(), 3);
    assert_eq!(image.height(), 2);
    assert_eq!(image.dimensions(), (3, 2));
    assert_eq!(image.quantization(), spec(5, 6, 5));
    assert_eq!(image.pixels(), &pixels);
}

#[test]
fn round_trip_at_full_depth_is_exact() {
    let pixels = vec![rgb(0, 1, 2), rgb(255, 254, 253), rgb(17, 128, 99), rgb(200, 3, 77)];
    let image = Image::new(2, 2, spec(8, 8, 8), pixels).unwrap();
    let bytes = save_image(&image);
    assert_eq!(bytes.len(), 18 + 12);
    assert_eq!(load_image(&bytes, spec(8, 8, 8)), Ok(image));
}

#[test]
fn full_depth_file_holds_the_samples_as_they_are() {
    let image = Image::new(2, 1, spec(8, 8, 8), vec![rgb(1, 2, 3), rgb(4, 5, 6)]).unwrap();
    let mut expected = header(2, 1, [0xFF, 0x80]);
    expected.extend_from_slice(&[1, 2, 3, 4, 5, 6]);
    assert_eq!(save_image(&image), expected);
}

#[test]
fn one_pixel_at_565_takes_two_bytes() {
    let image = Image::new(1, 1, spec(5, 6, 5), vec![rgb(100, 150, 200)]).unwrap();
    let bytes = save_image(&image);
    assert_eq!(bytes.len(), 18 + 2);
    let mut expected = header(1, 1, [0x96, 0x00]);
    expected.extend_from_slice(&[0x64, 0xB8]);
    assert_eq!(bytes, expected);
    let back = load_image(&bytes, spec(8, 8, 8)).unwrap();
    assert_eq!(back.quantization(), spec(5, 6, 5));
    assert_eq!(back.pixels(), &vec![rgb(99, 150, 197)]);
    let pixel = back.pixels()[0];
    assert_eq!(quantize(pixel.r, 5), quantize(100, 5));
    assert_eq!(quantize(pixel.g, 6), quantize(150, 6));
    assert_eq!(quantize(pixel.b, 5), quantize(200, 5));
}

#[test]
fn white_and_black_at_565() {
    let image = Image::new(1, 1, spec(5, 6, 5), vec![rgb(255, 0, 255)]).unwrap();
    let bytes = save_image(&image);
    assert_eq!(&bytes[18..], &[0xF8, 0x1F]);
    assert_eq!(load_image(&bytes, spec(1, 1, 1)).unwrap().pixels(), &vec![rgb(255, 0, 255)]);
}

#[test]
fn pixels_are_packed_without_padding_between_them() {
    let pixels = vec![rgb(255, 0, 255), rgb(0, 255, 0), rgb(255, 255, 255)];
    let image = Image::new(3, 1, spec(1, 1, 1), pixels.clone()).unwrap();
    let bytes = save_image(&image);
    assert_eq!(bytes.len(), 18 + 2);
    assert_eq!(&bytes[16..], &[0x00, 0x00, 0b1010_1011, 0b1000_0000]);
    assert_eq!(load_image(&bytes, spec(8, 8, 8)).unwrap().pixels(), &pixels);
}

#[test]
fn payload_size_is_the_bits_rounded_up() {
    for (width, height, r, g, b) in
        [(1u32, 1u32, 1u8, 1u8, 1u8), (3, 3, 1, 1, 1), (7, 5, 3, 2, 4), (10, 10, 5, 6, 5), (4, 4, 8, 8, 8)]
    {
        let count = (width * height) as usize;
        let image = Image::new(width, height, spec(r, g, b), gradient(count)).unwrap();
        let bits = count * (r + g + b) as usize;
        assert_eq!(save_image(&image).len(), 18 + (bits + 7) / 8);
    }
}

#[test]
fn header_comes_back_for_every_combination_of_depths() {
    for r in 1u8..=8 {
        for g in 1u8..=8 {
            for b in 1u8..=8 {
                let image = Image::new(3, 2, spec(r, g, b), gradient(6)).unwrap();
                let bytes = save_image(&image);
                let back = load_image(&bytes, spec(8, 8, 8)).unwrap();
                assert_eq!(back.width(), 3);
                assert_eq!(back.height(), 2);
                assert_eq!(back.quantization(), spec(r, g, b));
                assert_eq!(back.pixels().len(), 6);
            }
        }
    }
}

#[test]
fn header_keeps_large_sides() {
    let image = Image::new(0x0102_0304, 0, spec(2, 3, 4), Vec::new()).unwrap();
    let bytes = save_image(&image);
    assert_eq!(bytes, header(0x0102_0304, 0, [0b0010_1001, 0b1000_0000]));
    assert_eq!(load_image(&bytes, spec(8, 8, 8)), Ok(image));
}

#[test]
fn pixels_come_back_settled_at_every_depth() {
    for r in 1u8..=8 {
        for (g, b) in [(1u8, 8u8), (6, 5), (3, 3), (8, 1)] {
            let pixels = gradient(11);
            let image = Image::new(11, 1, spec(r, g, b), pixels.clone()).unwrap();
            let back = load_image(&save_image(&image), spec(8, 8, 8)).unwrap();
            for (read, written) in back.pixels().iter().zip(pixels.iter()) {
                assert_eq!(read.r, dequantize(quantize(written.r, r), r));
                assert_eq!(read.g, dequantize(quantize(written.g, g), g));
                assert_eq!(read.b, dequantize(quantize(written.b, b), b));
            }
        }
    }
}

#[test]
fn empty_image_is_a_header_alone() {
    let image = Image::new(0, 0, spec(8, 8, 8), Vec::new()).unwrap();
    let bytes = save_image(&image);
    assert_eq!(bytes, header(0, 0, [0xFF, 0x80]));
    assert_eq!(load_image(&bytes, spec(8, 8, 8)), Ok(image));
}

#[test]
fn bad_magic_is_refused() {
    let mut bytes = header(1, 1, [0xFF, 0x80]);
    bytes.extend_from_slice(&[1, 2, 3]);
    bytes[7] = b'3';
    assert_eq!(load_image(&bytes, spec(8, 8, 8)), Err(DecodeError::BadMagic));
    assert_eq!(load_image(b"notgreen", spec(8, 8, 8)), Err(DecodeError::BadMagic));
    assert_eq!(load_image(&[0u8; 64], spec(8, 8, 8)), Err(DecodeError::BadMagic));
}

#[test]
fn bad_magic_does_not_depend_on_what_follows() {
    let short = b"GRNFLD42".to_vec();
    let mut long = short.clone();
    long.extend_from_slice(&[0xFF; 100]);
    assert_eq!(load_image(&short, spec(8, 8, 8)), Err(DecodeError::BadMagic));
    assert_eq!(load_image(&long, spec(8, 8, 8)), Err(DecodeError::BadMagic));
}

#[test]
fn truncated_payload_is_refused() {
    let mut bytes = header(10, 10, [0xFF, 0x80]);
    bytes.extend_from_slice(&[0u8; 10]);
    assert_eq!(
        load_image(&bytes, spec(8, 8, 8)),
        Err(DecodeError::TruncatedPayload { expected: 300, found: 10 })
    );
}

#[test]
fn payload_one_byte_short_is_refused() {
    let image = Image::new(3, 3, spec(5, 6, 5), gradient(9)).unwrap();
    let mut bytes = save_image(&image);
    bytes.pop();
    assert_eq!(
        load_image(&bytes, spec(8, 8, 8)),
        Err(DecodeError::TruncatedPayload { expected: 18, found: 17 })
    );
}

#[test]
fn huge_sides_are_refused_as_truncated() {
    let bytes = header(u32::MAX, u32::MAX, [0xFF, 0x80]);
    let pixels = u32::MAX as u128 * u32::MAX as u128;
    assert_eq!(
        load_image(&bytes, spec(8, 8, 8)),
        Err(DecodeError::TruncatedPayload { expected: pixels * 3, found: 0 })
    );
}

#[test]
fn truncated_header_is_an_unexpected_end() {
    let whole = header(1, 1, [0xFF, 0x80]);
    for len in 0..18 {
        assert_eq!(
            load_image(&whole[..len], spec(8, 8, 8)),
            Err(DecodeError::UnexpectedEof),
            "{} bytes",
            len
        );
    }
}

#[test]
fn fewer_than_eight_bytes_are_an_unexpected_end_whatever_they_are() {
    assert_eq!(load_image(&[], spec(8, 8, 8)), Err(DecodeError::UnexpectedEof));
    assert_eq!(load_image(b"xyz", spec(8, 8, 8)), Err(DecodeError::UnexpectedEof));
    assert_eq!(load_image(b"grnfld4", spec(8, 8, 8)), Err(DecodeError::UnexpectedEof));
}

#[test]
fn bad_magic_comes_before_a_short_header() {
    assert_eq!(load_image(b"grnfld43\x00\x00", spec(8, 8, 8)), Err(DecodeError::BadMagic));
}

#[test]
fn fallback_quantization_has_no_part_in_the_result() {
    let image = Image::new(2, 2, spec(3, 4, 5), gradient(4)).unwrap();
    let bytes = save_image(&image);
    let first = load_image(&bytes, spec(8, 8, 8)).unwrap();
    let second = load_image(&bytes, spec(1, 1, 1)).unwrap();
    assert_eq!(first, second);
    assert_eq!(first.quantization(), spec(3, 4, 5));
}

#[test]
fn header_padding_bits_are_not_looked_at() {
    let image = Image::new(1, 1, spec(5, 6, 5), vec![rgb(100, 150, 200)]).unwrap();
    let mut bytes = save_image(&image);
    let clean = load_image(&bytes, spec(8, 8, 8)).unwrap();
    bytes[17] |= 0x7F;
    assert_eq!(load_image(&bytes, spec(8, 8, 8)), Ok(clean));
}

#[test]
fn payload_padding_and_trailing_bytes_are_not_looked_at() {
    let image = Image::new(1, 1, spec(1, 1, 1), vec![rgb(255, 0, 255)]).unwrap();
    let mut bytes = save_image(&image);
    assert_eq!(bytes[18], 0b1010_0000);
    let clean = load_image(&bytes, spec(8, 8, 8)).unwrap();
    bytes[18] |= 0b0001_1111;
    bytes.extend_from_slice(&[9, 9, 9]);
    assert_eq!(load_image(&bytes, spec(8, 8, 8)), Ok(clean));
}

#[test]
fn saving_what_was_loaded_gives_the_same_file() {
    let image = Image::new(5, 3, spec(2, 7, 4), gradient(15)).unwrap();
    let bytes = save_image(&image);
    let back = load_image(&bytes, spec(8, 8, 8)).unwrap();
    assert_eq!(save_image(&back), bytes);
}
