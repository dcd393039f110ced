use greenfield_codec::codec::save_image;
use greenfield_codec::commands::{CommandError, Commands, Outcome};
use greenfield_codec::format::{DecodeError, Rgb};
use greenfield_codec::image::Image;
use greenfield_codec::quantization::{Channel, QuantizationError, QuantizationSpec};
use greenfield_codec::report::{inspect, Report};

fn spec(r: u8, g: u8, b: u8) -> QuantizationSpec {
    QuantizationSpec::new(r, g, b).unwrap()
}

fn sample_image(width: u32, height: u32, quantization: QuantizationSpec) -> Image {
    let pixels = (0..(width * height) as usize)
        .map(|i| Rgb { r: (i * 7 % 256) as u8, g: (i * 31 % 256) as u8, b: (i * 89 % 256) as u8 })
        .collect();
    Image::new(width, height, quantization, pixels).unwrap()
}

#[test]
fn inspect_gives_the_figures_of_an_image() {
    let report = inspect(&sample_image(10, 10, spec(5, 6, 5)));
    assert_eq!(
        report,
        Report {
            width: 10,
            height: 10,
            quantization: spec(5, 6, 5),
            num_pixels: 100,
            pixel_bit_size: 16,
            data_bit_size: 1600,
            data_byte_size: 200,
        }
    );
}

#[test]
fn inspect_rounds_the_byte_size_up() {
    let report = inspect(&sample_image(3, 3, spec(1, 1, 1)));
    assert_eq!(report.num_pixels, 9);
    assert_eq!(report.pixel_bit_size, 3);
    assert_eq!(report.data_bit_size, 27);
    assert_eq!(report.data_byte_size, 4);
    let report = inspect(&sample_image(1, 1, spec(5, 6, 5)));
    assert_eq!(report.data_bit_size, 16);
    assert_eq!(report.data_byte_size, 2);
}

#[test]
fn inspect_of_an_empty_image() {
    let report = inspect(&sample_image(0, 9, spec(8, 8, 8)));
    assert_eq!(report.num_pixels, 0);
    assert_eq!(report.data_bit_size, 0);
    assert_eq!(report.data_byte_size, 0);
    assert_eq!(report.height, 9);
}

#[test]
fn inspect_byte_size_is_the_payload_of_the_file() {
    let image = sample_image(7, 5, spec(3, 2, 4));
    let report = inspect(&image);
    assert_eq!(save_image(&image).len() as u128, 18 + report.data_byte_size);
}

#[test]
fn command_inspect_reads_the_file() {
    let bytes = save_image(&sample_image(4, 2, spec(2, 3, 4)));
    let report = Commands::inspect(&bytes).unwrap();
    assert_eq!(report.width, 4);
    assert_eq!(report.height, 2);
    assert_eq!(report.quantization, spec(2, 3, 4));
    assert_eq!(report.num_pixels, 8);
    assert_eq!(report.pixel_bit_size, 9);
    assert_eq!(report.data_bit_size, 72);
    assert_eq!(report.data_byte_size, 9);
    assert_eq!(Commands::inspect(b"grnfld42"), Err(DecodeError::UnexpectedEof));
    assert_eq!(Commands::inspect(b"????????"), Err(DecodeError::BadMagic));
}

#[test]
fn convert_leaves_a_clean_file_as_it_is() {
    let bytes = save_image(&sample_image(5, 5, spec(8, 8, 8)));
    assert_eq!(Commands::convert(&bytes), Ok(bytes.clone()));
    let bytes = save_image(&sample_image(5, 5, spec(3, 5, 2)));
    assert_eq!(Commands::convert(&bytes), Ok(bytes.clone()));
}

#[test]
fn convert_twice_is_convert_once() {
    let mut bytes = save_image(&sample_image(3, 3, spec(5, 6, 5)));
    bytes[17] |= 0x55;
    bytes.extend_from_slice(&[1, 2, 3, 4]);
    let once = Commands::convert(&bytes).unwrap();
    let twice = Commands::convert(&once).unwrap();
    assert_eq!(once, twice);
    assert_eq!(Commands::convert(&bytes).unwrap(), once);
}

#[test]
fn convert_clears_padding_and_drops_what_follows() {
    let clean = save_image(&sample_image(1, 1, spec(1, 1, 1)));
    let mut dirty = clean.clone();
    dirty[17] |= 0x7F;
    dirty[18] |= 0x1F;
    dirty.push(0xAA);
    assert_eq!(Commands::convert(&dirty), Ok(clean));
}

#[test]
fn convert_refuses_what_is_not_a_file() {
    assert_eq!(Commands::convert(&[]), Err(DecodeError::UnexpectedEof));
    assert_eq!(Commands::convert(b"notgreenfield"), Err(DecodeError::BadMagic));
    let mut bytes = save_image(&sample_image(2, 2, spec(8, 8, 8)));
    bytes.truncate(20);
    assert_eq!(
        Commands::convert(&bytes),
        Err(DecodeError::TruncatedPayload { expected: 12, found: 2 })
    );
}

#[test]
fn quantize_keeps_the_depths_of_the_header() {
    let bytes = save_image(&sample_image(4, 4, spec(5, 6, 5)));
    assert_eq!(Commands::quantize(spec(2, 2, 2), &bytes), Ok(bytes.clone()));
    assert_eq!(Commands::quantize(spec(8, 8, 8), &bytes), Commands::convert(&bytes));
    assert_eq!(Commands::quantize(spec(8, 8, 8), b"grnfld4"), Err(DecodeError::UnexpectedEof));
}

#[test]
fn run_answers_each_command() {
    let image = sample_image(2, 3, spec(4, 4, 4));
    let bytes = save_image(&image);
    assert_eq!(Commands::Inspect.run(&bytes), Ok(Outcome::Figures(inspect(&image))));
    assert_eq!(Commands::Convert.run(&bytes), Ok(Outcome::File(bytes.clone())));
    assert_eq!(
        Commands::Quantize { bits_r: 5, bits_g: 6, bits_b: 5 }.run(&bytes),
        Ok(Outcome::File(bytes.clone()))
    );
}

#[test]
fn run_refuses_bad_depths_before_reading() {
    let command = Commands::Quantize { bits_r: 5, bits_g: 9, bits_b: 0 };
    let error = CommandError::Quantization(QuantizationError::InvalidBitDepth {
        channel: Channel::Green,
        bits: 9,
    });
    assert_eq!(command.run(b"garbage"), Err(error));
    let bytes = save_image(&sample_image(1, 1, spec(8, 8, 8)));
    assert_eq!(command.run(&bytes), Err(error));
}

#[test]
fn run_passes_decode_errors_on() {
    assert_eq!(Commands::Inspect.run(&[]), Err(CommandError::Decode(DecodeError::UnexpectedEof)));
    assert_eq!(
        Commands::Convert.run(b"grnfld24........"),
        Err(CommandError::Decode(DecodeError::BadMagic))
    );
    assert_eq!(
        Commands::Quantize { bits_r: 1, bits_g: 1, bits_b: 1 }.run(b"grnfld42"),
        Err(CommandError::Decode(DecodeError::UnexpectedEof))
    );
}
