use greenfield_codec::reader::BitReader;
use greenfield_codec::writer::BitWriter;

#[test]
fn writer_starts_empty() {
    assert_eq!(BitWriter::new().finish(), Vec::<u8>::new());
}

#[test]
fn writer_puts_the_first_bit_in_the_top_of_the_byte() {
    let mut writer = BitWriter::new();
    writer.push_bit(true);
    assert_eq!(writer.finish(), vec![0b1000_0000]);
}

#[test]
fn writer_writes_most_significant_bit_first() {
    let mut writer = BitWriter::new();
    writer.write_bits(0b101, 3);
    assert_eq!(writer.finish(), vec![0b1010_0000]);
}

#[test]
fn writer_crosses_byte_boundaries() {
    let mut writer = BitWriter::new();
    writer.write_bits(0x1FF, 9);
    assert_eq!(writer.finish(), vec![0xFF, 0x80]);
    let mut writer = BitWriter::new();
    writer.write_bits(0b11111, 5);
    writer.write_bits(0, 6);
    writer.write_bits(0b11111, 5);
    assert_eq!(writer.finish(), vec![0xF8, 0x1F]);
}

#[test]
fn writer_keeps_only_the_low_bits() {
    let mut writer = BitWriter::new();
    writer.write_bits(0xFF, 4);
    assert_eq!(writer.finish(), vec![0xF0]);
    let mut writer = BitWriter::new();
    writer.write_bits(0xABCD, 0);
    assert_eq!(writer.finish(), Vec::<u8>::new());
}

#[test]
fn writer_writes_thirty_two_bits_big_endian() {
    let mut writer = BitWriter::new();
    writer.write_bits(0x0102_0304, 32);
    assert_eq!(writer.finish(), vec![1, 2, 3, 4]);
    let mut writer = BitWriter::new();
    writer.write_bits(u32::MAX, 32);
    assert_eq!(writer.finish(), vec![255, 255, 255, 255]);
}

#[test]
fn writer_align_pads_with_zero_bits() {
    let mut writer = BitWriter::new();
    writer.write_bits(0b1, 1);
    writer.align();
    writer.write_bits(0xAB, 8);
    assert_eq!(writer.finish(), vec![0x80, 0xAB]);
}

#[test]
fn writer_align_on_a_boundary_does_nothing() {
    let mut writer = BitWriter::new();
    writer.align();
    writer.write_bits(0xAB, 8);
    writer.align();
    assert_eq!(writer.finish(), vec![0xAB]);
}

#[test]
fn writer_write_bytes_follows_the_bits_already_there() {
    let mut writer = BitWriter::new();
    writer.write_bits(0b1111, 4);
    writer.write_bytes(&[0x00, 0xFF]);
    assert_eq!(writer.finish(), vec![0xF0, 0x0F, 0xF0]);
}

#[test]
fn reader_reads_most_significant_bit_first() {
    let bytes = [0b1010_0000u8];
    let mut reader = BitReader::new(&bytes);
    assert_eq!(reader.read_bit(), Some(true));
    assert_eq!(reader.read_bit(), Some(false));
    assert_eq!(reader.read_bit(), Some(true));
    assert_eq!(reader.read_bits(5), Some(0));
    assert_eq!(reader.read_bit(), None);
}

#[test]
fn reader_crosses_byte_boundaries() {
    let bytes = [0xF8u8, 0x1F];
    let mut reader = BitReader::new(&bytes);
    assert_eq!(reader.read_bits(5), Some(31));
    assert_eq!(reader.read_bits(6), Some(0));
    assert_eq!(reader.read_bits(5), Some(31));
    assert_eq!(reader.read_bits(1), None);
}

#[test]
fn reader_reads_thirty_two_bits_big_endian() {
    let bytes = [1u8, 2, 3, 4, 255, 255, 255, 255];
    let mut reader = BitReader::new(&bytes);
    assert_eq!(reader.read_bits(32), Some(0x0102_0304));
    assert_eq!(reader.read_bits(32), Some(u32::MAX));
}

#[test]
fn reader_takes_nothing_when_too_few_bits_are_left() {
    let bytes = [0xFFu8];
    let mut reader = BitReader::new(&bytes);
    assert_eq!(reader.read_bits(3), Some(7));
    assert_eq!(reader.read_bits(6), None);
    assert_eq!(reader.read_bits(5), Some(31));
    assert_eq!(reader.read_bits(0), Some(0));
    assert_eq!(reader.read_bits(1), None);
}

#[test]
fn reader_has_bits_counts_what_is_left() {
    let bytes = [0u8, 0];
    let mut reader = BitReader::new(&bytes);
    assert!(reader.has_bits(16));
    assert!(!reader.has_bits(17));
    let _ = reader.read_bits(3);
    assert!(reader.has_bits(13));
    assert!(!reader.has_bits(14));
    assert!(!reader.has_bits(u128::MAX));
}

#[test]
fn reader_align_skips_to_the_next_byte() {
    let bytes = [0xFFu8, 0x12];
    let mut reader = BitReader::new(&bytes);
    assert_eq!(reader.read_bits(1), Some(1));
    reader.align();
    assert_eq!(reader.read_bits(8), Some(0x12));
    reader.align();
    assert_eq!(reader.read_bit(), None);
}

#[test]
fn reader_of_nothing_has_nothing() {
    let bytes: [u8; 0] = [];
    let mut reader = BitReader::new(&bytes);
    assert_eq!(reader.read_bit(), None);
    assert_eq!(reader.read_bits(0), Some(0));
    reader.align();
    assert!(reader.has_bits(0));
}

#[test]
fn what_is_written_is_read_back() {
    let values: [(u32, u8); 7] =
        [(5, 3), (0, 1), (1023, 10), (0xDEAD_BEEF, 32), (1, 1), (77, 7), (0x0FFF_FFFF, 28)];
    let mut writer = BitWriter::new();
    for (value, bits) in values.iter() {
        writer.write_bits(*value, *bits);
    }
    let bytes = writer.finish();
    assert_eq!(bytes.len(), (3 + 1 + 10 + 32 + 1 + 7 + 28 + 7) / 8);
    let mut reader = BitReader::new(&bytes);
    for (value, bits) in values.iter() {
        assert_eq!(reader.read_bits(*bits), Some(*value));
    }
}
