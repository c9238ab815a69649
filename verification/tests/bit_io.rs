use crunch::bit_io::{BitReader, BitWriter};

#[test]
fn test_bit_writer_reader() {
    let mut writer = BitWriter::new(Vec::new());
    writer.write_bit(true);
    writer.write_bit(false);
    writer.write_bit(true);
    writer.write_bit(true);
    writer.write_bits(0b101, 3); // 1, 0, 1
    writer.flush_bits();
    let buffer = writer.into_inner();

    let mut reader = BitReader::new(buffer);
    assert_eq!(reader.read_bit(), Some(true));
    assert_eq!(reader.read_bit(), Some(false));
    assert_eq!(reader.read_bit(), Some(true));
    assert_eq!(reader.read_bit(), Some(true));
    assert_eq!(reader.read_bit(), Some(true));
    assert_eq!(reader.read_bit(), Some(false));
    assert_eq!(reader.read_bit(), Some(true));
    // The last bit should be 0 due to padding if we read it
    assert_eq!(reader.read_bit(), Some(false));
    assert_eq!(reader.read_bit(), None);
}

#[test]
fn bit_writer_packs_most_significant_bit_first() {
    let mut writer = BitWriter::new(Vec::new());
    writer.write_bits(0b1011_0001, 8);
    writer.write_bits(0b11, 2);
    writer.flush_bits();
    assert_eq!(writer.into_inner(), vec![0b1011_0001, 0b1100_0000]);
}

#[test]
fn bit_writer_keeps_existing_bytes() {
    let mut writer = BitWriter::new(vec![0xAA]);
    writer.write_bits(0xF, 4);
    writer.flush_bits();
    assert_eq!(writer.into_inner(), vec![0xAA, 0xF0]);
}

#[test]
fn flush_of_whole_bytes_adds_nothing() {
    let mut writer = BitWriter::new(Vec::new());
    writer.write_bits(0x1234, 16);
    writer.flush_bits();
    writer.flush_bits();
    assert_eq!(writer.into_inner(), vec![0x12, 0x34]);
}

#[test]
fn write_bits_keeps_only_the_low_bits() {
    let mut writer = BitWriter::new(Vec::new());
    writer.write_bits(0xFFFF_FF0F, 8);
    writer.flush_bits();
    assert_eq!(writer.into_inner(), vec![0x0F]);
}

#[test]
fn read_bits_round_trip_of_64_bits() {
    let mut writer = BitWriter::new(Vec::new());
    writer.write_bit(true);
    writer.write_bits(0xDEAD_BEEF_0123_4567, 64);
    writer.flush_bits();
    let mut reader = BitReader::new(writer.into_inner());
    assert_eq!(reader.read_bit(), Some(true));
    assert_eq!(reader.read_bits(64), Some(0xDEAD_BEEF_0123_4567));
    assert_eq!(reader.read_bits(7), Some(0));
    assert_eq!(reader.read_bits(1), None);
}

#[test]
fn read_bits_past_the_end_consumes_everything() {
    let mut reader = BitReader::new(vec![0b1010_0000]);
    assert_eq!(reader.read_bits(3), Some(0b101));
    assert_eq!(reader.read_bits(9), None);
    assert_eq!(reader.read_bit(), None);
}

#[test]
fn read_bits_zero_is_zero() {
    let mut reader = BitReader::new(Vec::new());
    assert_eq!(reader.read_bits(0), Some(0));
    assert_eq!(reader.read_bit(), None);
}

#[test]
fn bit_writer_emits_a_byte_on_its_eighth_bit() {
    let mut writer = BitWriter::new(Vec::new());
    for _ in 0..7 {
        writer.write_bit(true);
    }
    assert!(writer.into_inner().is_empty());
    let mut writer = BitWriter::new(Vec::new());
    for _ in 0..8 {
        writer.write_bit(true);
    }
    assert_eq!(writer.into_inner(), vec![0xFF]);
}

#[test]
fn second_flush_after_a_partial_byte_adds_nothing() {
    let mut writer = BitWriter::new(vec![0x01]);
    writer.write_bits(0b110, 3);
    writer.flush_bits();
    writer.flush_bits();
    assert_eq!(writer.into_inner(), vec![0x01, 0b1100_0000]);
}

#[test]
fn reader_hands_out_bit_k_of_byte_k_over_8() {
    let bytes = vec![0b1010_0000u8, 0b0000_0001];
    let mut reader = BitReader::new(bytes.clone());
    for k in 0..16 {
        let expected = ((bytes[k / 8] >> (7 - k % 8)) & 1) == 1;
        assert_eq!(reader.read_bit(), Some(expected));
    }
    assert_eq!(reader.read_bit(), None);
    assert_eq!(reader.read_bit(), None);
}
