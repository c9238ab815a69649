use crunch::lz77::{Lz77Error, LZ77};

#[test]
fn test_lz77_roundtrip() -> Result<(), Lz77Error> {
    let data = b"abcabcabcabcabc";
    let lz = LZ77::new(4096, 255);
    let compressed = lz.encode(data);

    let decompressed = lz.decode(&compressed, data.len() as u64)?;

    assert_eq!(decompressed, data);
    Ok(())
}

#[test]
fn lz77_encodes_literals_then_a_reference() {
    // "abcabc": three literals, then a reference 3 back of length 3.
    let lz = LZ77::new(4096, 255);
    let compressed = lz.encode(b"abcabc");
    // 0 01100001 | 0 01100010 | 0 01100011 | 1 000000000011 00000011, padded
    let bits = "001100001001100010001100011100000000001100000011";
    let mut expected = Vec::new();
    let mut padded = bits.to_string();
    while padded.len() % 8 != 0 {
        padded.push('0');
    }
    for chunk in padded.as_bytes().chunks(8) {
        let s = std::str::from_utf8(chunk).unwrap();
        expected.push(u8::from_str_radix(s, 2).unwrap());
    }
    assert_eq!(compressed, expected);
}

#[test]
fn lz77_empty_input() {
    let lz = LZ77::new(4096, 255);
    let compressed = lz.encode(b"");
    assert!(compressed.is_empty());
    assert_eq!(lz.decode(&compressed, 0), Ok(Vec::new()));
}

#[test]
fn lz77_round_trip_of_longer_text() {
    let text = b"the rain in spain stays mainly in the plain; the rain in spain stays mainly in the plain";
    let lz = LZ77::new(1024, 32);
    let compressed = lz.encode(text);
    assert!(compressed.len() < text.len());
    assert_eq!(lz.decode(&compressed, text.len() as u64), Ok(text.to_vec()));
}

#[test]
fn lz77_overlapping_run() {
    let data = vec![7u8; 600];
    let lz = LZ77::new(4095, 255);
    let compressed = lz.encode(&data);
    assert_eq!(lz.decode(&compressed, data.len() as u64), Ok(data));
}

#[test]
fn lz77_decode_stops_when_bits_run_out() {
    let lz = LZ77::new(4096, 255);
    // "abcabc" fills exactly six bytes, so the stream ends after its tokens
    let compressed = lz.encode(b"abcabc");
    assert_eq!(compressed.len(), 6);
    assert_eq!(lz.decode(&compressed, 10), Ok(b"abcabc".to_vec()));
    // with padding after the last token, the padding reads as a cut-off literal
    let padded = lz.encode(b"xy");
    assert_eq!(lz.decode(&padded, 10), Err(Lz77Error::MissingLiteral));
}

#[test]
fn lz77_missing_literal() {
    let lz = LZ77::new(4096, 255);
    // a literal flag followed by only 7 bits
    assert_eq!(lz.decode(&[0b0000_0000], 5), Err(Lz77Error::MissingLiteral));
}

#[test]
fn lz77_missing_offset() {
    let lz = LZ77::new(4096, 255);
    assert_eq!(lz.decode(&[0b1000_0000], 5), Err(Lz77Error::MissingOffset));
}

#[test]
fn lz77_missing_length() {
    let lz = LZ77::new(4096, 255);
    // flag 1, offset 000000000001, then only 3 bits
    assert_eq!(lz.decode(&[0b1000_0000, 0b0000_1000], 5), Err(Lz77Error::MissingLength));
}

#[test]
fn lz77_try_decode_reports_invalid_references() {
    let lz = LZ77::new(4096, 255);
    // a reference 1 back (length 3) with nothing decoded before it
    // 1 000000000001 00000011, padded
    assert_eq!(lz.try_decode(&[0b1000_0000, 0b0000_1000, 0b0001_1000], 5), Err(Lz77Error::InvalidReference));
    // a non-empty reference with a zero offset field (4096 back) after one literal
    // 0 01100001 | 1 000000000000 00000001, padded
    assert_eq!(
        lz.try_decode(&[0b0011_0000, 0b1100_0000, 0b0000_0000, 0b0000_0100], 5),
        Err(Lz77Error::InvalidReference)
    );
    let good = lz.encode(b"abcabcabc");
    assert_eq!(lz.try_decode(&good, 9), Ok(b"abcabcabc".to_vec()));
}

#[test]
fn lz77_round_trip_with_a_match_a_full_window_back() -> Result<(), Lz77Error> {
    // 4096 bytes whose three-byte groups are all distinct, then their first ten
    // bytes again: the only match is exactly 4096 bytes back
    let mut data = Vec::new();
    for i in 0u16..2048 {
        data.push((i >> 8) as u8);
        data.push((i & 0xff) as u8);
    }
    data.extend_from_slice(&data.clone()[..10]);
    let lz = LZ77::new(4096, 255);
    let compressed = lz.encode(&data);
    assert_eq!(lz.decode(&compressed, data.len() as u64)?, data);
    assert_eq!(lz.try_decode(&compressed, data.len() as u64)?, data);
    Ok(())
}
