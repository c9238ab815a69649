use crunch::archive::{ArchiveError, ArchiveHeader, Archiver, CompressionType, Timestamp};
use crunch::huffman_tree::HuffmanError;

#[test]
fn archive_entry_round_trip() {
    let content = b"hello archive, hello huffman".to_vec();
    let modified = Some(Timestamp { secs_since_epoch: 1_700_000_000, nanos_since_epoch: 5 });
    let (meta, data) =
        Archiver::compress_entry("greeting.txt".to_string(), &content, modified).unwrap();
    assert_eq!(meta.name, "greeting.txt");
    assert_eq!(meta.original_size, content.len() as u64);
    assert_eq!(meta.compressed_size, data.len() as u64);
    assert_eq!(meta.compression_type, CompressionType::Huffman);
    assert_eq!(meta.modified, modified);
    assert!(data.len() < content.len());
    assert_eq!(Archiver::extract_entry(&meta, &data), Ok(content));
}

#[test]
fn archive_checksum_is_crc32() {
    let (meta, _) = Archiver::compress_entry("n".to_string(), b"123456789", None).unwrap();
    assert_eq!(meta.checksum, 0xCBF4_3926);
}

#[test]
fn archive_checksum_mismatch() {
    let (mut meta, data) = Archiver::compress_entry("f.bin".to_string(), b"abcdefabc", None).unwrap();
    meta.checksum ^= 1;
    assert_eq!(
        Archiver::extract_entry(&meta, &data),
        Err(ArchiveError::ChecksumMismatch("f.bin".to_string()))
    );
}

#[test]
fn archive_missing_lengths_and_unsupported() {
    let (mut meta, data) = Archiver::compress_entry("f".to_string(), b"xyz", None).unwrap();
    meta.compression_type = CompressionType::LZ77;
    assert_eq!(Archiver::extract_entry(&meta, &data), Err(ArchiveError::UnsupportedCompression));
    meta.compression_type = CompressionType::Uncompressed;
    assert_eq!(Archiver::extract_entry(&meta, &data), Err(ArchiveError::UnsupportedCompression));
    meta.compression_type = CompressionType::Huffman;
    meta.huffman_lengths = None;
    assert_eq!(Archiver::extract_entry(&meta, &data), Err(ArchiveError::MissingHuffmanLengths));
}

#[test]
fn archive_empty_file_round_trip() {
    let (meta, data) = Archiver::compress_entry("empty".to_string(), b"", None).unwrap();
    assert!(data.is_empty());
    assert!(meta.huffman_lengths.as_ref().unwrap().is_empty());
    assert_eq!(meta.original_size, 0);
    assert_eq!(meta.checksum, 0);
    assert_eq!(Archiver::extract_entry(&meta, &data), Ok(Vec::new()));
    let mut wrong = meta.clone();
    wrong.checksum = 1;
    assert_eq!(
        Archiver::extract_entry(&wrong, &data),
        Err(ArchiveError::ChecksumMismatch("empty".to_string()))
    );
}

#[test]
fn archive_missing_tree_for_non_empty_file() {
    let (mut meta, data) = Archiver::compress_entry("g".to_string(), b"ab", None).unwrap();
    meta.huffman_lengths = Some(std::collections::HashMap::new());
    assert_eq!(
        Archiver::extract_entry(&meta, &data),
        Err(ArchiveError::Huffman(HuffmanError::EmptyTree))
    );
}

#[test]
fn archive_truncated_data() {
    let (meta, data) = Archiver::compress_entry("t".to_string(), b"abcdefghijklmnop", None).unwrap();
    assert_eq!(
        Archiver::extract_entry(&meta, &data[..1]),
        Err(ArchiveError::Huffman(HuffmanError::UnexpectedEof))
    );
}

#[test]
fn header_frame_round_trip() {
    let payload = vec![9u8, 8, 7];
    let framed = ArchiveHeader::frame(&payload);
    assert_eq!(framed, vec![3, 0, 0, 0, 0, 0, 0, 0, 9, 8, 7]);
    assert_eq!(ArchiveHeader::frame_len(&framed), Ok(3));
    assert_eq!(ArchiveHeader::frame_len(&framed[..7]), Err(ArchiveError::Truncated));
}

#[test]
fn header_magic_is_checked() {
    let header = ArchiveHeader::new(Vec::new());
    assert_eq!(header.magic, *b"CRUNCH");
    assert_eq!(header.version, 1);
    assert!(header.validate().is_ok());
    let mut bad = ArchiveHeader::new(Vec::new());
    bad.magic[0] = b'X';
    assert_eq!(bad.validate().err(), Some(ArchiveError::InvalidMagic));
}
