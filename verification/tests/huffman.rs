use crunch::huffman::Huffman;
use crunch::huffman_tree::{HuffmanError, HuffmanNode};
use std::collections::HashMap;

fn frequencies_of(data: &[u8]) -> HashMap<u8, u64> {
    let mut frequencies = HashMap::new();
    for &byte in data {
        *frequencies.entry(byte).or_insert(0) += 1;
    }
    frequencies
}

fn encode(h: &Huffman, data: &[u8]) -> Result<Vec<u8>, HuffmanError> {
    let mut out = Vec::new();
    h.encode(data, &mut out)?;
    Ok(out)
}

fn decode(h: &Huffman, input: &[u8], n: u64) -> Result<Vec<u8>, HuffmanError> {
    let mut out = Vec::new();
    h.decode(input, &mut out, n)?;
    Ok(out)
}

#[test]
fn test_huffman_roundtrip() -> Result<(), HuffmanError> {
    let data = b"hello huffman";
    let mut frequencies = HashMap::new();
    for &byte in data {
        *frequencies.entry(byte).or_insert(0) += 1;
    }

    let huffman = Huffman::from_frequencies(frequencies);
    let mut compressed = Vec::new();
    huffman.encode(data, &mut compressed)?;

    let mut decompressed = Vec::new();
    huffman.decode(&compressed, &mut decompressed, data.len() as u64)?;

    assert_eq!(decompressed, data);
    Ok(())
}

#[test]
fn test_canonical_huffman_roundtrip() -> Result<(), HuffmanError> {
    let data = b"the quick brown fox jumps over the lazy dog";
    let mut frequencies = HashMap::new();
    for &byte in data {
        *frequencies.entry(byte).or_insert(0) += 1;
    }

    let h1 = Huffman::from_frequencies(frequencies);
    let lengths = h1.get_code_lengths();

    let h2 = Huffman::from_code_lengths(lengths);
    let mut compressed = Vec::new();
    h2.encode(data, &mut compressed)?;

    let mut decompressed = Vec::new();
    h2.decode(&compressed, &mut decompressed, data.len() as u64)?;

    assert_eq!(decompressed, data);
    Ok(())
}

#[test]
fn huffman_single_symbol_uses_one_bit() -> Result<(), HuffmanError> {
    let data = b"aaaa";
    let h = Huffman::from_frequencies(frequencies_of(data));
    let lengths = h.get_code_lengths();
    assert_eq!(lengths.len(), 1);
    assert_eq!(lengths[&b'a'], 1);
    let compressed = encode(&h, data)?;
    assert_eq!(compressed, vec![0u8]);
    assert_eq!(decode(&h, &compressed, 4)?, data.to_vec());
    Ok(())
}

#[test]
fn huffman_empty_frequencies_have_no_tree() {
    let h = Huffman::from_frequencies(HashMap::new());
    assert!(h.get_code_lengths().is_empty());
    assert_eq!(encode(&h, b""), Ok(Vec::new()));
    assert_eq!(decode(&h, &[], 0), Err(HuffmanError::EmptyTree));
    let c = Huffman::from_code_lengths(HashMap::new());
    assert_eq!(decode(&c, &[], 0), Err(HuffmanError::EmptyTree));
}

#[test]
fn huffman_unknown_symbol() {
    let h = Huffman::from_frequencies(frequencies_of(b"ab"));
    assert_eq!(encode(&h, b"abc"), Err(HuffmanError::SymbolNotFound(b'c')));
}

#[test]
fn huffman_code_lengths_follow_frequencies() {
    // weights 1, 1, 2, 4: the tree has depths 3, 3, 2, 1
    let mut f = HashMap::new();
    f.insert(b'a', 1u64);
    f.insert(b'b', 1u64);
    f.insert(b'c', 2u64);
    f.insert(b'd', 4u64);
    let h = Huffman::from_frequencies(f);
    let lengths = h.get_code_lengths();
    assert_eq!(lengths[&b'a'], 3);
    assert_eq!(lengths[&b'b'], 3);
    assert_eq!(lengths[&b'c'], 2);
    assert_eq!(lengths[&b'd'], 1);
}

#[test]
fn canonical_codes_are_assigned_in_length_then_symbol_order() -> Result<(), HuffmanError> {
    let mut lengths = HashMap::new();
    lengths.insert(b'd', 1u8);
    lengths.insert(b'c', 2u8);
    lengths.insert(b'b', 3u8);
    lengths.insert(b'a', 3u8);
    assert!(Huffman::supports_code_lengths(&lengths));
    let h = Huffman::from_code_lengths(lengths);
    // d = 0, c = 10, a = 110, b = 111
    let compressed = encode(&h, b"dcab")?;
    assert_eq!(compressed, vec![0b0101_1011, 0b1000_0000]);
    assert_eq!(decode(&h, &compressed, 4)?, b"dcab".to_vec());
    Ok(())
}

#[test]
fn canonical_single_length_one_code() -> Result<(), HuffmanError> {
    let mut lengths = HashMap::new();
    lengths.insert(b'z', 1u8);
    let h = Huffman::from_code_lengths(lengths);
    let compressed = encode(&h, b"zzz")?;
    assert_eq!(compressed, vec![0]);
    assert_eq!(decode(&h, &compressed, 3)?, b"zzz".to_vec());
    Ok(())
}

#[test]
fn huffman_decode_runs_out_of_bits() {
    let h = Huffman::from_frequencies(frequencies_of(b"abcd"));
    // four symbols with two-bit codes: one byte holds four of them
    assert_eq!(decode(&h, &[0u8], 5), Err(HuffmanError::UnexpectedEof));
}

#[test]
fn unsupported_lengths_are_detected() {
    let mut lengths = HashMap::new();
    lengths.insert(1u8, 65u8);
    assert!(!Huffman::supports_code_lengths(&lengths));
    let mut zero_and_64 = HashMap::new();
    zero_and_64.insert(1u8, 0u8);
    zero_and_64.insert(2u8, 64u8);
    assert!(!Huffman::supports_code_lengths(&zero_and_64));
}

#[test]
fn last_code_of_64_bits_cannot_be_counted_past() {
    // lengths 1, 2, ..., 64, 64: the last code is all ones
    let mut lengths = HashMap::new();
    for l in 1u8..=64 {
        lengths.insert(l, l);
    }
    lengths.insert(200u8, 64u8);
    assert!(!Huffman::supports_code_lengths(&lengths));
    lengths.remove(&200u8);
    assert!(Huffman::supports_code_lengths(&lengths));
}

#[test]
fn huffman_node_equality() {
    let a = HuffmanNode::Leaf { symbol: 1 };
    let b = HuffmanNode::Leaf { symbol: 1 };
    assert_eq!(a, b);
}

#[test]
fn decode_keeps_symbols_before_running_out() {
    let mut lengths = HashMap::new();
    lengths.insert(b'a', 3u8);
    lengths.insert(b'b', 1u8);
    lengths.insert(b'c', 3u8);
    lengths.insert(b'd', 3u8);
    lengths.insert(b'e', 3u8);
    let h = Huffman::from_code_lengths(lengths);
    // b = 0, a = 100, c = 101, d = 110, e = 111; 0x8B = 100 0 101 1
    let mut out = Vec::new();
    assert_eq!(h.decode(&[0x8B], &mut out, 5), Err(HuffmanError::UnexpectedEof));
    assert_eq!(out, b"abc".to_vec());
}

#[test]
fn encode_keeps_whole_bytes_before_a_missing_symbol() {
    let mut lengths = HashMap::new();
    lengths.insert(b'a', 1u8);
    lengths.insert(b'b', 1u8);
    let h = Huffman::from_code_lengths(lengths);
    // a = 0, b = 1: nine bits before 'c', of which one whole byte is written
    let mut out = vec![0xEE];
    assert_eq!(h.encode(b"bbbbbbbbbc", &mut out), Err(HuffmanError::SymbolNotFound(b'c')));
    assert_eq!(out, vec![0xEE, 0xFF]);
}

#[test]
fn encode_appends_to_output() -> Result<(), HuffmanError> {
    let mut lengths = HashMap::new();
    lengths.insert(b'a', 1u8);
    lengths.insert(b'b', 1u8);
    let h = Huffman::from_code_lengths(lengths);
    let mut out = vec![7u8];
    h.encode(b"ba", &mut out)?;
    assert_eq!(out, vec![7u8, 0b1000_0000]);
    Ok(())
}

#[test]
fn fibonacci_weights_give_the_deepest_tree_and_still_round_trip() -> Result<(), HuffmanError> {
    // weights 1, 1, 2, 3, 5, 8, 13, 21: each join takes the previous tree and one leaf,
    // so the two lightest symbols sit at depth 7
    let weights = [1u64, 1, 2, 3, 5, 8, 13, 21];
    let mut f = HashMap::new();
    let mut data = Vec::new();
    for (i, &w) in weights.iter().enumerate() {
        let symbol = b'a' + i as u8;
        f.insert(symbol, w);
        for _ in 0..w {
            data.push(symbol);
        }
    }
    let h = Huffman::from_frequencies(f);
    let lengths = h.get_code_lengths();
    assert_eq!(lengths[&b'a'], 7);
    assert_eq!(lengths[&b'b'], 7);
    assert_eq!(lengths[&b'h'], 1);
    assert!(Huffman::supports_code_lengths(&lengths));
    let compressed = encode(&h, &data)?;
    assert_eq!(decode(&h, &compressed, data.len() as u64)?, data);
    let canonical = Huffman::from_code_lengths(lengths);
    let recompressed = encode(&canonical, &data)?;
    assert_eq!(decode(&canonical, &recompressed, data.len() as u64)?, data);
    Ok(())
}
