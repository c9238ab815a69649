//! The archive format: a framed header that lists each file's metadata,
//! then each file's Huffman-compressed bytes in turn.
use crate::bits::{bytes_bits, pad_len, zero_bits};
use crate::huffman::{Huffman, canonical_codes, greedy_run, initial_forest, canonical_tree, lengths_supported, sorted_entries};
use crate::huffman_tree::{HuffmanError, HuffmanNode, code_lengths, huff_bits, huff_decode, leaves, tree_codes};
use crate::stats::{byte_frequencies, frequencies_of};
use std::collections::HashMap;
use vstd::bytes::{spec_u64_from_le_bytes, spec_u64_to_le_bytes};
use vstd::prelude::*;

verus! {

broadcast use vstd::std_specs::hash::group_hash_axioms;

/// How a file's bytes are stored.
#[derive(Debug, Clone, Copy, PartialEq, Eq)]
pub enum CompressionType {
    Huffman,
    LZ77,
    /// Stored as is.
    Uncompressed,
}

/// A point in time as seconds and nanoseconds since the Unix epoch.
#[derive(Debug, Clone, Copy, PartialEq, Eq)]
pub struct Timestamp {
    pub secs_since_epoch: u64,
    pub nanos_since_epoch: u32,
}

/// What the archive records of one file.
#[derive(Debug, Clone)]
pub struct FileMetadata {
    pub name: String,
    pub original_size: u64,
    pub compressed_size: u64,
    pub checksum: u32,
    pub compression_type: CompressionType,
    pub huffman_lengths: Option<HashMap<u8, u8>>,
    pub modified: Option<Timestamp>,
}

/// The archive header: magic bytes, format version and the files' metadata.
#[derive(Debug, Clone)]
pub struct ArchiveHeader {
    pub magic: [u8; 6],
    pub version: u32,
    pub files: Vec<FileMetadata>,
}

/// Creates and reads archives.
pub struct Archiver;

/// Why an archive could not be written or read.
#[derive(Debug, Clone, PartialEq, Eq)]
pub enum ArchiveError {
    /// The header does not start with the magic bytes.
    InvalidMagic,
    /// Fewer bytes than the length prefix of the header.
    Truncated,
    /// A Huffman-compressed file without its code lengths.
    MissingHuffmanLengths,
    /// The decompressed bytes do not have the recorded checksum.
    ChecksumMismatch(String),
    /// A file stored in a way that cannot be extracted.
    UnsupportedCompression,
    /// A code length too long for a canonical code in 64 bits.
    CodeTooLong,
    /// Decoding failed.
    Huffman(HuffmanError),
}

/// One bit's step of the reflected CRC-32 (IEEE) register, whose generator
/// polynomial in reflected form is 0xEDB88320.
pub open spec fn crc32_shift(c: u32) -> u32 {
    if c & 1u32 == 1u32 {
        (c >> 1u32) ^ 0xEDB8_8320u32
    } else {
        c >> 1u32
    }
}

/// `k` steps of the register.
pub open spec fn crc32_shifts(c: u32, k: nat) -> u32
    decreases k,
{
    if k == 0 {
        c
    } else {
        crc32_shift(crc32_shifts(c, (k - 1) as nat))
    }
}

/// The register after `data`: it starts with all bits set, and each byte is
/// folded into its low bits, then shifted through eight steps.
pub open spec fn crc32_register(data: Seq<u8>) -> u32
    decreases data.len(),
{
    if data.len() == 0 {
        0xFFFF_FFFFu32
    } else {
        crc32_shifts(crc32_register(data.drop_last()) ^ (data.last() as u32), 8)
    }
}

/// The CRC-32 (IEEE) checksum of the bytes: the final register, complemented.
pub open spec fn crc32_of(data: Seq<u8>) -> u32 {
    crc32_register(data) ^ 0xFFFF_FFFFu32
}

/// Calls `crc32fast::hash`, which computes the CRC-32 (IEEE) checksum; the
/// contract claims that its result is that checksum, as `crc32_of` defines it.
#[verifier::external_body]
fn crc32(data: &[u8]) -> (c: u32)
    ensures
        c == crc32_of(data@),
{
    crc32fast::hash(data)
}

/// The canonical code of a length map.
pub open spec fn canonical_map(m: Map<u8, u8>) -> Map<u8, (u64, u8)> {
    canonical_codes(sorted_entries(m), sorted_entries(m).len())
}

/// The tree that decodes the canonical code of a length map, if the map is not empty.
pub open spec fn canonical_decoder(m: Map<u8, u8>) -> Option<HuffmanNode> {
    if m.dom().len() == 0 {
        None
    } else {
        Some(canonical_tree(sorted_entries(m), sorted_entries(m).len()))
    }
}

/// `lengths` are the code lengths of a Huffman tree for the bytes of
/// `content`: a tree that a run of Huffman's algorithm builds from their
/// frequencies, with one leaf per distinct byte (none for no bytes).
pub open spec fn is_code_lengths_for(content: Seq<u8>, lengths: Map<u8, u8>) -> bool {
    if content.len() == 0 {
        lengths == Map::<u8, u8>::empty()
    } else {
        exists|root: HuffmanNode|
            {
                &&& leaves(root).no_duplicates()
                &&& leaves(root).to_set() == frequencies_of(content).dom()
                &&& lengths == #[trigger] code_lengths(tree_codes(root))
                &&& exists|trace: Seq<Seq<(HuffmanNode, u64)>>|
                    greedy_run(trace) && trace[0] == initial_forest(frequencies_of(content))
                        && #[trigger] trace.last()[0].0 == root
            }
    }
}

/// What extracting a Huffman-compressed file gives for given code lengths.
pub open spec fn extracted(
    lengths: Map<u8, u8>,
    compressed: Seq<u8>,
    original_size: u64,
    checksum: u32,
    name: String,
) -> Result<Seq<u8>, ArchiveError> {
    if original_size == 0 {
        if crc32_of(Seq::empty()) == checksum {
            Ok(Seq::empty())
        } else {
            Err(ArchiveError::ChecksumMismatch(name))
        }
    } else {
        match canonical_decoder(lengths) {
            None => Err(ArchiveError::Huffman(HuffmanError::EmptyTree)),
            Some(root) => match huff_decode(root, bytes_bits(compressed), original_size as nat) {
                Err(e) => Err(ArchiveError::Huffman(e)),
                Ok(s) => if crc32_of(s) == checksum {
                    Ok(s)
                } else {
                    Err(ArchiveError::ChecksumMismatch(name))
                },
            },
        }
    }
}

impl ArchiveHeader {
    pub const MAGIC: [u8; 6] = [67u8, 82u8, 85u8, 78u8, 67u8, 72u8];

    pub const VERSION: u32 = 1;

    pub fn new(files: Vec<FileMetadata>) -> (h: Self)
        ensures
            h.magic@ == Self::MAGIC@,
            h.version == Self::VERSION,
            h.files@ == files@,
    {
        Self { magic: Self::MAGIC, version: Self::VERSION, files }
    }

    /// Prefixes the serialized header with its length as 8 little-endian bytes.
    pub fn frame(serialized: &[u8]) -> (framed: Vec<u8>)
        ensures
            framed@ == spec_u64_to_le_bytes(serialized@.len() as u64) + serialized@,
    {
        let mut framed = vstd::bytes::u64_to_le_bytes(serialized.len() as u64);
        let mut i: usize = 0;
        let ghost start = framed@;
        while i < serialized.len()
            invariant
                i <= serialized.len(),
                framed@ == start + serialized@.take(i as int),
            decreases serialized.len() - i,
        {
            framed.push(serialized[i]);
            i = i + 1;
            assert(framed@ =~= start + serialized@.take(i as int));
        }
        assert(serialized@.take(i as int) =~= serialized@);
        framed
    }

    /// The length that the first 8 bytes give, little-endian.
    pub fn frame_len(prefix: &[u8]) -> (len: Result<u64, ArchiveError>)
        ensures
            prefix@.len() >= 8 ==> len == Ok::<u64, ArchiveError>(
                spec_u64_from_le_bytes(prefix@.take(8)),
            ),
            prefix@.len() < 8 ==> len == Err::<u64, ArchiveError>(ArchiveError::Truncated),
    {
        if prefix.len() < 8 {
            return Err(ArchiveError::Truncated);
        }
        let first = vstd::slice::slice_subrange(prefix, 0, 8);
        assert(first@ =~= prefix@.take(8));
        Ok(vstd::bytes::u64_from_le_bytes(first))
    }

    /// Accepts a header only when it starts with the magic bytes.
    pub fn validate(self) -> (res: Result<Self, ArchiveError>)
        ensures
            self.magic@ == Self::MAGIC@ ==> (res matches Ok(h) && h == self),
            self.magic@ != Self::MAGIC@ ==> res == Err::<Self, ArchiveError>(
                ArchiveError::InvalidMagic,
            ),
    {
        let magic = Self::MAGIC;
        let mut i: usize = 0;
        while i < 6
            invariant
                i <= 6,
                magic@ == Self::MAGIC@,
                forall|j: int| 0 <= j < i ==> self.magic@[j] == magic@[j],
            decreases 6 - i,
        {
            if self.magic[i] != magic[i] {
                return Err(ArchiveError::InvalidMagic);
            }
            i = i + 1;
        }
        assert(self.magic@ =~= Self::MAGIC@);
        Ok(self)
    }
}

/// The codes of a supported length map never exceed 64 bits, and the symbols
/// that have codes are those of the entries.
proof fn lemma_canonical_codes_fit(e: Seq<(u8, u8)>, n: nat)
    requires
        n <= e.len(),
        crate::huffman::canonical_fits(e),
    ensures
        forall|s: u8| #[trigger]
            canonical_codes(e, n).contains_key(s) ==> canonical_codes(e, n)[s].1 <= 64,
        forall|s: u8|
            canonical_codes(e, n).contains_key(s) <==> exists|i: int|
                0 <= i < n && (#[trigger] e[i]).0 == s,
    decreases n,
{
    if n > 0 {
        let m = (n - 1) as nat;
        lemma_canonical_codes_fit(e, m);
        let prev = canonical_codes(e, m);
        let cur = canonical_codes(e, n);
        let last = e[n - 1];
        assert(last.1 <= 64);
        assert(cur == prev.insert(last.0, (crate::huffman::canon_code(e, n - 1), last.1)));
        assert forall|s: u8| #[trigger] cur.contains_key(s) implies cur[s].1 <= 64 by {
            if s != last.0 {
                assert(prev.contains_key(s));
            }
        }
        assert forall|s: u8| cur.contains_key(s) <==> exists|i: int| 0 <= i < n && (#[trigger] e[i]).0 == s by {
            if cur.contains_key(s) {
                if s == last.0 {
                    assert(e[n - 1].0 == s);
                } else {
                    assert(prev.contains_key(s));
                    let i = choose|i: int| 0 <= i < m && (#[trigger] e[i]).0 == s;
                    assert(0 <= i < n && e[i].0 == s);
                }
            }
            if exists|i: int| 0 <= i < n && (#[trigger] e[i]).0 == s {
                let i = choose|i: int| 0 <= i < n && (#[trigger] e[i]).0 == s;
                if i < m {
                    assert(prev.contains_key(s));
                }
            }
        }
    }
}

/// The canonical code of an empty length map is empty.
proof fn lemma_canonical_map_empty(m: Map<u8, u8>)
    requires
        m.dom().finite(),
        m.dom().len() == 0,
    ensures
        sorted_entries(m).len() == 0,
        canonical_map(m) == Map::<u8, (u64, u8)>::empty(),
{
    crate::huffman::lemma_sorted_entries(m);
    vstd::set_lib::lemma_set_empty_equivalency_len(m.dom());
    if sorted_entries(m).len() > 0 {
        assert(m.dom().contains(sorted_entries(m)[0].0));
    }
    assert(canonical_map(m) =~= Map::<u8, (u64, u8)>::empty());
}

/// The code lengths of a Huffman tree for `content` give every byte of it a
/// canonical code, of at most 64 bits when the lengths are supported.
proof fn lemma_canonical_covers(content: Seq<u8>, lengths: Map<u8, u8>)
    requires
        is_code_lengths_for(content, lengths),
        lengths_supported(lengths),
    ensures
        crate::huffman_tree::all_coded(canonical_map(lengths), content),
        crate::huffman::codes_fit(canonical_map(lengths), content),
{
    let e = sorted_entries(lengths);
    let codes = canonical_map(lengths);
    crate::huffman::lemma_sorted_entries(lengths);
    lemma_canonical_codes_fit(e, e.len());
    if content.len() > 0 {
        let root = choose|root: HuffmanNode|
            {
                &&& leaves(root).no_duplicates()
                &&& leaves(root).to_set() == frequencies_of(content).dom()
                &&& lengths == #[trigger] code_lengths(tree_codes(root))
            };
        crate::huffman_tree::lemma_tree_paths(root);
        crate::huffman_tree::lemma_codes_from_paths(root, Seq::empty());
        assert forall|i: int| 0 <= i < content.len() implies codes.contains_key(
            #[trigger] content[i],
        ) by {
            let b = content[i];
            assert(frequencies_of(content).dom().contains(b));
            assert(lengths.contains_key(b));
            let j = choose|j: int| 0 <= j < e.len() && (#[trigger] e[j]).0 == b;
        }
    }
}


/// Extracting a file that `compress_entry` stored gives back its content:
/// with the code lengths it recorded and the bytes it produced, decoding
/// succeeds and the checksum matches. (An empty file is stored with no code
/// lengths and no bytes, and comes back empty.)
pub proof fn lemma_entry_round_trip(
    content: Seq<u8>,
    lengths: Map<u8, u8>,
    data: Seq<u8>,
    name: String,
)
    requires
        content.len() <= u64::MAX,
        is_code_lengths_for(content, lengths),
        lengths_supported(lengths),
        bytes_bits(data) == huff_bits(canonical_map(lengths), content) + zero_bits(
            pad_len(huff_bits(canonical_map(lengths), content).len()),
        ),
    ensures
        extracted(lengths, data, content.len() as u64, crc32_of(content), name) == Ok::<
            Seq<u8>,
            ArchiveError,
        >(content),
{
    if content.len() == 0 {
        assert(content =~= Seq::<u8>::empty());
    } else {
        let root = choose|root: HuffmanNode|
            {
                &&& leaves(root).no_duplicates()
                &&& leaves(root).to_set() == frequencies_of(content).dom()
                &&& lengths == #[trigger] code_lengths(tree_codes(root))
                &&& exists|trace: Seq<Seq<(HuffmanNode, u64)>>|
                    greedy_run(trace) && trace[0] == initial_forest(frequencies_of(content))
                        && #[trigger] trace.last()[0].0 == root
            };
        let e = sorted_entries(lengths);
        let codes = canonical_map(lengths);
        crate::canonical::lemma_supported_paths_short(root);
        crate::canonical::lemma_tree_lengths_kraft(root);
        crate::huffman_tree::lemma_tree_paths(root);
        assert forall|i: int| 0 <= i < content.len() implies crate::huffman_tree::tree_paths(
            root,
        ).contains_key(#[trigger] content[i]) by {
            assert(frequencies_of(content).dom().contains(content[i]));
        }
        crate::canonical::lemma_canonical_codes_cover(root, content);
        crate::canonical::lemma_lengths_nonempty(root);
        crate::huffman::lemma_sorted_entries(lengths);
        crate::canonical::lemma_kraft_decodable(e);
        crate::huffman_tree::lemma_decode_codes(
            canonical_tree(e, e.len()),
            codes,
            content,
            zero_bits(pad_len(huff_bits(codes, content).len())),
        );
    }
}


/// The length prefix that `frame` writes is what `frame_len` reads, and the
/// serialized header follows it unchanged.
pub proof fn lemma_frame_round_trip(serialized: Seq<u8>)
    requires
        serialized.len() <= u64::MAX,
    ensures
        ({
            let framed = spec_u64_to_le_bytes(serialized.len() as u64) + serialized;
            &&& framed.len() >= 8
            &&& spec_u64_from_le_bytes(framed.take(8)) == serialized.len()
            &&& framed.skip(8) == serialized
        }),
{
    vstd::bytes::lemma_auto_spec_u64_to_from_le_bytes();
    let prefix = spec_u64_to_le_bytes(serialized.len() as u64);
    let framed = prefix + serialized;
    assert(framed.take(8) =~= prefix);
    assert(framed.skip(8) =~= serialized);
}

impl Archiver {
    /// Compresses one file's content with a canonical Huffman code built from
    /// its byte frequencies, and describes it. Fails, where a panic would
    /// otherwise follow, when a code length is too long for a canonical code
    /// in 64 bits.
    pub fn compress_entry(name: String, content: &[u8], modified: Option<Timestamp>) -> (res: Result<
        (FileMetadata, Vec<u8>),
        ArchiveError,
    >)
        ensures
            match res {
                Ok((meta, data)) => {
                    &&& meta.name == name
                    &&& meta.original_size == content@.len()
                    &&& meta.compressed_size == data@.len()
                    &&& meta.checksum == crc32_of(content@)
                    &&& meta.compression_type == CompressionType::Huffman
                    &&& meta.modified == modified
                    &&& meta.huffman_lengths is Some
                    &&& is_code_lengths_for(content@, meta.huffman_lengths->0@)
                    &&& lengths_supported(meta.huffman_lengths->0@)
                    &&& bytes_bits(data@) == huff_bits(
                        canonical_map(meta.huffman_lengths->0@),
                        content@,
                    ) + zero_bits(
                        pad_len(huff_bits(canonical_map(meta.huffman_lengths->0@), content@).len()),
                    )
                },
                Err(e) => e == ArchiveError::CodeTooLong && exists|l: Map<u8, u8>|
                    is_code_lengths_for(content@, l) && !lengths_supported(l),
            },
    {
        let original_size = content.len() as u64;
        let checksum = crc32(content);
        let frequencies = byte_frequencies(content);
        proof {
            crate::stats::lemma_frequencies_total(content@);
            assert(content@.len() == content.len());
        }
        let huffman_temp = Huffman::from_frequencies(frequencies);
        let lengths = huffman_temp.get_code_lengths();
        proof {
            match huffman_temp.spec_tree() {
                None => {
                    if content@.len() > 0 {
                        assert(frequencies_of(content@).dom().contains(content@[0]));
                    }
                    assert(lengths@ =~= Map::<u8, u8>::empty());
                },
                Some(root) => {
                    assert(lengths@ == code_lengths(tree_codes(root)));
                    if content@.len() == 0 {
                        assert(frequencies_of(content@).dom() =~= Set::<u8>::empty());
                    }
                },
            }
            assert(is_code_lengths_for(content@, lengths@));
        }
        if !Huffman::supports_code_lengths(&lengths) {
            return Err(ArchiveError::CodeTooLong);
        }
        let huffman = Huffman::from_code_lengths(lengths.clone());
        proof {
            if lengths@.dom().len() == 0 {
                lemma_canonical_map_empty(lengths@);
            }
            lemma_canonical_covers(content@, lengths@);
        }
        let mut compressed_buf: Vec<u8> = Vec::new();
        match huffman.encode(content, &mut compressed_buf) {
            Ok(()) => {},
            Err(e) => {
                return Err(ArchiveError::Huffman(e));
            },
        }
        assert(compressed_buf@.skip(0) =~= compressed_buf@);
        let meta = FileMetadata {
            name,
            original_size,
            compressed_size: compressed_buf.len() as u64,
            checksum,
            compression_type: CompressionType::Huffman,
            huffman_lengths: Some(lengths),
            modified,
        };
        Ok((meta, compressed_buf))
    }

    /// Decompresses one file's bytes as its metadata describes and checks
    /// the checksum.
    pub fn extract_entry(meta: &FileMetadata, compressed: &[u8]) -> (res: Result<
        Vec<u8>,
        ArchiveError,
    >)
        requires
            meta.compression_type == CompressionType::Huffman && meta.huffman_lengths is Some
                ==> lengths_supported(meta.huffman_lengths->0@),
        ensures
            meta.compression_type != CompressionType::Huffman ==> res == Err::<
                Vec<u8>,
                ArchiveError,
            >(ArchiveError::UnsupportedCompression),
            meta.compression_type == CompressionType::Huffman ==> match meta.huffman_lengths {
                None => res == Err::<Vec<u8>, ArchiveError>(ArchiveError::MissingHuffmanLengths),
                Some(l) => match extracted(
                    l@,
                    compressed@,
                    meta.original_size,
                    meta.checksum,
                    meta.name,
                ) {
                    Ok(s) => res is Ok && res->Ok_0@ == s,
                    Err(e) => res == Err::<Vec<u8>, ArchiveError>(e),
                },
            },
    {
        match meta.compression_type {
            CompressionType::Huffman => {
                let lengths = match &meta.huffman_lengths {
                    Some(l) => l.clone(),
                    None => {
                        return Err(ArchiveError::MissingHuffmanLengths);
                    },
                };
                if meta.original_size == 0 {
                    let empty: Vec<u8> = Vec::new();
                    if crc32(empty.as_slice()) != meta.checksum {
                        return Err(ArchiveError::ChecksumMismatch(meta.name.clone()));
                    }
                    return Ok(empty);
                }
                let huffman = Huffman::from_code_lengths(lengths);
                let mut decompressed: Vec<u8> = Vec::new();
                match huffman.decode(compressed, &mut decompressed, meta.original_size) {
                    Ok(()) => {},
                    Err(e) => {
                        return Err(ArchiveError::Huffman(e));
                    },
                }
                assert(decompressed@ =~= Seq::<u8>::empty() + decompressed@);
                if crc32(decompressed.as_slice()) != meta.checksum {
                    return Err(ArchiveError::ChecksumMismatch(meta.name.clone()));
                }
                Ok(decompressed)
            },
            _ => Err(ArchiveError::UnsupportedCompression),
        }
    }
}

} // verus!
