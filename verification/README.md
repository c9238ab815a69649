# crunch

A small file compressor and archiver (canonical Huffman coding, LZ77, a
framed archive header with CRC-32 checksums), written in Verus.

Layout:

- `src/bits.rs` – how bytes and integers are laid out as bit streams.
- `src/bit_io.rs` – `BitWriter` / `BitReader` over byte buffers.
- `src/lz77.rs` – sliding-window LZ77: greedy encoder, decoder, round-trip law.
- `src/huffman_tree.rs` – code trees: walks, paths, codes, decoding, round-trip law.
- `src/huffman.rs` – `Huffman`: building from frequencies (greedy merging),
  canonical codes from code lengths, encoding and decoding.
- `src/canonical.rs` – Kraft's inequality and why canonical codes decode.
- `src/archive.rs` – archive metadata, header framing, per-file compression
  and extraction, with the entry round-trip law.
- `src/stats.rs` – byte frequencies and histogram rows.
- `app/` – the command-line program, file I/O, serialization of the header
  with serde/bincode, and the zip benchmark.
