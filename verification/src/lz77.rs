//! LZ77 with a sliding window and a fixed bit-stream format.
//!
//! The stream is a sequence of tokens, most significant bit first:
//! a literal is a `0` flag and the byte in 8 bits; a reference is a `1`
//! flag, the distance back in 12 bits and the length in 8 bits.
use crate::bit_io::{BitReader, BitWriter};
use crate::bits::{bits_value, bytes_bits, pad_len, value_bits, zero_bits, lemma_value_bits_round_trip};
use vstd::prelude::*;

verus! {

/// Sliding-window LZ77 coder.
pub struct LZ77 {
    window_size: usize,
    max_match_len: usize,
}

/// Why a stream could not be decoded.
#[derive(Debug, Clone, Copy, PartialEq, Eq)]
pub enum Lz77Error {
    /// The stream ended inside the distance of a reference.
    MissingOffset,
    /// The stream ended inside the length of a reference.
    MissingLength,
    /// The stream ended inside a literal byte.
    MissingLiteral,
    /// A reference reaches before the start of the output, or copies
    /// bytes from distance zero.
    InvalidReference,
}

/// How far `data[pos..]` repeats `data[cand..]`, counting on from `l`,
/// stopping at `max` bytes or at the end of the data.
pub open spec fn match_len_from(data: Seq<u8>, cand: int, pos: int, max: nat, l: nat) -> nat
    decreases max - l,
{
    if l < max && pos + l < data.len() && data[cand + l] == data[pos + l] {
        match_len_from(data, cand, pos, max, l + 1)
    } else {
        l
    }
}

/// How far `data[pos..]` repeats `data[cand..]`, at most `max` bytes.
pub open spec fn match_len(data: Seq<u8>, cand: int, pos: int, max: nat) -> nat {
    match_len_from(data, cand, pos, max, 0)
}

/// The longest match for `pos` among the candidates `lo..pos`, as (distance, length);
/// of equally long matches the nearest wins, and no match at all is `(0, 0)`.
pub open spec fn best_match_from(data: Seq<u8>, pos: int, lo: int, max: nat) -> (nat, nat)
    decreases pos - lo,
{
    if lo >= pos {
        (0, 0)
    } else {
        let rest = best_match_from(data, pos, lo + 1, max);
        let l = match_len(data, lo, pos, max);
        if l > rest.1 {
            ((pos - lo) as nat, l)
        } else {
            rest
        }
    }
}

/// Where the window of candidates for `pos` starts.
pub open spec fn window_start(pos: int, window: nat) -> int {
    if pos > window {
        pos - window
    } else {
        0
    }
}

/// The longest match for `pos` within the window, as (distance, length).
pub open spec fn best_match(data: Seq<u8>, pos: int, window: nat, max: nat) -> (nat, nat) {
    best_match_from(data, pos, window_start(pos, window), max)
}

/// The bits of a literal token.
pub open spec fn literal_bits(b: u8) -> Seq<bool> {
    seq![false] + value_bits(b as u64, 8)
}

/// The bits of a reference token.
pub open spec fn reference_bits(offset: nat, length: nat) -> Seq<bool> {
    seq![true] + value_bits(offset as u64, 12) + value_bits(length as u64, 8)
}

/// The token bits that encode `data[pos..]`: greedily, a reference wherever
/// the best match is at least three bytes long, else a literal.
pub open spec fn lz_encoded_bits(data: Seq<u8>, pos: int, window: nat, max: nat) -> Seq<bool>
    decreases data.len() - pos,
{
    if pos < 0 || pos >= data.len() {
        Seq::empty()
    } else {
        let (o, l) = best_match(data, pos, window, max);
        if l >= 3 {
            proof {
                lemma_best_match_from(data, pos, window_start(pos, window), max);
                lemma_match_len(data, pos - o, pos, max);
            }
            reference_bits(o, l) + lz_encoded_bits(data, pos + l, window, max)
        } else {
            literal_bits(data[pos]) + lz_encoded_bits(data, pos + 1, window, max)
        }
    }
}

/// Every reference that the greedy parse of `data[pos..]` emits reaches back
/// at most 4096 bytes, so that its distance is told by the 12-bit field.
pub open spec fn lz_distances_fit(data: Seq<u8>, pos: int, window: nat, max: nat) -> bool
    decreases data.len() - pos,
{
    if pos < 0 || pos >= data.len() {
        true
    } else {
        let (o, l) = best_match(data, pos, window, max);
        if l >= 3 {
            proof {
                lemma_best_match_from(data, pos, window_start(pos, window), max);
                lemma_match_len(data, pos - o, pos, max);
            }
            o <= 4096 && lz_distances_fit(data, pos + l, window, max)
        } else {
            lz_distances_fit(data, pos + 1, window, max)
        }
    }
}

/// Appends `n` bytes copied one at a time from `start` on (the copy may
/// read bytes it has itself appended).
pub open spec fn lz_copy(out: Seq<u8>, start: int, n: nat) -> Seq<u8>
    decreases n,
{
    if n == 0 {
        out
    } else {
        lz_copy(out.push(out[start]), start + 1, (n - 1) as nat)
    }
}

/// The distance that a 12-bit offset field stands for: the field holds the
/// distance modulo 4096, so a zero field is a distance of 4096, the full window.
pub open spec fn reference_distance(off: u64) -> int {
    if off == 0 {
        4096
    } else {
        off as int
    }
}

/// Decoding `bits` onto `out` until `target` bytes are there or the bits run out.
/// `None` is a reference whose offset field exceeds the output so far, or a
/// non-empty reference whose distance reaches before the start of the output.
pub open spec fn lz_decode_from(bits: Seq<bool>, out: Seq<u8>, target: nat) -> Option<
    Result<Seq<u8>, Lz77Error>,
>
    decreases bits.len(),
{
    if out.len() >= target || bits.len() == 0 {
        Some(Ok(out))
    } else if bits[0] {
        let rest = bits.drop_first();
        if rest.len() < 12 {
            Some(Err(Lz77Error::MissingOffset))
        } else {
            let off = bits_value(rest.take(12));
            let rest2 = rest.skip(12);
            if rest2.len() < 8 {
                Some(Err(Lz77Error::MissingLength))
            } else {
                let len = bits_value(rest2.take(8));
                let dist = reference_distance(off);
                if off > out.len() || (len > 0 && dist > out.len()) {
                    None
                } else {
                    lz_decode_from(rest2.skip(8), lz_copy(out, out.len() - dist, len as nat), target)
                }
            }
        }
    } else {
        let rest = bits.drop_first();
        if rest.len() < 8 {
            Some(Err(Lz77Error::MissingLiteral))
        } else {
            lz_decode_from(rest.skip(8), out.push(bits_value(rest.take(8)) as u8), target)
        }
    }
}

/// Decoding a whole stream from an empty output.
pub open spec fn lz_decode(bits: Seq<bool>, target: nat) -> Option<Result<Seq<u8>, Lz77Error>> {
    lz_decode_from(bits, Seq::empty(), target)
}

/// The byte `j` places after `cand` equals the one `j` places after `pos`.
pub open spec fn same_byte(data: Seq<u8>, cand: int, pos: int, j: int) -> bool {
    data[cand + j] == data[pos + j]
}

pub proof fn lemma_match_len_from(data: Seq<u8>, cand: int, pos: int, max: nat, l: nat)
    requires
        l <= max,
        0 <= cand < pos,
        pos + l <= data.len(),
        forall|j: int| 0 <= j < l ==> #[trigger] same_byte(data, cand, pos, j),
    ensures
        l <= match_len_from(data, cand, pos, max, l) <= max,
        pos + match_len_from(data, cand, pos, max, l) <= data.len(),
        forall|j: int|
            0 <= j < match_len_from(data, cand, pos, max, l) ==> #[trigger] same_byte(
                data,
                cand,
                pos,
                j,
            ),
    decreases max - l,
{
    if l < max && pos + l < data.len() && data[cand + l] == data[pos + l] {
        lemma_match_len_from(data, cand, pos, max, l + 1);
    }
}

pub proof fn lemma_match_len(data: Seq<u8>, cand: int, pos: int, max: nat)
    requires
        0 <= cand < pos <= data.len(),
    ensures
        match_len(data, cand, pos, max) <= max,
        pos + match_len(data, cand, pos, max) <= data.len(),
        forall|j: int|
            0 <= j < match_len(data, cand, pos, max) ==> #[trigger] same_byte(data, cand, pos, j),
{
    lemma_match_len_from(data, cand, pos, max, 0);
}

pub proof fn lemma_best_match_from(data: Seq<u8>, pos: int, lo: int, max: nat)
    requires
        0 <= lo <= pos <= data.len(),
    ensures
        best_match_from(data, pos, lo, max).1 <= max,
        best_match_from(data, pos, lo, max).1 == 0 ==> best_match_from(data, pos, lo, max).0 == 0,
        best_match_from(data, pos, lo, max).1 > 0 ==> {
            let (o, l) = best_match_from(data, pos, lo, max);
            &&& 1 <= o <= pos - lo
            &&& match_len(data, pos - o, pos, max) == l
        },
    decreases pos - lo,
{
    if lo < pos {
        lemma_best_match_from(data, pos, lo + 1, max);
        lemma_match_len(data, lo, pos, max);
    }
}

/// Once a candidate at `c` reaches the cap, candidates below `c` change nothing.
proof fn lemma_best_match_capped(data: Seq<u8>, pos: int, lo: int, c: int, max: nat)
    requires
        0 <= lo <= c <= pos <= data.len(),
        best_match_from(data, pos, c, max).1 == max,
    ensures
        best_match_from(data, pos, lo, max) == best_match_from(data, pos, c, max),
    decreases c - lo,
{
    if lo < c {
        lemma_best_match_capped(data, pos, lo + 1, c, max);
        lemma_match_len(data, lo, pos, max);
    }
}

/// The `k` bytes from `pos` on repeat the `k` bytes from `c` on.
pub open spec fn repeats(data: Seq<u8>, c: int, pos: int, k: int) -> bool {
    forall|j: int| 0 <= j < k ==> #[trigger] same_byte(data, c, pos, j)
}

/// A candidate's match runs as far as it can: the bytes from `pos` on repeat
/// those from `c` on for its whole length, and it stops only at the cap, at the
/// end of the data, or at a differing byte (so it may run on into the bytes
/// being matched themselves).
pub proof fn lemma_match_len_maximal(data: Seq<u8>, c: int, pos: int, max: nat)
    requires
        0 <= c < pos <= data.len(),
    ensures
        match_len(data, c, pos, max) <= max,
        pos + match_len(data, c, pos, max) <= data.len(),
        repeats(data, c, pos, match_len(data, c, pos, max) as int),
        match_len(data, c, pos, max) == max || pos + match_len(data, c, pos, max) == data.len()
            || data[c + match_len(data, c, pos, max)] != data[pos + match_len(data, c, pos, max)],
{
    lemma_match_len(data, c, pos, max);
    lemma_match_len_stops(data, c, pos, max, 0);
}

proof fn lemma_match_len_stops(data: Seq<u8>, c: int, pos: int, max: nat, l: nat)
    requires
        0 <= c < pos <= data.len(),
        l <= max,
        pos + l <= data.len(),
    ensures
        ({
            let m = match_len_from(data, c, pos, max, l);
            m == max || pos + m == data.len() || data[c + m] != data[pos + m]
        }),
    decreases max - l,
{
    if l < max && pos + l < data.len() && data[c + l] == data[pos + l] {
        lemma_match_len_stops(data, c, pos, max, l + 1);
    }
}

/// A candidate whose match is shorter than `k` does not repeat `k` bytes.
proof fn lemma_shorter_does_not_repeat(data: Seq<u8>, c: int, pos: int, max: nat, k: int)
    requires
        0 <= c < pos <= data.len(),
        match_len(data, c, pos, max) < k <= max,
        pos + k <= data.len(),
    ensures
        !repeats(data, c, pos, k),
{
    lemma_match_len_maximal(data, c, pos, max);
    let m = match_len(data, c, pos, max) as int;
    assert(!same_byte(data, c, pos, m));
}

proof fn lemma_best_match_from_order(data: Seq<u8>, pos: int, lo: int, max: nat)
    requires
        0 <= lo <= pos <= data.len(),
    ensures
        forall|c: int|
            lo <= c < pos ==> #[trigger] match_len(data, c, pos, max) <= best_match_from(
                data,
                pos,
                lo,
                max,
            ).1,
        forall|c: int|
            pos - best_match_from(data, pos, lo, max).0 < c < pos ==> #[trigger] match_len(
                data,
                c,
                pos,
                max,
            ) < best_match_from(data, pos, lo, max).1,
    decreases pos - lo,
{
    lemma_best_match_from(data, pos, lo, max);
    if lo < pos {
        lemma_best_match_from_order(data, pos, lo + 1, max);
        lemma_best_match_from(data, pos, lo + 1, max);
    }
}

/// The match chosen for `pos` is the longest that the window offers, and of
/// equally long ones the nearest: its bytes repeat, its distance is within
/// both the data before `pos` and the window, no candidate in the window
/// repeats more bytes (up to the cap and the end of the data), and no nearer
/// candidate repeats as many. No match at all is `(0, 0)`.
pub proof fn lemma_best_match_longest_nearest(data: Seq<u8>, pos: int, window: nat, max: nat)
    requires
        0 <= pos <= data.len(),
    ensures
        ({
            let (o, l) = best_match(data, pos, window, max);
            &&& l <= max
            &&& pos + l <= data.len()
            &&& l == 0 ==> o == 0
            &&& l > 0 ==> 1 <= o <= pos && o <= window
            &&& repeats(data, pos - o, pos, l as int)
            &&& forall|c: int, k: int|
                #![trigger repeats(data, c, pos, k)]
                0 <= c < pos && pos - c <= window && l < k <= max && pos + k <= data.len()
                    ==> !repeats(data, c, pos, k)
            &&& forall|c: int|
                pos - o < c < pos ==> !(#[trigger] repeats(data, c, pos, l as int))
        }),
{
    let lo = window_start(pos, window);
    let (o, l) = best_match(data, pos, window, max);
    lemma_best_match_from(data, pos, lo, max);
    lemma_best_match_from_order(data, pos, lo, max);
    if l > 0 {
        lemma_match_len_maximal(data, pos - o, pos, max);
    }
    assert forall|c: int, k: int|
        0 <= c < pos && pos - c <= window && l < k <= max && pos + k <= data.len() implies !(
        #[trigger] repeats(data, c, pos, k)) by {
        assert(match_len(data, c, pos, max) <= l);
        lemma_shorter_does_not_repeat(data, c, pos, max, k);
    }
    assert forall|c: int| pos - o < c < pos implies !(#[trigger] repeats(data, c, pos, l as int)) by {
        assert(match_len(data, c, pos, max) < l);
        lemma_shorter_does_not_repeat(data, c, pos, max, l as int);
    }
}

/// The token the encoding of `data[pos..]` starts with: where the window holds
/// a match of at least three bytes, a reference to the match that
/// `lemma_best_match_longest_nearest` describes, covering its length;
/// otherwise the literal byte. The rest encodes what follows.
pub proof fn lemma_encoded_token(data: Seq<u8>, pos: int, window: nat, max: nat)
    requires
        0 <= pos < data.len(),
    ensures
        ({
            let (o, l) = best_match(data, pos, window, max);
            &&& l >= 3 ==> lz_encoded_bits(data, pos, window, max) == reference_bits(o, l)
                + lz_encoded_bits(data, pos + l, window, max)
            &&& l < 3 ==> lz_encoded_bits(data, pos, window, max) == literal_bits(data[pos])
                + lz_encoded_bits(data, pos + 1, window, max)
        }),
{
}

proof fn lemma_lz_copy(data: Seq<u8>, p: int, o: int, n: nat)
    requires
        1 <= o <= p,
        p + n <= data.len(),
        forall|j: int| 0 <= j < n ==> #[trigger] same_byte(data, p - o, p, j),
    ensures
        lz_copy(data.take(p), p - o, n) == data.take(p + n),
    decreases n,
{
    if n == 0 {
    } else {
        assert(same_byte(data, p - o, p, 0));
        assert(data.take(p).push(data.take(p)[p - o]) =~= data.take(p + 1));
        assert forall|j: int| 0 <= j < n - 1 implies #[trigger] same_byte(data, (p + 1) - o, p + 1, j) by {
            assert(same_byte(data, p - o, p, j + 1));
        }
        lemma_lz_copy(data, p + 1, o, (n - 1) as nat);
        assert((p + 1) - o == p - o + 1);
    }
}

/// A distance of 4096 is written as a zero offset field.
proof fn lemma_full_window_field()
    ensures
        value_bits(4096u64, 12) == value_bits(0u64, 12),
{
    assert forall|k: int| 0 <= k < 12 implies #[trigger] value_bits(4096u64, 12)[k] == value_bits(
        0u64,
        12,
    )[k] by {
        let sh = (12 - 1 - k) as u64;
        assert(sh < 12 ==> (4096u64 >> sh) & 1u64 == 0u64) by (bit_vector);
        assert((0u64 >> sh) & 1u64 == 0u64) by (bit_vector);
    }
    assert(value_bits(4096u64, 12) =~= value_bits(0u64, 12));
}

/// Decoding the encoding of `data[pos..]`, after `data[..pos]` has been
/// decoded, gives back `data`, whatever bits follow the encoding.
proof fn lemma_lz_round_trip_from(
    data: Seq<u8>,
    pos: int,
    window: nat,
    max: nat,
    rest: Seq<bool>,
)
    requires
        0 <= pos <= data.len(),
        lz_distances_fit(data, pos, window, max),
        max < 256,
    ensures
        lz_decode_from(lz_encoded_bits(data, pos, window, max) + rest, data.take(pos), data.len())
            == Some(Ok::<Seq<u8>, Lz77Error>(data)),
    decreases data.len() - pos,
{
    let out = data.take(pos);
    if pos == data.len() {
        assert(out =~= data);
    } else {
        let (o, l) = best_match(data, pos, window, max);
        lemma_best_match_from(data, pos, window_start(pos, window), max);
        if l >= 3 {
            let tail = lz_encoded_bits(data, pos + l, window, max) + rest;
            let bits = lz_encoded_bits(data, pos, window, max) + rest;
            let vo = value_bits(o as u64, 12);
            let vl = value_bits(l as u64, 8);
            assert(bits =~= seq![true] + (vo + (vl + tail)));
            let r1 = bits.drop_first();
            assert(r1 =~= vo + (vl + tail));
            assert(r1.take(12) =~= vo);
            assert(r1.skip(12) =~= vl + tail);
            assert(r1.skip(12).take(8) =~= vl);
            assert(r1.skip(12).skip(8) =~= tail);
            assert((1u64 << 12u64) == 4096) by (bit_vector);
            assert((1u64 << 8u64) == 256) by (bit_vector);
            if o < 4096 {
                lemma_value_bits_round_trip(o as u64, 12);
            } else {
                lemma_full_window_field();
                lemma_value_bits_round_trip(0u64, 12);
            }
            assert(reference_distance(bits_value(vo)) == o);
            lemma_value_bits_round_trip(l as u64, 8);
            let c = pos - o;
            lemma_match_len(data, c, pos, max);
            lemma_lz_copy(data, pos, o as int, l);
            lemma_lz_round_trip_from(data, pos + l, window, max, rest);
        } else {
            let tail = lz_encoded_bits(data, pos + 1, window, max) + rest;
            let bits = lz_encoded_bits(data, pos, window, max) + rest;
            let vb = value_bits(data[pos] as u64, 8);
            assert(bits =~= seq![false] + (vb + tail));
            let r1 = bits.drop_first();
            assert(r1 =~= vb + tail);
            assert(r1.take(8) =~= vb);
            assert(r1.skip(8) =~= tail);
            assert((1u64 << 8u64) == 256) by (bit_vector);
            lemma_value_bits_round_trip(data[pos] as u64, 8);
            assert(out.push(data[pos]) =~= data.take(pos + 1));
            lemma_lz_round_trip_from(data, pos + 1, window, max, rest);
        }
    }
}

/// When the window is at most 4096, or the data is at most 4096 bytes long,
/// every reference reaches back at most 4096 bytes.
pub proof fn lemma_distances_fit(data: Seq<u8>, pos: int, window: nat, max: nat)
    requires
        0 <= pos,
        window <= 4096 || data.len() <= 4096,
    ensures
        lz_distances_fit(data, pos, window, max),
    decreases data.len() - pos,
{
    if pos < data.len() {
        let (o, l) = best_match(data, pos, window, max);
        lemma_best_match_from(data, pos, window_start(pos, window), max);
        if l >= 3 {
            lemma_match_len(data, pos - o, pos, max);
            lemma_distances_fit(data, pos + l, window, max);
        } else {
            lemma_distances_fit(data, pos + 1, window, max);
        }
    }
}

/// Decoding what `encode` produced, for as many bytes as were encoded, gives
/// the data back, whatever padding follows, whenever every reference the
/// parse emits reaches back at most 4096 bytes and the match cap fits the
/// 8-bit length field.
pub proof fn lemma_lz77_round_trip_when_distances_fit(
    data: Seq<u8>,
    window: nat,
    max: nat,
    padding: Seq<bool>,
)
    requires
        lz_distances_fit(data, 0, window, max),
        max < 256,
    ensures
        lz_decode(lz_encoded_bits(data, 0, window, max) + padding, data.len()) == Some(
            Ok::<Seq<u8>, Lz77Error>(data),
        ),
{
    assert(data.take(0) =~= Seq::<u8>::empty());
    lemma_lz_round_trip_from(data, 0, window, max, padding);
}

/// Decoding what `encode` produced gives the data back, for every window up
/// to 4096 (as with `LZ77::new(4096, 255)`) and every match cap below 256.
pub proof fn lemma_lz77_round_trip(data: Seq<u8>, window: nat, max: nat, padding: Seq<bool>)
    requires
        max < 256,
        window <= 4096,
    ensures
        lz_decode(lz_encoded_bits(data, 0, window, max) + padding, data.len()) == Some(
            Ok::<Seq<u8>, Lz77Error>(data),
        ),
{
    lemma_distances_fit(data, 0, window, max);
    lemma_lz77_round_trip_when_distances_fit(data, window, max, padding);
}

impl LZ77 {
    /// The number of bytes back that a match may start.
    pub closed spec fn spec_window_size(&self) -> nat {
        self.window_size as nat
    }

    /// The longest match that is looked for.
    pub closed spec fn spec_max_match_len(&self) -> nat {
        self.max_match_len as nat
    }

    pub fn new(window_size: usize, max_match_len: usize) -> (lz: Self)
        ensures
            lz.spec_window_size() == window_size,
            lz.spec_max_match_len() == max_match_len,
    {
        Self { window_size, max_match_len }
    }

    /// Encodes `data` as a stream of literal and reference tokens, padded with
    /// zero bits to a whole byte.
    pub fn encode(&self, data: &[u8]) -> (out: Vec<u8>)
        ensures
            bytes_bits(out@) == lz_encoded_bits(
                data@,
                0,
                self.spec_window_size(),
                self.spec_max_match_len(),
            ) + zero_bits(
                pad_len(
                    lz_encoded_bits(
                        data@,
                        0,
                        self.spec_window_size(),
                        self.spec_max_match_len(),
                    ).len(),
                ),
            ),
    {
        let ghost w = self.spec_window_size();
        let ghost m = self.spec_max_match_len();
        let ghost all = lz_encoded_bits(data@, 0, w, m);
        let mut writer = BitWriter::new(Vec::new());
        let mut pos: usize = 0;
        assert(writer.written() =~= Seq::<bool>::empty()) by {
            assert(bytes_bits(Seq::<u8>::empty()) =~= Seq::<bool>::empty());
        }
        assert(writer.written() + lz_encoded_bits(data@, 0, w, m) =~= all);
        while pos < data.len()
            invariant
                writer.wf(),
                pos <= data.len(),
                w == self.spec_window_size(),
                m == self.spec_max_match_len(),
                all == lz_encoded_bits(data@, 0, w, m),
                writer.written() + lz_encoded_bits(data@, pos as int, w, m) == all,
            decreases data.len() - pos,
        {
            let (offset, length) = self.find_best_match(data, pos);
            proof {
                lemma_best_match_from(data@, pos as int, window_start(pos as int, w), m);
                if length > 0 {
                    lemma_match_len(data@, pos - offset, pos as int, m);
                }
            }
            let ghost before = writer.written();
            if length >= 3 {
                writer.write_bit(true);
                writer.write_bits(offset as u64, 12);
                writer.write_bits(length as u64, 8);
                proof {
                    assert(writer.written() =~= before + reference_bits(offset as nat, length as nat));
                    assert(lz_encoded_bits(data@, pos as int, w, m) == reference_bits(
                        offset as nat,
                        length as nat,
                    ) + lz_encoded_bits(data@, pos + length, w, m));
                    assert(writer.written() + lz_encoded_bits(data@, pos + length, w, m) =~= all);
                }
                pos = pos + length;
            } else {
                writer.write_bit(false);
                writer.write_bits(data[pos] as u64, 8);
                proof {
                    assert(writer.written() =~= before + literal_bits(data@[pos as int]));
                    assert(writer.written() + lz_encoded_bits(data@, pos + 1, w, m) =~= all);
                }
                pos = pos + 1;
            }
        }
        assert(lz_encoded_bits(data@, pos as int, w, m) =~= Seq::<bool>::empty());
        assert(writer.written() =~= all);
        writer.flush_bits();
        writer.into_inner()
    }

    /// The longest match for `data[pos..]` within the window, as (distance, length).
    fn find_best_match(&self, data: &[u8], pos: usize) -> (res: (usize, usize))
        requires
            pos <= data.len(),
        ensures
            res.0 == best_match(data@, pos as int, self.spec_window_size(), self.spec_max_match_len()).0,
            res.1 == best_match(data@, pos as int, self.spec_window_size(), self.spec_max_match_len()).1,
    {
        let ghost m = self.spec_max_match_len();
        let mut best_offset: usize = 0;
        let mut best_len: usize = 0;
        let start = if pos > self.window_size {
            pos - self.window_size
        } else {
            0
        };
        let mut offset: usize = pos;
        let mut done = false;
        while offset > start && !done
            invariant
                start <= offset <= pos <= data.len(),
                start == window_start(pos as int, self.spec_window_size()),
                m == self.max_match_len,
                best_offset == best_match_from(data@, pos as int, offset as int, m).0,
                best_len == best_match_from(data@, pos as int, offset as int, m).1,
                done ==> best_len == m,
            decreases offset - start + (if done { 0int } else { 1int }),
        {
            offset = offset - 1;
            let mut len: usize = 0;
            while len < self.max_match_len && pos + len < data.len() && data[offset + len] == data[pos
                + len]
                invariant
                    offset < pos,
                    pos + len <= data.len(),
                    len <= m,
                    m == self.max_match_len,
                    match_len_from(data@, offset as int, pos as int, m, len as nat) == match_len(
                        data@,
                        offset as int,
                        pos as int,
                        m,
                    ),
                decreases m - len,
            {
                len = len + 1;
            }
            if len > best_len {
                best_len = len;
                best_offset = pos - offset;
                if len == self.max_match_len {
                    done = true;
                }
            }
        }
        proof {
            if done {
                lemma_best_match_capped(data@, pos as int, start as int, offset as int, m);
            }
        }
        (best_offset, best_len)
    }

    /// Decodes a token stream until `original_size` bytes are out or the bits run out.
    pub fn decode(&self, input: &[u8], original_size: u64) -> (res: Result<Vec<u8>, Lz77Error>)
        requires
            lz_decode(bytes_bits(input@), original_size as nat) is Some,
        ensures
            match lz_decode(bytes_bits(input@), original_size as nat) {
                Some(Ok(s)) => res is Ok && res->Ok_0@ == s,
                Some(Err(e)) => res == Err::<Vec<u8>, Lz77Error>(e),
                None => false,
            },
    {
        self.try_decode(input, original_size)
    }

    /// Decodes like `decode`, for any input: a reference that reaches before
    /// the start of the output is reported as `InvalidReference` instead.
    pub fn try_decode(&self, input: &[u8], original_size: u64) -> (res: Result<Vec<u8>, Lz77Error>)
        ensures
            match lz_decode(bytes_bits(input@), original_size as nat) {
                Some(Ok(s)) => res is Ok && res->Ok_0@ == s,
                Some(Err(e)) => res == Err::<Vec<u8>, Lz77Error>(e),
                None => res == Err::<Vec<u8>, Lz77Error>(Lz77Error::InvalidReference),
            },
    {
        let ghost target = original_size as nat;
        let ghost outcome = lz_decode(bytes_bits(input@), target);
        let mut reader = BitReader::new(vstd::slice::slice_to_vec(input));
        let mut out: Vec<u8> = Vec::new();
        let mut done = false;
        while !done && (out.len() as u64) < original_size
            invariant
                reader.wf(),
                target == original_size as nat,
                outcome == lz_decode(bytes_bits(input@), original_size as nat),
                done ==> reader.remaining().len() == 0,
                lz_decode_from(reader.remaining(), out@, target) == outcome,
            decreases reader.remaining().len() + (if done { 0int } else { 1int }),
        {
            let ghost bits = reader.remaining();
            match reader.read_bit() {
                Some(true) => {
                    let ghost rest = reader.remaining();
                    let offset = match reader.read_bits(12) {
                        Some(v) => v,
                        None => {
                            return Err(Lz77Error::MissingOffset);
                        },
                    };
                    let length = match reader.read_bits(8) {
                        Some(v) => v,
                        None => {
                            return Err(Lz77Error::MissingLength);
                        },
                    };
                    proof {
                        assert(rest.skip(12).skip(8) =~= reader.remaining());
                        crate::bits::lemma_bits_value_bound(rest.take(12));
                        crate::bits::lemma_bits_value_bound(rest.skip(12).take(8));
                        assert(offset & (((1u64 << 12u64) - 1) as u64) == offset ==> offset < 4096) by (bit_vector);
                        assert(length & (((1u64 << 8u64) - 1) as u64) == length ==> length < 256) by (bit_vector);
                    }
                    let offset = offset as usize;
                    let length = length as usize;
                    let distance: usize = if offset == 0 {
                        4096
                    } else {
                        offset
                    };
                    if offset > out.len() || (length > 0 && distance > out.len()) {
                        return Err(Lz77Error::InvalidReference);
                    }
                    let start = if length > 0 {
                        out.len() - distance
                    } else {
                        0
                    };
                    let ghost out0 = out@;
                    let mut i: usize = 0;
                    while i < length
                        invariant
                            i <= length,
                            length > 0 ==> start == out0.len() - distance,
                            length > 0 ==> 1 <= distance <= out0.len(),
                            out.len() == out0.len() + i,
                            lz_copy(out@, start + i, (length - i) as nat) == lz_copy(
                                out0,
                                start as int,
                                length as nat,
                            ),
                        decreases length - i,
                    {
                        let b = out[start + i];
                        out.push(b);
                        i = i + 1;
                    }
                },
                Some(false) => {
                    let ghost rest = reader.remaining();
                    let byte = match reader.read_bits(8) {
                        Some(v) => v,
                        None => {
                            return Err(Lz77Error::MissingLiteral);
                        },
                    };
                    proof {
                        assert(rest.skip(8) =~= reader.remaining());
                        crate::bits::lemma_bits_value_bound(rest.take(8));
                        assert(byte & (((1u64 << 8u64) - 1) as u64) == byte ==> byte < 256) by (bit_vector);
                    }
                    out.push(byte as u8);
                },
                None => {
                    done = true;
                },
            }
        }
        Ok(out)
    }
}

} // verus!
