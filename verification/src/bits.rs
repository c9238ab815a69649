//! Bit sequences: how bytes and integers are laid out as streams of bits.
//!
//! Every stream in this crate is most-significant-bit first: a byte
//! contributes its bit 7 first and its bit 0 last, and an `n`-bit field
//! contributes its highest bit first.
use vstd::prelude::*;

verus! {

/// Bit `i` of the byte `b`, counting from the most significant bit (`i == 0`).
pub open spec fn bit_at(b: u8, i: int) -> bool {
    ((b >> ((7 - i) as u8)) & 1u8) == 1u8
}

/// The eight bits of a byte, most significant first.
pub open spec fn byte_bits(b: u8) -> Seq<bool> {
    Seq::new(8, |i: int| bit_at(b, i))
}

/// The bits of a byte sequence: the bits of each byte in turn.
pub open spec fn bytes_bits(s: Seq<u8>) -> Seq<bool>
    decreases s.len(),
{
    if s.len() == 0 {
        Seq::empty()
    } else {
        bytes_bits(s.drop_last()) + byte_bits(s.last())
    }
}

/// `n` zero bits.
pub open spec fn zero_bits(n: nat) -> Seq<bool> {
    Seq::new(n, |i: int| false)
}

/// How many zero bits complete `n` bits to a whole number of bytes.
pub open spec fn pad_len(n: nat) -> nat {
    ((8 - (n % 8)) % 8) as nat
}

/// The low `n` bits of `v`, most significant first.
pub open spec fn value_bits(v: u64, n: nat) -> Seq<bool> {
    Seq::new(n, |k: int| ((v >> ((n - 1 - k) as u64)) & 1u64) == 1u64)
}

/// The number whose binary digits, most significant first, are `bits`,
/// kept to 64 bits as a `u64` shift register keeps it.
pub open spec fn bits_value(bits: Seq<bool>) -> u64
    decreases bits.len(),
{
    if bits.len() == 0 {
        0
    } else {
        (bits_value(bits.drop_last()) << 1u64) | (if bits.last() {
            1u64
        } else {
            0u64
        })
    }
}

/// The mask of the low `n` bits of a `u64`.
pub open spec fn low_mask(n: nat) -> u64 {
    if n >= 64 {
        0xffff_ffff_ffff_ffffu64
    } else {
        ((1u64 << (n as u64)) - 1) as u64
    }
}

pub proof fn lemma_bytes_bits_len(s: Seq<u8>)
    ensures
        bytes_bits(s).len() == 8 * s.len(),
    decreases s.len(),
{
    if s.len() > 0 {
        lemma_bytes_bits_len(s.drop_last());
    }
}

pub proof fn lemma_bytes_bits_push(s: Seq<u8>, b: u8)
    ensures
        bytes_bits(s.push(b)) == bytes_bits(s) + byte_bits(b),
{
    assert(s.push(b).drop_last() =~= s);
}

pub proof fn lemma_bytes_bits_append(a: Seq<u8>, b: Seq<u8>)
    ensures
        bytes_bits(a + b) == bytes_bits(a) + bytes_bits(b),
    decreases b.len(),
{
    if b.len() == 0 {
        assert(a + b =~= a);
        assert(bytes_bits(a) + bytes_bits(b) =~= bytes_bits(a));
    } else {
        lemma_bytes_bits_append(a, b.drop_last());
        assert((a + b).drop_last() =~= a + b.drop_last());
        assert((a + b).last() == b.last());
        assert(bytes_bits(a + b) =~= bytes_bits(a) + bytes_bits(b));
    }
}

pub proof fn lemma_bytes_bits_first(s: Seq<u8>)
    requires
        s.len() > 0,
    ensures
        bytes_bits(s) == byte_bits(s[0]) + bytes_bits(s.drop_first()),
{
    lemma_bytes_bits_append(seq![s[0]], s.drop_first());
    assert(seq![s[0]] + s.drop_first() =~= s);
    let one = seq![s[0]];
    assert(one.drop_last() =~= Seq::<u8>::empty());
    assert(one.last() == s[0]);
    assert(bytes_bits(one.drop_last()) =~= Seq::<bool>::empty());
    assert(bytes_bits(one) =~= byte_bits(s[0]));
}

/// Bit `k` of the stream of a byte sequence is bit `k % 8` (from the top) of
/// byte `k / 8`: so the `k`-th bit a reader hands out is that one.
pub proof fn lemma_bytes_bits_index(s: Seq<u8>, k: int)
    requires
        0 <= k < 8 * s.len(),
    ensures
        bytes_bits(s)[k] == bit_at(s[k / 8], k % 8),
        bytes_bits(s)[k] == (((s[k / 8] >> ((7 - k % 8) as u8)) & 1u8) == 1u8),
    decreases s.len(),
{
    let p = s.drop_last();
    lemma_bytes_bits_len(p);
    let n = p.len() as int;
    if k < 8 * n {
        lemma_bytes_bits_index(p, k);
        assert(k / 8 < n) by (nonlinear_arith)
            requires
                0 <= k < 8 * n,
        ;
        assert(p[k / 8] == s[k / 8]);
    } else {
        assert(k / 8 == n && k % 8 == k - 8 * n) by (nonlinear_arith)
            requires
                8 * n <= k < 8 * n + 8,
        ;
    }
}

/// A byte is determined by its eight bits.
pub proof fn lemma_byte_bits_injective(a: u8, b: u8)
    requires
        forall|i: int| 0 <= i < 8 ==> bit_at(a, i) == bit_at(b, i),
    ensures
        a == b,
{
    assert(bit_at(a, 0) == bit_at(b, 0));
    assert(bit_at(a, 1) == bit_at(b, 1));
    assert(bit_at(a, 2) == bit_at(b, 2));
    assert(bit_at(a, 3) == bit_at(b, 3));
    assert(bit_at(a, 4) == bit_at(b, 4));
    assert(bit_at(a, 5) == bit_at(b, 5));
    assert(bit_at(a, 6) == bit_at(b, 6));
    assert(bit_at(a, 7) == bit_at(b, 7));
    assert(a == b) by (bit_vector)
        requires
            (((a >> 7u8) & 1u8) == 1u8) == (((b >> 7u8) & 1u8) == 1u8),
            (((a >> 6u8) & 1u8) == 1u8) == (((b >> 6u8) & 1u8) == 1u8),
            (((a >> 5u8) & 1u8) == 1u8) == (((b >> 5u8) & 1u8) == 1u8),
            (((a >> 4u8) & 1u8) == 1u8) == (((b >> 4u8) & 1u8) == 1u8),
            (((a >> 3u8) & 1u8) == 1u8) == (((b >> 3u8) & 1u8) == 1u8),
            (((a >> 2u8) & 1u8) == 1u8) == (((b >> 2u8) & 1u8) == 1u8),
            (((a >> 1u8) & 1u8) == 1u8) == (((b >> 1u8) & 1u8) == 1u8),
            (((a >> 0u8) & 1u8) == 1u8) == (((b >> 0u8) & 1u8) == 1u8),
    ;
}

/// Byte `i` of a byte sequence carries bits `8 * i .. 8 * i + 8` of its stream.
pub proof fn lemma_bytes_bits_byte(s: Seq<u8>, i: int)
    requires
        0 <= i < s.len(),
    ensures
        byte_bits(s[i]) == bytes_bits(s).subrange(8 * i, 8 * i + 8),
{
    lemma_bytes_bits_len(s);
    assert forall|j: int| 0 <= j < 8 implies #[trigger] byte_bits(s[i])[j] == bytes_bits(s)[8 * i
        + j] by {
        lemma_bytes_bits_index(s, 8 * i + j);
        assert((8 * i + j) / 8 == i && (8 * i + j) % 8 == j) by (nonlinear_arith)
            requires
                0 <= j < 8,
        ;
    }
    assert(byte_bits(s[i]) =~= bytes_bits(s).subrange(8 * i, 8 * i + 8));
}

/// A byte sequence is determined by its stream of bits.
pub proof fn lemma_bytes_bits_injective(s: Seq<u8>, t: Seq<u8>)
    requires
        bytes_bits(s) == bytes_bits(t),
    ensures
        s == t,
{
    lemma_bytes_bits_len(s);
    lemma_bytes_bits_len(t);
    assert forall|i: int| 0 <= i < s.len() implies s[i] == t[i] by {
        lemma_bytes_bits_byte(s, i);
        lemma_bytes_bits_byte(t, i);
        assert forall|j: int| 0 <= j < 8 implies bit_at(s[i], j) == bit_at(t[i], j) by {
            assert(byte_bits(s[i])[j] == byte_bits(t[i])[j]);
        }
        lemma_byte_bits_injective(s[i], t[i]);
    }
    assert(s =~= t);
}

/// Setting bit `c` of a byte changes bit `c` to one and leaves the others.
pub proof fn lemma_set_bit(b: u8, c: u8, j: int)
    requires
        c < 8,
        0 <= j < 8,
    ensures
        bit_at(b | (1u8 << (7 - c) as u8), j) == (j == c || bit_at(b, j)),
{
    let jj = j as u8;
    assert(((7 - j) as u8) == 7 - jj);
    assert(((((b | (1u8 << (7 - c) as u8)) >> (7 - jj) as u8) & 1u8) == 1u8) == (jj == c || (((b
        >> (7 - jj) as u8) & 1u8) == 1u8))) by (bit_vector)
        requires
            c < 8,
            jj < 8,
    ;
}

/// All eight bits of zero are zero.
pub proof fn lemma_zero_byte(j: int)
    requires
        0 <= j < 8,
    ensures
        !bit_at(0u8, j),
{
    let jj = j as u8;
    assert(((7 - j) as u8) == 7 - jj);
    assert((((0u8 >> (7 - jj) as u8) & 1u8) == 1u8) == false) by (bit_vector)
        requires
            jj < 8,
    ;
}

/// The low `n + 1` bits of `v` are the low `n` bits of `v >> 1` followed by bit 0 of `v`.
pub proof fn lemma_value_bits_succ(v: u64, n: nat)
    requires
        n < 64,
    ensures
        value_bits(v, n + 1) == value_bits(v >> 1u64, n).push((v & 1u64) == 1u64),
{
    let a = value_bits(v, n + 1);
    let b = value_bits(v >> 1u64, n).push((v & 1u64) == 1u64);
    assert forall|k: int| 0 <= k < n + 1 implies a[k] == b[k] by {
        if k < n {
            let s = (n - 1 - k) as u64;
            assert(((n + 1 - 1 - k) as u64) == s + 1);
            assert(((v >> (s + 1)) & 1u64) == (((v >> 1u64) >> s) & 1u64)) by (bit_vector)
                requires
                    s < 63,
            ;
        } else {
            assert(((n + 1 - 1 - k) as u64) == 0);
            assert((v >> 0u64) == v) by (bit_vector);
        }
    }
    assert(a =~= b);
}

/// Reading back `n` bits written from `v` gives the low `n` bits of `v`.
pub proof fn lemma_value_bits_read_back(v: u64, n: nat)
    requires
        n <= 64,
    ensures
        bits_value(value_bits(v, n)) == v & low_mask(n),
    decreases n,
{
    if n == 0 {
        assert(value_bits(v, 0) =~= Seq::<bool>::empty());
        assert(v & 0u64 == 0u64) by (bit_vector);
        assert(((1u64 << 0u64) - 1) as u64 == 0u64) by (bit_vector);
    } else {
        let m = (n - 1) as nat;
        lemma_value_bits_succ(v, m);
        lemma_value_bits_read_back(v >> 1u64, m);
        let s = value_bits(v, n);
        assert(s.drop_last() =~= value_bits(v >> 1u64, m));
        let mm = m as u64;
        if n == 64 {
            assert(((((v >> 1u64) & (((1u64 << 63u64) - 1) as u64)) << 1u64) | (if (v & 1u64)
                == 1u64 {
                1u64
            } else {
                0u64
            })) == v & 0xffff_ffff_ffff_ffffu64) by (bit_vector);
        } else {
            assert(((((v >> 1u64) & (((1u64 << mm) - 1) as u64)) << 1u64) | (if (v & 1u64)
                == 1u64 {
                1u64
            } else {
                0u64
            })) == v & (((1u64 << (mm + 1)) - 1) as u64)) by (bit_vector)
                requires
                    mm < 63,
            ;
        }
    }
}

/// A value that fits in `n` bits reads back unchanged.
pub proof fn lemma_value_bits_round_trip(v: u64, n: nat)
    requires
        n <= 64,
        n < 64 ==> v < (1u64 << (n as u64)),
    ensures
        bits_value(value_bits(v, n)) == v,
{
    lemma_value_bits_read_back(v, n);
    if n < 64 {
        let nn = n as u64;
        assert(v < (1u64 << nn) ==> v & (((1u64 << nn) - 1) as u64) == v) by (bit_vector)
            requires
                nn < 64,
        ;
    } else {
        assert(v & 0xffff_ffff_ffff_ffffu64 == v) by (bit_vector);
    }
}

/// The value of at most 64 bits fits in that many bits.
pub proof fn lemma_bits_value_bound(bits: Seq<bool>)
    requires
        bits.len() <= 64,
    ensures
        bits_value(bits) & low_mask(bits.len()) == bits_value(bits),
    decreases bits.len(),
{
    if bits.len() == 0 {
        assert(((1u64 << 0u64) - 1) as u64 == 0u64) by (bit_vector);
        assert(0u64 & 0u64 == 0u64) by (bit_vector);
    } else {
        let p = bits.drop_last();
        lemma_bits_value_bound(p);
        let x = bits_value(p);
        let b = if bits.last() {
            1u64
        } else {
            0u64
        };
        let nn = p.len() as u64;
        if bits.len() == 64 {
            assert(((x << 1u64) | b) & 0xffff_ffff_ffff_ffffu64 == ((x << 1u64) | b)) by (bit_vector);
        } else {
            assert(x & (((1u64 << nn) - 1) as u64) == x && b <= 1 ==> ((x << 1u64) | b) & (((1u64
                << (nn + 1)) - 1) as u64) == ((x << 1u64) | b)) by (bit_vector)
                requires
                    nn < 63,
            ;
        }
    }
}

/// Writing the value of at most 64 bits back out, in as many bits, gives the same bits.
pub proof fn lemma_bits_value_round_trip(bits: Seq<bool>)
    requires
        bits.len() <= 64,
    ensures
        value_bits(bits_value(bits), bits.len()) == bits,
    decreases bits.len(),
{
    if bits.len() == 0 {
        assert(value_bits(0, 0) =~= bits);
    } else {
        let p = bits.drop_last();
        let n = p.len();
        lemma_bits_value_round_trip(p);
        lemma_bits_value_bound(p);
        let x = bits_value(p);
        let b = if bits.last() {
            1u64
        } else {
            0u64
        };
        let y = (x << 1u64) | b;
        assert(y == bits_value(bits));
        lemma_value_bits_succ(y, n);
        let nn = n as u64;
        assert(x & (((1u64 << nn) - 1) as u64) == x && b <= 1 ==> (y >> 1u64) == x && ((y & 1u64)
            == 1u64) == (b == 1u64)) by (bit_vector)
            requires
                nn < 64,
                y == (x << 1u64) | b,
        ;
        if n == 63 {
            assert((1u64 << 63u64) - 1 == 0x7fff_ffff_ffff_ffffu64) by (bit_vector);
        }
        assert(bits =~= p.push(bits.last()));
    }
}

} // verus!
