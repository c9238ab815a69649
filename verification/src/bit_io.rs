//! Bit-level writing and reading over byte buffers.
use crate::bits::{bit_at, byte_bits, bytes_bits, zero_bits, pad_len, value_bits, bits_value, lemma_zero_byte, lemma_set_bit, lemma_bytes_bits_push, lemma_bytes_bits_len, lemma_bytes_bits_first, lemma_bytes_bits_append, lemma_bytes_bits_byte, lemma_bytes_bits_injective, lemma_bytes_bits_index};
use vstd::prelude::*;

verus! {

/// Writes individual bits, most significant bit of each byte first, into a byte buffer.
pub struct BitWriter {
    inner: Vec<u8>,
    buffer: u8,
    bits_count: u8,
}

impl BitWriter {
    /// The whole bytes written so far (including those the buffer started with).
    pub closed spec fn bytes(&self) -> Seq<u8> {
        self.inner@
    }

    /// The bits written since the last whole byte.
    pub closed spec fn pending(&self) -> Seq<bool> {
        byte_bits(self.buffer).take(self.bits_count as int)
    }

    /// Every bit held: those of the whole bytes, then the pending ones.
    pub open spec fn written(&self) -> Seq<bool> {
        bytes_bits(self.bytes()) + self.pending()
    }

    /// Fewer than eight bits are pending, and the unused bits of the buffer are zero.
    pub closed spec fn wf(&self) -> bool {
        &&& self.bits_count < 8
        &&& forall|j: int| self.bits_count <= j < 8 ==> !bit_at(self.buffer, j)
    }

    /// The bits held determine the whole bytes and the pending bits: the
    /// whole bytes carry the first `8 * n` bits, the fewer than eight others pend.
    pub proof fn lemma_split(&self)
        requires
            self.pending().len() < 8,
        ensures
            self.pending().len() == self.written().len() % 8,
            8 * self.bytes().len() == self.written().len() - self.pending().len(),
            bytes_bits(self.bytes()) == self.written().take(8 * self.bytes().len() as int),
            self.pending() == self.written().skip(8 * self.bytes().len() as int),
    {
        lemma_bytes_bits_len(self.bytes());
        let n = self.bytes().len();
        let p = self.pending().len();
        assert((8 * n + p) % 8 == p) by (nonlinear_arith)
            requires
                p < 8,
        ;
        assert(bytes_bits(self.bytes()) =~= self.written().take(8 * n as int));
        assert(self.pending() =~= self.written().skip(8 * n as int));
    }

    /// A writer in a valid state has fewer than eight bits pending.
    pub proof fn lemma_pending_bound(&self)
        requires
            self.wf(),
        ensures
            self.pending().len() < 8,
    {
    }

    /// After the bits `bits` have been written onto a buffer that started as
    /// `init` (by `new` and any number of `write_bit` and `write_bits` calls),
    /// the buffer holds `init`, then one byte for each complete group of eight
    /// bits, whose bits are that group in order; the last `bits.len() % 8`
    /// bits pend.
    pub proof fn lemma_after_writes(&self, init: Seq<u8>, bits: Seq<bool>)
        requires
            self.wf(),
            self.written() == bytes_bits(init) + bits,
        ensures
            self.bytes().len() == init.len() + bits.len() / 8,
            self.bytes().take(init.len() as int) == init,
            forall|j: int|
                0 <= j < bits.len() / 8 ==> byte_bits(#[trigger] self.bytes()[init.len() + j])
                    == bits.subrange(8 * j, 8 * j + 8),
            self.pending().len() == bits.len() % 8,
            self.pending() == bits.skip(8 * (bits.len() / 8) as int),
    {
        self.lemma_split();
        lemma_bytes_bits_len(init);
        lemma_bytes_bits_len(self.bytes());
        let i = init.len() as int;
        let n = bits.len() as int;
        let b = self.bytes();
        let m = b.len() as int;
        let p = self.pending().len() as int;
        assert(self.written().len() == 8 * i + n);
        assert(p == n % 8 && m == i + n / 8) by (nonlinear_arith)
            requires
                p == (8 * i + n) % 8,
                8 * m == 8 * i + n - p,
                0 <= p < 8,
                i >= 0,
                n >= 0,
        ;
        let w = self.written();
        assert(i <= m);
        // the first bytes are `init`
        lemma_bytes_bits_append(b.take(i), b.skip(i));
        assert(b.take(i) + b.skip(i) =~= b);
        lemma_bytes_bits_len(b.take(i));
        assert(bytes_bits(b.take(i)) =~= bytes_bits(init)) by {
            assert forall|k: int| 0 <= k < 8 * i implies bytes_bits(b.take(i))[k] == bytes_bits(
                init,
            )[k] by {
                assert(bytes_bits(b.take(i))[k] == bytes_bits(b)[k]);
                assert(bytes_bits(b)[k] == w.take(8 * m)[k]);
                assert(w[k] == bytes_bits(init)[k]);
            }
        }
        lemma_bytes_bits_injective(b.take(i), init);
        // each further byte is a group of eight bits
        assert forall|j: int| 0 <= j < n / 8 implies byte_bits(#[trigger] b[i + j])
            == bits.subrange(8 * j, 8 * j + 8) by {
            lemma_bytes_bits_byte(b, i + j);
            assert(8 * (i + j) + 8 <= 8 * m) by (nonlinear_arith)
                requires
                    0 <= j < n / 8,
                    m == i + n / 8,
            ;
            assert forall|t: int| 0 <= t < 8 implies #[trigger] bytes_bits(b).subrange(
                8 * (i + j),
                8 * (i + j) + 8,
            )[t] == bits.subrange(8 * j, 8 * j + 8)[t] by {
                assert(bytes_bits(b)[8 * (i + j) + t] == w.take(8 * m)[8 * (i + j) + t]);
                assert(w[8 * (i + j) + t] == bits[8 * j + t]);
            }
            assert(bytes_bits(b).subrange(8 * (i + j), 8 * (i + j) + 8) =~= bits.subrange(
                8 * j,
                8 * j + 8,
            ));
        }
        // and the rest pend
        assert(self.pending() =~= bits.skip(8 * (n / 8)));
    }

    pub fn new(inner: Vec<u8>) -> (w: Self)
        ensures
            w.wf(),
            w.bytes() == inner@,
            w.pending() == Seq::<bool>::empty(),
            w.written() == bytes_bits(inner@),
    {
        let w = BitWriter { inner, buffer: 0, bits_count: 0 };
        assert forall|j: int| 0 <= j < 8 implies !bit_at(w.buffer, j) by {
            lemma_zero_byte(j);
        }
        assert(w.pending() =~= Seq::<bool>::empty());
        w
    }

    /// Writes a single bit.
    pub fn write_bit(&mut self, bit: bool)
        requires
            old(self).wf(),
        ensures
            final(self).wf(),
            final(self).written() == old(self).written().push(bit),
            final(self).pending().len() < 8,
            // a byte reaches the buffer exactly when its eighth bit arrives
            old(self).pending().len() < 7 ==> final(self).bytes() == old(self).bytes()
                && final(self).pending() == old(self).pending().push(bit),
            old(self).pending().len() == 7 ==> final(self).pending() == Seq::<bool>::empty()
                && final(self).bytes().len() == old(self).bytes().len() + 1
                && final(self).bytes().drop_last() == old(self).bytes()
                && byte_bits(final(self).bytes().last()) == old(self).pending().push(bit),
    {
        let ghost old_buf = self.buffer;
        let c = self.bits_count;
        if bit {
            self.buffer = self.buffer | (1u8 << (7 - c));
        }
        proof {
            assert forall|j: int| 0 <= j < 8 implies bit_at(self.buffer, j) == (if j == c {
                bit
            } else {
                bit_at(old_buf, j)
            }) by {
                lemma_set_bit(old_buf, c, j);
            }
            assert(byte_bits(self.buffer).take(c + 1) =~= byte_bits(old_buf).take(c as int).push(
                bit,
            ));
        }
        self.bits_count = c + 1;
        if self.bits_count == 8 {
            let full = self.buffer;
            self.inner.push(full);
            self.buffer = 0;
            self.bits_count = 0;
            proof {
                lemma_bytes_bits_push(old(self).inner@, full);
                assert(byte_bits(full).take(8) =~= byte_bits(full));
                assert(self.pending() =~= Seq::<bool>::empty());
                assert forall|j: int| 0 <= j < 8 implies !bit_at(self.buffer, j) by {
                    lemma_zero_byte(j);
                }
            }
        }
        assert(self.written() =~= old(self).written().push(bit));
    }

    /// Writes the low `count` bits of `value`, most significant first.
    pub fn write_bits(&mut self, value: u64, count: u8)
        requires
            old(self).wf(),
            count <= 64,
        ensures
            final(self).wf(),
            final(self).written() == old(self).written() + value_bits(value, count as nat),
            final(self).pending().len() < 8,
    {
        let mut i: u8 = count;
        while i > 0
            invariant
                self.wf(),
                i <= count <= 64,
                self.written() == old(self).written() + value_bits(value, count as nat).take(
                    count - i,
                ),
            decreases i,
        {
            let bit = ((value >> ((i - 1) as u64)) & 1u64) == 1u64;
            let ghost before = self.written();
            self.write_bit(bit);
            proof {
                let vb = value_bits(value, count as nat);
                assert(vb[count - i] == bit);
                assert(vb.take(count - i + 1) =~= vb.take(count - i).push(bit));
            }
            i = i - 1;
        }
        assert(value_bits(value, count as nat).take(count as int) =~= value_bits(
            value,
            count as nat,
        ));
    }

    /// Writes out the pending bits as one more byte, padded with zero bits.
    pub fn flush_bits(&mut self)
        requires
            old(self).wf(),
        ensures
            final(self).wf(),
            final(self).pending() == Seq::<bool>::empty(),
            bytes_bits(final(self).bytes()) == old(self).written() + zero_bits(
                pad_len(old(self).written().len()),
            ),
            final(self).bytes().len() == old(self).bytes().len() + if old(self).pending().len()
                > 0 {
                1int
            } else {
                0int
            },
            final(self).bytes().take(old(self).bytes().len() as int) == old(self).bytes(),
            old(self).pending().len() > 0 ==> byte_bits(final(self).bytes().last()) == old(
                self,
            ).pending() + zero_bits((8 - old(self).pending().len()) as nat),
    {
        proof {
            lemma_bytes_bits_len(self.inner@);
        }
        if self.bits_count > 0 {
            let c = self.bits_count;
            let full = self.buffer;
            self.inner.push(full);
            self.buffer = 0;
            self.bits_count = 0;
            proof {
                lemma_bytes_bits_push(old(self).inner@, full);
                assert(byte_bits(full) =~= byte_bits(full).take(c as int) + zero_bits(
                    (8 - c) as nat,
                ));
                let k = old(self).inner@.len();
                assert((8 * k + c) % 8 == c as int) by (nonlinear_arith)
                    requires
                        c < 8,
                ;
                assert forall|j: int| 0 <= j < 8 implies !bit_at(self.buffer, j) by {
                    lemma_zero_byte(j);
                }
            }
        } else {
            proof {
                let k = self.inner@.len();
                assert((8 * k) % 8 == 0) by (nonlinear_arith);
            }
        }
        assert(self.pending() =~= Seq::<bool>::empty());
        assert(bytes_bits(self.bytes()) =~= old(self).written() + zero_bits(
            pad_len(old(self).written().len()),
        ));
    }

    /// Hands back the byte buffer.
    pub fn into_inner(self) -> (bytes: Vec<u8>)
        ensures
            bytes@ == self.bytes(),
    {
        self.inner
    }
}

/// Reads individual bits, most significant bit of each byte first, from a byte buffer.
pub struct BitReader {
    inner: Vec<u8>,
    pos: usize,
    buffer: u8,
    bits_count: u8,
}

impl BitReader {
    /// The bits not read yet.
    pub closed spec fn remaining(&self) -> Seq<bool> {
        byte_bits(self.buffer).skip(8 - self.bits_count) + bytes_bits(self.inner@.skip(self.pos as int))
    }

    pub closed spec fn wf(&self) -> bool {
        &&& self.bits_count <= 8
        &&& self.pos <= self.inner@.len()
    }

    pub fn new(inner: Vec<u8>) -> (r: Self)
        ensures
            r.wf(),
            r.remaining() == bytes_bits(inner@),
    {
        let r = BitReader { inner, pos: 0, buffer: 0, bits_count: 0 };
        assert(r.inner@.skip(0) =~= r.inner@);
        assert(byte_bits(0).skip(8) =~= Seq::<bool>::empty());
        assert(r.remaining() =~= bytes_bits(r.inner@));
        r
    }

    /// After `k` of the bits of `bytes` have been read (from `new` on, each
    /// `read_bit` taking one, each `read_bits` its count), the next `read_bit`
    /// gives bit `k % 8`, counted from the top, of byte `k / 8`, or `None` once
    /// all `8 * bytes.len()` bits have been read.
    pub proof fn lemma_after_reads(&self, bytes: Seq<u8>, k: int)
        requires
            0 <= k <= 8 * bytes.len(),
            self.remaining() == bytes_bits(bytes).skip(k),
        ensures
            k < 8 * bytes.len() ==> self.remaining().len() > 0 && self.remaining()[0] == (((bytes[k
                / 8] >> ((7 - k % 8) as u8)) & 1u8) == 1u8),
            k == 8 * bytes.len() ==> self.remaining().len() == 0,
    {
        lemma_bytes_bits_len(bytes);
        if k < 8 * bytes.len() {
            lemma_bytes_bits_index(bytes, k);
        }
    }

    /// Reads a single bit; `None` once every bit has been read.
    pub fn read_bit(&mut self) -> (res: Option<bool>)
        requires
            old(self).wf(),
        ensures
            final(self).wf(),
            old(self).remaining().len() == 0 ==> res is None && final(self).remaining()
                == old(self).remaining(),
            old(self).remaining().len() > 0 ==> res == Some(old(self).remaining()[0])
                && final(self).remaining() == old(self).remaining().drop_first(),
    {
        if self.bits_count == 0 {
            assert(byte_bits(self.buffer).skip(8) =~= Seq::<bool>::empty());
            if self.pos < self.inner.len() {
                let p = self.pos;
                proof {
                    let rest = self.inner@.skip(p as int);
                    lemma_bytes_bits_first(rest);
                    assert(rest.drop_first() =~= self.inner@.skip(p + 1));
                }
                self.buffer = self.inner[p];
                self.pos = p + 1;
                self.bits_count = 8;
                assert(byte_bits(self.buffer).skip(0) =~= byte_bits(self.buffer));
                assert(self.remaining() =~= old(self).remaining());
            } else {
                assert(self.inner@.skip(self.pos as int) =~= Seq::<u8>::empty());
                assert(old(self).remaining() =~= Seq::<bool>::empty());
                return None;
            }
        }
        let ghost mid = self.remaining();
        let c = self.bits_count;
        let bit = ((self.buffer >> (c - 1)) & 1u8) == 1u8;
        assert(((7 - (8 - c)) as u8) == c - 1);
        assert(bit == byte_bits(self.buffer).skip(8 - c)[0]);
        self.bits_count = c - 1;
        assert(self.remaining() =~= mid.drop_first());
        Some(bit)
    }

    /// Reads `count` bits as a number, most significant first. When fewer bits
    /// are left, every one of them is consumed and the result is `None`.
    pub fn read_bits(&mut self, count: u8) -> (res: Option<u64>)
        requires
            old(self).wf(),
        ensures
            final(self).wf(),
            old(self).remaining().len() >= count ==> res == Some(
                bits_value(old(self).remaining().take(count as int)),
            ) && final(self).remaining() == old(self).remaining().skip(count as int),
            old(self).remaining().len() < count ==> res is None && final(self).remaining()
                == Seq::<bool>::empty(),
    {
        let ghost start = self.remaining();
        let mut result: u64 = 0;
        let mut i: u8 = 0;
        assert(start.skip(0) =~= start);
        assert(start.take(0) =~= Seq::<bool>::empty());
        while i < count
            invariant
                self.wf(),
                start == old(self).remaining(),
                i <= count,
                i <= start.len(),
                self.remaining() == start.skip(i as int),
                result == bits_value(start.take(i as int)),
            decreases count - i,
        {
            match self.read_bit() {
                Some(bit) => {
                    assert(start.take(i + 1).drop_last() =~= start.take(i as int));
                    assert(start.skip(i as int).drop_first() =~= start.skip(i + 1));
                    result = (result << 1u64) | (if bit {
                        1u64
                    } else {
                        0u64
                    });
                },
                None => {
                    assert(self.remaining() =~= Seq::<bool>::empty());
                    return None;
                },
            }
            i = i + 1;
        }
        Some(result)
    }
}

/// Reading back the bytes of a flushed writer gives exactly the bits it was
/// given, followed by fewer than eight zero bits, and then nothing.
pub proof fn lemma_flushed_bits_read_back(written: Seq<bool>, bytes: Seq<u8>)
    requires
        bytes_bits(bytes) == written + zero_bits(pad_len(written.len())),
    ensures
        bytes_bits(bytes).take(written.len() as int) == written,
        written.len() <= bytes_bits(bytes).len() < written.len() + 8,
        bytes_bits(bytes).len() % 8 == 0,
        forall|i: int|
            written.len() <= i < bytes_bits(bytes).len() ==> !(#[trigger] bytes_bits(bytes)[i]),
{
    lemma_bytes_bits_len(bytes);
    assert(bytes_bits(bytes).take(written.len() as int) =~= written);
}

} // verus!
