//! Byte frequencies and the rows of a frequency histogram.
use crate::huffman::{total_weight, weight_below};
use std::collections::HashMap;
use vstd::prelude::*;

verus! {

broadcast use vstd::std_specs::hash::group_hash_axioms;

/// How many times `b` occurs in `s`.
pub open spec fn count_in(s: Seq<u8>, b: u8) -> nat
    decreases s.len(),
{
    if s.len() == 0 {
        0
    } else {
        count_in(s.drop_last(), b) + if s.last() == b {
            1nat
        } else {
            0nat
        }
    }
}

/// How many bytes of `s` are below `k`.
pub open spec fn count_below(s: Seq<u8>, k: nat) -> nat
    decreases s.len(),
{
    if s.len() == 0 {
        0
    } else {
        count_below(s.drop_last(), k) + if s.last() < k {
            1nat
        } else {
            0nat
        }
    }
}

/// Each byte that occurs in `s`, with the number of times it occurs.
pub open spec fn frequencies_of(s: Seq<u8>) -> Map<u8, u64> {
    Map::new(|b: u8| s.contains(b), |b: u8| count_in(s, b) as u64)
}

pub proof fn lemma_count_in(s: Seq<u8>, b: u8)
    ensures
        count_in(s, b) <= s.len(),
        count_in(s, b) > 0 <==> s.contains(b),
    decreases s.len(),
{
    if s.len() > 0 {
        let p = s.drop_last();
        lemma_count_in(p, b);
        if p.contains(b) {
            let i = choose|i: int| 0 <= i < p.len() && p[i] == b;
            assert(s[i] == b);
        }
        if s.contains(b) && s.last() != b {
            let i = choose|i: int| 0 <= i < s.len() && s[i] == b;
            assert(p[i] == b);
        }
        if s.last() == b {
            assert(s[s.len() - 1] == b);
        }
    }
}

proof fn lemma_count_below_step(s: Seq<u8>, k: nat)
    requires
        k < 256,
    ensures
        count_below(s, k + 1) == count_below(s, k) + count_in(s, k as u8),
    decreases s.len(),
{
    if s.len() > 0 {
        lemma_count_below_step(s.drop_last(), k);
    }
}

proof fn lemma_count_below_all(s: Seq<u8>)
    ensures
        count_below(s, 256) == s.len(),
    decreases s.len(),
{
    if s.len() > 0 {
        lemma_count_below_all(s.drop_last());
    }
}

proof fn lemma_weight_below_counts(s: Seq<u8>, k: nat)
    requires
        k <= 256,
        s.len() <= u64::MAX,
    ensures
        weight_below(frequencies_of(s), k) == count_below(s, k),
    decreases k,
{
    if k == 0 {
        lemma_count_below_zero(s);
    } else {
        let b = (k - 1) as u8;
        lemma_weight_below_counts(s, (k - 1) as nat);
        lemma_count_below_step(s, (k - 1) as nat);
        lemma_count_in(s, b);
    }
}

proof fn lemma_count_below_zero(s: Seq<u8>)
    ensures
        count_below(s, 0) == 0,
    decreases s.len(),
{
    if s.len() > 0 {
        lemma_count_below_zero(s.drop_last());
    }
}

/// The weights of the frequencies of `s` add up to its length.
pub proof fn lemma_frequencies_total(s: Seq<u8>)
    requires
        s.len() <= u64::MAX,
    ensures
        total_weight(frequencies_of(s)) == s.len(),
{
    lemma_weight_below_counts(s, 256);
    lemma_count_below_all(s);
}

/// Counts how many times each byte occurs.
pub fn byte_frequencies(content: &[u8]) -> (frequencies: HashMap<u8, u64>)
    ensures
        frequencies@ == frequencies_of(content@),
{
    let mut counts: Vec<u64> = vec![0u64; 256];
    let mut i: usize = 0;
    while i < content.len()
        invariant
            i <= content.len(),
            counts@.len() == 256,
            forall|b: int| 0 <= b < 256 ==> #[trigger] counts@[b] == count_in(content@.take(i as int), b as u8),
        decreases content.len() - i,
    {
        let b = content[i];
        proof {
            lemma_count_in(content@.take(i as int), b);
            assert(content@.take(i + 1).drop_last() =~= content@.take(i as int));
        }
        let c = counts[b as usize];
        counts.set(b as usize, c + 1);
        i = i + 1;
        proof {
            assert forall|x: int| 0 <= x < 256 implies #[trigger] counts@[x] == count_in(content@.take(i as int), x as u8) by {
                assert(content@.take(i as int).last() == b);
            }
        }
    }
    assert(content@.take(i as int) =~= content@);
    let mut frequencies: HashMap<u8, u64> = HashMap::new();
    let mut k: u16 = 0;
    while k < 256
        invariant
            k <= 256,
            counts@.len() == 256,
            forall|b: int| 0 <= b < 256 ==> #[trigger] counts@[b] == count_in(content@, b as u8),
            frequencies@ == Map::new(
                |b: u8| b < k && content@.contains(b),
                |b: u8| count_in(content@, b) as u64,
            ),
        decreases 256 - k,
    {
        let c = counts[k as usize];
        proof {
            lemma_count_in(content@, k as u8);
            assert(counts@[k as int] == count_in(content@, k as u8));
        }
        if c > 0 {
            frequencies.insert(k as u8, c);
        }
        k = k + 1;
        proof {
            assert(frequencies@ =~= Map::new(
                |b: u8| b < k && content@.contains(b),
                |b: u8| count_in(content@, b) as u64,
            ));
        }
    }
    assert(frequencies@ =~= frequencies_of(content@));
    frequencies
}

/// Distinct bytes, with counts that never increase along the sequence, and
/// equal counts in increasing byte order.
pub open spec fn desc_by_count(s: Seq<(u8, u64)>) -> bool {
    forall|i: int, j: int|
        0 <= i < j < s.len() ==> {
            &&& (#[trigger] s[i]).0 != (#[trigger] s[j]).0
            &&& s[i].1 >= s[j].1
            &&& s[i].1 == s[j].1 ==> s[i].0 < s[j].0
        }
}

/// Inserts `(b, c)` after the entries counted at least `c` and before the others.
fn insert_by_count(sorted: &mut Vec<(u8, u64)>, b: u8, c: u64)
    requires
        desc_by_count(old(sorted)@),
        forall|i: int| 0 <= i < old(sorted)@.len() ==> (#[trigger] old(sorted)@[i]).0 < b,
    ensures
        desc_by_count(final(sorted)@),
        forall|e: (u8, u64)| final(sorted)@.contains(e) <==> (old(sorted)@.contains(e) || e == (b, c)),
{
    let mut p: usize = 0;
    while p < sorted.len() && sorted[p].1 >= c
        invariant
            p <= sorted@.len(),
            forall|q: int| 0 <= q < p ==> (#[trigger] sorted@[q]).1 >= c,
        decreases sorted@.len() - p,
    {
        p = p + 1;
    }
    let ghost before = sorted@;
    sorted.insert(p, (b, c));
    proof {
        let after = sorted@;
        assert forall|q: int| p <= q < before.len() implies (#[trigger] before[q]).1 < c by {
            if q > p as int {
                assert(before[p as int].1 >= before[q].1);
            }
        }
        assert forall|i: int, j: int| 0 <= i < j < after.len() implies {
            &&& (#[trigger] after[i]).0 != (#[trigger] after[j]).0
            &&& after[i].1 >= after[j].1
            &&& after[i].1 == after[j].1 ==> after[i].0 < after[j].0
        } by {
            if j < p {
                assert(after[i] == before[i] && after[j] == before[j]);
            } else if j == p {
                assert(after[i] == before[i]);
            } else if i < p {
                assert(after[i] == before[i] && after[j] == before[j - 1]);
            } else if i == p {
                assert(after[j] == before[j - 1]);
            } else {
                assert(after[i] == before[i - 1] && after[j] == before[j - 1]);
            }
        }
        assert forall|e: (u8, u64)| after.contains(e) <==> (before.contains(e) || e == (b, c)) by {
            if after.contains(e) {
                let i = choose|i: int| 0 <= i < after.len() && after[i] == e;
                if i < p {
                    assert(before[i] == e);
                } else if i > p {
                    assert(before[i - 1] == e);
                }
            }
            if before.contains(e) {
                let i = choose|i: int| 0 <= i < before.len() && before[i] == e;
                if i < p {
                    assert(after[i] == e);
                } else {
                    assert(after[i + 1] == e);
                }
            }
            if e == (b, c) {
                assert(after[p as int] == e);
            }
        }
    }
}

/// Each byte of `content` with its count, most frequent first; equally
/// frequent bytes in increasing order.
pub fn sorted_frequencies(content: &[u8]) -> (sorted: Vec<(u8, u64)>)
    ensures
        desc_by_count(sorted@),
        forall|e: (u8, u64)|
            sorted@.contains(e) <==> (content@.contains(e.0) && e.1 == count_in(content@, e.0)),
{
    let frequencies = byte_frequencies(content);
    let mut sorted: Vec<(u8, u64)> = Vec::new();
    let mut k: u16 = 0;
    while k < 256
        invariant
            k <= 256,
            frequencies@ == frequencies_of(content@),
            desc_by_count(sorted@),
            forall|i: int| 0 <= i < sorted@.len() ==> (#[trigger] sorted@[i]).0 < k,
            forall|e: (u8, u64)|
                sorted@.contains(e) <==> (e.0 < k && content@.contains(e.0) && e.1 == count_in(
                    content@,
                    e.0,
                )),
        decreases 256 - k,
    {
        let b = k as u8;
        match frequencies.get(&b) {
            Some(c) => {
                let c = *c;
                proof {
                    lemma_count_in(content@, b);
                    assert(content@.contains(b));
                    assert(content@.len() == content.len());
                    assert(count_in(content@, b) <= u64::MAX);
                    assert(c == count_in(content@, b));
                }
                let ghost before = sorted@;
                insert_by_count(&mut sorted, b, c);
                proof {
                    assert forall|i: int| 0 <= i < sorted@.len() implies (#[trigger] sorted@[i]).0
                        < k + 1 by {
                        assert(sorted@.contains(sorted@[i]));
                        if sorted@[i] != (b, c) {
                            assert(before.contains(sorted@[i]));
                            let j = choose|j: int| 0 <= j < before.len() && before[j] == sorted@[i];
                        }
                    }
                }
            },
            None => {},
        }
        k = k + 1;
    }
    sorted
}

/// One histogram row: the byte as a character when it is printable ASCII,
/// else `.`, and the bar width, scaled so that the most frequent byte gets 40.
pub fn histogram_row(byte: u8, freq: u64, max_freq: u64) -> (row: (char, u64))
    requires
        max_freq > 0,
        freq * 40 <= u64::MAX,
    ensures
        row.0 == (if 32 <= byte <= 126 {
            byte as char
        } else {
            '.'
        }),
        row.1 == (freq * 40) / (max_freq as int),
{
    let bar_width: u64 = 40;
    let c = if byte >= 32 && byte <= 126 {
        byte as char
    } else {
        '.'
    };
    (c, freq * bar_width / max_freq)
}

/// The most rows a histogram shows.
pub const HISTOGRAM_ROWS: usize = 20;

/// The rows a histogram shows, the first `HISTOGRAM_ROWS` of `sorted`, and
/// how many entries are left over.
pub fn histogram_cut(sorted: &[(u8, u64)]) -> (cut: (Vec<(u8, u64)>, usize))
    ensures
        sorted@.len() <= HISTOGRAM_ROWS ==> cut.0@ == sorted@ && cut.1 == 0,
        sorted@.len() > HISTOGRAM_ROWS ==> cut.0@ == sorted@.take(HISTOGRAM_ROWS as int)
            && cut.1 == sorted@.len() - HISTOGRAM_ROWS,
{
    let n = if sorted.len() < HISTOGRAM_ROWS {
        sorted.len()
    } else {
        HISTOGRAM_ROWS
    };
    let mut shown: Vec<(u8, u64)> = Vec::new();
    let mut i: usize = 0;
    while i < n
        invariant
            i <= n <= sorted@.len(),
            n == HISTOGRAM_ROWS || n == sorted@.len(),
            n <= HISTOGRAM_ROWS,
            shown@ == sorted@.take(i as int),
        decreases n - i,
    {
        shown.push(sorted[i]);
        i = i + 1;
        assert(shown@ =~= sorted@.take(i as int));
    }
    assert(sorted@.len() <= HISTOGRAM_ROWS ==> sorted@.take(n as int) =~= sorted@);
    (shown, sorted.len() - n)
}

} // verus!
