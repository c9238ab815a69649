//! Huffman coding: building a code from byte frequencies, the canonical code
//! that the code lengths alone determine, and encoding and decoding with them.
use crate::bit_io::{BitReader, BitWriter};
use crate::bits::{bits_value, bytes_bits, pad_len, value_bits, zero_bits};
use crate::huffman_tree::{
    HuffmanError, HuffmanNode, all_coded, code_lengths, codes_from, height, huff_bits, huff_decode,
    huff_decode_from, huff_decoded, huff_decoded_from, leaves, lemma_decoded_agrees, lemma_huff_bits_push, lemma_leaves_height, tree_codes, walk,
};
use std::collections::HashMap;
use vstd::prelude::*;

verus! {

broadcast use vstd::std_specs::hash::group_hash_axioms;

/// A Huffman code: a code (value, length in bits) for each symbol, and the
/// tree that decodes them.
pub struct Huffman {
    codes: HashMap<u8, (u64, u8)>,
    tree: Option<HuffmanNode>,
}

/// The symbols below `k` that `m` holds, in increasing order.
pub open spec fn keys_below(m: Map<u8, u64>, k: nat) -> Seq<u8>
    decreases k,
{
    if k == 0 {
        Seq::empty()
    } else {
        let s = (k - 1) as u8;
        keys_below(m, (k - 1) as nat) + if m.contains_key(s) {
            seq![s]
        } else {
            Seq::empty()
        }
    }
}

/// The sum of the weights of the symbols below `k`.
pub open spec fn weight_below(m: Map<u8, u64>, k: nat) -> nat
    decreases k,
{
    if k == 0 {
        0
    } else {
        let s = (k - 1) as u8;
        weight_below(m, (k - 1) as nat) + if m.contains_key(s) {
            m[s] as nat
        } else {
            0
        }
    }
}

/// The sum of all the weights.
pub open spec fn total_weight(m: Map<u8, u64>) -> nat {
    weight_below(m, 256)
}

/// The leaves of all the trees of a heap, one tree after another.
pub open spec fn heap_leaves(h: Seq<(HuffmanNode, u64)>) -> Seq<u8>
    decreases h.len(),
{
    if h.len() == 0 {
        Seq::empty()
    } else {
        heap_leaves(h.drop_last()) + leaves(h.last().0)
    }
}

/// The sum of the weights of a heap.
pub open spec fn heap_weight(h: Seq<(HuffmanNode, u64)>) -> nat
    decreases h.len(),
{
    if h.len() == 0 {
        0
    } else {
        heap_weight(h.drop_last()) + h.last().1 as nat
    }
}


/// One leaf per symbol of the weight map, in increasing symbol order, for the symbols below `k`.
pub open spec fn forest_below(m: Map<u8, u64>, k: nat) -> Seq<(HuffmanNode, u64)>
    decreases k,
{
    if k == 0 {
        Seq::empty()
    } else {
        let s = (k - 1) as u8;
        forest_below(m, (k - 1) as nat) + if m.contains_key(s) {
            seq![(HuffmanNode::Leaf { symbol: s }, m[s])]
        } else {
            Seq::empty()
        }
    }
}

/// The forest that Huffman's algorithm starts from: a leaf for each symbol.
pub open spec fn initial_forest(m: Map<u8, u64>) -> Seq<(HuffmanNode, u64)> {
    forest_below(m, 256)
}

/// Entry `i` is among the lightest of the forest.
pub open spec fn lightest(f: Seq<(HuffmanNode, u64)>, i: int) -> bool {
    &&& 0 <= i < f.len()
    &&& forall|k: int| 0 <= k < f.len() ==> f[i].1 <= #[trigger] f[k].1
}

/// Takes out entry `i`, then entry `j` of what is left, and adds the tree
/// that joins them (the first on the left), weighing their sum.
pub open spec fn merge_step(f: Seq<(HuffmanNode, u64)>, i: int, j: int) -> Seq<(HuffmanNode, u64)> {
    let a = f[i];
    let f1 = f.remove(i);
    let b = f1[j];
    f1.remove(j).push(
        (
            HuffmanNode::Internal { left: Box::new(a.0), right: Box::new(b.0) },
            (a.1 + b.1) as u64,
        ),
    )
}

/// `g` comes from `f` by joining a lightest tree with a lightest of the rest.
pub open spec fn greedy_step(f: Seq<(HuffmanNode, u64)>, g: Seq<(HuffmanNode, u64)>) -> bool {
    exists|i: int, j: int|
        lightest(f, i) && lightest(f.remove(i), j) && g == #[trigger] merge_step(f, i, j)
}

/// A run of Huffman's algorithm: each forest comes from the one before by a
/// greedy step, and the last holds a single tree.
pub open spec fn greedy_run(trace: Seq<Seq<(HuffmanNode, u64)>>) -> bool {
    &&& trace.len() >= 1
    &&& trace.last().len() == 1
    &&& forall|k: int| 0 <= k < trace.len() - 1 ==> greedy_step(#[trigger] trace[k], trace[k + 1])
}

/// The (symbol, length) entries of a length map whose key `length * 256 + symbol`
/// is below `k`, in increasing key order.
pub open spec fn entries_below(m: Map<u8, u8>, k: nat) -> Seq<(u8, u8)>
    decreases k,
{
    if k == 0 {
        Seq::empty()
    } else {
        let key = (k - 1) as int;
        let s = (key % 256) as u8;
        let l = (key / 256) as u8;
        entries_below(m, (k - 1) as nat) + if m.contains_key(s) && m[s] == l {
            seq![(s, l)]
        } else {
            Seq::empty()
        }
    }
}

/// The entries of a length map ordered by length, then by symbol.
pub open spec fn sorted_entries(m: Map<u8, u8>) -> Seq<(u8, u8)> {
    entries_below(m, 65536)
}

/// The canonical code of entry `i`: one more than the previous code, shifted
/// left by as many bits as the length grew; the first code is zero.
pub open spec fn canon_code(e: Seq<(u8, u8)>, i: int) -> u64
    decreases i,
{
    if i <= 0 {
        0
    } else {
        ((canon_code(e, i - 1) + 1) as u64) << ((e[i].1 - e[i - 1].1) as u64)
    }
}

/// The canonical codes of the first `n` entries.
pub open spec fn canonical_codes(e: Seq<(u8, u8)>, n: nat) -> Map<u8, (u64, u8)>
    decreases n,
{
    if n == 0 {
        Map::empty()
    } else {
        canonical_codes(e, (n - 1) as nat).insert(
            e[n - 1].0,
            (canon_code(e, n - 1), e[n - 1].1),
        )
    }
}

/// An internal node with two leaves for symbol zero, which insertion refines.
pub open spec fn fresh_node() -> HuffmanNode {
    HuffmanNode::Internal {
        left: Box::new(HuffmanNode::Leaf { symbol: 0 }),
        right: Box::new(HuffmanNode::Leaf { symbol: 0 }),
    }
}

/// A subtree to descend into: a leaf on the way is replaced by a fresh node.
pub open spec fn descend(t: HuffmanNode) -> HuffmanNode {
    if t is Leaf {
        fresh_node()
    } else {
        t
    }
}

/// Inserts a leaf for `s` at the end of the path given by the low `i` bits of
/// `code`, most significant first.
pub open spec fn insert_code(node: HuffmanNode, code: u64, i: nat, s: u8) -> HuffmanNode
    decreases i,
{
    if i == 0 {
        node
    } else {
        match node {
            HuffmanNode::Leaf { .. } => node,
            HuffmanNode::Internal { left, right } => {
                let bit = ((code >> ((i - 1) as u64)) & 1u64) == 1u64;
                if i == 1 {
                    if bit {
                        HuffmanNode::Internal { left, right: Box::new(HuffmanNode::Leaf { symbol: s }) }
                    } else {
                        HuffmanNode::Internal { left: Box::new(HuffmanNode::Leaf { symbol: s }), right }
                    }
                } else if bit {
                    HuffmanNode::Internal {
                        left,
                        right: Box::new(insert_code(descend(*right), code, (i - 1) as nat, s)),
                    }
                } else {
                    HuffmanNode::Internal {
                        left: Box::new(insert_code(descend(*left), code, (i - 1) as nat, s)),
                        right,
                    }
                }
            },
        }
    }
}

/// The tree that inserting the canonical codes of the first `n` entries builds.
pub open spec fn canonical_tree(e: Seq<(u8, u8)>, n: nat) -> HuffmanNode
    decreases n,
{
    if n == 0 {
        fresh_node()
    } else {
        insert_code(
            canonical_tree(e, (n - 1) as nat),
            canon_code(e, n - 1),
            e[n - 1].1 as nat,
            e[n - 1].0,
        )
    }
}

/// The canonical code can be computed from these lengths in 64 bits: no
/// length exceeds 64, no shift reaches 64 and no code is the largest `u64`
/// (so the next one can be counted).
pub open spec fn canonical_fits(e: Seq<(u8, u8)>) -> bool {
    forall|i: int|
        0 <= i < e.len() ==> {
            &&& (#[trigger] e[i]).1 <= 64
            &&& canon_code(e, i) < u64::MAX
            &&& (i > 0 ==> e[i].1 - e[i - 1].1 < 64)
        }
}

/// The code lengths can be turned into a canonical code.
pub open spec fn lengths_supported(m: Map<u8, u8>) -> bool {
    canonical_fits(sorted_entries(m))
}

/// Every code used before the first byte without one is at most 64 bits long.
pub open spec fn codes_fit(codes: Map<u8, (u64, u8)>, data: Seq<u8>) -> bool {
    forall|i: int|
        0 <= i < data.len() && all_coded(codes, data.take(i + 1)) ==> codes[#[trigger] data[i]].1
            <= 64
}


/// The position of an entry in the (length, symbol) order.
pub open spec fn entry_key(e: (u8, u8)) -> int {
    e.1 * 256 + e.0
}

proof fn lemma_key_split(key: int, l: int, s: int)
    requires
        key == l * 256 + s,
        0 <= s < 256,
        0 <= l,
    ensures
        key % 256 == s,
        key / 256 == l,
{
    assert(key % 256 == s && key / 256 == l) by (nonlinear_arith)
        requires
            key == l * 256 + s,
            0 <= s < 256,
            0 <= l,
    ;
}

pub proof fn lemma_entries_below(m: Map<u8, u8>, k: nat)
    requires
        k <= 65536,
    ensures
        forall|i: int|
            0 <= i < entries_below(m, k).len() ==> {
                let e = #[trigger] entries_below(m, k)[i];
                &&& m.contains_key(e.0)
                &&& m[e.0] == e.1
                &&& entry_key(e) < k
            },
        forall|i: int, j: int|
            0 <= i < j < entries_below(m, k).len() ==> entry_key(#[trigger] entries_below(m, k)[i])
                < entry_key(#[trigger] entries_below(m, k)[j]),
        forall|s: u8|
            #![trigger m.contains_key(s)]
            m.contains_key(s) && entry_key((s, m[s])) < k ==> exists|i: int|
                0 <= i < entries_below(m, k).len() && (#[trigger] entries_below(m, k)[i]).0 == s,
    decreases k,
{
    if k > 0 {
        let prev = entries_below(m, (k - 1) as nat);
        let cur = entries_below(m, k);
        lemma_entries_below(m, (k - 1) as nat);
        let key = (k - 1) as int;
        let s = (key % 256) as u8;
        let l = (key / 256) as u8;
        assert(key == (key / 256) * 256 + key % 256) by (nonlinear_arith);
        assert(key / 256 < 256) by (nonlinear_arith)
            requires
                key < 65536,
                key >= 0,
        ;
        assert(entry_key((s, l)) == key);
        assert forall|i: int| 0 <= i < prev.len() implies cur[i] == prev[i] by {}
        assert forall|x: u8| m.contains_key(x) && entry_key((x, m[x])) < k implies exists|i: int|
            0 <= i < cur.len() && (#[trigger] cur[i]).0 == x by {
            if entry_key((x, m[x])) < k - 1 {
                let i = choose|i: int| 0 <= i < prev.len() && (#[trigger] prev[i]).0 == x;
                assert(cur[i].0 == x);
            } else {
                lemma_key_split(key, m[x] as int, x as int);
                assert(cur[cur.len() - 1].0 == x);
            }
        }
    }
}

/// Entries in key order have non-decreasing lengths.
pub proof fn lemma_entries_sorted(m: Map<u8, u8>, i: int, j: int)
    requires
        0 <= i < j < sorted_entries(m).len(),
    ensures
        sorted_entries(m)[i].1 <= sorted_entries(m)[j].1,
{
    lemma_entries_below(m, 65536);
    let a = sorted_entries(m)[i];
    let b = sorted_entries(m)[j];
    assert(entry_key(a) < entry_key(b));
}

/// The entries of a length map list exactly its symbols, each once.
pub proof fn lemma_sorted_entries(m: Map<u8, u8>)
    ensures
        forall|i: int|
            0 <= i < sorted_entries(m).len() ==> {
                let e = #[trigger] sorted_entries(m)[i];
                &&& m.contains_key(e.0)
                &&& m[e.0] == e.1
            },
        forall|s: u8|
            m.contains_key(s) ==> exists|i: int|
                0 <= i < sorted_entries(m).len() && (#[trigger] sorted_entries(m)[i]).0 == s,
        forall|i: int, j: int|
            0 <= i < j < sorted_entries(m).len() ==> (#[trigger] sorted_entries(m)[i]).0
                != (#[trigger] sorted_entries(m)[j]).0,
{
    lemma_entries_below(m, 65536);
    assert forall|s: u8| m.contains_key(s) implies exists|i: int|
        0 <= i < sorted_entries(m).len() && (#[trigger] sorted_entries(m)[i]).0 == s by {
        assert(entry_key((s, m[s])) < 65536);
        let i = choose|i: int|
            0 <= i < entries_below(m, 65536).len() && (#[trigger] entries_below(m, 65536)[i]).0 == s;
        assert(sorted_entries(m)[i].0 == s);
    }
    assert forall|i: int, j: int|
        0 <= i < j < sorted_entries(m).len() implies (#[trigger] sorted_entries(m)[i]).0
            != (#[trigger] sorted_entries(m)[j]).0 by {
        assert(entry_key(sorted_entries(m)[i]) < entry_key(sorted_entries(m)[j]));
    }
}

proof fn lemma_keys_below(m: Map<u8, u64>, k: nat)
    requires
        k <= 256,
    ensures
        keys_below(m, k).len() <= k,
        keys_below(m, k).no_duplicates(),
        forall|i: int| 0 <= i < keys_below(m, k).len() ==> (#[trigger] keys_below(m, k)[i]) < k,
        forall|s: u8| keys_below(m, k).contains(s) <==> (s < k && m.contains_key(s)),
    decreases k,
{
    if k > 0 {
        lemma_keys_below(m, (k - 1) as nat);
        let prev = keys_below(m, (k - 1) as nat);
        let s = (k - 1) as u8;
        let cur = keys_below(m, k);
        assert forall|x: u8| cur.contains(x) <==> (x < k && m.contains_key(x)) by {
            if cur.contains(x) {
                let i = choose|i: int| 0 <= i < cur.len() && cur[i] == x;
                if i >= prev.len() {
                    assert(x == s);
                } else {
                    assert(prev[i] == x);
                }
            }
            if x < k && m.contains_key(x) {
                if x == s {
                    assert(cur[cur.len() - 1] == x);
                } else {
                    let i = choose|i: int| 0 <= i < prev.len() && prev[i] == x;
                    assert(cur[i] == x);
                }
            }
        }
    }
}

pub proof fn lemma_heap_append(a: Seq<(HuffmanNode, u64)>, b: Seq<(HuffmanNode, u64)>)
    ensures
        heap_leaves(a + b) == heap_leaves(a) + heap_leaves(b),
        heap_weight(a + b) == heap_weight(a) + heap_weight(b),
    decreases b.len(),
{
    if b.len() == 0 {
        assert(a + b =~= a);
        assert(heap_leaves(a) + heap_leaves(b) =~= heap_leaves(a));
    } else {
        lemma_heap_append(a, b.drop_last());
        assert((a + b).drop_last() =~= a + b.drop_last());
        assert(heap_leaves(a + b) =~= heap_leaves(a) + heap_leaves(b));
    }
}

pub proof fn lemma_heap_remove(h: Seq<(HuffmanNode, u64)>, i: int)
    requires
        0 <= i < h.len(),
    ensures
        heap_leaves(h).to_multiset() == heap_leaves(h.remove(i)).to_multiset().add(
            leaves(h[i].0).to_multiset(),
        ),
        heap_weight(h) == heap_weight(h.remove(i)) + h[i].1,
{
    let a = h.take(i);
    let b = h.skip(i + 1);
    let one = seq![h[i]];
    assert(h =~= a + one + b);
    assert(h.remove(i) =~= a + b);
    lemma_heap_append(a + one, b);
    lemma_heap_append(a, one);
    lemma_heap_append(a, b);
    assert(one.drop_last() =~= Seq::<(HuffmanNode, u64)>::empty());
    assert(one.last() == h[i]);
    assert(heap_leaves(Seq::<(HuffmanNode, u64)>::empty()) =~= Seq::<u8>::empty());
    assert(heap_leaves(one) =~= leaves(h[i].0));
    assert(heap_weight(Seq::<(HuffmanNode, u64)>::empty()) == 0);
    assert(heap_weight(one) == h[i].1);
    vstd::seq_lib::lemma_multiset_commutative(heap_leaves(a) + leaves(h[i].0), heap_leaves(b));
    vstd::seq_lib::lemma_multiset_commutative(heap_leaves(a), leaves(h[i].0));
    vstd::seq_lib::lemma_multiset_commutative(heap_leaves(a), heap_leaves(b));
    assert(heap_leaves(h).to_multiset() =~= heap_leaves(h.remove(i)).to_multiset().add(
        leaves(h[i].0).to_multiset(),
    ));
}

/// The index of an entry of least weight.
fn min_index(heap: &Vec<(HuffmanNode, u64)>) -> (idx: usize)
    requires
        heap.len() > 0,
    ensures
        idx < heap.len(),
        forall|j: int| 0 <= j < heap.len() ==> heap@[idx as int].1 <= #[trigger] heap@[j].1,
{
    let mut best: usize = 0;
    let mut j: usize = 1;
    while j < heap.len()
        invariant
            best < heap.len(),
            1 <= j <= heap.len(),
            forall|k: int| 0 <= k < j ==> heap@[best as int].1 <= #[trigger] heap@[k].1,
        decreases heap.len() - j,
    {
        if heap[j].1 < heap[best].1 {
            best = j;
        }
        j = j + 1;
    }
    best
}

impl Huffman {
    /// The code of each symbol, as (value, length in bits).
    pub closed spec fn spec_codes(&self) -> Map<u8, (u64, u8)> {
        self.codes@
    }

    /// The decoding tree, if there is one.
    pub closed spec fn spec_tree(&self) -> Option<HuffmanNode> {
        self.tree
    }

    /// Builds a Huffman code: repeatedly joins the two trees of least weight.
    /// Ties are broken in no promised order, so the tree is not pinned down;
    /// whatever it is, each symbol sits at exactly one leaf and the codes are
    /// its paths.
    pub fn from_frequencies(frequencies: HashMap<u8, u64>) -> (h: Self)
        requires
            frequencies@.dom().len() >= 2 ==> total_weight(frequencies@) <= u64::MAX,
        ensures
            match h.spec_tree() {
                None => frequencies@.dom().len() == 0 && h.spec_codes() == Map::<
                    u8,
                    (u64, u8),
                >::empty(),
                Some(root) => {
                    &&& frequencies@.dom().len() > 0
                    &&& leaves(root).no_duplicates()
                    &&& leaves(root).to_set() == frequencies@.dom()
                    &&& exists|trace: Seq<Seq<(HuffmanNode, u64)>>|
                        greedy_run(trace) && trace[0] == initial_forest(frequencies@)
                            && #[trigger] trace.last()[0].0 == root
                    &&& h.spec_codes() == tree_codes(root)
                },
            },
    {
        let ghost m = frequencies@;
        let mut heap: Vec<(HuffmanNode, u64)> = Vec::new();
        let mut k: u16 = 0;
        while k < 256
            invariant
                k <= 256,
                m == frequencies@,
                heap@.len() == keys_below(m, k as nat).len(),
                heap@ == forest_below(m, k as nat),
                heap_leaves(heap@) == keys_below(m, k as nat),
                heap_weight(heap@) == weight_below(m, k as nat),
            decreases 256 - k,
        {
            let s = k as u8;
            match frequencies.get(&s) {
                Some(w) => {
                    let ghost before = heap@;
                    heap.push((HuffmanNode::Leaf { symbol: s }, *w));
                    proof {
                        assert(heap@.drop_last() =~= before);
                        assert(leaves(HuffmanNode::Leaf { symbol: s }) == seq![s]);
                        assert(heap@ =~= forest_below(m, (k + 1) as nat));
                    }
                },
                None => {
                    assert(keys_below(m, (k + 1) as nat) =~= keys_below(m, k as nat));
                    assert(forest_below(m, (k + 1) as nat) =~= forest_below(m, k as nat));
                },
            }
            k = k + 1;
        }
        let ghost f0 = heap@;
        let ghost mut trace: Seq<Seq<(HuffmanNode, u64)>> = seq![heap@];
        let ghost init = heap_leaves(heap@);
        let ghost n0 = heap@.len();
        let ghost w0 = heap_weight(heap@);
        proof {
            lemma_keys_below(m, 256);
            assert(k == 256);
            assert(init == keys_below(m, 256));
            assert(n0 <= 256);
            init.unique_seq_to_set();
            assert(init.to_set() =~= m.dom());
        }
        if heap.len() == 0 {
            return Self { codes: HashMap::new(), tree: None };
        }
        while heap.len() > 1
            invariant
                1 <= heap@.len() <= n0,
                n0 <= 256,
                heap_leaves(heap@).to_multiset() == init.to_multiset(),
                heap_weight(heap@) == w0,
                n0 >= 2 ==> w0 <= u64::MAX,
                f0 == initial_forest(m),
                trace.len() >= 1,
                trace[0] == f0,
                trace.last() == heap@,
                forall|k: int| 0 <= k < trace.len() - 1 ==> greedy_step(#[trigger] trace[k], trace[k + 1]),
            decreases heap@.len(),
        {
            let i = min_index(&heap);
            let ghost h0 = heap@;
            let (left, w1) = heap.remove(i);
            proof {
                lemma_heap_remove(h0, i as int);
            }
            let j = min_index(&heap);
            let ghost h1 = heap@;
            let (right, w2) = heap.remove(j);
            proof {
                lemma_heap_remove(h1, j as int);
                assert(w1 + w2 <= w0);
            }
            let ghost h2 = heap@;
            let merged = HuffmanNode::Internal { left: Box::new(left), right: Box::new(right) };
            heap.push((merged, w1 + w2));
            proof {
                assert(heap@.drop_last() =~= h2);
                vstd::seq_lib::lemma_multiset_commutative(heap_leaves(h2), leaves(heap@.last().0));
                vstd::seq_lib::lemma_multiset_commutative(leaves(h0[i as int].0), leaves(h1[j as int].0));
                assert(heap_leaves(heap@).to_multiset() =~= init.to_multiset());
                assert(heap@ =~= merge_step(h0, i as int, j as int));
                assert(greedy_step(h0, heap@));
                let old_trace = trace;
                trace = trace.push(heap@);
                assert forall|k: int| 0 <= k < trace.len() - 1 implies greedy_step(
                    #[trigger] trace[k],
                    trace[k + 1],
                ) by {
                    if k < old_trace.len() - 1 {
                        assert(trace[k] == old_trace[k] && trace[k + 1] == old_trace[k + 1]);
                    }
                }
            }
        }
        let ghost last = heap@;
        proof {
            assert(last.len() == 1);
            assert(last.drop_last() =~= Seq::<(HuffmanNode, u64)>::empty());
            assert(heap_leaves(Seq::<(HuffmanNode, u64)>::empty()) =~= Seq::<u8>::empty());
            assert(last.last() == last[0]);
            assert(heap_leaves(last) =~= leaves(last[0].0));
        }
        let (root, _) = heap.pop().unwrap();
        proof {
            let l = leaves(root);
            init.lemma_multiset_has_no_duplicates();
            l.to_multiset_ensures();
            init.to_multiset_ensures();
            assert forall|x: u8| l.to_multiset().contains(x) implies l.to_multiset().count(x)
                == 1 by {}
            l.lemma_multiset_has_no_duplicates_conv();
            assert forall|x: u8| l.to_set().contains(x) <==> init.to_set().contains(x) by {
                assert(l.contains(x) <==> l.to_multiset().count(x) > 0);
                assert(init.contains(x) <==> init.to_multiset().count(x) > 0);
            }
            assert(l.to_set() =~= m.dom());
            assert(greedy_run(trace));
            assert(trace.last()[0].0 == root);
        }
        let mut codes: HashMap<u8, (u64, u8)> = HashMap::new();
        proof {
            lemma_leaves_height(root);
        }
        Self::generate_codes(&root, 0, 0, &mut codes, Ghost(Seq::empty()));
        proof {
            assert(Map::<u8, (u64, u8)>::empty().union_prefer_right(tree_codes(root)) =~= tree_codes(root));
        }
        Self { codes, tree: Some(root) }
    }

    /// Records, for each leaf below `node`, its path after `prefix` as a code.
    fn generate_codes(
        node: &HuffmanNode,
        current_code: u64,
        bits_count: u8,
        codes: &mut HashMap<u8, (u64, u8)>,
        Ghost(prefix): Ghost<Seq<bool>>,
    )
        requires
            current_code == bits_value(prefix),
            bits_count == prefix.len(),
            prefix.len() + height(*node) <= 255,
        ensures
            final(codes)@ == old(codes)@.union_prefer_right(codes_from(*node, prefix)),
        decreases node,
    {
        match node {
            HuffmanNode::Leaf { symbol } => {
                let count = if bits_count == 0 {
                    1
                } else {
                    bits_count
                };
                codes.insert(*symbol, (current_code, count));
                proof {
                    assert(codes@ =~= old(codes)@.union_prefer_right(codes_from(*node, prefix)));
                }
            },
            HuffmanNode::Internal { left, right } => {
                let shifted = current_code << 1u64;
                proof {
                    assert(shifted | 0u64 == shifted) by (bit_vector);
                    assert(prefix.push(false).drop_last() =~= prefix);
                    assert(prefix.push(true).drop_last() =~= prefix);
                }
                Self::generate_codes(left, shifted, bits_count + 1, codes, Ghost(prefix.push(false)));
                Self::generate_codes(
                    right,
                    shifted | 1u64,
                    bits_count + 1,
                    codes,
                    Ghost(prefix.push(true)),
                );
                proof {
                    assert(codes@ =~= old(codes)@.union_prefer_right(codes_from(*node, prefix)));
                }
            },
        }
    }


    /// A node with two leaves for symbol zero.
    fn new_internal() -> (n: HuffmanNode)
        ensures
            n == fresh_node(),
    {
        HuffmanNode::Internal {
            left: Box::new(HuffmanNode::Leaf { symbol: 0 }),
            right: Box::new(HuffmanNode::Leaf { symbol: 0 }),
        }
    }

    /// The subtree to go on into: a leaf on the way becomes a fresh node.
    fn descend_into(t: HuffmanNode) -> (n: HuffmanNode)
        ensures
            n == descend(t),
    {
        let is_leaf = match &t {
            HuffmanNode::Leaf { .. } => true,
            HuffmanNode::Internal { .. } => false,
        };
        if is_leaf {
            Self::new_internal()
        } else {
            t
        }
    }

    /// Puts a leaf for `symbol` at the end of the path of the low `i` bits of `code`.
    fn insert_leaf(node: HuffmanNode, code: u64, i: u8, symbol: u8) -> (n: HuffmanNode)
        requires
            i <= 64,
        ensures
            n == insert_code(node, code, i as nat, symbol),
        decreases i,
    {
        if i == 0 {
            return node;
        }
        match node {
            HuffmanNode::Leaf { symbol: s } => HuffmanNode::Leaf { symbol: s },
            HuffmanNode::Internal { left, right } => {
                let bit = ((code >> ((i - 1) as u64)) & 1u64) == 1u64;
                if i == 1 {
                    if bit {
                        HuffmanNode::Internal { left, right: Box::new(HuffmanNode::Leaf { symbol }) }
                    } else {
                        HuffmanNode::Internal { left: Box::new(HuffmanNode::Leaf { symbol }), right }
                    }
                } else if bit {
                    let t = Self::descend_into(*right);
                    HuffmanNode::Internal {
                        left,
                        right: Box::new(Self::insert_leaf(t, code, i - 1, symbol)),
                    }
                } else {
                    let t = Self::descend_into(*left);
                    HuffmanNode::Internal {
                        left: Box::new(Self::insert_leaf(t, code, i - 1, symbol)),
                        right,
                    }
                }
            },
        }
    }

    /// Whether the canonical code of these lengths can be built.
    #[verifier::rlimit(40)]
    pub fn supports_code_lengths(lengths: &HashMap<u8, u8>) -> (ok: bool)
        ensures
            ok == lengths_supported(lengths@),
    {
        let entries = Self::sorted_length_entries(lengths);
        let ghost e = entries@;
        let mut current_code: u64 = 0;
        let mut i: usize = 0;
        while i < entries.len()
            invariant
                e == entries@,
                e == sorted_entries(lengths@),
                i <= e.len(),
                forall|j: int|
                    0 <= j < i ==> {
                        &&& (#[trigger] e[j]).1 <= 64
                        &&& canon_code(e, j) < u64::MAX
                        &&& (j > 0 ==> e[j].1 - e[j - 1].1 < 64)
                    },
                i == 0 ==> current_code == 0,
                i > 0 ==> current_code == canon_code(e, i - 1),
            decreases e.len() - i,
        {
            let len = entries[i].1;
            if len > 64 {
                assert(!(e[i as int].1 <= 64));
                return false;
            }
            if i > 0 {
                proof {
                    lemma_entries_sorted(lengths@, i - 1, i as int);
                }
                let d = len - entries[i - 1].1;
                if d >= 64 {
                    assert(!(e[i as int].1 - e[i - 1].1 < 64));
                    return false;
                }
                assert(canon_code(e, i - 1) < u64::MAX);
                current_code = (current_code + 1) << (d as u64);
            }
            assert(current_code == canon_code(e, i as int));
            if current_code == u64::MAX {
                assert(!(canon_code(e, i as int) < u64::MAX));
                return false;
            }
            i = i + 1;
        }
        true
    }

    /// The entries of a length map, by length and then by symbol.
    fn sorted_length_entries(lengths: &HashMap<u8, u8>) -> (entries: Vec<(u8, u8)>)
        ensures
            entries@ == sorted_entries(lengths@),
    {
        let mut entries: Vec<(u8, u8)> = Vec::new();
        let mut l: u16 = 0;
        while l < 256
            invariant
                l <= 256,
                entries@ == entries_below(lengths@, (l * 256) as nat),
            decreases 256 - l,
        {
            let mut s: u16 = 0;
            while s < 256
                invariant
                    l < 256,
                    s <= 256,
                    entries@ == entries_below(lengths@, (l * 256 + s) as nat),
                decreases 256 - s,
            {
                let ghost key = (l * 256 + s) as int;
                proof {
                    lemma_key_split(key, l as int, s as int);
                }
                let sym = s as u8;
                match lengths.get(&sym) {
                    Some(len) => {
                        if *len as u16 == l {
                            entries.push((sym, l as u8));
                        } else {
                            assert(entries_below(lengths@, (key + 1) as nat) =~= entries@);
                        }
                    },
                    None => {
                        assert(entries_below(lengths@, (key + 1) as nat) =~= entries@);
                    },
                }
                s = s + 1;
            }
            l = l + 1;
        }
        entries
    }

    /// Builds the canonical code of the given code lengths: ordered by length
    /// and then by symbol, each code is one more than the one before, shifted
    /// left by as many bits as the length grew. The tree is the one that
    /// inserting each code in that order builds.
    pub fn from_code_lengths(lengths: HashMap<u8, u8>) -> (h: Self)
        requires
            lengths_supported(lengths@),
        ensures
            ({
                let e = sorted_entries(lengths@);
                if lengths@.dom().len() == 0 {
                    h.spec_tree() is None && h.spec_codes() == Map::<u8, (u64, u8)>::empty()
                } else {
                    h.spec_tree() == Some(canonical_tree(e, e.len()))
                        && h.spec_codes() == canonical_codes(e, e.len())
                }
            }),
    {
        let entries = Self::sorted_length_entries(&lengths);
        let ghost e = entries@;
        proof {
            lemma_sorted_entries(lengths@);
            vstd::set_lib::lemma_set_empty_equivalency_len(lengths@.dom());
            if e.len() == 0 {
                assert forall|s: u8| !lengths@.dom().contains(s) by {
                    if lengths@.contains_key(s) {
                        let i = choose|i: int| 0 <= i < e.len() && (#[trigger] e[i]).0 == s;
                    }
                }
                assert(lengths@.dom() =~= Set::<u8>::empty());
            } else {
                assert(lengths@.dom().contains(e[0].0));
            }
        }
        if entries.len() == 0 {
            return Self { codes: HashMap::new(), tree: None };
        }
        let mut codes: HashMap<u8, (u64, u8)> = HashMap::new();
        let mut root = Self::new_internal();
        let mut current_code: u64 = 0;
        let mut last_len: u8 = entries[0].1;
        let mut i: usize = 0;
        while i < entries.len()
            invariant
                e == entries@,
                e == sorted_entries(lengths@),
                e.len() > 0,
                canonical_fits(e),
                i <= e.len(),
                i == 0 ==> current_code == 0 && last_len == e[0].1,
                i > 0 ==> current_code == canon_code(e, i - 1) + 1 && last_len == e[i - 1].1,
                codes@ == canonical_codes(e, i as nat),
                root == canonical_tree(e, i as nat),
            decreases e.len() - i,
        {
            let (symbol, len) = entries[i];
            proof {
                assert(e[i as int].1 <= 64 && canon_code(e, i as int) < u64::MAX);
                if i > 0 {
                    lemma_entries_sorted(lengths@, i - 1, i as int);
                    assert(e[i as int].1 - e[i - 1].1 < 64);
                }
            }
            if len > last_len {
                current_code = current_code << ((len - last_len) as u64);
            }
            proof {
                if i > 0 && len == last_len {
                    let x = (canon_code(e, i - 1) + 1) as u64;
                    assert(x << 0u64 == x) by (bit_vector);
                }
                assert(current_code == canon_code(e, i as int));
            }
            codes.insert(symbol, (current_code, len));
            root = Self::insert_leaf(root, current_code, len, symbol);
            current_code = current_code + 1;
            last_len = len;
            i = i + 1;
        }
        Self { codes, tree: Some(root) }
    }

    /// The length of each symbol's code.
    pub fn get_code_lengths(&self) -> (lengths: HashMap<u8, u8>)
        ensures
            lengths@ == code_lengths(self.spec_codes()),
    {
        let mut lengths: HashMap<u8, u8> = HashMap::new();
        let mut k: u16 = 0;
        while k < 256
            invariant
                k <= 256,
                lengths@ == Map::new(
                    |s: u8| s < k && self.spec_codes().contains_key(s),
                    |s: u8| self.spec_codes()[s].1,
                ),
            decreases 256 - k,
        {
            let s = k as u8;
            match self.codes.get(&s) {
                Some(c) => {
                    lengths.insert(s, c.1);
                },
                None => {},
            }
            k = k + 1;
            proof {
                assert(lengths@ =~= Map::new(
                    |s: u8| s < k && self.spec_codes().contains_key(s),
                    |s: u8| self.spec_codes()[s].1,
                ));
            }
        }
        assert(lengths@ =~= code_lengths(self.spec_codes()));
        lengths
    }

    /// Appends to `output` the codes of `input`, padded with zero bits to a
    /// whole byte. On the first byte that has no code it fails, leaving in
    /// `output` the whole bytes of the codes before it (the bits of an
    /// unfinished byte are dropped).
    pub fn encode(&self, input: &[u8], output: &mut Vec<u8>) -> (res: Result<(), HuffmanError>)
        requires
            codes_fit(self.spec_codes(), input@),
        ensures
            final(output)@.len() >= old(output)@.len(),
            final(output)@.take(old(output)@.len() as int) == old(output)@,
            all_coded(self.spec_codes(), input@) ==> res is Ok && bytes_bits(
                final(output)@.skip(old(output)@.len() as int),
            ) == huff_bits(self.spec_codes(), input@) + zero_bits(
                pad_len(huff_bits(self.spec_codes(), input@).len()),
            ),
            !all_coded(self.spec_codes(), input@) ==> exists|k: int|
                0 <= k < input@.len() && !self.spec_codes().contains_key(#[trigger] input@[k])
                    && all_coded(self.spec_codes(), input@.take(k)) && res == Err::<
                    (),
                    HuffmanError,
                >(HuffmanError::SymbolNotFound(input@[k])) && bytes_bits(
                    final(output)@.skip(old(output)@.len() as int),
                ) == huff_bits(self.spec_codes(), input@.take(k)).take(
                    8 * (huff_bits(self.spec_codes(), input@.take(k)).len() / 8) as int,
                ),
    {
        let ghost codes = self.spec_codes();
        let mut writer = BitWriter::new(Vec::new());
        assert(bytes_bits(Seq::<u8>::empty()) =~= Seq::<bool>::empty());
        assert(input@.take(0) =~= Seq::<u8>::empty());
        let mut i: usize = 0;
        while i < input.len()
            invariant
                writer.wf(),
                writer.pending().len() < 8,
                i <= input.len(),
                codes == self.spec_codes(),
                codes_fit(codes, input@),
                all_coded(codes, input@.take(i as int)),
                writer.written() == huff_bits(codes, input@.take(i as int)),
                output@ == old(output)@,
            decreases input.len() - i,
        {
            let byte = input[i];
            match self.codes.get(&byte) {
                Some(c) => {
                    let (code, bits) = *c;
                    proof {
                        assert(all_coded(codes, input@.take(i + 1))) by {
                            assert forall|j: int| 0 <= j < i + 1 implies codes.contains_key(
                                #[trigger] input@.take(i + 1)[j],
                            ) by {
                                if j < i {
                                    assert(input@.take(i as int)[j] == input@.take(i + 1)[j]);
                                }
                            }
                        }
                        assert(bits <= 64);
                        lemma_huff_bits_push(codes, input@.take(i as int), byte);
                        assert(input@.take(i as int).push(byte) =~= input@.take(i + 1));
                    }
                    writer.write_bits(code, bits);
                },
                None => {
                    proof {
                        writer.lemma_split();
                        let l = writer.written().len() as int;
                        let n = writer.bytes().len() as int;
                        assert(8 * n == 8 * (l / 8)) by (nonlinear_arith)
                            requires
                                8 * n == l - l % 8,
                                l >= 0,
                        ;
                    }
                    let mut bytes = writer.into_inner();
                    let ghost before = output@;
                    let ghost produced = bytes@;
                    output.append(&mut bytes);
                    proof {
                        assert(output@.take(before.len() as int) =~= before);
                        assert(output@.skip(before.len() as int) =~= produced);
                    }
                    return Err(HuffmanError::SymbolNotFound(byte));
                },
            }
            i = i + 1;
        }
        assert(input@.take(i as int) =~= input@);
        writer.flush_bits();
        let mut bytes = writer.into_inner();
        let ghost before = output@;
        let ghost produced = bytes@;
        output.append(&mut bytes);
        assert(output@.take(before.len() as int) =~= before);
        assert(output@.skip(before.len() as int) =~= produced);
        Ok(())
    }

    /// Follows bits from the reader down the tree to a leaf.
    fn decode_symbol(node: &HuffmanNode, reader: &mut BitReader) -> (res: Option<u8>)
        requires
            old(reader).wf(),
        ensures
            final(reader).wf(),
            match walk(*node, old(reader).remaining()) {
                Some((s, k)) => res == Some(s) && final(reader).remaining() == old(
                    reader,
                ).remaining().skip(k as int),
                None => res is None,
            },
        decreases node,
    {
        match node {
            HuffmanNode::Leaf { symbol } => {
                assert(reader.remaining().skip(0) =~= reader.remaining());
                Some(*symbol)
            },
            HuffmanNode::Internal { left, right } => {
                let ghost bits = reader.remaining();
                match reader.read_bit() {
                    None => None,
                    Some(bit) => {
                        let ghost rest = reader.remaining();
                        let r = if bit {
                            Self::decode_symbol(right, reader)
                        } else {
                            Self::decode_symbol(left, reader)
                        };
                        proof {
                            if let Some((s, k)) = walk(if bit { **right } else { **left }, rest) {
                                crate::huffman_tree::lemma_walk_len(if bit { **right } else { **left }, rest);
                                assert(rest.skip(k as int) =~= bits.skip(k + 1 as int));
                            }
                        }
                        r
                    },
                }
            },
        }
    }

    /// Decodes `original_size` symbols from `input`, appending each to
    /// `output` as it is decoded; when the bits run out in the middle of a
    /// code, the symbols decoded before stay in `output`.
    pub fn decode(&self, input: &[u8], output: &mut Vec<u8>, original_size: u64) -> (res: Result<
        (),
        HuffmanError,
    >)
        ensures
            match self.spec_tree() {
                None => res == Err::<(), HuffmanError>(HuffmanError::EmptyTree) && final(output)@
                    == old(output)@,
                Some(root) => {
                    &&& final(output)@ == old(output)@ + huff_decoded(
                        root,
                        bytes_bits(input@),
                        original_size as nat,
                    )
                    &&& match huff_decode(root, bytes_bits(input@), original_size as nat) {
                        Ok(s) => res is Ok && final(output)@ == old(output)@ + s,
                        Err(e) => res == Err::<(), HuffmanError>(e),
                    }
                },
            },
    {
        let root = match &self.tree {
            Some(r) => r,
            None => {
                return Err(HuffmanError::EmptyTree);
            },
        };
        let ghost bits = bytes_bits(input@);
        let ghost outcome = huff_decode(*root, bits, original_size as nat);
        let ghost decoded = huff_decoded(*root, bits, original_size as nat);
        proof {
            lemma_decoded_agrees(*root, bits, original_size as nat, Seq::empty());
        }
        let mut reader = BitReader::new(vstd::slice::slice_to_vec(input));
        let mut out: Vec<u8> = Vec::new();
        let mut left: u64 = original_size;
        while left > 0
            invariant
                reader.wf(),
                self.tree == Some(*root),
                bits == bytes_bits(input@),
                outcome == huff_decode(*root, bits, original_size as nat),
                decoded == huff_decoded(*root, bits, original_size as nat),
                huff_decode_from(*root, reader.remaining(), left as nat, out@) == outcome,
                huff_decoded_from(*root, reader.remaining(), left as nat, out@) == decoded,
                output@ == old(output)@,
            decreases left,
        {
            match Self::decode_symbol(root, &mut reader) {
                Some(s) => {
                    out.push(s);
                },
                None => {
                    output.append(&mut out);
                    return Err(HuffmanError::UnexpectedEof);
                },
            }
            left = left - 1;
        }
        output.append(&mut out);
        Ok(())
    }
}

} // verus!
