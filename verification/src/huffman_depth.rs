//! How deep Huffman's algorithm can build a tree: a tree of height `h` weighs
//! at least the Fibonacci number `fib(h + 2)`, so light inputs give short codes.
use crate::huffman::{
    forest_below, greedy_run, greedy_step, heap_weight, initial_forest, lemma_heap_append,
    lemma_heap_remove, lightest, merge_step, total_weight, weight_below,
};
use crate::canonical::lemma_canonical_round_trip;
use crate::huffman::{canonical_codes, canonical_tree, codes_fit, lengths_supported, sorted_entries};
use crate::huffman_tree::{
    HuffmanError, HuffmanNode, all_coded, code_lengths, height, huff_bits, huff_decode, leaves,
    lemma_codes_from_paths, lemma_huffman_round_trip, lemma_tree_paths, tree_codes, tree_paths,
};
use vstd::arithmetic::power2::pow2;
use vstd::prelude::*;

verus! {

/// The Fibonacci numbers: 0, 1, 1, 2, 3, 5, ...
pub open spec fn fib(n: nat) -> nat
    decreases n,
{
    if n < 2 {
        n
    } else {
        fib((n - 1) as nat) + fib((n - 2) as nat)
    }
}

/// The sum of the weights of a tree's leaves.
pub open spec fn leaf_weight(m: Map<u8, u64>, node: HuffmanNode) -> nat
    decreases node,
{
    match node {
        HuffmanNode::Leaf { symbol } => m[symbol] as nat,
        HuffmanNode::Internal { left, right } => leaf_weight(m, *left) + leaf_weight(m, *right),
    }
}

/// Every subtree weighs at least `fib(height + 2)`.
pub open spec fn heavy(m: Map<u8, u64>, node: HuffmanNode) -> bool
    decreases node,
{
    &&& leaf_weight(m, node) >= fib(height(node) + 2)
    &&& match node {
        HuffmanNode::Leaf { .. } => true,
        HuffmanNode::Internal { left, right } => heavy(m, *left) && heavy(m, *right),
    }
}

/// The weight of the heavier child (zero for a leaf).
pub open spec fn max_child_weight(m: Map<u8, u64>, node: HuffmanNode) -> nat {
    match node {
        HuffmanNode::Leaf { .. } => 0,
        HuffmanNode::Internal { left, right } => {
            let l = leaf_weight(m, *left);
            let r = leaf_weight(m, *right);
            if l >= r {
                l
            } else {
                r
            }
        },
    }
}

/// What holds of every forest of a run: the weights are the leaves' weights
/// and add up to `total`, every tree is heavy, and no tree weighs less than
/// the heavier child of another.
pub open spec fn forest_ok(m: Map<u8, u64>, f: Seq<(HuffmanNode, u64)>, total: nat) -> bool {
    &&& heap_weight(f) == total
    &&& forall|p: int|
        0 <= p < f.len() ==> (#[trigger] f[p]).1 == leaf_weight(m, f[p].0) && heavy(m, f[p].0)
    &&& forall|p: int, q: int|
        0 <= p < f.len() && 0 <= q < f.len() && p != q ==> max_child_weight(m, (#[trigger] f[p]).0)
            <= (#[trigger] f[q]).1
}

proof fn lemma_fib_pos(n: nat)
    requires
        n >= 1,
    ensures
        fib(n) >= 1,
    decreases n,
{
    if n == 2 {
        assert(fib(2) == fib(1) + fib(0));
    } else if n >= 3 {
        lemma_fib_pos((n - 1) as nat);
        assert(fib(n) == fib((n - 1) as nat) + fib((n - 2) as nat));
    }
}

proof fn lemma_fib_mono(a: nat, b: nat)
    requires
        a <= b,
    ensures
        fib(a) <= fib(b),
    decreases b - a,
{
    if a < b {
        lemma_fib_mono(a, (b - 1) as nat);
        if b >= 2 {
            assert(fib(b) == fib((b - 1) as nat) + fib((b - 2) as nat));
        }
    }
}

proof fn lemma_fib_pow2(k: nat)
    ensures
        fib(2 * k + 1) >= pow2(k),
    decreases k,
{
    vstd::arithmetic::power2::lemma_pow2_pos(k);
    if k == 0 {
        assert(pow2(0) == 1) by {
            vstd::arithmetic::power2::lemma2_to64();
        }
    } else {
        let j = (k - 1) as nat;
        lemma_fib_pow2(j);
        lemma_fib_mono(2 * j + 1, 2 * j + 2);
        assert(fib(2 * k + 1) == fib(2 * j + 2) + fib(2 * j + 1));
        vstd::arithmetic::power2::lemma_pow2_unfold(k);
    }
}

proof fn lemma_forest_below(m: Map<u8, u64>, k: nat)
    ensures
        heap_weight(forest_below(m, k)) == weight_below(m, k),
        forall|p: int|
            0 <= p < forest_below(m, k).len() ==> {
                let e = #[trigger] forest_below(m, k)[p];
                &&& e.0 is Leaf
                &&& m.contains_key(e.0->symbol)
                &&& e.1 == m[e.0->symbol]
            },
    decreases k,
{
    if k > 0 {
        lemma_forest_below(m, (k - 1) as nat);
        let s = (k - 1) as u8;
        let prev = forest_below(m, (k - 1) as nat);
        let add = if m.contains_key(s) {
            seq![(HuffmanNode::Leaf { symbol: s }, m[s])]
        } else {
            Seq::empty()
        };
        lemma_heap_append(prev, add);
        if m.contains_key(s) {
            assert(add.drop_last() =~= Seq::<(HuffmanNode, u64)>::empty());
            assert(heap_weight(Seq::<(HuffmanNode, u64)>::empty()) == 0);
        }
        assert forall|p: int| 0 <= p < forest_below(m, k).len() implies {
            let e = #[trigger] forest_below(m, k)[p];
            &&& e.0 is Leaf
            &&& m.contains_key(e.0->symbol)
            &&& e.1 == m[e.0->symbol]
        } by {
            if p < prev.len() {
                assert(forest_below(m, k)[p] == prev[p]);
            } else {
                assert(forest_below(m, k)[p] == add[p - prev.len()]);
            }
        }
    }
}

/// The heavy child of a tree of height `h + 1` weighs at least `fib(h + 2)`.
proof fn lemma_max_child(m: Map<u8, u64>, node: HuffmanNode)
    requires
        heavy(m, node),
        node is Internal,
    ensures
        max_child_weight(m, node) >= fib(height(node) + 1),
{
    if let HuffmanNode::Internal { left, right } = node {
        assert(heavy(m, *left) && heavy(m, *right));
        assert(leaf_weight(m, *left) >= fib(height(*left) + 2));
        assert(leaf_weight(m, *right) >= fib(height(*right) + 2));
        if height(*left) >= height(*right) {
            assert(height(node) == height(*left) + 1);
        } else {
            assert(height(node) == height(*right) + 1);
        }
    }
}

/// The forest at position `p` of what is left after removing entry `i`.
pub open spec fn skip_index(p: int, i: int) -> int {
    if p < i {
        p
    } else {
        p + 1
    }
}

/// Joining a lightest tree with the next lightest gives a heavy tree.
proof fn lemma_merge_heavy(m: Map<u8, u64>, a: HuffmanNode, b: HuffmanNode, wa: nat, wb: nat)
    requires
        heavy(m, a),
        heavy(m, b),
        wa == leaf_weight(m, a),
        wb == leaf_weight(m, b),
        wa <= wb,
        max_child_weight(m, a) <= wb,
        max_child_weight(m, b) <= wa,
    ensures
        heavy(m, HuffmanNode::Internal { left: Box::new(a), right: Box::new(b) }),
        leaf_weight(m, HuffmanNode::Internal { left: Box::new(a), right: Box::new(b) }) == wa + wb,
{
    let u = HuffmanNode::Internal { left: Box::new(a), right: Box::new(b) };
    let ha = height(a);
    let hb = height(b);
    if ha >= hb {
        assert(height(u) == ha + 1);
        if ha == 0 {
            lemma_fib_pos(hb + 2);
            assert(fib(3) == 2) by {
                reveal_with_fuel(fib, 4);
            }
            assert(fib(2) == 1) by {
                reveal_with_fuel(fib, 3);
            }
        } else {
            lemma_max_child(m, a);
        }
        assert(fib(ha + 3) == fib(ha + 2) + fib(ha + 1));
    } else {
        assert(height(u) == hb + 1);
        lemma_max_child(m, b);
        assert(fib(hb + 3) == fib(hb + 2) + fib(hb + 1));
    }
}

/// A greedy step keeps a forest in order.
#[verifier::rlimit(60)]
proof fn lemma_step_ok(m: Map<u8, u64>, f: Seq<(HuffmanNode, u64)>, g: Seq<(HuffmanNode, u64)>, total: nat)
    requires
        forest_ok(m, f, total),
        total <= u64::MAX,
        greedy_step(f, g),
    ensures
        forest_ok(m, g, total),
{
    let (i, j) = choose|i: int, j: int|
        lightest(f, i) && lightest(f.remove(i), j) && g == #[trigger] merge_step(f, i, j);
    let a = f[i];
    let f1 = f.remove(i);
    let b = f1[j];
    let f2 = f1.remove(j);
    let bi = skip_index(j, i);
    assert(f1[j] == f[bi]);
    assert(bi != i);
    lemma_heap_remove(f, i);
    lemma_heap_remove(f1, j);
    let w = (a.1 + b.1) as u64;
    assert(w == a.1 + b.1);
    let u = HuffmanNode::Internal { left: Box::new(a.0), right: Box::new(b.0) };
    assert(g == f2.push((u, w)));
    assert(g.drop_last() =~= f2);
    // where the old entries of g come from
    assert forall|p: int| 0 <= p < f2.len() implies #[trigger] f2[p] == f[skip_index(
        skip_index(p, j),
        i,
    )] && skip_index(skip_index(p, j), i) != i && skip_index(skip_index(p, j), i) != bi by {}
    assert(a.1 <= b.1) by {
        assert(lightest(f, i));
        assert(f[bi].1 >= f[i].1);
    }
    // the new tree is heavy
    assert(max_child_weight(m, f[i].0) <= f[bi].1);
    assert(max_child_weight(m, f[bi].0) <= f[i].1);
    lemma_merge_heavy(m, a.0, b.0, a.1 as nat, b.1 as nat);
    assert forall|p: int| 0 <= p < g.len() implies (#[trigger] g[p]).1 == leaf_weight(m, g[p].0)
        && heavy(m, g[p].0) by {
        if p < f2.len() {
            assert(g[p] == f2[p]);
        }
    }
    assert forall|p: int, q: int|
        0 <= p < g.len() && 0 <= q < g.len() && p != q implies max_child_weight(
        m,
        (#[trigger] g[p]).0,
    ) <= (#[trigger] g[q]).1 by {
        if p < f2.len() && q < f2.len() {
            assert(g[p] == f2[p] && g[q] == f2[q]);
            assert(f2[p] == f[skip_index(skip_index(p, j), i)]);
            assert(f2[q] == f[skip_index(skip_index(q, j), i)]);
        } else if p < f2.len() {
            assert(g[p] == f2[p]);
            let pp = skip_index(skip_index(p, j), i);
            assert(f2[p] == f[pp]);
            assert(max_child_weight(m, f[pp].0) <= f[i].1);
        } else if q < f2.len() {
            assert(g[q] == f2[q]);
            let q1 = skip_index(q, j);
            assert(f2[q] == f1[q1]);
            assert(lightest(f1, j));
            assert(f1[j].1 <= f1[q1].1);
        }
    }
    assert(heap_weight(g) == total);
}

/// Every forest of a run from the leaves of positive weights is in order.
proof fn lemma_run_ok(m: Map<u8, u64>, trace: Seq<Seq<(HuffmanNode, u64)>>, k: int)
    requires
        greedy_run(trace),
        trace[0] == initial_forest(m),
        forall|s: u8| #[trigger] m.contains_key(s) ==> m[s] >= 1,
        total_weight(m) <= u64::MAX,
        0 <= k < trace.len(),
    ensures
        forest_ok(m, trace[k], total_weight(m)),
    decreases k,
{
    if k == 0 {
        lemma_forest_below(m, 256);
        let f = trace[0];
        assert forall|p: int| 0 <= p < f.len() implies (#[trigger] f[p]).1 == leaf_weight(m, f[p].0)
            && heavy(m, f[p].0) by {
            assert(fib(2) == 1) by {
                reveal_with_fuel(fib, 3);
            }
        }
    } else {
        lemma_run_ok(m, trace, k - 1);
        assert(greedy_step(trace[k - 1], trace[k]));
        lemma_step_ok(m, trace[k - 1], trace[k], total_weight(m));
    }
}

/// A tree that Huffman's algorithm builds from positive weights that add up
/// to less than 2^32 is at most 62 levels high, so every code fits in 62 bits.
pub proof fn lemma_huffman_height(m: Map<u8, u64>, trace: Seq<Seq<(HuffmanNode, u64)>>)
    requires
        greedy_run(trace),
        trace[0] == initial_forest(m),
        forall|s: u8| #[trigger] m.contains_key(s) ==> m[s] >= 1,
        total_weight(m) < 0x1_0000_0000,
    ensures
        height(trace.last()[0].0) <= 62,
{
    let k = trace.len() - 1;
    lemma_run_ok(m, trace, k);
    let f = trace[k];
    let root = f[0].0;
    assert(f.drop_last() =~= Seq::<(HuffmanNode, u64)>::empty());
    assert(heap_weight(Seq::<(HuffmanNode, u64)>::empty()) == 0);
    assert(f[0].1 == total_weight(m));
    assert(fib(height(root) + 2) <= total_weight(m));
    if height(root) > 62 {
        lemma_fib_mono(65, height(root) + 2);
        lemma_fib_pow2(32);
        vstd::arithmetic::power2::lemma2_to64();
    }
}

/// A Huffman code built from positive frequencies that add up to less than
/// 2^32 decodes what it encodes, whatever padding follows; so does the
/// canonical code of its code lengths.
pub proof fn lemma_frequencies_round_trip(
    m: Map<u8, u64>,
    trace: Seq<Seq<(HuffmanNode, u64)>>,
    root: HuffmanNode,
    data: Seq<u8>,
    padding: Seq<bool>,
)
    requires
        greedy_run(trace),
        trace[0] == initial_forest(m),
        trace.last()[0].0 == root,
        leaves(root).no_duplicates(),
        leaves(root).to_set() == m.dom(),
        forall|s: u8| #[trigger] m.contains_key(s) ==> m[s] >= 1,
        total_weight(m) < 0x1_0000_0000,
        forall|i: int| 0 <= i < data.len() ==> m.contains_key(#[trigger] data[i]),
    ensures
        all_coded(tree_codes(root), data),
        codes_fit(tree_codes(root), data),
        huff_decode(root, huff_bits(tree_codes(root), data) + padding, data.len()) == Ok::<
            Seq<u8>,
            HuffmanError,
        >(data),
        ({
            let lengths = code_lengths(tree_codes(root));
            let e = sorted_entries(lengths);
            let codes = canonical_codes(e, e.len());
            &&& lengths.dom().len() > 0
            &&& lengths_supported(lengths)
            &&& all_coded(codes, data)
            &&& codes_fit(codes, data)
            &&& huff_decode(canonical_tree(e, e.len()), huff_bits(codes, data) + padding, data.len())
                == Ok::<Seq<u8>, HuffmanError>(data)
        }),
{
    lemma_huffman_height(m, trace);
    lemma_tree_paths(root);
    lemma_codes_from_paths(root, Seq::empty());
    assert forall|i: int| 0 <= i < data.len() implies tree_paths(root).contains_key(
        #[trigger] data[i],
    ) by {
        assert(m.contains_key(data[i]));
        assert(leaves(root).to_set().contains(data[i]));
    }
    assert forall|s: u8| #[trigger] tree_paths(root).contains_key(s) implies tree_paths(
        root,
    )[s].len() <= 63 by {}
    lemma_huffman_round_trip(root, data, padding);
    assert forall|i: int|
        0 <= i < data.len() && all_coded(tree_codes(root), data.take(i + 1)) implies tree_codes(
        root,
    )[#[trigger] data[i]].1 <= 64 by {
        let p = tree_paths(root)[data[i]];
        assert(Seq::<bool>::empty() + p =~= p);
    }
    lemma_canonical_round_trip(root, data, padding);
}

} // verus!
