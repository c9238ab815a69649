//! Why the canonical code of a Huffman tree's code lengths decodes: the
//! lengths satisfy Kraft's inequality, so the canonical codes are prefix-free,
//! so inserting them into a tree puts each at its own leaf.
use crate::bits::{lemma_value_bits_round_trip, value_bits};
use crate::huffman::{
    canon_code, canonical_codes, canonical_tree, codes_fit, descend, insert_code,
    lemma_entries_sorted, lemma_sorted_entries, lengths_supported, sorted_entries,
};
use crate::huffman_tree::{
    HuffmanError, HuffmanNode, all_coded, code_lengths, codes_decodable, height, huff_bits,
    huff_decode, leaves, lemma_codes_from_paths, lemma_decode_codes, lemma_tree_paths, tree_codes,
    tree_paths, walk,
};
use vstd::arithmetic::power2::{lemma_pow2_adds, lemma_pow2_pos, lemma_pow2_strictly_increases, pow2};
use vstd::prelude::*;

verus! {

/// The two bit sequences differ at a position that both have, so neither is
/// a prefix of the other.
pub open spec fn diverge(p: Seq<bool>, q: Seq<bool>) -> bool {
    exists|d: int| 0 <= d < p.len() && d < q.len() && p[d] != q[d]
}

proof fn lemma_value_bits_drop_first(code: u64, i: nat)
    requires
        i >= 1,
    ensures
        value_bits(code, i).drop_first() == value_bits(code, (i - 1) as nat),
        value_bits(code, i)[0] == (((code >> ((i - 1) as u64)) & 1u64) == 1u64),
{
    assert(value_bits(code, i).drop_first() =~= value_bits(code, (i - 1) as nat));
}

/// Inserting a code puts its symbol at the end of its path.
proof fn lemma_insert_walk_new(node: HuffmanNode, code: u64, i: nat, s: u8, rest: Seq<bool>)
    requires
        node is Internal,
        1 <= i <= 64,
    ensures
        walk(insert_code(node, code, i, s), value_bits(code, i) + rest) == Some((s, i)),
    decreases i,
{
    let p = value_bits(code, i);
    lemma_value_bits_drop_first(code, i);
    assert((p + rest).drop_first() =~= value_bits(code, (i - 1) as nat) + rest);
    assert((p + rest)[0] == p[0]);
    if let HuffmanNode::Internal { left, right } = node {
        let bit = p[0];
        let bits = p + rest;
        let tail = value_bits(code, (i - 1) as nat) + rest;
        if i == 1 {
            let leaf = HuffmanNode::Leaf { symbol: s };
            assert(walk(leaf, tail) == Some((s, 0nat)));
            if bit {
                assert(insert_code(node, code, i, s) == HuffmanNode::Internal { left, right: Box::new(leaf) });
            } else {
                assert(insert_code(node, code, i, s) == HuffmanNode::Internal { left: Box::new(leaf), right });
            }
        } else {
            if bit {
                let c = insert_code(descend(*right), code, (i - 1) as nat, s);
                lemma_insert_walk_new(descend(*right), code, (i - 1) as nat, s, rest);
                assert(insert_code(node, code, i, s) == HuffmanNode::Internal { left, right: Box::new(c) });
                assert(walk(c, tail) == Some((s, (i - 1) as nat)));
            } else {
                let c = insert_code(descend(*left), code, (i - 1) as nat, s);
                lemma_insert_walk_new(descend(*left), code, (i - 1) as nat, s, rest);
                assert(insert_code(node, code, i, s) == HuffmanNode::Internal { left: Box::new(c), right });
                assert(walk(c, tail) == Some((s, (i - 1) as nat)));
            }
        }
    }
}

/// Inserting a code leaves the walk of any path that diverges from it unchanged.
proof fn lemma_insert_walk_other(
    node: HuffmanNode,
    code: u64,
    i: nat,
    s: u8,
    q: Seq<bool>,
    rest: Seq<bool>,
    t: u8,
)
    requires
        i <= 64,
        walk(node, q + rest) == Some((t, q.len())),
        diverge(value_bits(code, i), q),
    ensures
        walk(insert_code(node, code, i, s), q + rest) == Some((t, q.len())),
    decreases i,
{
    let p = value_bits(code, i);
    let d = choose|d: int| 0 <= d < p.len() && d < q.len() && p[d] != q[d];
    lemma_value_bits_drop_first(code, i);
    let qr = q + rest;
    assert(qr[0] == q[0]);
    assert(qr.drop_first() =~= q.drop_first() + rest);
    match node {
        HuffmanNode::Leaf { .. } => {
            assert(false);
        },
        HuffmanNode::Internal { left, right } => {
            if p[0] == q[0] {
                assert(d >= 1);
                let q1 = q.drop_first();
                let p1 = value_bits(code, (i - 1) as nat);
                assert(p1[d - 1] != q1[d - 1]);
                assert(diverge(p1, q1));
                let c = if q[0] {
                    *right
                } else {
                    *left
                };
                assert(walk(c, q1 + rest) == Some((t, q1.len())));
                if c is Leaf {
                    assert(false);
                }
                assert(descend(c) == c);
                lemma_insert_walk_other(c, code, (i - 1) as nat, s, q1, rest, t);
            }
        },
    }
}

/// Inserting into an internal node leaves an internal node.
proof fn lemma_insert_internal(node: HuffmanNode, code: u64, i: nat, s: u8)
    requires
        node is Internal,
    ensures
        insert_code(node, code, i, s) is Internal,
{
}

/// When the first `n` canonical codes pairwise diverge, each walks through
/// the tree they build to its own symbol.
pub proof fn lemma_canonical_tree_walks(e: Seq<(u8, u8)>, n: nat)
    requires
        n <= e.len(),
        forall|i: int| 0 <= i < n ==> 1 <= (#[trigger] e[i]).1 <= 64,
        forall|i: int, j: int|
            0 <= i < j < n ==> diverge(
                value_bits(canon_code(e, i), e[i].1 as nat),
                value_bits(canon_code(e, j), e[j].1 as nat),
            ),
    ensures
        canonical_tree(e, n) is Internal,
        forall|j: int, rest: Seq<bool>|
            0 <= j < n ==> #[trigger] walk(
                canonical_tree(e, n),
                value_bits(canon_code(e, j), e[j].1 as nat) + rest,
            ) == Some((e[j].0, e[j].1 as nat)),
    decreases n,
{
    if n > 0 {
        let m = (n - 1) as nat;
        lemma_canonical_tree_walks(e, m);
        let prev = canonical_tree(e, m);
        let k = n - 1;
        let code = canon_code(e, k);
        let len = e[k].1 as nat;
        lemma_insert_internal(prev, code, len, e[k].0);
        assert forall|j: int, rest: Seq<bool>| 0 <= j < n implies #[trigger] walk(
            canonical_tree(e, n),
            value_bits(canon_code(e, j), e[j].1 as nat) + rest,
        ) == Some((e[j].0, e[j].1 as nat)) by {
            if j == k {
                lemma_insert_walk_new(prev, code, len, e[k].0, rest);
            } else {
                let q = value_bits(canon_code(e, j), e[j].1 as nat);
                let p = value_bits(code, len);
                assert(diverge(q, p));
                let d = choose|d: int| 0 <= d < q.len() && d < p.len() && q[d] != p[d];
                assert(diverge(p, q));
                assert(walk(prev, q + rest) == Some((e[j].0, e[j].1 as nat)));
                lemma_insert_walk_other(prev, code, len, e[k].0, q, rest, e[j].0);
            }
        }
    }
}

/// With distinct symbols, the code of each entry's symbol is that entry's code.
pub proof fn lemma_canonical_codes_at(e: Seq<(u8, u8)>, n: nat, j: int)
    requires
        n <= e.len(),
        0 <= j < n,
        forall|a: int, b: int| 0 <= a < b < e.len() ==> (#[trigger] e[a]).0 != (#[trigger] e[b]).0,
    ensures
        canonical_codes(e, n).contains_key(e[j].0),
        canonical_codes(e, n)[e[j].0] == (canon_code(e, j), e[j].1),
    decreases n,
{
    if j < n - 1 {
        lemma_canonical_codes_at(e, (n - 1) as nat, j);
        assert(e[j].0 != e[n - 1].0);
    }
}

/// Every symbol with a canonical code is the symbol of an entry.
pub proof fn lemma_canonical_codes_dom(e: Seq<(u8, u8)>, n: nat, s: u8)
    requires
        n <= e.len(),
        canonical_codes(e, n).contains_key(s),
    ensures
        exists|j: int| 0 <= j < n && (#[trigger] e[j]).0 == s,
    decreases n,
{
    if n > 0 && e[n - 1].0 != s {
        lemma_canonical_codes_dom(e, (n - 1) as nat, s);
        let j = choose|j: int| 0 <= j < n - 1 && (#[trigger] e[j]).0 == s;
        assert(e[j].0 == s);
    }
}

/// Pairwise diverging canonical codes of distinct symbols decode with their tree.
pub proof fn lemma_canonical_decodable(e: Seq<(u8, u8)>)
    requires
        forall|i: int| 0 <= i < e.len() ==> 1 <= (#[trigger] e[i]).1 <= 64,
        forall|a: int, b: int| 0 <= a < b < e.len() ==> (#[trigger] e[a]).0 != (#[trigger] e[b]).0,
        forall|i: int, j: int|
            0 <= i < j < e.len() ==> diverge(
                value_bits(canon_code(e, i), e[i].1 as nat),
                value_bits(canon_code(e, j), e[j].1 as nat),
            ),
    ensures
        codes_decodable(canonical_tree(e, e.len()), canonical_codes(e, e.len())),
{
    let n = e.len();
    let tree = canonical_tree(e, n);
    let codes = canonical_codes(e, n);
    lemma_canonical_tree_walks(e, n);
    assert forall|s: u8, rest: Seq<bool>| codes.contains_key(s) implies walk(
        tree,
        value_bits(codes[s].0, codes[s].1 as nat) + rest,
    ) == Some((s, codes[s].1 as nat)) by {
        lemma_canonical_codes_dom(e, n, s);
        let j = choose|j: int| 0 <= j < n && (#[trigger] e[j]).0 == s;
        lemma_canonical_codes_at(e, n, j);
        assert(walk(tree, value_bits(canon_code(e, j), e[j].1 as nat) + rest) == Some(
            (e[j].0, e[j].1 as nat),
        ));
    }
}

/// Kraft's sum of the first `n` entries, scaled by 2^64: each entry of length
/// `l` counts 2^(64 - l).
pub open spec fn kraft_prefix(e: Seq<(u8, u8)>, n: nat) -> nat
    decreases n,
{
    if n == 0 {
        0
    } else {
        kraft_prefix(e, (n - 1) as nat) + pow2((64 - e[n - 1].1) as nat)
    }
}

/// Entries ordered by length, each between 1 and 64 bits, whose scaled
/// Kraft sum is at most 2^64.
pub open spec fn kraft_ok(e: Seq<(u8, u8)>) -> bool {
    &&& forall|i: int| 0 <= i < e.len() ==> 1 <= (#[trigger] e[i]).1 <= 64
    &&& forall|a: int, b: int| 0 <= a < b < e.len() ==> (#[trigger] e[a]).1 <= (#[trigger] e[b]).1
    &&& kraft_prefix(e, e.len()) <= pow2(64)
}

proof fn lemma_kraft_prefix_mono(e: Seq<(u8, u8)>, i: nat, j: nat)
    requires
        i <= j <= e.len(),
    ensures
        kraft_prefix(e, i) <= kraft_prefix(e, j),
    decreases j - i,
{
    if i < j {
        lemma_kraft_prefix_mono(e, i, (j - 1) as nat);
    }
}

proof fn lemma_pow2_64()
    ensures
        pow2(64) == 0x1_0000_0000_0000_0000,
        u64::MAX == pow2(64) - 1,
{
    vstd::arithmetic::power2::lemma2_to64();
}

/// The canonical code of entry `i`, aligned to 64 bits, is the Kraft sum of
/// the entries before it; and it fits in its length.
pub proof fn lemma_canon_code_value(e: Seq<(u8, u8)>, i: int)
    requires
        kraft_ok(e),
        0 <= i < e.len(),
    ensures
        canon_code(e, i) * pow2((64 - e[i].1) as nat) == kraft_prefix(e, i as nat),
        canon_code(e, i) < pow2(e[i].1 as nat),
    decreases i,
{
    lemma_pow2_64();
    lemma_pow2_pos(e[i].1 as nat);
    if i == 0 {
        assert(canon_code(e, 0) == 0);
        assert(kraft_prefix(e, 0) == 0);
    } else {
        lemma_canon_code_value(e, i - 1);
        let c = canon_code(e, i - 1) as int;
        let lp = e[i - 1].1 as nat;
        let li = e[i].1 as nat;
        assert(lp <= li);
        let d = (li - lp) as nat;
        let q = pow2((64 - li) as nat) as int;
        let qp = pow2((64 - lp) as nat) as int;
        lemma_pow2_pos((64 - li) as nat);
        lemma_pow2_pos(d);
        lemma_pow2_adds(d, (64 - li) as nat);
        assert(d + (64 - li) == 64 - lp);
        assert(qp == pow2(d) * q);
        lemma_pow2_adds(li, (64 - li) as nat);
        assert(pow2(64) == pow2(li) * q);
        let ki = kraft_prefix(e, i as nat) as int;
        assert(ki == c * qp + qp);
        lemma_kraft_prefix_mono(e, (i + 1) as nat, e.len());
        assert(ki + q <= pow2(64));
        let x = (c + 1) * pow2(d);
        assert(ki == x * q) by (nonlinear_arith)
            requires
                ki == c * qp + qp,
                qp == pow2(d) * q,
                x == (c + 1) * pow2(d),
        ;
        assert(x < pow2(li)) by (nonlinear_arith)
            requires
                ki == x * q,
                ki + q <= pow2(64),
                pow2(64) == pow2(li) * q,
                q > 0,
        ;
        assert(c + 1 <= x) by (nonlinear_arith)
            requires
                x == (c + 1) * pow2(d),
                pow2(d) > 0,
                c >= 0,
        ;
        if li < 64 {
            lemma_pow2_strictly_increases(li, 64);
        }
        assert(x <= u64::MAX);
        let cu = (c + 1) as u64;
        assert(cu as int == c + 1);
        assert(d < 64);
        vstd::bits::lemma_u64_shl_is_mul(cu, d as u64);
        assert(canon_code(e, i) == cu << (d as u64));
        assert(canon_code(e, i) as int == x);
        assert(canon_code(e, i) * pow2((64 - e[i].1) as nat) == ki);
    }
}

/// A value below 2^l is below `1 << l`.
proof fn lemma_pow2_shift(l: nat)
    requires
        l < 64,
    ensures
        pow2(l) == (1u64 << (l as u64)),
{
    vstd::bits::lemma_u64_pow2_no_overflow(l);
    vstd::bits::lemma_u64_shl_is_mul(1u64, l as u64);
}

/// The top `l` of `n` bits of `c` are the bits of `c >> (n - l)`.
proof fn lemma_value_bits_take(c: u64, n: nat, l: nat)
    requires
        l <= n <= 64,
    ensures
        value_bits(c, n).take(l as int) == value_bits(c >> ((n - l) as u64), l),
{
    let a = value_bits(c, n).take(l as int);
    let b = value_bits(c >> ((n - l) as u64), l);
    assert forall|k: int| 0 <= k < l implies a[k] == b[k] by {
        let s1 = (n - l) as u64;
        let s2 = (l - 1 - k) as u64;
        assert(((n - 1 - k) as u64) == s1 + s2);
        assert(((c >> (s1 + s2)) & 1u64) == (((c >> s1) >> s2) & 1u64)) by (bit_vector)
            requires
                s1 + s2 < 64,
        ;
    }
    assert(a =~= b);
}

/// Two different values that fit in `l` bits have different `l`-bit sequences.
proof fn lemma_value_bits_differ(x: u64, y: u64, l: nat)
    requires
        1 <= l <= 64,
        x < pow2(l),
        y < pow2(l),
        x != y,
    ensures
        diverge(value_bits(x, l), value_bits(y, l)),
{
    if l < 64 {
        lemma_pow2_shift(l);
    }
    lemma_value_bits_round_trip(x, l);
    lemma_value_bits_round_trip(y, l);
    let p = value_bits(x, l);
    let q = value_bits(y, l);
    if !diverge(p, q) {
        assert forall|d: int| 0 <= d < l implies p[d] == q[d] by {}
        assert(p =~= q);
    }
}

/// Canonical codes of entries that satisfy Kraft's inequality are prefix-free.
pub proof fn lemma_canon_codes_diverge(e: Seq<(u8, u8)>, i: int, j: int)
    requires
        kraft_ok(e),
        0 <= i < j < e.len(),
    ensures
        diverge(
            value_bits(canon_code(e, i), e[i].1 as nat),
            value_bits(canon_code(e, j), e[j].1 as nat),
        ),
{
    lemma_pow2_64();
    lemma_canon_code_value(e, i);
    lemma_canon_code_value(e, j);
    let li = e[i].1 as nat;
    let lj = e[j].1 as nat;
    assert(li <= lj);
    let ci = canon_code(e, i) as int;
    let cj = canon_code(e, j);
    let delta = (lj - li) as nat;
    let qj = pow2((64 - lj) as nat) as int;
    let qi = pow2((64 - li) as nat) as int;
    lemma_pow2_pos((64 - lj) as nat);
    lemma_pow2_pos(delta);
    lemma_pow2_adds(delta, (64 - lj) as nat);
    assert(delta + (64 - lj) == 64 - li);
    assert(qi == pow2(delta) * qj);
    lemma_pow2_adds(delta, li);
    assert(pow2(lj) == pow2(delta) * pow2(li));
    lemma_kraft_prefix_mono(e, (i + 1) as nat, j as nat);
    let kj = kraft_prefix(e, j as nat) as int;
    assert(kj >= ci * qi + qi);
    assert(cj * qj == kj);
    let p = pow2(delta) as int;
    assert(cj >= (ci + 1) * p) by (nonlinear_arith)
        requires
            cj * qj == kj,
            kj >= ci * qi + qi,
            qi == p * qj,
            qj > 0,
    ;
    assert(delta < 64);
    vstd::bits::lemma_u64_shr_is_div(cj, delta as u64);
    let y = cj >> (delta as u64);
    assert(y as int == cj as int / p);
    assert(y as int >= ci + 1) by (nonlinear_arith)
        requires
            y as int == cj as int / p,
            cj >= (ci + 1) * p,
            p > 0,
    ;
    assert(y < pow2(li)) by (nonlinear_arith)
        requires
            y as int == cj as int / p,
            cj < pow2(lj),
            pow2(lj) == p * pow2(li),
            p > 0,
    ;
    lemma_value_bits_take(cj, lj, li);
    lemma_value_bits_differ(canon_code(e, i), y, li);
    let pi = value_bits(canon_code(e, i), li);
    let pj = value_bits(cj, lj);
    let py = value_bits(y, li);
    let d = choose|d: int| 0 <= d < pi.len() && d < py.len() && pi[d] != py[d];
    assert(pj.take(li as int)[d] == pj[d]);
    assert(pi[d] != pj[d]);
}

/// Entries that satisfy Kraft's inequality, with distinct symbols, give a
/// canonical code that decodes with its tree.
pub proof fn lemma_kraft_decodable(e: Seq<(u8, u8)>)
    requires
        kraft_ok(e),
        forall|a: int, b: int| 0 <= a < b < e.len() ==> (#[trigger] e[a]).0 != (#[trigger] e[b]).0,
    ensures
        codes_decodable(canonical_tree(e, e.len()), canonical_codes(e, e.len())),
{
    assert forall|i: int, j: int| 0 <= i < j < e.len() implies diverge(
        value_bits(canon_code(e, i), e[i].1 as nat),
        value_bits(canon_code(e, j), e[j].1 as nat),
    ) by {
        lemma_canon_codes_diverge(e, i, j);
    }
    lemma_canonical_decodable(e);
}

/// The sum of `g` over the bytes of `q`.
pub open spec fn sum_over(q: Seq<u8>, g: spec_fn(u8) -> nat) -> nat
    decreases q.len(),
{
    if q.len() == 0 {
        0
    } else {
        sum_over(q.drop_last(), g) + g(q.last())
    }
}

proof fn lemma_sum_append(a: Seq<u8>, b: Seq<u8>, g: spec_fn(u8) -> nat)
    ensures
        sum_over(a + b, g) == sum_over(a, g) + sum_over(b, g),
    decreases b.len(),
{
    if b.len() == 0 {
        assert(a + b =~= a);
    } else {
        lemma_sum_append(a, b.drop_last(), g);
        assert((a + b).drop_last() =~= a + b.drop_last());
    }
}

proof fn lemma_sum_congruent(q: Seq<u8>, g1: spec_fn(u8) -> nat, g2: spec_fn(u8) -> nat)
    requires
        forall|i: int| 0 <= i < q.len() ==> g1(#[trigger] q[i]) == g2(q[i]),
    ensures
        sum_over(q, g1) == sum_over(q, g2),
    decreases q.len(),
{
    if q.len() > 0 {
        let p = q.drop_last();
        assert forall|i: int| 0 <= i < p.len() implies g1(#[trigger] p[i]) == g2(p[i]) by {
            assert(p[i] == q[i]);
        }
        lemma_sum_congruent(p, g1, g2);
        assert(g1(q[q.len() - 1]) == g2(q[q.len() - 1]));
    }
}

/// Sums over two duplicate-free sequences of the same bytes are equal.
proof fn lemma_sum_perm(a: Seq<u8>, b: Seq<u8>, g: spec_fn(u8) -> nat)
    requires
        a.no_duplicates(),
        b.no_duplicates(),
        a.to_set() == b.to_set(),
    ensures
        sum_over(a, g) == sum_over(b, g),
    decreases a.len(),
{
    if a.len() == 0 {
        if b.len() > 0 {
            assert(b.to_set().contains(b[0]));
            assert(a.to_set().contains(b[0]));
        }
    } else {
        let x = a.last();
        let a1 = a.drop_last();
        assert(a.to_set().contains(x)) by {
            assert(a[a.len() - 1] == x);
        }
        assert(b.contains(x));
        let j = choose|j: int| 0 <= j < b.len() && b[j] == x;
        let b1 = b.remove(j);
        let front = b.take(j);
        let back = b.skip(j + 1);
        assert(b =~= front + seq![x] + back);
        assert(b1 =~= front + back);
        lemma_sum_append(front + seq![x], back, g);
        lemma_sum_append(front, seq![x], g);
        lemma_sum_append(front, back, g);
        assert(seq![x].drop_last() =~= Seq::<u8>::empty());
        assert(sum_over(Seq::<u8>::empty(), g) == 0);
        assert(seq![x].last() == x);
        assert(sum_over(seq![x], g) == g(x));
        assert forall|y: u8| a1.to_set().contains(y) <==> b1.to_set().contains(y) by {
            if a1.contains(y) {
                let k = choose|k: int| 0 <= k < a1.len() && a1[k] == y;
                assert(a[k] == y);
                assert(y != x);
                assert(a.to_set().contains(y));
                assert(b.to_set().contains(y));
                assert(b.contains(y));
                let m = choose|m: int| 0 <= m < b.len() && b[m] == y;
                assert(m != j);
                if m < j {
                    assert(b1[m] == y);
                } else {
                    assert(b1[m - 1] == y);
                }
            }
            if b1.contains(y) {
                let m = choose|m: int| 0 <= m < b1.len() && b1[m] == y;
                if m < j {
                    assert(b[m] == y);
                    assert(m != j);
                } else {
                    assert(b[m + 1] == y);
                }
                assert(y != x);
                assert(b.to_set().contains(y));
                assert(a.to_set().contains(y));
                assert(a.contains(y));
                let k = choose|k: int| 0 <= k < a.len() && a[k] == y;
                assert(k != a.len() - 1);
                assert(a1[k] == y);
            }
        }
        assert(a1.to_set() =~= b1.to_set());
        assert(b1.no_duplicates()) by {
            assert forall|p: int, q: int| 0 <= p < b1.len() && 0 <= q < b1.len() && p != q implies b1[p]
                != b1[q] by {
                let pp = if p < j {
                    p
                } else {
                    p + 1
                };
                let qq = if q < j {
                    q
                } else {
                    q + 1
                };
                assert(b1[p] == b[pp] && b1[q] == b[qq]);
            }
        }
        lemma_sum_perm(a1, b1, g);
    }
}

/// Kraft's sum of the leaves below a node at depth `d`, scaled by 2^64.
pub open spec fn tree_kraft(node: HuffmanNode, d: nat) -> nat
    decreases node,
{
    match node {
        HuffmanNode::Leaf { .. } => pow2((64 - d) as nat),
        HuffmanNode::Internal { left, right } => tree_kraft(*left, d + 1) + tree_kraft(*right, d + 1),
    }
}

/// Kraft's equality: the leaves of a full binary tree fill it exactly.
proof fn lemma_tree_kraft(node: HuffmanNode, d: nat)
    requires
        d + height(node) <= 64,
    ensures
        tree_kraft(node, d) == pow2((64 - d) as nat),
    decreases node,
{
    if let HuffmanNode::Internal { left, right } = node {
        lemma_tree_kraft(*left, d + 1);
        lemma_tree_kraft(*right, d + 1);
        vstd::arithmetic::power2::lemma_pow2_unfold((64 - d) as nat);
    }
}

/// The weight of a symbol whose leaf lies `d` below the top, then down its path.
pub open spec fn depth_weight(node: HuffmanNode, d: nat) -> spec_fn(u8) -> nat {
    |s: u8| pow2((64 - d - tree_paths(node)[s].len()) as nat)
}

/// Kraft's sum of a tree is the sum, over its (distinct) leaves, of 2^(64 - depth).
proof fn lemma_leaf_sum(node: HuffmanNode, d: nat)
    requires
        leaves(node).no_duplicates(),
        d + height(node) <= 64,
    ensures
        sum_over(leaves(node), depth_weight(node, d)) == tree_kraft(node, d),
    decreases node,
{
    match node {
        HuffmanNode::Leaf { symbol } => {
            assert(leaves(node).drop_last() =~= Seq::<u8>::empty());
            assert(sum_over(Seq::<u8>::empty(), depth_weight(node, d)) == 0);
            assert(leaves(node).last() == symbol);
            assert(tree_paths(node)[symbol].len() == 0);
            assert(depth_weight(node, d)(symbol) == pow2((64 - d) as nat));
        },
        HuffmanNode::Internal { left, right } => {
            let l = leaves(*left);
            let r = leaves(*right);
            assert(l.no_duplicates() && r.no_duplicates()) by {
                assert forall|p: int, q: int| 0 <= p < l.len() && 0 <= q < l.len() && p != q implies l[p]
                    != l[q] by {
                    assert(leaves(node)[p] == l[p] && leaves(node)[q] == l[q]);
                }
                assert forall|p: int, q: int| 0 <= p < r.len() && 0 <= q < r.len() && p != q implies r[p]
                    != r[q] by {
                    assert(leaves(node)[l.len() + p] == r[p] && leaves(node)[l.len() + q] == r[q]);
                }
            }
            lemma_leaf_sum(*left, d + 1);
            lemma_leaf_sum(*right, d + 1);
            lemma_sum_append(l, r, depth_weight(node, d));
            lemma_tree_paths(*left);
            lemma_tree_paths(*right);
            assert forall|i: int| 0 <= i < l.len() implies depth_weight(node, d)(#[trigger] l[i])
                == depth_weight(*left, d + 1)(l[i]) by {
                let s = l[i];
                assert(leaves(node)[i] == s);
                if tree_paths(*right).contains_key(s) {
                    assert(r.to_set().contains(s));
                    let k = choose|k: int| 0 <= k < r.len() && r[k] == s;
                    assert(leaves(node)[l.len() + k] == s);
                }
                assert(l.to_set().contains(s));
                assert(tree_paths(node)[s] == seq![false] + tree_paths(*left)[s]);
            }
            assert forall|i: int| 0 <= i < r.len() implies depth_weight(node, d)(#[trigger] r[i])
                == depth_weight(*right, d + 1)(r[i]) by {
                let s = r[i];
                assert(r.to_set().contains(s));
                assert(tree_paths(node)[s] == seq![true] + tree_paths(*right)[s]);
            }
            lemma_sum_congruent(l, depth_weight(node, d), depth_weight(*left, d + 1));
            lemma_sum_congruent(r, depth_weight(node, d), depth_weight(*right, d + 1));
        },
    }
}

/// With distinct leaves, some leaf lies as deep as the tree is high.
proof fn lemma_height_path(node: HuffmanNode)
    requires
        leaves(node).no_duplicates(),
    ensures
        exists|s: u8| #[trigger]
            tree_paths(node).contains_key(s) && tree_paths(node)[s].len() == height(node),
    decreases node,
{
    match node {
        HuffmanNode::Leaf { symbol } => {
            assert(tree_paths(node).contains_key(symbol));
        },
        HuffmanNode::Internal { left, right } => {
            let l = leaves(*left);
            let r = leaves(*right);
            assert(l.no_duplicates() && r.no_duplicates()) by {
                assert forall|p: int, q: int| 0 <= p < l.len() && 0 <= q < l.len() && p != q implies l[p]
                    != l[q] by {
                    assert(leaves(node)[p] == l[p] && leaves(node)[q] == l[q]);
                }
                assert forall|p: int, q: int| 0 <= p < r.len() && 0 <= q < r.len() && p != q implies r[p]
                    != r[q] by {
                    assert(leaves(node)[l.len() + p] == r[p] && leaves(node)[l.len() + q] == r[q]);
                }
            }
            lemma_height_path(*left);
            lemma_height_path(*right);
            lemma_tree_paths(*left);
            lemma_tree_paths(*right);
            if height(*left) >= height(*right) {
                let s = choose|s: u8| #[trigger]
                    tree_paths(*left).contains_key(s) && tree_paths(*left)[s].len() == height(*left);
                assert(l.to_set().contains(s));
                let i = choose|i: int| 0 <= i < l.len() && l[i] == s;
                if tree_paths(*right).contains_key(s) {
                    assert(r.to_set().contains(s));
                    let k = choose|k: int| 0 <= k < r.len() && r[k] == s;
                    assert(leaves(node)[l.len() + k] == s);
                    assert(leaves(node)[i] == s);
                }
                assert(tree_paths(node)[s] == seq![false] + tree_paths(*left)[s]);
                assert(tree_paths(node).contains_key(s));
            } else {
                let s = choose|s: u8| #[trigger]
                    tree_paths(*right).contains_key(s) && tree_paths(*right)[s].len() == height(*right);
                assert(tree_paths(node)[s] == seq![true] + tree_paths(*right)[s]);
                assert(tree_paths(node).contains_key(s));
            }
        },
    }
}

/// The symbols of the entries, in order.
pub open spec fn entry_symbols(e: Seq<(u8, u8)>) -> Seq<u8> {
    Seq::new(e.len(), |i: int| e[i].0)
}

/// The weight 2^(64 - length) of each symbol of a length map.
pub open spec fn length_weight(m: Map<u8, u8>) -> spec_fn(u8) -> nat {
    |s: u8| pow2((64 - m[s]) as nat)
}

proof fn lemma_kraft_prefix_sum(m: Map<u8, u8>, n: nat)
    requires
        n <= sorted_entries(m).len(),
    ensures
        kraft_prefix(sorted_entries(m), n) == sum_over(
            entry_symbols(sorted_entries(m)).take(n as int),
            length_weight(m),
        ),
    decreases n,
{
    let e = sorted_entries(m);
    lemma_sorted_entries(m);
    if n == 0 {
        assert(entry_symbols(e).take(0) =~= Seq::<u8>::empty());
    } else {
        lemma_kraft_prefix_sum(m, (n - 1) as nat);
        let t = entry_symbols(e).take(n as int);
        assert(t.drop_last() =~= entry_symbols(e).take(n - 1));
        assert(t.last() == e[n - 1].0);
        assert(m[e[n - 1].0] == e[n - 1].1);
    }
}

/// A path from an internal node has at least one bit.
proof fn lemma_internal_paths_nonempty(root: HuffmanNode, s: u8)
    requires
        root is Internal,
        tree_paths(root).contains_key(s),
    ensures
        tree_paths(root)[s].len() >= 1,
{
    if let HuffmanNode::Internal { left, right } = root {
        if tree_paths(*right).contains_key(s) {
            assert(tree_paths(root)[s] == seq![true] + tree_paths(*right)[s]);
        } else {
            assert(tree_paths(root)[s] == seq![false] + tree_paths(*left)[s]);
        }
    }
}

/// The code lengths of a tree with distinct leaves and no path longer than 64
/// bits, ordered by length and symbol, satisfy Kraft's inequality.
pub proof fn lemma_tree_lengths_kraft(root: HuffmanNode)
    requires
        leaves(root).no_duplicates(),
        forall|s: u8| #[trigger]
            tree_paths(root).contains_key(s) ==> tree_paths(root)[s].len() <= 64,
    ensures
        kraft_ok(sorted_entries(code_lengths(tree_codes(root)))),
        code_lengths(tree_codes(root)).dom() == leaves(root).to_set(),
        forall|s: u8| #[trigger]
            code_lengths(tree_codes(root)).contains_key(s) ==> code_lengths(tree_codes(root))[s] == (
            if root is Leaf {
                1
            } else {
                tree_paths(root)[s].len()
            }),
{
    let m = code_lengths(tree_codes(root));
    let e = sorted_entries(m);
    let w = length_weight(m);
    lemma_codes_from_paths(root, Seq::empty());
    lemma_tree_paths(root);
    lemma_sorted_entries(m);
    assert(m.dom() =~= leaves(root).to_set());
    assert forall|s: u8| #[trigger] m.contains_key(s) implies m[s] == (if root is Leaf {
        1
    } else {
        tree_paths(root)[s].len()
    }) by {
        assert(Seq::<bool>::empty() + tree_paths(root)[s] =~= tree_paths(root)[s]);
        if root is Internal {
            lemma_internal_paths_nonempty(root, s);
        } else {
            assert(tree_paths(root)[s].len() == 0);
        }
    }
    assert forall|i: int| 0 <= i < e.len() implies 1 <= (#[trigger] e[i]).1 <= 64 by {
        assert(m.contains_key(e[i].0));
        if root is Internal {
            lemma_internal_paths_nonempty(root, e[i].0);
        }
    }
    assert forall|a: int, b: int| 0 <= a < b < e.len() implies (#[trigger] e[a]).1 <= (
    #[trigger] e[b]).1 by {
        lemma_entries_sorted(m, a, b);
    }
    // the entries' symbols and the leaves are the same distinct bytes
    let syms = entry_symbols(e);
    assert(syms.no_duplicates()) by {
        assert forall|p: int, q: int| 0 <= p < syms.len() && 0 <= q < syms.len() && p != q implies syms[p]
            != syms[q] by {
            if p < q {
                assert(e[p].0 != e[q].0);
            } else {
                assert(e[q].0 != e[p].0);
            }
        }
    }
    assert forall|x: u8| syms.to_set().contains(x) <==> leaves(root).to_set().contains(x) by {
        if syms.contains(x) {
            let i = choose|i: int| 0 <= i < syms.len() && syms[i] == x;
            assert(m.contains_key(e[i].0));
        }
        if leaves(root).to_set().contains(x) {
            assert(m.contains_key(x));
            let i = choose|i: int| 0 <= i < e.len() && (#[trigger] e[i]).0 == x;
            assert(syms[i] == x);
        }
    }
    assert(syms.to_set() =~= leaves(root).to_set());
    lemma_kraft_prefix_sum(m, e.len());
    assert(syms.take(e.len() as int) =~= syms);
    lemma_sum_perm(syms, leaves(root), w);
    vstd::arithmetic::power2::lemma2_to64();
    match root {
        HuffmanNode::Leaf { symbol } => {
            assert(leaves(root).drop_last() =~= Seq::<u8>::empty());
            assert(sum_over(Seq::<u8>::empty(), w) == 0);
            assert(leaves(root).last() == symbol);
            assert(m.contains_key(symbol));
            assert(w(symbol) == pow2(63));
            lemma_pow2_strictly_increases(63, 64);
        },
        HuffmanNode::Internal { .. } => {
            lemma_height_path(root);
            let h = choose|s: u8| #[trigger]
                tree_paths(root).contains_key(s) && tree_paths(root)[s].len() == height(root);
            assert(height(root) <= 64);
            assert forall|i: int| 0 <= i < leaves(root).len() implies w(#[trigger] leaves(root)[i])
                == depth_weight(root, 0)(leaves(root)[i]) by {
                let s = leaves(root)[i];
                assert(leaves(root).to_set().contains(s));
                assert(m.contains_key(s));
            }
            lemma_sum_congruent(leaves(root), w, depth_weight(root, 0));
            lemma_leaf_sum(root, 0);
            lemma_tree_kraft(root, 0);
        },
    }
}

/// Code lengths of at most 63 bits, from a tree with distinct leaves, leave
/// room to count past every canonical code.
proof fn lemma_short_lengths_supported(root: HuffmanNode)
    requires
        leaves(root).no_duplicates(),
        forall|s: u8| #[trigger]
            tree_paths(root).contains_key(s) ==> tree_paths(root)[s].len() <= 63,
    ensures
        lengths_supported(code_lengths(tree_codes(root))),
        kraft_ok(sorted_entries(code_lengths(tree_codes(root)))),
{
    let lengths = code_lengths(tree_codes(root));
    let e = sorted_entries(lengths);
    lemma_tree_lengths_kraft(root);
    lemma_sorted_entries(lengths);
    lemma_tree_paths(root);
    lemma_pow2_64();
    assert forall|i: int| 0 <= i < e.len() implies {
        &&& (#[trigger] e[i]).1 <= 64
        &&& canon_code(e, i) < u64::MAX
        &&& (i > 0 ==> e[i].1 - e[i - 1].1 < 64)
    } by {
        assert(lengths.contains_key(e[i].0));
        assert(e[i].1 <= 63);
        lemma_canon_code_value(e, i);
        lemma_pow2_strictly_increases(e[i].1 as nat, 64);
        if i > 0 {
            assert(lengths.contains_key(e[i - 1].0));
        }
    }
}

/// Every byte of `data` that the tree holds gets a canonical code of at most 64 bits.
pub proof fn lemma_canonical_codes_cover(root: HuffmanNode, data: Seq<u8>)
    requires
        leaves(root).no_duplicates(),
        forall|i: int| 0 <= i < data.len() ==> tree_paths(root).contains_key(#[trigger] data[i]),
        kraft_ok(sorted_entries(code_lengths(tree_codes(root)))),
        code_lengths(tree_codes(root)).dom() == leaves(root).to_set(),
    ensures
        ({
            let e = sorted_entries(code_lengths(tree_codes(root)));
            let codes = canonical_codes(e, e.len());
            &&& all_coded(codes, data)
            &&& codes_fit(codes, data)
        }),
{
    let lengths = code_lengths(tree_codes(root));
    let e = sorted_entries(lengths);
    let codes = canonical_codes(e, e.len());
    lemma_sorted_entries(lengths);
    lemma_tree_paths(root);
    assert forall|i: int| 0 <= i < data.len() implies codes.contains_key(#[trigger] data[i])
        && codes[data[i]].1 <= 64 by {
        assert(lengths.contains_key(data[i]));
        let j = choose|j: int| 0 <= j < e.len() && (#[trigger] e[j]).0 == data[i];
        lemma_canonical_codes_at(e, e.len(), j);
    }
}

/// A tree has a leaf, so its length map is not empty.
pub proof fn lemma_lengths_nonempty(root: HuffmanNode)
    requires
        code_lengths(tree_codes(root)).dom() == leaves(root).to_set(),
    ensures
        code_lengths(tree_codes(root)).dom().len() > 0,
{
    let lengths = code_lengths(tree_codes(root));
    crate::huffman_tree::lemma_leaves_height(root);
    assert(leaves(root).to_set().contains(leaves(root)[0]));
    vstd::seq_lib::seq_to_set_is_finite(leaves(root));
    vstd::set_lib::lemma_set_empty_equivalency_len(lengths.dom());
}

/// Building the canonical code from the code lengths of a tree with distinct
/// leaves, and decoding with its tree what it encodes, gives the data back,
/// whatever padding follows: provided no path is longer than 63 bits (a code
/// of 64 bits that is all ones cannot be counted past, see `canonical_fits`).
pub proof fn lemma_canonical_round_trip(root: HuffmanNode, data: Seq<u8>, padding: Seq<bool>)
    requires
        leaves(root).no_duplicates(),
        forall|i: int| 0 <= i < data.len() ==> tree_paths(root).contains_key(#[trigger] data[i]),
        forall|s: u8| #[trigger]
            tree_paths(root).contains_key(s) ==> tree_paths(root)[s].len() <= 63,
    ensures
        ({
            let lengths = code_lengths(tree_codes(root));
            let e = sorted_entries(lengths);
            let codes = canonical_codes(e, e.len());
            &&& lengths.dom().len() > 0
            &&& lengths_supported(lengths)
            &&& all_coded(codes, data)
            &&& codes_fit(codes, data)
            &&& huff_decode(canonical_tree(e, e.len()), huff_bits(codes, data) + padding, data.len())
                == Ok::<Seq<u8>, HuffmanError>(data)
        }),
{
    let lengths = code_lengths(tree_codes(root));
    let e = sorted_entries(lengths);
    let codes = canonical_codes(e, e.len());
    lemma_short_lengths_supported(root);
    lemma_tree_lengths_kraft(root);
    lemma_canonical_codes_cover(root, data);
    lemma_lengths_nonempty(root);
    lemma_sorted_entries(lengths);
    lemma_kraft_decodable(e);
    lemma_decode_codes(canonical_tree(e, e.len()), codes, data, padding);
}

/// A sequence of distinct bytes below `k` has at most `k` of them.
proof fn lemma_distinct_bytes_bound(q: Seq<u8>, k: nat)
    requires
        q.no_duplicates(),
        forall|i: int| 0 <= i < q.len() ==> (#[trigger] q[i]) < k,
    ensures
        q.len() <= k,
    decreases k,
{
    if k == 0 {
        if q.len() > 0 {
            assert(q[0] < 0);
        }
    } else {
        let top = (k - 1) as u8;
        if q.contains(top) {
            let j = choose|j: int| 0 <= j < q.len() && q[j] == top;
            let r = q.remove(j);
            assert forall|i: int| 0 <= i < r.len() implies (#[trigger] r[i]) < k - 1 by {
                let ii = if i < j {
                    i
                } else {
                    i + 1
                };
                assert(r[i] == q[ii]);
                assert(ii != j);
            }
            assert(r.no_duplicates()) by {
                assert forall|p: int, t: int| 0 <= p < r.len() && 0 <= t < r.len() && p != t implies r[p]
                    != r[t] by {
                    let pp = if p < j {
                        p
                    } else {
                        p + 1
                    };
                    let tt = if t < j {
                        t
                    } else {
                        t + 1
                    };
                    assert(r[p] == q[pp] && r[t] == q[tt]);
                }
            }
            lemma_distinct_bytes_bound(r, (k - 1) as nat);
        } else {
            assert forall|i: int| 0 <= i < q.len() implies (#[trigger] q[i]) < k - 1 by {
                if q[i] == top {
                    assert(q.contains(top));
                }
            }
            lemma_distinct_bytes_bound(q, (k - 1) as nat);
        }
    }
}

/// The code lengths of a tree with distinct leaves are its path lengths (one
/// for a lone leaf), and none exceeds 64 when the lengths are supported.
pub proof fn lemma_supported_paths_short(root: HuffmanNode)
    requires
        leaves(root).no_duplicates(),
        lengths_supported(code_lengths(tree_codes(root))),
    ensures
        forall|s: u8| #[trigger]
            tree_paths(root).contains_key(s) ==> tree_paths(root)[s].len() <= 64,
{
    let lengths = code_lengths(tree_codes(root));
    let e = sorted_entries(lengths);
    lemma_distinct_bytes_bound(leaves(root), 256);
    crate::huffman_tree::lemma_leaves_height(root);
    lemma_tree_paths(root);
    lemma_codes_from_paths(root, Seq::empty());
    lemma_sorted_entries(lengths);
    assert forall|s: u8| #[trigger] tree_paths(root).contains_key(s) implies tree_paths(
        root,
    )[s].len() <= 64 by {
        let p = tree_paths(root)[s];
        assert(Seq::<bool>::empty() + p =~= p);
        assert(lengths.contains_key(s));
        let j = choose|j: int| 0 <= j < e.len() && (#[trigger] e[j]).0 == s;
        assert(e[j].1 <= 64);
        assert(p.len() <= 255);
    }
}

} // verus!
