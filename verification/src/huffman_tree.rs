//! Code trees: what a tree decodes, which codes it assigns, and why
//! decoding what those codes encode gives the symbols back.
use crate::bits::{bits_value, lemma_bits_value_round_trip, value_bits};
use vstd::prelude::*;

verus! {

/// A binary code tree: a `0` bit goes left, a `1` bit goes right.
#[derive(Debug, PartialEq, Eq)]
pub enum HuffmanNode {
    Internal { left: Box<HuffmanNode>, right: Box<HuffmanNode> },
    Leaf { symbol: u8 },
}

/// Why a Huffman operation failed.
#[derive(Debug, Clone, Copy, PartialEq, Eq)]
pub enum HuffmanError {
    /// A byte to encode has no code.
    SymbolNotFound(u8),
    /// There is no tree to decode with.
    EmptyTree,
    /// The bits ran out in the middle of a code.
    UnexpectedEof,
}

/// The length of the longest path from the node to a leaf.
pub open spec fn height(node: HuffmanNode) -> nat
    decreases node,
{
    match node {
        HuffmanNode::Leaf { .. } => 0,
        HuffmanNode::Internal { left, right } => {
            let l = height(*left);
            let r = height(*right);
            1 + if l >= r {
                l
            } else {
                r
            }
        },
    }
}

/// The symbols at the leaves, left to right.
pub open spec fn leaves(node: HuffmanNode) -> Seq<u8>
    decreases node,
{
    match node {
        HuffmanNode::Leaf { symbol } => seq![symbol],
        HuffmanNode::Internal { left, right } => leaves(*left) + leaves(*right),
    }
}

/// Prepends one bit to every path of a map.
pub open spec fn prefix_paths(m: Map<u8, Seq<bool>>, b: bool) -> Map<u8, Seq<bool>> {
    m.map_values(|p: Seq<bool>| seq![b] + p)
}

/// For each symbol, the path from the node to a leaf that holds it
/// (the rightmost such leaf, should one symbol sit at several).
pub open spec fn tree_paths(node: HuffmanNode) -> Map<u8, Seq<bool>>
    decreases node,
{
    match node {
        HuffmanNode::Leaf { symbol } => map![symbol => Seq::<bool>::empty()],
        HuffmanNode::Internal { left, right } => prefix_paths(tree_paths(*left), false).union_prefer_right(
            prefix_paths(tree_paths(*right), true),
        ),
    }
}

/// One more bit consumed on the way to a leaf.
pub open spec fn one_deeper(r: Option<(u8, nat)>) -> Option<(u8, nat)> {
    match r {
        Some((s, k)) => Some((s, k + 1)),
        None => None,
    }
}

/// Follows `bits` from the node down to a leaf: the leaf's symbol and the
/// number of bits used, or `None` when the bits run out first.
pub open spec fn walk(node: HuffmanNode, bits: Seq<bool>) -> Option<(u8, nat)>
    decreases node,
{
    match node {
        HuffmanNode::Leaf { symbol } => Some((symbol, 0)),
        HuffmanNode::Internal { left, right } => {
            if bits.len() == 0 {
                None
            } else if bits[0] {
                one_deeper(walk(*right, bits.drop_first()))
            } else {
                one_deeper(walk(*left, bits.drop_first()))
            }
        },
    }
}

/// The (code, length) pairs that numbering the paths below `node` gives, when
/// `prefix` leads to `node`: a code is the path read as a binary number, and
/// a path of no bits at all is given length one.
pub open spec fn codes_from(node: HuffmanNode, prefix: Seq<bool>) -> Map<u8, (u64, u8)>
    decreases node,
{
    match node {
        HuffmanNode::Leaf { symbol } => map![symbol => (bits_value(prefix), if prefix.len() == 0 { 1u8 } else { prefix.len() as u8 })],
        HuffmanNode::Internal { left, right } => codes_from(*left, prefix.push(false)).union_prefer_right(
            codes_from(*right, prefix.push(true)),
        ),
    }
}

/// The length of each code.
pub open spec fn code_lengths(codes: Map<u8, (u64, u8)>) -> Map<u8, u8> {
    codes.map_values(|c: (u64, u8)| c.1)
}

/// The codes of a whole tree.
pub open spec fn tree_codes(root: HuffmanNode) -> Map<u8, (u64, u8)> {
    codes_from(root, Seq::empty())
}

/// The bits of the codes of `data`, one after another.
pub open spec fn huff_bits(codes: Map<u8, (u64, u8)>, data: Seq<u8>) -> Seq<bool>
    decreases data.len(),
{
    if data.len() == 0 {
        Seq::empty()
    } else {
        value_bits(codes[data[0]].0, codes[data[0]].1 as nat) + huff_bits(codes, data.drop_first())
    }
}

/// Decoding `n` more symbols from `bits` with the tree, after `out`.
pub open spec fn huff_decode_from(root: HuffmanNode, bits: Seq<bool>, n: nat, out: Seq<u8>) -> Result<
    Seq<u8>,
    HuffmanError,
>
    decreases n,
{
    if n == 0 {
        Ok(out)
    } else {
        match walk(root, bits) {
            None => Err(HuffmanError::UnexpectedEof),
            Some((s, k)) => huff_decode_from(root, bits.skip(k as int), (n - 1) as nat, out.push(s)),
        }
    }
}

/// The symbols that decoding `n` more symbols from `bits` produces after
/// `out` before it stops, at the end or where the bits run out.
pub open spec fn huff_decoded_from(root: HuffmanNode, bits: Seq<bool>, n: nat, out: Seq<u8>) -> Seq<u8>
    decreases n,
{
    if n == 0 {
        out
    } else {
        match walk(root, bits) {
            None => out,
            Some((s, k)) => huff_decoded_from(root, bits.skip(k as int), (n - 1) as nat, out.push(s)),
        }
    }
}

/// The symbols that decoding `n` symbols from `bits` produces before it stops.
pub open spec fn huff_decoded(root: HuffmanNode, bits: Seq<bool>, n: nat) -> Seq<u8> {
    huff_decoded_from(root, bits, n, Seq::empty())
}

/// A decoding that succeeds produces exactly its result.
pub proof fn lemma_decoded_agrees(root: HuffmanNode, bits: Seq<bool>, n: nat, out: Seq<u8>)
    ensures
        huff_decode_from(root, bits, n, out) matches Ok(s) ==> s == huff_decoded_from(
            root,
            bits,
            n,
            out,
        ),
    decreases n,
{
    if n > 0 {
        if let Some((s, k)) = walk(root, bits) {
            lemma_decoded_agrees(root, bits.skip(k as int), (n - 1) as nat, out.push(s));
        }
    }
}

/// Decoding `n` symbols from `bits` with the tree.
pub open spec fn huff_decode(root: HuffmanNode, bits: Seq<bool>, n: nat) -> Result<
    Seq<u8>,
    HuffmanError,
> {
    huff_decode_from(root, bits, n, Seq::empty())
}

/// Every code of `codes` leads through the tree to its own symbol, using up
/// exactly its length in bits.
pub open spec fn codes_decodable(root: HuffmanNode, codes: Map<u8, (u64, u8)>) -> bool {
    forall|s: u8, rest: Seq<bool>|
        #![trigger codes.contains_key(s), walk(root, value_bits(codes[s].0, codes[s].1 as nat) + rest)]
        codes.contains_key(s) ==> walk(root, value_bits(codes[s].0, codes[s].1 as nat) + rest)
            == Some((s, codes[s].1 as nat))
}

/// Every byte of `data` has a code.
pub open spec fn all_coded(codes: Map<u8, (u64, u8)>, data: Seq<u8>) -> bool {
    forall|i: int| 0 <= i < data.len() ==> codes.contains_key(#[trigger] data[i])
}

/// A walk uses no more bits than it is given.
pub proof fn lemma_walk_len(node: HuffmanNode, bits: Seq<bool>)
    ensures
        walk(node, bits) matches Some((s, k)) ==> k <= bits.len(),
    decreases node,
{
    if let HuffmanNode::Internal { left, right } = node {
        if bits.len() > 0 {
            lemma_walk_len(*left, bits.drop_first());
            lemma_walk_len(*right, bits.drop_first());
        }
    }
}

pub proof fn lemma_leaves_height(node: HuffmanNode)
    ensures
        height(node) + 1 <= leaves(node).len(),
    decreases node,
{
    if let HuffmanNode::Internal { left, right } = node {
        lemma_leaves_height(*left);
        lemma_leaves_height(*right);
    }
}

pub proof fn lemma_tree_paths(node: HuffmanNode)
    ensures
        tree_paths(node).dom() == leaves(node).to_set(),
        forall|s: u8| #[trigger]
            tree_paths(node).contains_key(s) ==> tree_paths(node)[s].len() <= height(node),
    decreases node,
{
    match node {
        HuffmanNode::Leaf { symbol } => {
            assert(leaves(node)[0] == symbol);
            assert forall|x: u8| leaves(node).to_set().contains(x) <==> x == symbol by {
                if x == symbol {
                    assert(leaves(node).contains(x));
                }
            }
            assert(tree_paths(node).dom() =~= leaves(node).to_set());
        },
        HuffmanNode::Internal { left, right } => {
            lemma_tree_paths(*left);
            lemma_tree_paths(*right);
            vstd::seq_lib::seq_to_set_distributes_over_add(leaves(*left), leaves(*right));
            assert(tree_paths(node).dom() =~= leaves(node).to_set());
        },
    }
}

/// The path of a symbol leads to that symbol, using up exactly its bits.
pub proof fn lemma_walk_path(node: HuffmanNode, s: u8, rest: Seq<bool>)
    requires
        tree_paths(node).contains_key(s),
    ensures
        walk(node, tree_paths(node)[s] + rest) == Some((s, tree_paths(node)[s].len())),
    decreases node,
{
    match node {
        HuffmanNode::Leaf { symbol } => {
            assert(tree_paths(node)[s] + rest =~= rest);
        },
        HuffmanNode::Internal { left, right } => {
            let p = tree_paths(node)[s];
            if tree_paths(*right).contains_key(s) {
                let q = tree_paths(*right)[s];
                assert(p == seq![true] + q);
                assert((p + rest).drop_first() =~= q + rest);
                lemma_walk_path(*right, s, rest);
            } else {
                let q = tree_paths(*left)[s];
                assert(p == seq![false] + q);
                assert((p + rest).drop_first() =~= q + rest);
                lemma_walk_path(*left, s, rest);
            }
        },
    }
}

/// The codes below a node are its paths, read after `prefix` as numbers.
pub proof fn lemma_codes_from_paths(node: HuffmanNode, prefix: Seq<bool>)
    ensures
        codes_from(node, prefix).dom() == tree_paths(node).dom(),
        forall|s: u8| #[trigger]
            codes_from(node, prefix).contains_key(s) ==> codes_from(node, prefix)[s] == (
                bits_value(prefix + tree_paths(node)[s]),
                if prefix.len() + tree_paths(node)[s].len() == 0 {
                    1u8
                } else {
                    (prefix.len() + tree_paths(node)[s].len()) as u8
                },
            ),
    decreases node,
{
    match node {
        HuffmanNode::Leaf { symbol } => {
            assert(prefix + Seq::<bool>::empty() =~= prefix);
            assert(codes_from(node, prefix).dom() =~= tree_paths(node).dom());
        },
        HuffmanNode::Internal { left, right } => {
            lemma_codes_from_paths(*left, prefix.push(false));
            lemma_codes_from_paths(*right, prefix.push(true));
            assert(codes_from(node, prefix).dom() =~= tree_paths(node).dom());
            assert forall|s: u8| #[trigger] codes_from(node, prefix).contains_key(s) implies codes_from(
                node,
                prefix,
            )[s] == (
                bits_value(prefix + tree_paths(node)[s]),
                if prefix.len() + tree_paths(node)[s].len() == 0 {
                    1u8
                } else {
                    (prefix.len() + tree_paths(node)[s].len()) as u8
                },
            ) by {
                if tree_paths(*right).contains_key(s) {
                    let q = tree_paths(*right)[s];
                    assert(prefix + (seq![true] + q) =~= prefix.push(true) + q);
                } else {
                    let q = tree_paths(*left)[s];
                    assert(prefix + (seq![false] + q) =~= prefix.push(false) + q);
                }
            }
        },
    }
}

/// When no path is longer than 64 bits and the root is not a leaf, the codes
/// of a tree decode with it.
pub proof fn lemma_tree_codes_decodable(root: HuffmanNode)
    requires
        root is Internal,
        forall|s: u8| #[trigger]
            tree_paths(root).contains_key(s) ==> tree_paths(root)[s].len() <= 64,
    ensures
        codes_decodable(root, tree_codes(root)),
{
    let codes = tree_codes(root);
    lemma_codes_from_paths(root, Seq::empty());
    assert forall|s: u8, rest: Seq<bool>| codes.contains_key(s) implies walk(
        root,
        value_bits(codes[s].0, codes[s].1 as nat) + rest,
    ) == Some((s, codes[s].1 as nat)) by {
        let p = tree_paths(root)[s];
        assert(Seq::<bool>::empty() + p =~= p);
        lemma_walk_path(root, s, rest);
        // a path from an internal root has at least one bit
        if p.len() == 0 {
            if let HuffmanNode::Internal { left, right } = root {
                if tree_paths(*right).contains_key(s) {
                    assert(p == seq![true] + tree_paths(*right)[s]);
                } else {
                    assert(p == seq![false] + tree_paths(*left)[s]);
                }
            }
        }
        lemma_bits_value_round_trip(p);
    }
}

pub proof fn lemma_huff_bits_push(codes: Map<u8, (u64, u8)>, data: Seq<u8>, b: u8)
    ensures
        huff_bits(codes, data.push(b)) == huff_bits(codes, data) + value_bits(
            codes[b].0,
            codes[b].1 as nat,
        ),
    decreases data.len(),
{
    if data.len() == 0 {
        assert(data.push(b).drop_first() =~= Seq::<u8>::empty());
        assert(data.push(b)[0] == b);
        assert(huff_bits(codes, Seq::<u8>::empty()) =~= Seq::<bool>::empty());
        assert(data =~= Seq::<u8>::empty());
        assert(huff_bits(codes, data.push(b)) =~= huff_bits(codes, data) + value_bits(
            codes[b].0,
            codes[b].1 as nat,
        ));
    } else {
        lemma_huff_bits_push(codes, data.drop_first(), b);
        assert(data.push(b).drop_first() =~= data.drop_first().push(b));
        assert(huff_bits(codes, data.push(b)) =~= huff_bits(codes, data) + value_bits(
            codes[b].0,
            codes[b].1 as nat,
        ));
    }
}

/// Decoding the codes of `data[i..]` after `data[..i]` gives `data`.
proof fn lemma_decode_codes_from(
    root: HuffmanNode,
    codes: Map<u8, (u64, u8)>,
    data: Seq<u8>,
    i: int,
    padding: Seq<bool>,
)
    requires
        codes_decodable(root, codes),
        all_coded(codes, data),
        0 <= i <= data.len(),
    ensures
        huff_decode_from(
            root,
            huff_bits(codes, data.skip(i)) + padding,
            (data.len() - i) as nat,
            data.take(i),
        ) == Ok::<Seq<u8>, HuffmanError>(data),
    decreases data.len() - i,
{
    if i == data.len() {
        assert(data.take(i) =~= data);
    } else {
        let s = data[i];
        let c = codes[s];
        let vb = value_bits(c.0, c.1 as nat);
        let tail = huff_bits(codes, data.skip(i + 1)) + padding;
        assert(data.skip(i).drop_first() =~= data.skip(i + 1));
        assert(huff_bits(codes, data.skip(i)) + padding =~= vb + tail);
        assert(codes.contains_key(s));
        assert(walk(root, vb + tail) == Some((s, c.1 as nat)));
        assert((vb + tail).skip(c.1 as int) =~= tail);
        assert(data.take(i).push(s) =~= data.take(i + 1));
        lemma_decode_codes_from(root, codes, data, i + 1, padding);
    }
}

/// Decoding, with a tree, the codes of data that it decodes gives the data back.
pub proof fn lemma_decode_codes(
    root: HuffmanNode,
    codes: Map<u8, (u64, u8)>,
    data: Seq<u8>,
    padding: Seq<bool>,
)
    requires
        codes_decodable(root, codes),
        all_coded(codes, data),
    ensures
        huff_decode(root, huff_bits(codes, data) + padding, data.len()) == Ok::<
            Seq<u8>,
            HuffmanError,
        >(data),
{
    assert(data.skip(0) =~= data);
    assert(data.take(0) =~= Seq::<u8>::empty());
    lemma_decode_codes_from(root, codes, data, 0, padding);
}

/// A tree that is one leaf decodes every symbol as that leaf, using no bits.
proof fn lemma_decode_single_leaf(symbol: u8, bits: Seq<bool>, n: nat, out: Seq<u8>)
    ensures
        huff_decode_from(HuffmanNode::Leaf { symbol }, bits, n, out) == Ok::<Seq<u8>, HuffmanError>(
            out + Seq::new(n, |i: int| symbol),
        ),
    decreases n,
{
    if n == 0 {
        assert(out + Seq::new(0, |i: int| symbol) =~= out);
    } else {
        assert(bits.skip(0) =~= bits);
        lemma_decode_single_leaf(symbol, bits, (n - 1) as nat, out.push(symbol));
        assert(out.push(symbol) + Seq::new((n - 1) as nat, |i: int| symbol) =~= out + Seq::new(
            n,
            |i: int| symbol,
        ));
    }
}

/// Decoding with the tree of `data`'s symbols, what its codes encode, gives
/// the data back, whatever padding follows: provided no code is longer than
/// 64 bits, which is as much as a code can carry.
pub proof fn lemma_huffman_round_trip(root: HuffmanNode, data: Seq<u8>, padding: Seq<bool>)
    requires
        forall|i: int| 0 <= i < data.len() ==> tree_paths(root).contains_key(#[trigger] data[i]),
        forall|s: u8| #[trigger]
            tree_paths(root).contains_key(s) ==> tree_paths(root)[s].len() <= 64,
    ensures
        all_coded(tree_codes(root), data),
        huff_decode(root, huff_bits(tree_codes(root), data) + padding, data.len()) == Ok::<
            Seq<u8>,
            HuffmanError,
        >(data),
{
    lemma_codes_from_paths(root, Seq::empty());
    match root {
        HuffmanNode::Leaf { symbol } => {
            lemma_decode_single_leaf(symbol, huff_bits(tree_codes(root), data) + padding, data.len(), Seq::empty());
            assert forall|i: int| 0 <= i < data.len() implies data[i] == symbol by {
                assert(tree_paths(root).contains_key(data[i]));
            }
            assert(Seq::<u8>::empty() + Seq::new(data.len(), |i: int| symbol) =~= data);
        },
        HuffmanNode::Internal { .. } => {
            lemma_tree_codes_decodable(root);
            lemma_decode_codes(root, tree_codes(root), data, padding);
        },
    }
}

} // verus!
