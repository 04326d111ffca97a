//! Huffman coding of whole RGB pixels: frequency counting, tree building,
//! code tables, the bit-stream encoder and decoder, and their round trip.
use crate::bits::{BitReader, BitWriter, bytes_bits, low_bits, pad_to_bytes};
use crate::image::{CompressedImage, CompressionMetadata, RgbImage, fits_usize, rgb_len};
use crate::merging::{available, consumed, frequent_leaves_shallower, greedy, leaf_weights, joins, lemma_greedy_join, lemma_greedy_tree_shallower, lemma_picks_older, node_of, stands};
use std::collections::HashMap;
use vstd::prelude::*;
use vstd::arithmetic::power2::{pow2, lemma_pow2_unfold, lemma2_to64, lemma_pow2_strictly_increases};
use vstd::arithmetic::div_mod::{lemma_add_mod_noop, lemma_mul_mod_noop_left, lemma_small_mod};

verus! {

broadcast use vstd::std_specs::hash::group_hash_axioms;

/// A node of a Huffman tree over pixels. A leaf's value is the pixel
/// `r * 2^16 + g * 2^8 + b`.
pub enum HuffmanNode {
    Internal { left: Box<HuffmanNode>, right: Box<HuffmanNode>, freq: u32 },
    Leaf { value: u32, freq: u32 },
}

impl HuffmanNode {
    pub open spec fn spec_freq(&self) -> u32 {
        match self {
            HuffmanNode::Internal { freq, .. } => *freq,
            HuffmanNode::Leaf { freq, .. } => *freq,
        }
    }

    #[verifier::when_used_as_spec(spec_freq)]
    pub fn freq(&self) -> (f: u32)
        ensures
            f == self.spec_freq(),
    {
        match self {
            HuffmanNode::Internal { freq, .. } => *freq,
            HuffmanNode::Leaf { freq, .. } => *freq,
        }
    }
}

/// Number of edges on the longest path from `n` down to a leaf.
pub open spec fn height(n: HuffmanNode) -> nat
    decreases n,
{
    match n {
        HuffmanNode::Leaf { .. } => 0,
        HuffmanNode::Internal { left, right, .. } => {
            let hl = height(*left);
            let hr = height(*right);
            1 + if hl >= hr {
                hl
            } else {
                hr
            }
        },
    }
}

/// Leaves count at least once and an internal node's frequency is the sum
/// of its children's.
pub open spec fn wf_tree(n: HuffmanNode) -> bool
    decreases n,
{
    match n {
        HuffmanNode::Leaf { freq, .. } => freq >= 1,
        HuffmanNode::Internal { left, right, freq } => {
            &&& freq == left.spec_freq() + right.spec_freq()
            &&& wf_tree(*left)
            &&& wf_tree(*right)
        },
    }
}

/// The pixels at the leaves of `n`.
pub open spec fn leaf_values(n: HuffmanNode) -> Set<u32>
    decreases n,
{
    match n {
        HuffmanNode::Leaf { value, .. } => set![value],
        HuffmanNode::Internal { left, right, .. } => leaf_values(*left).union(
            leaf_values(*right),
        ),
    }
}

/// The leaves of `n` from left to right, each with its path from `n`
/// (`false` for a step to the left child, `true` to the right one).
pub open spec fn leaf_paths(n: HuffmanNode) -> Seq<(u32, Seq<bool>)>
    decreases n,
{
    match n {
        HuffmanNode::Leaf { value, .. } => seq![(value, Seq::<bool>::empty())],
        HuffmanNode::Internal { left, right, .. } => leaf_paths(*left).map_values(
            |e: (u32, Seq<bool>)| (e.0, seq![false] + e.1),
        ) + leaf_paths(*right).map_values(|e: (u32, Seq<bool>)| (e.0, seq![true] + e.1)),
    }
}

proof fn lemma_huffman_output_of(c: CompressedImage, ps: Seq<u32>, n: nat, codes: Map<u32, (u32, u8)>)
    requires
        c.metadata matches CompressionMetadata::Huffman { freq_table } && {
            &&& written_with(codes, ps, freq_table@, c.data@)
            &&& short_code_table(freq_table@) ==> huffman_encoded(ps, freq_table@, c.data@)
            &&& n < 9227465 ==> short_code_table(freq_table@)
        },
    ensures
        huffman_output(c, ps, n),
{
}

/// One leaf per distinct pixel of `ps`, in the order the pixels first
/// occur, weighted by the pixel's count.
pub open spec fn count_leaves(ps: Seq<u32>) -> Seq<HuffmanNode> {
    first_seen(ps).map_values(|v: u32| HuffmanNode::Leaf { value: v, freq: occurrences(ps, v) as u32 })
}

/// `picks` is a complete greedy merge history over the leaves of `ps`: the
/// two lightest trees are joined at each step until one is left.
pub open spec fn greedy_history(ps: Seq<u32>, picks: Seq<(nat, nat)>) -> bool {
    &&& greedy(count_leaves(ps), picks)
    &&& if count_leaves(ps).len() == 0 {
        picks.len() == 0
    } else {
        picks.len() + 1 == count_leaves(ps).len()
    }
}

/// The code and length that a walk of the Huffman tree built by `picks`
/// over the leaves of `ps` records for each pixel; none for no pixels.
pub open spec fn greedy_codes(ps: Seq<u32>, picks: Seq<(nat, nat)>) -> Map<u32, (u32, u8)> {
    let lv = count_leaves(ps);
    if lv.len() == 0 {
        Map::empty()
    } else {
        explored(Map::empty(), node_of(lv, picks, (2 * lv.len() - 2) as nat), 0, 0)
    }
}

/// The Huffman output `c` writes the pixels `ps_all` with the codes of the
/// greedy Huffman tree over the counts of the pixels `ps`, and its table maps
/// only pixels of `ps`.
pub open spec fn huffman_codes(c: CompressedImage, ps_all: Seq<u32>, ps: Seq<u32>) -> bool {
    match c.metadata {
        CompressionMetadata::Huffman { freq_table } => {
            &&& exists|picks: Seq<(nat, nat)>|
                #[trigger] greedy_history(ps, picks) && written_with(greedy_codes(ps, picks), ps_all, freq_table@, c.data@)
            &&& forall|key: u64| #[trigger] freq_table@.contains_key(key) ==> ps.contains(freq_table@[key])
        },
        CompressionMetadata::Empty => false,
    }
}

/// In a Huffman output `c` for the pixels `ps`, a pixel that occurs more
/// often than another never has a longer code word: the length of a code
/// word is its key divided by `2^32`.
pub open spec fn lengths_follow_counts(c: CompressedImage, ps: Seq<u32>) -> bool {
    match c.metadata {
        CompressionMetadata::Huffman { freq_table } => forall|k1: u64, k2: u64|
            #[trigger] freq_table@.contains_key(k1) && #[trigger] freq_table@.contains_key(k2)
                && occurrences(ps, freq_table@[k1]) > occurrences(ps, freq_table@[k2])
                ==> k1 / 0x1_0000_0000 <= k2 / 0x1_0000_0000,
        CompressionMetadata::Empty => true,
    }
}

/// The code lengths that a walk of a tree records follow the pixel counts
/// when the tree's leaves carry the counts and no leaf lies deeper than a
/// less frequent one.
proof fn lemma_codes_follow_counts(
    root: HuffmanNode,
    leaves: Seq<HuffmanNode>,
    counts: Map<u32, u32>,
    ps: Seq<u32>,
    u: u32,
    v: u32,
)
    requires
        height(root) <= 45,
        frequent_leaves_shallower(root),
        forall|i: int| 0 <= i < leaf_list(root).len() ==> leaves.contains(#[trigger] leaf_list(root)[i]),
        forall|i: int| 0 <= i < leaves.len() ==> (#[trigger] leaves[i] matches HuffmanNode::Leaf { value, freq }
            && counts.contains_key(value) && counts[value] == freq),
        forall|w: u32| #[trigger] counts.contains_key(w) ==> counts[w] == occurrences(ps, w),
        leaf_values(root).contains(u),
        leaf_values(root).contains(v),
        occurrences(ps, u) > occurrences(ps, v),
    ensures
        explored(Map::empty(), root, 0, 0)[u].1 <= explored(Map::empty(), root, 0, 0)[v].1,
{
    let m = explored(Map::empty(), root, 0, 0);
    lemma_explored(Map::empty(), root, 0, 0);
    lemma_paths_prefix_free(root);
    lemma_leaf_lists(root);
    let lp = leaf_paths(root);
    let lw = leaf_weights(root);
    let ll = leaf_list(root);
    let iu = choose|i: int| 0 <= i < lp.len() && (#[trigger] lp[i]).0 == u && m[u] == path_code(0, 0, lp[i].1);
    let iv = choose|i: int| 0 <= i < lp.len() && (#[trigger] lp[i]).0 == v && m[v] == path_code(0, 0, lp[i].1);
    assert(ll[iu] == (HuffmanNode::Leaf { value: u, freq: lw[iu].0 }));
    assert(ll[iv] == (HuffmanNode::Leaf { value: v, freq: lw[iv].0 }));
    assert(leaves.contains(ll[iu]));
    assert(leaves.contains(ll[iv]));
    let ju = choose|j: int| 0 <= j < leaves.len() && leaves[j] == ll[iu];
    let jv = choose|j: int| 0 <= j < leaves.len() && leaves[j] == ll[iv];
    assert(leaves[ju] matches HuffmanNode::Leaf { value, freq } && counts.contains_key(value) && counts[value] == freq);
    assert(leaves[jv] matches HuffmanNode::Leaf { value, freq } && counts.contains_key(value) && counts[value] == freq);
    assert(lw[iu].0 > lw[iv].0);
    assert(lp[iu].1.len() <= 45);
    assert(lp[iv].1.len() <= 45);
}

proof fn lemma_table_lengths_follow_counts(
    root: Option<HuffmanNode>,
    codes: Map<u32, (u32, u8)>,
    leaves: Seq<HuffmanNode>,
    counts: Map<u32, u32>,
    ps: Seq<u32>,
)
    requires
        root matches Some(r) ==> {
            &&& codes == explored(Map::empty(), r, 0, 0)
            &&& height(r) <= 45
            &&& frequent_leaves_shallower(r)
            &&& forall|i: int| 0 <= i < leaf_list(r).len() ==> leaves.contains(#[trigger] leaf_list(r)[i])
        },
        root is None ==> codes == Map::<u32, (u32, u8)>::empty(),
        forall|i: int| 0 <= i < leaves.len() ==> (#[trigger] leaves[i] matches HuffmanNode::Leaf { value, freq }
            && counts.contains_key(value) && counts[value] == freq),
        forall|w: u32| #[trigger] counts.contains_key(w) ==> counts[w] == occurrences(ps, w),
    ensures
        forall|u: u32, v: u32|
            #[trigger] codes.contains_key(u) && #[trigger] codes.contains_key(v) && occurrences(ps, u)
                > occurrences(ps, v) ==> codes[u].1 <= codes[v].1,
{
    if let Some(r) = root {
        lemma_explored(Map::empty(), r, 0, 0);
        assert forall|u: u32, v: u32|
            #[trigger] codes.contains_key(u) && #[trigger] codes.contains_key(v) && occurrences(ps, u)
                > occurrences(ps, v) implies codes[u].1 <= codes[v].1 by {
            lemma_codes_follow_counts(r, leaves, counts, ps, u, v);
        }
    }
}

/// A table whose keys are the code keys of the pixels they map to, with
/// code lengths that follow the pixel counts, has keys that follow them too.
proof fn lemma_keys_follow_counts(table: Map<u64, u32>, codes: Map<u32, (u32, u8)>, ps: Seq<u32>)
    requires
        forall|key: u64| #[trigger] table.contains_key(key) ==> codes.contains_key(table[key])
            && key == code_key(codes[table[key]].1 as nat, codes[table[key]].0 as nat),
        forall|u: u32, w: u32|
            #[trigger] codes.contains_key(u) && #[trigger] codes.contains_key(w) && occurrences(ps, u)
                > occurrences(ps, w) ==> codes[u].1 <= codes[w].1,
    ensures
        forall|k1: u64, k2: u64|
            #[trigger] table.contains_key(k1) && #[trigger] table.contains_key(k2)
                && occurrences(ps, table[k1]) > occurrences(ps, table[k2])
                ==> k1 / 0x1_0000_0000 <= k2 / 0x1_0000_0000,
{
    assert forall|k1: u64, k2: u64|
        #[trigger] table.contains_key(k1) && #[trigger] table.contains_key(k2)
            && occurrences(ps, table[k1]) > occurrences(ps, table[k2])
            implies k1 / 0x1_0000_0000 <= k2 / 0x1_0000_0000 by {
        let u = table[k1];
        let w = table[k2];
        lemma_code_key_len(codes[u].1, codes[u].0);
        lemma_code_key_len(codes[w].1, codes[w].0);
    }
}

proof fn lemma_code_key_len(len: u8, code: u32)
    ensures
        code_key(len as nat, code as nat) / 0x1_0000_0000 == len,
{
    assert(len * 0x1_0000_0000 + code < 0x1_0000_0000_0000_0000) by (nonlinear_arith)
        requires
            len < 256,
            code < 0x1_0000_0000,
    ;
    assert((len * 0x1_0000_0000 + code) / 0x1_0000_0000 == len) by (nonlinear_arith)
        requires
            code < 0x1_0000_0000,
            len >= 0,
    ;
}

/// The leaves of `n` from left to right.
pub open spec fn leaf_list(n: HuffmanNode) -> Seq<HuffmanNode>
    decreases n,
{
    match n {
        HuffmanNode::Leaf { .. } => seq![n],
        HuffmanNode::Internal { left, right, .. } => leaf_list(*left) + leaf_list(*right),
    }
}

/// The leaf paths and the leaf frequencies and depths of a tree list its
/// leaves in the same order.
proof fn lemma_leaf_lists(t: HuffmanNode)
    ensures
        leaf_paths(t).len() == leaf_list(t).len(),
        leaf_weights(t).len() == leaf_list(t).len(),
        forall|i: int|
            0 <= i < leaf_list(t).len() ==> #[trigger] leaf_list(t)[i] == (HuffmanNode::Leaf {
                value: leaf_paths(t)[i].0,
                freq: leaf_weights(t)[i].0,
            }) && leaf_paths(t)[i].1.len() == leaf_weights(t)[i].1,
    decreases t,
{
    if let HuffmanNode::Internal { left, right, .. } = t {
        lemma_leaf_lists(*left);
        lemma_leaf_lists(*right);
        let ll = leaf_list(*left);
        assert forall|i: int| 0 <= i < leaf_list(t).len() implies #[trigger] leaf_list(t)[i] == (HuffmanNode::Leaf {
            value: leaf_paths(t)[i].0,
            freq: leaf_weights(t)[i].0,
        }) && leaf_paths(t)[i].1.len() == leaf_weights(t)[i].1 by {
            if i < ll.len() {
                assert(leaf_list(t)[i] == ll[i]);
                assert(leaf_paths(t)[i] == (leaf_paths(*left)[i].0, seq![false] + leaf_paths(*left)[i].1));
                assert(leaf_weights(t)[i] == (leaf_weights(*left)[i].0, leaf_weights(*left)[i].1 + 1));
            } else {
                let j = i - ll.len();
                assert(leaf_list(t)[i] == leaf_list(*right)[j]);
                assert(leaf_paths(t)[i] == (leaf_paths(*right)[j].0, seq![true] + leaf_paths(*right)[j].1));
                assert(leaf_weights(t)[i] == (leaf_weights(*right)[j].0, leaf_weights(*right)[j].1 + 1));
            }
        }
    }
}

/// `code` shifted left by one bit in 32 bits, with `bit` shifted in.
pub open spec fn shl_code(code: u32, bit: int) -> u32 {
    ((code * 2 + bit) % 0x1_0000_0000) as u32
}

/// The code table that a walk of `n` adds to `m`: each leaf reached with the
/// code `code` of length `depth` records `(code, depth)` for its pixel, the
/// left subtree is walked before the right one, and each step down shifts a
/// 0 (left) or a 1 (right) into the 32-bit code.
pub open spec fn explored(
    m: Map<u32, (u32, u8)>,
    n: HuffmanNode,
    code: u32,
    depth: nat,
) -> Map<u32, (u32, u8)>
    decreases n,
{
    match n {
        HuffmanNode::Leaf { value, .. } => m.insert(value, (code, depth as u8)),
        HuffmanNode::Internal { left, right, .. } => explored(
            explored(m, *left, shl_code(code, 0), depth + 1),
            *right,
            shl_code(code, 1),
            depth + 1,
        ),
    }
}

proof fn lemma_shl_code(code: u32)
    ensures
        code << 1u32 == shl_code(code, 0),
        (code << 1u32) | 1u32 == shl_code(code, 1),
{
    assert((code << 1u32) as int == (code as int * 2) % 0x1_0000_0000) by (bit_vector);
    assert(((code << 1u32) | 1u32) as int == (code as int * 2 + 1) % 0x1_0000_0000) by (bit_vector);
}

/// Records the code of every leaf below `node`, reached with `code` of
/// length `depth`, into `map`.
pub fn explore_node(node: &HuffmanNode, code: u32, depth: u8, map: &mut HashMap<u32, (u32, u8)>)
    requires
        depth + height(*node) <= 255,
    ensures
        final(map)@ == explored(old(map)@, *node, code, depth as nat),
    decreases node,
{
    match node {
        HuffmanNode::Leaf { value, .. } => {
            map.insert(*value, (code, depth));
        },
        HuffmanNode::Internal { left, right, .. } => {
            proof {
                lemma_shl_code(code);
            }
            explore_node(left, code << 1, depth + 1, map);
            explore_node(right, (code << 1) | 1, depth + 1, map);
        },
    }
}

/// The Fibonacci numbers: 0, 1, 1, 2, 3, 5, ...
pub open spec fn fib(n: nat) -> nat
    decreases n,
{
    if n == 0 {
        0
    } else if n == 1 {
        1
    } else {
        fib((n - 1) as nat) + fib((n - 2) as nat)
    }
}

/// The larger frequency of the two children, 0 for a leaf.
pub open spec fn max_child(n: HuffmanNode) -> nat {
    match n {
        HuffmanNode::Leaf { .. } => 0,
        HuffmanNode::Internal { left, right, .. } => if left.spec_freq() >= right.spec_freq() {
            left.spec_freq() as nat
        } else {
            right.spec_freq() as nat
        },
    }
}

/// The weight bound that merging the two lightest trees keeps: a tree of
/// height `h` weighs at least `fib(h + 2)`, and its heavier child at least
/// `fib(h + 1)`.
pub open spec fn fib_weighted(n: HuffmanNode) -> bool {
    &&& fib(height(n) + 2) <= n.spec_freq()
    &&& height(n) >= 1 ==> fib(height(n) + 1) <= max_child(n)
}

/// Total frequency of a forest.
pub open spec fn forest_freq(s: Seq<HuffmanNode>) -> int
    decreases s.len(),
{
    if s.len() == 0 {
        0
    } else {
        forest_freq(s.drop_last()) + s.last().spec_freq()
    }
}

/// The pixels at the leaves of a forest.
pub open spec fn forest_values(s: Seq<HuffmanNode>) -> Set<u32>
    decreases s.len(),
{
    if s.len() == 0 {
        Set::empty()
    } else {
        forest_values(s.drop_last()).union(leaf_values(s.last()))
    }
}

proof fn lemma_fib_monotone(a: nat, b: nat)
    requires
        a <= b,
    ensures
        fib(a) <= fib(b),
    decreases b,
{
    if a < b {
        lemma_fib_monotone(a, (b - 1) as nat);
        if b >= 2 {
        }
    }
}

proof fn lemma_fib_values()
    ensures
        fib(1) == 1,
        fib(2) == 1,
        fib(35) == 9227465,
        fib(48) == 4807526976,
{
    assert(fib(0) == 0);
    assert(fib(1) == 1);
    assert(fib(2) == 1);
    assert(fib(3) == 2);
    assert(fib(4) == 3);
    assert(fib(5) == 5);
    assert(fib(6) == 8);
    assert(fib(7) == 13);
    assert(fib(8) == 21);
    assert(fib(9) == 34);
    assert(fib(10) == 55);
    assert(fib(11) == 89);
    assert(fib(12) == 144);
    assert(fib(13) == 233);
    assert(fib(14) == 377);
    assert(fib(15) == 610);
    assert(fib(16) == 987);
    assert(fib(17) == 1597);
    assert(fib(18) == 2584);
    assert(fib(19) == 4181);
    assert(fib(20) == 6765);
    assert(fib(21) == 10946);
    assert(fib(22) == 17711);
    assert(fib(23) == 28657);
    assert(fib(24) == 46368);
    assert(fib(25) == 75025);
    assert(fib(26) == 121393);
    assert(fib(27) == 196418);
    assert(fib(28) == 317811);
    assert(fib(29) == 514229);
    assert(fib(30) == 832040);
    assert(fib(31) == 1346269);
    assert(fib(32) == 2178309);
    assert(fib(33) == 3524578);
    assert(fib(34) == 5702887);
    assert(fib(35) == 9227465);
    assert(fib(36) == 14930352);
    assert(fib(37) == 24157817);
    assert(fib(38) == 39088169);
    assert(fib(39) == 63245986);
    assert(fib(40) == 102334155);
    assert(fib(41) == 165580141);
    assert(fib(42) == 267914296);
    assert(fib(43) == 433494437);
    assert(fib(44) == 701408733);
    assert(fib(45) == 1134903170);
    assert(fib(46) == 1836311903);
    assert(fib(47) == 2971215073);
    assert(fib(48) == 4807526976);
}

/// A tree weighing at most `u32::MAX` has height at most 45, and one weighing
/// less than `fib(35)` has height at most 32.
pub proof fn lemma_height_bound(n: HuffmanNode)
    requires
        fib_weighted(n),
    ensures
        height(n) <= 45,
        n.spec_freq() < 9227465 ==> height(n) <= 32,
{
    lemma_fib_values();
    if height(n) > 45 {
        lemma_fib_monotone(48, height(n) + 2);
    }
    if height(n) > 32 {
        lemma_fib_monotone(35, height(n) + 2);
    }
}

proof fn lemma_forest_nonneg(s: Seq<HuffmanNode>)
    ensures
        forest_freq(s) >= 0,
    decreases s.len(),
{
    if s.len() > 0 {
        lemma_forest_nonneg(s.drop_last());
    }
}

proof fn lemma_forest_remove(s: Seq<HuffmanNode>, i: int)
    requires
        0 <= i < s.len(),
    ensures
        forest_freq(s) == forest_freq(s.remove(i)) + s[i].spec_freq(),
        forest_values(s) == forest_values(s.remove(i)).union(leaf_values(s[i])),
    decreases s.len(),
{
    if i == s.len() - 1 {
        assert(s.remove(i) =~= s.drop_last());
    } else {
        lemma_forest_remove(s.drop_last(), i);
        assert(s.remove(i).drop_last() =~= s.drop_last().remove(i));
        assert(s.remove(i).last() == s.last());
        assert(forest_values(s) =~= forest_values(s.remove(i)).union(leaf_values(s[i])));
    }
}

proof fn lemma_merge_fib(a: HuffmanNode, b: HuffmanNode, last: int)
    requires
        fib_weighted(a),
        fib_weighted(b),
        a.spec_freq() >= last,
        b.spec_freq() >= last,
        max_child(a) <= last,
        max_child(b) <= last,
        a.spec_freq() <= b.spec_freq(),
        a.spec_freq() + b.spec_freq() <= u32::MAX,
    ensures
        fib_weighted(
            HuffmanNode::Internal {
                left: Box::new(a),
                right: Box::new(b),
                freq: (a.spec_freq() + b.spec_freq()) as u32,
            },
        ),
{
    let z = HuffmanNode::Internal {
        left: Box::new(a),
        right: Box::new(b),
        freq: (a.spec_freq() + b.spec_freq()) as u32,
    };
    let ha = height(a);
    let hb = height(b);
    let h = height(z);
    assert(fib(h + 2) == fib(h + 1) + fib(h));
    lemma_fib_values();
    if ha >= hb {
        assert(h == ha + 1);
        if ha == 0 {
            assert(hb == 0);
        } else {
            assert(fib(ha + 1) <= max_child(a));
        }
    } else {
        assert(h == hb + 1);
        assert(fib(hb + 1) <= max_child(b));
    }
}

/// Index of a lightest tree of a non-empty forest.
fn lightest(forest: &Vec<HuffmanNode>) -> (i: usize)
    requires
        forest@.len() > 0,
    ensures
        i < forest@.len(),
        forall|j: int| 0 <= j < forest@.len() ==> forest@[i as int].spec_freq() <= #[trigger] forest@[j].spec_freq(),
        forall|j: int| 0 <= j < i ==> forest@[i as int].spec_freq() < #[trigger] forest@[j].spec_freq(),
{
    let mut best: usize = 0;
    let mut k: usize = 1;
    while k < forest.len()
        invariant
            best < k,
            1 <= k <= forest@.len(),
            forall|j: int| 0 <= j < k ==> forest@[best as int].spec_freq() <= #[trigger] forest@[j].spec_freq(),
            forall|j: int| 0 <= j < best ==> forest@[best as int].spec_freq() < #[trigger] forest@[j].spec_freq(),
        decreases forest@.len() - k,
    {
        if forest[k].freq() < forest[best].freq() {
            best = k;
        }
        k += 1;
    }
    best
}

/// Builds a Huffman tree over the given leaves by merging the two lightest
/// trees (the lighter one on the left; of two as light, the one that stood
/// first in the forest, where merged trees join at the end) until one tree
/// is left; `None` for no leaves. No leaf of the result lies deeper than a
/// less frequent one.
pub fn build_huffman_tree(leaves: Vec<HuffmanNode>) -> (root: Option<HuffmanNode>)
    requires
        forall|i: int| 0 <= i < leaves@.len() ==> (#[trigger] leaves@[i] is Leaf) && leaves@[i].spec_freq() >= 1,
        forest_freq(leaves@) <= u32::MAX,
    ensures
        root is None <==> leaves@.len() == 0,
        root matches Some(r) ==> {
            &&& wf_tree(r)
            &&& fib_weighted(r)
            &&& r.spec_freq() == forest_freq(leaves@)
            &&& leaf_values(r) == forest_values(leaves@)
            &&& exists|picks: Seq<(nat, nat)>|
                #[trigger] greedy(leaves@, picks) && picks.len() + 1 == leaves@.len()
                    && r == node_of(leaves@, picks, (2 * leaves@.len() - 2) as nat)
            &&& frequent_leaves_shallower(r)
            &&& forall|i: int| 0 <= i < leaf_list(r).len() ==> leaves@.contains(#[trigger] leaf_list(r)[i])
        },
{
    if leaves.len() == 0 {
        return None;
    }
    let ghost total = forest_freq(leaves@);
    let ghost values = forest_values(leaves@);
    let ghost mut last: int = 0;
    let ghost leaves0 = leaves@;
    let ghost n = leaves0.len();
    let ghost mut picks: Seq<(nat, nat)> = Seq::empty();
    let ghost mut ids: Seq<nat> = Seq::new(n, |i: int| i as nat);
    let mut forest = leaves;
    proof {
        assert forall|i: int| 0 <= i < forest@.len() implies wf_tree(#[trigger] forest@[i]) && fib_weighted(forest@[i]) && forest@[i].spec_freq() >= last && max_child(forest@[i]) <= last by {
            lemma_fib_values();
        }
        assert forall|v: nat| available(n, picks, 0, v) <==> ids.contains(v) by {
            if v < n {
                assert(ids[v as int] == v);
            }
        }
        assert(stands(leaves0, picks, ids, forest@));
        assert forall|p: int, i: int| 0 <= p < forest@.len() && 0 <= i < leaf_list(#[trigger] forest@[p]).len()
            implies leaves0.contains(#[trigger] leaf_list(forest@[p])[i]) by {
            assert(forest@[p] is Leaf);
            assert(leaf_list(forest@[p])[i] == leaves0[p]);
        }
    }
    while forest.len() > 1
        invariant
            forest@.len() >= 1,
            forest_freq(forest@) == total,
            total <= u32::MAX,
            forest_values(forest@) == values,
            forall|i: int| 0 <= i < forest@.len() ==> wf_tree(#[trigger] forest@[i]) && fib_weighted(forest@[i]) && forest@[i].spec_freq() >= last && max_child(forest@[i]) <= last,
            n == leaves0.len(),
            forest@.len() + picks.len() == n,
            greedy(leaves0, picks),
            stands(leaves0, picks, ids, forest@),
            forall|p: int, i: int| 0 <= p < forest@.len() && 0 <= i < leaf_list(#[trigger] forest@[p]).len()
                ==> leaves0.contains(#[trigger] leaf_list(forest@[p])[i]),
        decreases forest@.len(),
    {
        let ghost f0 = forest@;
        let i1 = lightest(&forest);
        let a = forest.remove(i1);
        proof {
            lemma_forest_remove(f0, i1 as int);
            assert forall|j: int| 0 <= j < forest@.len() implies a.spec_freq() <= #[trigger] forest@[j].spec_freq() by {
                if j < i1 {
                    assert(forest@[j] == f0[j]);
                } else {
                    assert(forest@[j] == f0[j + 1]);
                }
            }
        }
        let ghost f1 = forest@;
        let i2 = lightest(&forest);
        let b = forest.remove(i2);
        proof {
            lemma_forest_remove(f1, i2 as int);
            lemma_forest_nonneg(forest@);
            assert(wf_tree(a) && fib_weighted(a) && a.spec_freq() >= last && max_child(a) <= last) by {
                assert(a == f0[i1 as int]);
            }
            assert(wf_tree(b) && fib_weighted(b) && b.spec_freq() >= last && max_child(b) <= last) by {
                assert(b == f1[i2 as int]);
                assert(f1[i2 as int] == f0[if i2 < i1 { i2 as int } else { i2 + 1 }]);
            }
        }
        let freq = a.freq() + b.freq();
        proof {
            lemma_merge_fib(a, b, last);
            assert forall|j: int| 0 <= j < forest@.len() implies b.spec_freq() <= #[trigger] forest@[j].spec_freq() by {
                if j < i2 {
                    assert(forest@[j] == f1[j]);
                } else {
                    assert(forest@[j] == f1[j + 1]);
                }
            }
            assert forall|j: int| 0 <= j < forest@.len() implies wf_tree(#[trigger] forest@[j]) && fib_weighted(forest@[j]) && forest@[j].spec_freq() >= last && max_child(forest@[j]) <= last by {
                if j < i2 {
                    assert(forest@[j] == f1[j]);
                } else {
                    assert(forest@[j] == f1[j + 1]);
                }
                let k = if j < i2 { j } else { j + 1 };
                if k < i1 {
                    assert(f1[k] == f0[k]);
                } else {
                    assert(f1[k] == f0[k + 1]);
                }
            }
            last = b.spec_freq() as int;
        }
        let ghost f2 = forest@;
        let node = HuffmanNode::Internal { left: Box::new(a), right: Box::new(b), freq };
        proof {
            assert(f1 == f0.remove(i1 as int));
            assert(f2 == f1.remove(i2 as int));
            lemma_greedy_join(leaves0, picks, ids, f0, i1 as int, i2 as int, node);
            let pick = (ids[i1 as int], ids.remove(i1 as int)[i2 as int]);
            ids = ids.remove(i1 as int).remove(i2 as int).push((n + picks.len()) as nat);
            picks = picks.push(pick);
        }
        forest.push(node);
        proof {
            assert forall|p: int, i: int| 0 <= p < forest@.len() && 0 <= i < leaf_list(#[trigger] forest@[p]).len()
                implies leaves0.contains(#[trigger] leaf_list(forest@[p])[i]) by {
                if p < f2.len() {
                    let p1 = if p < i2 { p } else { p + 1 };
                    let p0 = if p1 < i1 { p1 } else { p1 + 1 };
                    assert(forest@[p] == f2[p]);
                    assert(f2[p] == f1[p1]);
                    assert(f1[p1] == f0[p0]);
                } else {
                    assert(forest@[p] == node);
                    let la = leaf_list(a);
                    if i < la.len() {
                        assert(leaf_list(node)[i] == la[i]);
                        assert(a == f0[i1 as int]);
                    } else {
                        assert(leaf_list(node)[i] == leaf_list(b)[i - la.len()]);
                        assert(b == f1[i2 as int]);
                        let q1 = if (i2 as int) < (i1 as int) { i2 as int } else { i2 + 1 };
                        assert(f1[i2 as int] == f0[q1]);
                    }
                }
            }
            assert(forest@.drop_last() =~= f2);
            assert(forest_values(forest@) =~= values);
            assert forall|j: int| 0 <= j < forest@.len() implies wf_tree(#[trigger] forest@[j]) && fib_weighted(forest@[j]) && forest@[j].spec_freq() >= last && max_child(forest@[j]) <= last by {
                if j < f2.len() {
                    assert(forest@[j] == f2[j]);
                }
            }
        }
    }
    let ghost f = forest@;
    let root = forest.pop().unwrap();
    proof {
        let r = ids[0];
        assert(ids.contains(r));
        assert(root == node_of(leaves0, picks, r));
        lemma_greedy_tree_shallower(leaves0, picks, r);
        if picks.len() > 0 {
            let newest = (n + picks.len() - 1) as nat;
            if consumed(picks, picks.len() as int, newest) {
                let j = choose|j: int| 0 <= j < picks.len() && #[trigger] joins(picks[j], newest);
                lemma_picks_older(leaves0, picks, j);
            }
            assert(ids.contains(newest));
        }
        assert(r == 2 * n - 2);
        assert(f.len() == 1);
        assert(f.drop_last() =~= Seq::<HuffmanNode>::empty());
        assert(f.last() == root);
        assert(forest_values(f.drop_last()) == Set::<u32>::empty());
        assert(forest_freq(f.drop_last()) == 0);
        assert(forest_values(f) =~= leaf_values(root));
        assert forall|i: int| 0 <= i < leaf_list(root).len() implies leaves0.contains(#[trigger] leaf_list(root)[i]) by {
            assert(f[0] == root);
        }
    }
    Some(root)
}

/// The number whose binary digits, most significant first, are `p`.
pub open spec fn bits_value(p: Seq<bool>) -> nat
    decreases p.len(),
{
    if p.len() == 0 {
        0
    } else {
        2 * bits_value(p.drop_last()) + if p.last() {
            1nat
        } else {
            0nat
        }
    }
}

/// `a` is a prefix of `b`.
pub open spec fn is_prefix_of(a: Seq<bool>, b: Seq<bool>) -> bool {
    a.len() <= b.len() && b.take(a.len() as int) == a
}

/// The table entry that a walk started at `code` of length `depth` records
/// for a leaf at path `p` below: the path's bits shifted into the 32-bit
/// code, and the length grown by the path's length.
pub open spec fn path_code(code: u32, depth: nat, p: Seq<bool>) -> (u32, u8) {
    (((code * pow2(p.len()) + bits_value(p)) % 0x1_0000_0000) as u32, (depth + p.len()) as u8)
}

proof fn lemma_bits_value_bound(p: Seq<bool>)
    ensures
        bits_value(p) < pow2(p.len()),
    decreases p.len(),
{
    if p.len() == 0 {
        lemma2_to64();
    } else {
        lemma_bits_value_bound(p.drop_last());
        lemma_pow2_unfold(p.len());
    }
}

proof fn lemma_bits_value_prepend(b: bool, p: Seq<bool>)
    ensures
        bits_value(seq![b] + p) == (if b {
            1nat
        } else {
            0nat
        }) * pow2(p.len()) + bits_value(p),
    decreases p.len(),
{
    if p.len() == 0 {
        lemma2_to64();
        assert((seq![b] + p).drop_last() =~= Seq::<bool>::empty());
        assert((seq![b] + p).last() == b);
        assert(bits_value(Seq::<bool>::empty()) == 0);
        assert(bits_value(p) == 0);
    } else {
        lemma_bits_value_prepend(b, p.drop_last());
        assert((seq![b] + p).drop_last() =~= seq![b] + p.drop_last());
        assert((seq![b] + p).last() == p.last());
        lemma_pow2_unfold(p.len());
        if b {
            assert(bits_value(seq![b] + p) == pow2(p.len()) + bits_value(p));
        } else {
            assert(bits_value(seq![b] + p) == bits_value(p));
        }
    }
}

proof fn lemma_bits_value_injective(a: Seq<bool>, b: Seq<bool>)
    requires
        a.len() == b.len(),
        bits_value(a) == bits_value(b),
    ensures
        a == b,
    decreases a.len(),
{
    if a.len() > 0 {
        lemma_bits_value_injective(a.drop_last(), b.drop_last());
        assert(a =~= a.drop_last().push(a.last()));
        assert(b =~= b.drop_last().push(b.last()));
    } else {
        assert(a =~= b);
    }
}

proof fn lemma_path_code_step(code: u32, b: bool, p: Seq<bool>)
    ensures
        path_code(shl_code(code, if b { 1 } else { 0 }), 0, p).0 == path_code(code, 0, seq![b] + p).0,
{
    let m: int = 0x1_0000_0000;
    let bit: int = if b { 1 } else { 0 };
    let x: int = code * 2 + bit;
    let pp: int = pow2(p.len()) as int;
    let v: int = bits_value(p) as int;
    lemma_bits_value_prepend(b, p);
    lemma_pow2_unfold(p.len() + 1);
    assert((seq![b] + p).len() == p.len() + 1);
    assert(pow2(p.len() + 1) == 2 * pp);
    lemma_mul_mod_noop_left(x, pp, m);
    lemma_add_mod_noop((x % m) * pp, v, m);
    lemma_add_mod_noop(x * pp, v, m);
    assert(x * pp == code * (2 * pp) + bit * pp) by (nonlinear_arith)
        requires
            x == code * 2 + bit,
    ;
    assert(shl_code(code, bit) as int == x % m);
}

/// A walk of `t` changes the code table only at the pixels of `t`, and gives
/// each of them the entry of one of its leaves.
pub proof fn lemma_explored(m0: Map<u32, (u32, u8)>, t: HuffmanNode, code: u32, depth: nat)
    ensures
        explored(m0, t, code, depth).dom() == m0.dom().union(leaf_values(t)),
        forall|v: u32| !leaf_values(t).contains(v) ==> #[trigger] explored(m0, t, code, depth)[v] == m0[v],
        forall|v: u32| #[trigger] leaf_values(t).contains(v) ==> exists|i: int|
            0 <= i < leaf_paths(t).len() && (#[trigger] leaf_paths(t)[i]).0 == v
                && explored(m0, t, code, depth)[v] == path_code(code, depth, leaf_paths(t)[i].1),
    decreases t,
{
    match t {
        HuffmanNode::Leaf { value, .. } => {
            lemma2_to64();
            assert(leaf_paths(t)[0].1 =~= Seq::<bool>::empty());
            assert(path_code(code, depth, Seq::<bool>::empty()).0 == code) by {
                lemma_small_mod(code as nat, 0x1_0000_0000);
            }
            assert(explored(m0, t, code, depth).dom() =~= m0.dom().union(leaf_values(t)));
        },
        HuffmanNode::Internal { left, right, .. } => {
            let l = *left;
            let r = *right;
            let c0 = shl_code(code, 0);
            let c1 = shl_code(code, 1);
            let m1 = explored(m0, l, c0, depth + 1);
            lemma_explored(m0, l, c0, depth + 1);
            lemma_explored(m1, r, c1, depth + 1);
            let lp = leaf_paths(t);
            let lpl = leaf_paths(l);
            let lpr = leaf_paths(r);
            assert(explored(m0, t, code, depth).dom() =~= m0.dom().union(leaf_values(t)));
            assert forall|v: u32| #[trigger] leaf_values(t).contains(v) implies exists|i: int|
                0 <= i < lp.len() && (#[trigger] lp[i]).0 == v
                    && explored(m0, t, code, depth)[v] == path_code(code, depth, lp[i].1) by {
                if leaf_values(r).contains(v) {
                    let i = choose|i: int| 0 <= i < lpr.len() && (#[trigger] lpr[i]).0 == v
                        && explored(m1, r, c1, depth + 1)[v] == path_code(c1, depth + 1, lpr[i].1);
                    let k = lpl.len() + i;
                    assert(lp[k] == (lpr[i].0, seq![true] + lpr[i].1));
                    lemma_path_code_step(code, true, lpr[i].1);
                    assert(path_code(c1, depth + 1, lpr[i].1) == path_code(code, depth, lp[k].1));
                } else {
                    let i = choose|i: int| 0 <= i < lpl.len() && (#[trigger] lpl[i]).0 == v
                        && explored(m0, l, c0, depth + 1)[v] == path_code(c0, depth + 1, lpl[i].1);
                    assert(lp[i] == (lpl[i].0, seq![false] + lpl[i].1));
                    lemma_path_code_step(code, false, lpl[i].1);
                    assert(path_code(c0, depth + 1, lpl[i].1) == path_code(code, depth, lp[i].1));
                }
            }
        },
    }
}

/// No leaf's path is a prefix of another leaf's path, and no path is longer
/// than the tree's height.
pub proof fn lemma_paths_prefix_free(t: HuffmanNode)
    ensures
        forall|i: int, j: int|
            0 <= i < leaf_paths(t).len() && 0 <= j < leaf_paths(t).len() && i != j
                ==> !is_prefix_of(#[trigger] leaf_paths(t)[i].1, #[trigger] leaf_paths(t)[j].1),
        forall|i: int| 0 <= i < leaf_paths(t).len() ==> (#[trigger] leaf_paths(t)[i]).1.len() <= height(t),
    decreases t,
{
    match t {
        HuffmanNode::Leaf { .. } => {
        },
        HuffmanNode::Internal { left, right, .. } => {
            let l = *left;
            let r = *right;
            lemma_paths_prefix_free(l);
            lemma_paths_prefix_free(r);
            let lp = leaf_paths(t);
            let lpl = leaf_paths(l);
            let lpr = leaf_paths(r);
            let nl = lpl.len() as int;
            assert forall|i: int| 0 <= i < lp.len() implies (#[trigger] lp[i]) == if i < nl {
                (lpl[i].0, seq![false] + lpl[i].1)
            } else {
                (lpr[i - nl].0, seq![true] + lpr[i - nl].1)
            } by {}
            assert forall|i: int, j: int|
                0 <= i < lp.len() && 0 <= j < lp.len() && i != j implies !is_prefix_of(
                #[trigger] lp[i].1,
                #[trigger] lp[j].1,
            ) by {
                let a = lp[i].1;
                let b = lp[j].1;
                if is_prefix_of(a, b) {
                    assert(b.take(a.len() as int)[0] == a[0]);
                    if (i < nl) == (j < nl) {
                        let ta = a.drop_first();
                        let tb = b.drop_first();
                        assert(tb.take(ta.len() as int) =~= b.take(a.len() as int).drop_first());
                        if i < nl {
                            assert(ta =~= lpl[i].1);
                            assert(tb =~= lpl[j].1);
                        } else {
                            assert(ta =~= lpr[i - nl].1);
                            assert(tb =~= lpr[j - nl].1);
                        }
                    }
                }
            }
        },
    }
}

/// The key under which the table of a compressed image stores a code word:
/// the length in the high 32 bits, the code in the low 32 bits.
pub open spec fn code_key(len: nat, code: nat) -> u64 {
    (len * 0x1_0000_0000 + code) as u64
}

/// The key of the code word whose bits are `p`.
pub open spec fn path_key(p: Seq<bool>) -> u64 {
    code_key(p.len(), bits_value(p))
}

/// The code that the decoder has assembled after reading `k` bits: each bit
/// shifted into a 32-bit register.
pub open spec fn running_code(bits: Seq<bool>, k: nat) -> u32
    decreases k,
{
    if k == 0 {
        0u32
    } else {
        shl_code(running_code(bits, (k - 1) as nat), if bits[k - 1] { 1 } else { 0 })
    }
}

/// Decoding one pixel from the front of `bits`, having read `k` bits so far:
/// the first length `k` at which the table holds the assembled code, with
/// the pixel found there. `None` where the bits run out first, or where a
/// code would need more than 255 bits.
pub open spec fn find_code(bits: Seq<bool>, table: Map<u64, u32>, k: nat) -> Option<(nat, u32)>
    decreases 256 - k,
{
    let key = code_key(k, running_code(bits, k) as nat);
    if table.contains_key(key) {
        Some((k, table[key]))
    } else if k >= bits.len() || k >= 255 {
        None
    } else {
        find_code(bits, table, k + 1)
    }
}

/// Decoding `n` pixels one after the other from the front of `bits`.
pub open spec fn decode_pixels(bits: Seq<bool>, table: Map<u64, u32>, n: nat) -> Option<Seq<u32>>
    decreases n,
{
    if n == 0 {
        Some(Seq::empty())
    } else {
        match find_code(bits, table, 0) {
            None => None,
            Some((k, v)) => match decode_pixels(bits.skip(k as int), table, (n - 1) as nat) {
                None => None,
                Some(rest) => Some(seq![v] + rest),
            },
        }
    }
}

/// The code words of the pixels of `ps`, one after the other.
pub open spec fn encode_bits(ps: Seq<u32>, cb: Map<u32, Seq<bool>>) -> Seq<bool>
    decreases ps.len(),
{
    if ps.len() == 0 {
        Seq::empty()
    } else {
        cb[ps[0]] + encode_bits(ps.drop_first(), cb)
    }
}

/// No code word is a prefix of another pixel's code word.
pub open spec fn prefix_free(cb: Map<u32, Seq<bool>>) -> bool {
    forall|u: u32, v: u32|
        #![trigger cb[u], cb[v]]
        cb.contains_key(u) && cb.contains_key(v) && u != v ==> !is_prefix_of(cb[u], cb[v])
}

/// `table` maps the key of each code word to its pixel, and holds nothing
/// else.
pub open spec fn table_for(cb: Map<u32, Seq<bool>>, table: Map<u64, u32>) -> bool {
    &&& forall|v: u32| #[trigger] cb.contains_key(v) ==> table.contains_key(path_key(cb[v]))
        && table[path_key(cb[v])] == v
    &&& forall|key: u64| #[trigger] table.contains_key(key) ==> exists|v: u32|
        cb.contains_key(v) && #[trigger] path_key(cb[v]) == key
}

/// `data` is the prefix-free code book `cb` (words of at most 32 bits)
/// applied to the pixels `ps`, padded with zero bits to whole bytes, and
/// `table` is the decoding table of `cb`.
pub open spec fn codebook_encodes(
    cb: Map<u32, Seq<bool>>,
    ps: Seq<u32>,
    table: Map<u64, u32>,
    data: Seq<u8>,
) -> bool {
    &&& forall|i: int| 0 <= i < ps.len() ==> cb.contains_key(#[trigger] ps[i])
    &&& forall|v: u32| #[trigger] cb.contains_key(v) ==> cb[v].len() <= 32
    &&& prefix_free(cb)
    &&& table_for(cb, table)
    &&& bytes_bits(data) == pad_to_bytes(encode_bits(ps, cb))
}

/// `data` with `table` is a prefix-code encoding of the pixels `ps`.
pub open spec fn huffman_encoded(ps: Seq<u32>, table: Map<u64, u32>, data: Seq<u8>) -> bool {
    exists|cb: Map<u32, Seq<bool>>| codebook_encodes(cb, ps, table, data)
}

proof fn lemma_code_key_injective(l1: nat, c1: nat, l2: nat, c2: nat)
    requires
        l1 <= 255,
        l2 <= 255,
        c1 < 0x1_0000_0000,
        c2 < 0x1_0000_0000,
        code_key(l1, c1) == code_key(l2, c2),
    ensures
        l1 == l2,
        c1 == c2,
{
}

proof fn lemma_running_code(bits: Seq<bool>, k: nat)
    requires
        k <= 32,
        k <= bits.len(),
    ensures
        running_code(bits, k) as nat == bits_value(bits.take(k as int)),
    decreases k,
{
    if k == 0 {
        assert(bits.take(0) =~= Seq::<bool>::empty());
    } else {
        lemma_running_code(bits, (k - 1) as nat);
        let t = bits.take(k as int);
        assert(t.drop_last() =~= bits.take(k - 1));
        assert(t.last() == bits[k - 1]);
        lemma_bits_value_bound(t);
        lemma2_to64();
        if k < 32 {
            lemma_pow2_strictly_increases(k, 32);
        }
        lemma_small_mod(bits_value(t), 0x1_0000_0000);
    }
}

proof fn lemma_find_code(
    cb: Map<u32, Seq<bool>>,
    table: Map<u64, u32>,
    v: u32,
    rest: Seq<bool>,
    k: nat,
)
    requires
        cb.contains_key(v),
        forall|u: u32| #[trigger] cb.contains_key(u) ==> cb[u].len() <= 32,
        prefix_free(cb),
        table_for(cb, table),
        k <= cb[v].len(),
    ensures
        find_code(cb[v] + rest, table, k) == Some((cb[v].len(), v)),
    decreases cb[v].len() - k,
{
    let p = cb[v];
    let bits = p + rest;
    lemma_running_code(bits, k);
    assert(bits.take(k as int) =~= p.take(k as int));
    lemma_bits_value_bound(p.take(k as int));
    lemma2_to64();
    if k < 32 {
        lemma_pow2_strictly_increases(k, 32);
    }
    let key = code_key(k, running_code(bits, k) as nat);
    if k == p.len() {
        assert(p.take(k as int) =~= p);
        assert(key == path_key(p));
    } else {
        if table.contains_key(key) {
            let u = choose|u: u32| cb.contains_key(u) && #[trigger] path_key(cb[u]) == key;
            lemma_bits_value_bound(cb[u]);
            if cb[u].len() < 32 {
                lemma_pow2_strictly_increases(cb[u].len(), 32);
            }
            lemma_code_key_injective(cb[u].len(), bits_value(cb[u]), k, bits_value(p.take(k as int)));
            lemma_bits_value_injective(cb[u], p.take(k as int));
            assert(is_prefix_of(cb[u], cb[v]));
            assert(u != v);
            assert(false);
        }
        lemma_find_code(cb, table, v, rest, k + 1);
    }
}

proof fn lemma_decode_encoded(cb: Map<u32, Seq<bool>>, ps: Seq<u32>, table: Map<u64, u32>, tail: Seq<bool>)
    requires
        forall|i: int| 0 <= i < ps.len() ==> cb.contains_key(#[trigger] ps[i]),
        forall|u: u32| #[trigger] cb.contains_key(u) ==> cb[u].len() <= 32,
        prefix_free(cb),
        table_for(cb, table),
    ensures
        decode_pixels(encode_bits(ps, cb) + tail, table, ps.len()) == Some(ps),
    decreases ps.len(),
{
    if ps.len() == 0 {
        assert(ps =~= Seq::<u32>::empty());
    } else {
        let v = ps[0];
        let rest = encode_bits(ps.drop_first(), cb) + tail;
        assert(encode_bits(ps, cb) + tail =~= cb[v] + rest);
        lemma_find_code(cb, table, v, rest, 0);
        assert((cb[v] + rest).skip(cb[v].len() as int) =~= rest);
        assert forall|i: int| 0 <= i < ps.drop_first().len() implies cb.contains_key(#[trigger] ps.drop_first()[i]) by {
            assert(ps.drop_first()[i] == ps[i + 1]);
        }
        lemma_decode_encoded(cb, ps.drop_first(), table, tail);
        assert(seq![v] + ps.drop_first() =~= ps);
    }
}

/// Decoding a prefix-code encoding of pixels gives the pixels back.
pub proof fn lemma_huffman_decodes(ps: Seq<u32>, table: Map<u64, u32>, data: Seq<u8>)
    requires
        huffman_encoded(ps, table, data),
    ensures
        decode_pixels(bytes_bits(data), table, ps.len()) == Some(ps),
{
    let cb = choose|cb: Map<u32, Seq<bool>>| codebook_encodes(cb, ps, table, data);
    let enc = encode_bits(ps, cb);
    let tail = Seq::new(((8 - enc.len() % 8) % 8) as nat, |i: int| false);
    lemma_decode_encoded(cb, ps, table, tail);
}

/// A pixel as one number: `r * 2^16 + g * 2^8 + b`.
pub open spec fn pixel_key(r: u8, g: u8, b: u8) -> u32 {
    ((r as u32) * 65536 + (g as u32) * 256 + (b as u32)) as u32
}

/// The first `n` pixels of a raw RGB buffer.
pub open spec fn pixel_keys(raw: Seq<u8>, n: nat) -> Seq<u32> {
    Seq::new(n, |k: int| pixel_key(raw[3 * k], raw[3 * k + 1], raw[3 * k + 2]))
}

/// The three bytes `r, g, b` of a pixel number.
pub open spec fn pixel_bytes(v: u32) -> Seq<u8> {
    seq![(v >> 16u32) as u8, (v >> 8u32) as u8, v as u8]
}

/// The raw RGB buffer of a sequence of pixel numbers.
pub open spec fn expand_pixels(ps: Seq<u32>) -> Seq<u8>
    decreases ps.len(),
{
    if ps.len() == 0 {
        Seq::empty()
    } else {
        expand_pixels(ps.drop_last()) + pixel_bytes(ps.last())
    }
}

/// How often `v` occurs in `ps`.
pub open spec fn occurrences(ps: Seq<u32>, v: u32) -> nat
    decreases ps.len(),
{
    if ps.len() == 0 {
        0
    } else {
        occurrences(ps.drop_last(), v) + if ps.last() == v {
            1nat
        } else {
            0nat
        }
    }
}

/// Sum of the counts of `m` at the keys `keys`.
pub open spec fn sum_counts(keys: Seq<u32>, m: Map<u32, u32>) -> int
    decreases keys.len(),
{
    if keys.len() == 0 {
        0
    } else {
        sum_counts(keys.drop_last(), m) + m[keys.last()]
    }
}

/// Every key of the code table describes a code word of at most 32 bits.
pub open spec fn short_code_table(table: Map<u64, u32>) -> bool {
    forall|key: u64| #[trigger] table.contains_key(key) ==> key / 0x1_0000_0000 <= 32
}

proof fn lemma_occurrences_bound(ps: Seq<u32>, v: u32)
    ensures
        occurrences(ps, v) <= ps.len(),
        ps.contains(v) ==> occurrences(ps, v) >= 1,
    decreases ps.len(),
{
    if ps.len() > 0 {
        lemma_occurrences_bound(ps.drop_last(), v);
        if ps.contains(v) && ps.last() != v {
            let i = choose|i: int| 0 <= i < ps.len() && ps[i] == v;
            assert(ps.drop_last()[i] == v);
        }
    }
}

proof fn lemma_occurrences_zero(ps: Seq<u32>, v: u32)
    requires
        !ps.contains(v),
    ensures
        occurrences(ps, v) == 0,
    decreases ps.len(),
{
    if ps.len() > 0 {
        assert(!ps.drop_last().contains(v)) by {
            if ps.drop_last().contains(v) {
                let i = choose|i: int| 0 <= i < ps.drop_last().len() && ps.drop_last()[i] == v;
                assert(ps[i] == v);
            }
        }
        lemma_occurrences_zero(ps.drop_last(), v);
        assert(ps[ps.len() - 1] == ps.last());
    }
}

proof fn lemma_sum_counts_other(keys: Seq<u32>, m: Map<u32, u32>, k: u32, x: u32)
    requires
        !keys.contains(k),
    ensures
        sum_counts(keys, m.insert(k, x)) == sum_counts(keys, m),
    decreases keys.len(),
{
    if keys.len() > 0 {
        assert(!keys.drop_last().contains(k)) by {
            if keys.drop_last().contains(k) {
                let i = choose|i: int| 0 <= i < keys.drop_last().len() && keys.drop_last()[i] == k;
                assert(keys[i] == k);
            }
        }
        lemma_sum_counts_other(keys.drop_last(), m, k, x);
        assert(keys.last() != k) by {
            assert(keys[keys.len() - 1] == keys.last());
        }
    }
}

proof fn lemma_sum_counts_update(keys: Seq<u32>, m: Map<u32, u32>, k: u32, x: u32)
    requires
        keys.no_duplicates(),
        keys.contains(k),
    ensures
        sum_counts(keys, m.insert(k, x)) == sum_counts(keys, m) - m[k] + x,
    decreases keys.len(),
{
    if keys.last() == k {
        assert(!keys.drop_last().contains(k)) by {
            if keys.drop_last().contains(k) {
                let i = choose|i: int| 0 <= i < keys.drop_last().len() && keys.drop_last()[i] == k;
                assert(keys[i] == keys[keys.len() - 1]);
            }
        }
        lemma_sum_counts_other(keys.drop_last(), m, k, x);
    } else {
        let i = choose|i: int| 0 <= i < keys.len() && keys[i] == k;
        assert(keys.drop_last()[i] == k);
        lemma_sum_counts_update(keys.drop_last(), m, k, x);
    }
}

proof fn lemma_pixel_bytes(r: u8, g: u8, b: u8)
    ensures
        pixel_bytes(pixel_key(r, g, b)) == seq![r, g, b],
{
    let v = pixel_key(r, g, b);
    assert((((r as u32) * 65536 + (g as u32) * 256 + (b as u32)) as u32) >> 16u32 == r as u32) by (bit_vector);
    assert(((((r as u32) * 65536 + (g as u32) * 256 + (b as u32)) as u32) >> 8u32) as u8 == g) by (bit_vector);
    assert((((r as u32) * 65536 + (g as u32) * 256 + (b as u32)) as u32) as u8 == b) by (bit_vector);
    assert(pixel_bytes(v) =~= seq![r, g, b]);
}

/// The bytes of the pixels of a buffer that holds exactly `n` pixels are
/// the buffer.
pub proof fn lemma_expand_pixel_keys(raw: Seq<u8>, n: nat)
    requires
        raw.len() == 3 * n,
    ensures
        expand_pixels(pixel_keys(raw, n)) == raw,
    decreases n,
{
    if n == 0 {
        assert(raw =~= Seq::<u8>::empty());
    } else {
        let prev = raw.take(3 * (n - 1));
        lemma_expand_pixel_keys(prev, (n - 1) as nat);
        assert(pixel_keys(raw, n).drop_last() =~= pixel_keys(prev, (n - 1) as nat));
        lemma_pixel_bytes(raw[3 * (n - 1)], raw[3 * (n - 1) + 1], raw[3 * (n - 1) + 2]);
        assert(raw =~= prev + seq![raw[3 * (n - 1)], raw[3 * (n - 1) + 1], raw[3 * (n - 1) + 2]]);
    }
}

/// Huffman decoding of a Huffman encoding of an image whose buffer holds
/// exactly its `n` pixels gives back the buffer.
pub proof fn lemma_huffman_roundtrip(raw: Seq<u8>, n: nat, table: Map<u64, u32>, data: Seq<u8>)
    requires
        raw.len() == 3 * n,
        huffman_encoded(pixel_keys(raw, n), table, data),
    ensures
        decode_pixels(bytes_bits(data), table, n) == Some(pixel_keys(raw, n)),
        expand_pixels(pixel_keys(raw, n)) == raw,
{
    lemma_huffman_decodes(pixel_keys(raw, n), table, data);
    lemma_expand_pixel_keys(raw, n);
}

proof fn lemma_encode_bits_push(ps: Seq<u32>, v: u32, cb: Map<u32, Seq<bool>>)
    ensures
        encode_bits(ps.push(v), cb) == encode_bits(ps, cb) + cb[v],
    decreases ps.len(),
{
    if ps.len() == 0 {
        assert(ps.push(v).drop_first() =~= Seq::<u32>::empty());
        assert(ps.push(v)[0] == v);
        assert(encode_bits(Seq::<u32>::empty(), cb) == Seq::<bool>::empty());
        assert(encode_bits(ps.push(v), cb) =~= cb[v]);
    } else {
        lemma_encode_bits_push(ps.drop_first(), v, cb);
        assert(ps.push(v).drop_first() =~= ps.drop_first().push(v));
        assert(encode_bits(ps.push(v), cb) =~= encode_bits(ps, cb) + cb[v]);
    }
}

proof fn lemma_low_bits_value(p: Seq<bool>)
    requires
        p.len() <= 32,
    ensures
        low_bits(bits_value(p) as u64, p.len()) == p,
    decreases p.len(),
{
    lemma_bits_value_bound(p);
    lemma2_to64();
    if p.len() < 32 {
        lemma_pow2_strictly_increases(p.len(), 32);
    }
    if p.len() == 0 {
        assert(low_bits(bits_value(p) as u64, 0) =~= p);
    } else {
        let pd = p.drop_last();
        lemma_low_bits_value(pd);
        lemma_bits_value_bound(pd);
        if pd.len() < 32 {
            lemma_pow2_strictly_increases(pd.len(), 32);
        }
        let y = bits_value(pd) as u64;
        let bit: u64 = if p.last() { 1 } else { 0 };
        let x = bits_value(p) as u64;
        assert(x == y * 2 + bit);
        let n = p.len();
        assert forall|j: int| 0 <= j < n implies low_bits(x, n)[j] == p[j] by {
            let i = (n - 1 - j) as u64;
            assert((x >> 0u64) & 1 == bit) by (bit_vector)
                requires
                    x == y * 2 + bit,
                    bit <= 1,
                    y < 0x1_0000_0000,
            ;
            if j < n - 1 {
                let i1 = (i - 1) as u64;
                assert((x >> i) & 1 == (y >> i1) & 1) by (bit_vector)
                    requires
                        x == y * 2 + bit,
                        bit <= 1,
                        y < 0x1_0000_0000,
                        i == i1 + 1,
                        i < 64,
                ;
                assert(low_bits(y, pd.len())[j] == pd[j]);
            }
        }
        assert(low_bits(x, n) =~= p);
    }
}

proof fn lemma_code_fits(p: Seq<bool>)
    requires
        p.len() <= 56,
    ensures
        (path_code(0, 0, p).0 as u64) >> (p.len() as u64) == 0,
{
    let c = path_code(0, 0, p).0;
    let l = p.len() as u64;
    lemma2_to64();
    if p.len() < 32 {
        lemma_bits_value_bound(p);
        lemma_pow2_strictly_increases(p.len(), 32);
        lemma_small_mod(bits_value(p), 0x1_0000_0000);
        vstd::bits::lemma_u64_shr_is_div(c as u64, l);
        assert(c as nat / pow2(p.len()) == 0) by {
            vstd::arithmetic::div_mod::lemma_basic_div(c as int, pow2(p.len()) as int);
        }
    } else {
        assert((c as u64) >> l == 0) by (bit_vector)
            requires
                32 <= l,
                l < 64,
        ;
    }
}

fn pixel_key_of(r: u8, g: u8, b: u8) -> (v: u32)
    ensures
        v == pixel_key(r, g, b),
{
    (r as u32) * 65536 + (g as u32) * 256 + (b as u32)
}

/// The distinct elements of `ps`, in the order in which they first occur.
pub open spec fn first_seen(ps: Seq<u32>) -> Seq<u32>
    decreases ps.len(),
{
    if ps.len() == 0 {
        Seq::empty()
    } else {
        let r = first_seen(ps.drop_last());
        if ps.drop_last().contains(ps.last()) {
            r
        } else {
            r.push(ps.last())
        }
    }
}

/// Counts how often each pixel occurs among the image's `width * height`
/// pixels, and lists the distinct pixels in the order they first occur.
pub fn get_color_frequencies(image: &RgbImage) -> (res: (HashMap<u32, u32>, Vec<u32>))
    requires
        image.spec_width() * image.spec_height() <= u32::MAX,
    ensures
        ({
            let ps = pixel_keys(image.spec_raw(), (image.spec_width() * image.spec_height()) as nat);
            &&& res.1@ == first_seen(ps)
            &&& res.1@.no_duplicates()
            &&& forall|v: u32| res.1@.contains(v) <==> ps.contains(v)
            &&& forall|v: u32| res.0@.contains_key(v) <==> ps.contains(v)
            &&& forall|v: u32| #[trigger] res.0@.contains_key(v) ==> res.0@[v] == occurrences(ps, v)
            &&& sum_counts(res.1@, res.0@) == ps.len()
        }),
{
    let raw = image.as_raw();
    let w = image.width();
    let h = image.height();
    proof {
        assert(rgb_len(w, h) == 3 * (w * h)) by (nonlinear_arith);
        assert((w as usize) * (h as usize) == w * h) by (nonlinear_arith);
    }
    let n: usize = (w as usize) * (h as usize);
    let ghost ps = pixel_keys(raw@, n as nat);
    let mut map: HashMap<u32, u32> = HashMap::new();
    let mut keys: Vec<u32> = Vec::new();
    let mut k: usize = 0;
    let rl = raw.len();
    proof {
        assert(ps.take(0) =~= Seq::<u32>::empty());
        assert(keys@ =~= Seq::<u32>::empty());
    }
    while k < n
        invariant
            k <= n,
            n == w * h,
            n <= u32::MAX,
            3 * n <= raw@.len(),
            rl == raw@.len(),
            raw@ == image.spec_raw(),
            w == image.spec_width(),
            h == image.spec_height(),
            ps == pixel_keys(raw@, n as nat),
            keys@.no_duplicates(),
            keys@ == first_seen(ps.take(k as int)),
            forall|v: u32| keys@.contains(v) <==> ps.take(k as int).contains(v),
            forall|v: u32| map@.contains_key(v) <==> ps.take(k as int).contains(v),
            forall|v: u32| #[trigger] map@.contains_key(v) ==> map@[v] == occurrences(ps.take(k as int), v),
            sum_counts(keys@, map@) == k,
        decreases n - k,
    {
        let v = pixel_key_of(raw[3 * k], raw[3 * k + 1], raw[3 * k + 2]);
        let ghost before = ps.take(k as int);
        let ghost after = ps.take(k + 1);
        let ghost old_map = map@;
        let ghost old_keys = keys@;
        proof {
            assert(ps[k as int] == v);
            assert(after =~= before.push(v));
            assert(after.last() == v);
            assert(after.drop_last() =~= before);
            assert forall|x: u32| after.contains(x) <==> (before.contains(x) || x == v) by {
                if after.contains(x) {
                    let i = choose|i: int| 0 <= i < after.len() && after[i] == x;
                    if i < before.len() {
                        assert(before[i] == x);
                    }
                }
                if before.contains(x) {
                    let i = choose|i: int| 0 <= i < before.len() && before[i] == x;
                    assert(after[i] == x);
                }
                if x == v {
                    assert(after[k as int] == x);
                }
            }
            assert forall|x: u32| occurrences(after, x) == occurrences(before, x) + if x == v { 1nat } else { 0nat } by {}
        }
        match map.get(&v) {
            Some(c) => {
                let c = *c;
                proof {
                    lemma_occurrences_bound(before, v);
                    assert(before.contains(v));
                    assert forall|x: u32| keys@.contains(x) <==> after.contains(x) by {}
                }
                map.insert(v, c + 1);
                proof {
                    lemma_sum_counts_update(old_keys, old_map, v, (c + 1) as u32);
                }
            },
            None => {
                map.insert(v, 1);
                proof {
                    lemma_sum_counts_other(old_keys, old_map, v, 1);
                    assert(keys@.push(v).drop_last() =~= old_keys);
                }
                keys.push(v);
                proof {
                    assert forall|i: int, j: int| 0 <= i < j < keys@.len() implies keys@[i] != keys@[j] by {
                        if j == keys@.len() - 1 {
                            assert(old_keys[i] == keys@[i]);
                            assert(!old_keys.contains(v));
                        } else {
                            assert(old_keys[i] == keys@[i] && old_keys[j] == keys@[j]);
                        }
                    }
                    assert forall|x: u32| keys@.contains(x) <==> (old_keys.contains(x) || x == v) by {
                        if keys@.contains(x) {
                            let i = choose|i: int| 0 <= i < keys@.len() && keys@[i] == x;
                            if i < old_keys.len() {
                                assert(old_keys[i] == x);
                            }
                        }
                        if old_keys.contains(x) {
                            let i = choose|i: int| 0 <= i < old_keys.len() && old_keys[i] == x;
                            assert(keys@[i] == x);
                        }
                        if x == v {
                            assert(keys@[keys@.len() - 1] == x);
                        }
                    }
                }
            },
        }
        proof {
            assert forall|x: u32| map@.contains_key(x) <==> after.contains(x) by {}
            assert forall|x: u32| keys@.contains(x) <==> after.contains(x) by {
                assert(old_keys.contains(x) <==> before.contains(x));
                assert(after.contains(x) <==> (before.contains(x) || x == v));
            }
            assert forall|x: u32| #[trigger] map@.contains_key(x) implies map@[x] == occurrences(after, x) by {
                assert(occurrences(after, x) == occurrences(before, x) + if x == v { 1nat } else { 0nat });
                if x != v {
                    assert(old_map.contains_key(x));
                    assert(map@[x] == old_map[x]);
                } else if old_map.contains_key(v) {
                    assert(old_map[v] == occurrences(before, v));
                } else {
                    assert(!before.contains(v));
                    assert(occurrences(before, v) == 0) by {
                        lemma_occurrences_bound(before, v);
                        lemma_occurrences_zero(before, v);
                    }
                }
            }
        }
        k += 1;
    }
    proof {
        assert(ps.take(n as int) =~= ps);
    }
    (map, keys)
}

/// A leaf path recorded for pixel `v` by a walk of `t` from the root.
pub open spec fn chosen_path(t: HuffmanNode, m: Map<u32, (u32, u8)>, v: u32) -> Seq<bool> {
    leaf_paths(t)[choose|i: int|
        0 <= i < leaf_paths(t).len() && (#[trigger] leaf_paths(t)[i]).0 == v && m[v] == path_code(
            0,
            0,
            leaf_paths(t)[i].1,
        )].1
}

/// The code book that a walk of `t` from the root records in `m`.
pub open spec fn tree_codebook(t: HuffmanNode, m: Map<u32, (u32, u8)>) -> Map<u32, Seq<bool>> {
    Map::new(|v: u32| leaf_values(t).contains(v), |v: u32| chosen_path(t, m, v))
}

proof fn lemma_tree_codebook(t: HuffmanNode)
    ensures
        ({
            let m = explored(Map::empty(), t, 0, 0);
            let cb = tree_codebook(t, m);
            &&& m.dom() == leaf_values(t)
            &&& cb.dom() == leaf_values(t)
            &&& forall|v: u32| #[trigger] cb.contains_key(v) ==> m[v] == path_code(0, 0, cb[v])
                && cb[v].len() <= height(t)
            &&& prefix_free(cb)
        }),
{
    let m = explored(Map::empty(), t, 0, 0);
    let cb = tree_codebook(t, m);
    let lp = leaf_paths(t);
    lemma_explored(Map::empty(), t, 0, 0);
    lemma_paths_prefix_free(t);
    assert(m.dom() =~= leaf_values(t));
    assert(cb.dom() =~= leaf_values(t));
    assert forall|u: u32, v: u32|
        #![trigger cb[u], cb[v]]
        cb.contains_key(u) && cb.contains_key(v) && u != v implies !is_prefix_of(cb[u], cb[v]) by {
        let iu = choose|i: int| 0 <= i < lp.len() && (#[trigger] lp[i]).0 == u && m[u] == path_code(0, 0, lp[i].1);
        let iv = choose|i: int| 0 <= i < lp.len() && (#[trigger] lp[i]).0 == v && m[v] == path_code(0, 0, lp[i].1);
        assert(cb[u] == lp[iu].1);
        assert(cb[v] == lp[iv].1);
    }
    assert forall|v: u32| #[trigger] cb.contains_key(v) implies m[v] == path_code(0, 0, cb[v])
        && cb[v].len() <= height(t) by {
        let iv = choose|i: int| 0 <= i < lp.len() && (#[trigger] lp[i]).0 == v && m[v] == path_code(0, 0, lp[i].1);
        assert(cb[v] == lp[iv].1);
    }
}

/// Every pixel of the whole raw buffer is among the first `n` pixels.
pub open spec fn pixels_covered(raw: Seq<u8>, n: nat) -> bool {
    forall|k: int|
        0 <= k < raw.len() / 3 ==> pixel_keys(raw, n).contains(
            #[trigger] pixel_keys(raw, raw.len() / 3)[k],
        )
}

/// The code word of each pixel of `codes`: the low `len` bits of its
/// `code`, most significant first.
pub open spec fn code_words(codes: Map<u32, (u32, u8)>) -> Map<u32, Seq<bool>> {
    Map::new(|v: u32| codes.contains_key(v), |v: u32| low_bits(codes[v].0 as u64, codes[v].1 as nat))
}

/// `data` is the code word of each pixel of `ps` in turn, from the codes
/// and lengths `codes`, padded with zero bits to whole bytes; `table` holds
/// the key of every pixel's code and length, and each of its keys is the key
/// of the code and length of the pixel it maps to.
pub open spec fn written_with(codes: Map<u32, (u32, u8)>, ps: Seq<u32>, table: Map<u64, u32>, data: Seq<u8>) -> bool {
    &&& forall|i: int| 0 <= i < ps.len() ==> codes.contains_key(#[trigger] ps[i])
    &&& forall|v: u32| #[trigger] codes.contains_key(v) ==> table.contains_key(code_key(codes[v].1 as nat, codes[v].0 as nat))
    &&& forall|key: u64| #[trigger] table.contains_key(key) ==> codes.contains_key(table[key])
        && key == code_key(codes[table[key]].1 as nat, codes[table[key]].0 as nat)
    &&& bytes_bits(data) == pad_to_bytes(encode_bits(ps, code_words(codes)))
}

/// What the Huffman compressor's output `c` promises of the pixels `ps`
/// that it encodes, for an image of `n` pixels: the data are the pixels'
/// code words under the table's codes; a code table of code words of at most
/// 32 bits goes with a prefix-code encoding of `ps`; and an image of fewer
/// than 9227465 pixels always gets such a table.
pub open spec fn huffman_output(c: CompressedImage, ps: Seq<u32>, n: nat) -> bool {
    match c.metadata {
        CompressionMetadata::Huffman { freq_table } => {
            &&& exists|codes: Map<u32, (u32, u8)>| #[trigger] written_with(codes, ps, freq_table@, c.data@)
            &&& short_code_table(freq_table@) ==> huffman_encoded(ps, freq_table@, c.data@)
            &&& n < 9227465 ==> short_code_table(freq_table@)
        },
        CompressionMetadata::Empty => false,
    }
}

proof fn lemma_code_small(p: Seq<bool>)
    requires
        p.len() <= 32,
    ensures
        path_code(0, 0, p).0 as nat == bits_value(p),
        path_code(0, 0, p).1 as nat == p.len(),
{
    lemma_bits_value_bound(p);
    lemma2_to64();
    if p.len() < 32 {
        lemma_pow2_strictly_increases(p.len(), 32);
    }
    lemma_small_mod(bits_value(p), 0x1_0000_0000);
}

proof fn lemma_short_keys_distinct(cb: Map<u32, Seq<bool>>, u: u32, v: u32)
    requires
        cb.contains_key(u),
        cb.contains_key(v),
        u != v,
        prefix_free(cb),
        cb[u].len() <= 32,
        cb[v].len() <= 32,
    ensures
        code_key(path_code(0, 0, cb[u]).1 as nat, path_code(0, 0, cb[u]).0 as nat) != code_key(
            path_code(0, 0, cb[v]).1 as nat,
            path_code(0, 0, cb[v]).0 as nat,
        ),
{
    lemma_code_small(cb[u]);
    lemma_code_small(cb[v]);
    lemma_bits_value_bound(cb[u]);
    lemma_bits_value_bound(cb[v]);
    lemma2_to64();
    if cb[u].len() < 32 {
        lemma_pow2_strictly_increases(cb[u].len(), 32);
    }
    if cb[v].len() < 32 {
        lemma_pow2_strictly_increases(cb[v].len(), 32);
    }
    if code_key(cb[u].len(), bits_value(cb[u])) == code_key(cb[v].len(), bits_value(cb[v])) {
        lemma_code_key_injective(cb[u].len(), bits_value(cb[u]), cb[v].len(), bits_value(cb[v]));
        lemma_bits_value_injective(cb[u], cb[v]);
        assert(cb[v].take(cb[u].len() as int) =~= cb[u]);
        assert(is_prefix_of(cb[u], cb[v]));
    }
}

proof fn lemma_compress_table(
    cb: Map<u32, Seq<bool>>,
    codes: Map<u32, (u32, u8)>,
    keys: Seq<u32>,
    table: Map<u64, u32>,
    psn: Seq<u32>,
    short: bool,
)
    requires
        forall|v: u32| keys.contains(v) <==> psn.contains(v),
        forall|v: u32| #[trigger] codes.contains_key(v) <==> cb.contains_key(v),
        forall|v: u32| #[trigger] cb.contains_key(v) <==> psn.contains(v),
        forall|v: u32| #[trigger] cb.contains_key(v) ==> codes[v] == path_code(0, 0, cb[v]) && cb[v].len() <= 45,
        short == forall|v: u32| #[trigger] cb.contains_key(v) ==> cb[v].len() <= 32,
        forall|key: u64| #[trigger] table.contains_key(key) ==> exists|i: int|
            0 <= i < keys.len() && key == code_key(codes[keys[i]].1 as nat, codes[keys[i]].0 as nat),
        forall|i: int| 0 <= i < keys.len() ==> table.contains_key(code_key(codes[#[trigger] keys[i]].1 as nat, codes[keys[i]].0 as nat)),
        short ==> forall|i: int| 0 <= i < keys.len() ==> table[code_key(codes[#[trigger] keys[i]].1 as nat, codes[keys[i]].0 as nat)] == keys[i],
    ensures
        short <==> short_code_table(table),
        short ==> table_for(cb, table),
{
    if short {
        assert forall|key: u64| #[trigger] table.contains_key(key) implies key / 0x1_0000_0000 <= 32 by {
            let i = choose|i: int| 0 <= i < keys.len() && key == code_key(codes[keys[i]].1 as nat, codes[keys[i]].0 as nat);
            assert(keys.contains(keys[i]));
            assert(psn.contains(keys[i]));
            assert(cb.contains_key(keys[i]));
            lemma_code_small(cb[keys[i]]);
            lemma_bits_value_bound(cb[keys[i]]);
            lemma2_to64();
            if cb[keys[i]].len() < 32 {
                lemma_pow2_strictly_increases(cb[keys[i]].len(), 32);
            }
        }
        assert forall|v: u32| #[trigger] cb.contains_key(v) implies table.contains_key(path_key(cb[v]))
            && table[path_key(cb[v])] == v by {
            assert(keys.contains(v));
            let i = choose|i: int| 0 <= i < keys.len() && keys[i] == v;
            lemma_code_small(cb[v]);
            assert(code_key(codes[keys[i]].1 as nat, codes[keys[i]].0 as nat) == path_key(cb[v]));
        }
        assert forall|key: u64| #[trigger] table.contains_key(key) implies exists|v: u32|
            cb.contains_key(v) && #[trigger] path_key(cb[v]) == key by {
            let i = choose|i: int| 0 <= i < keys.len() && key == code_key(codes[keys[i]].1 as nat, codes[keys[i]].0 as nat);
            let v = keys[i];
            assert(keys.contains(v));
            assert(psn.contains(v));
            assert(cb.contains_key(v));
            lemma_code_small(cb[v]);
            assert(path_key(cb[v]) == key);
        }
    } else {
        let v = choose|v: u32| #[trigger] cb.contains_key(v) && cb[v].len() > 32;
        assert(keys.contains(v));
        let i = choose|i: int| 0 <= i < keys.len() && keys[i] == v;
        let key = code_key(codes[keys[i]].1 as nat, codes[keys[i]].0 as nat);
        assert(table.contains_key(key));
        assert(key / 0x1_0000_0000 == cb[v].len());
    }
}

/// The code table of a compressed image, empty unless it is a Huffman table.
pub open spec fn code_table(c: CompressedImage) -> Map<u64, u32> {
    match c.metadata {
        CompressionMetadata::Huffman { freq_table } => freq_table@,
        CompressionMetadata::Empty => Map::empty(),
    }
}

/// The `width * height` pixels that Huffman decoding reads from `c`.
pub open spec fn huffman_decoded(c: CompressedImage) -> Option<Seq<u32>> {
    decode_pixels(bytes_bits(c.data@), code_table(c), (c.width * c.height) as nat)
}

proof fn lemma_expand_len(ps: Seq<u32>)
    ensures
        expand_pixels(ps).len() == 3 * ps.len(),
    decreases ps.len(),
{
    if ps.len() > 0 {
        lemma_expand_len(ps.drop_last());
    }
}

/// Decompressing what the Huffman compressor produced for an image whose
/// buffer holds exactly its pixels gives that buffer back, whenever no code
/// word is longer than 32 bits, which every image of fewer than 9227465
/// pixels gets.
pub proof fn lemma_huffman_compress_roundtrip(c: CompressedImage, raw: Seq<u8>)
    requires
        raw.len() == 3 * (c.width * c.height),
        huffman_output(c, pixel_keys(raw, raw.len() / 3), (c.width * c.height) as nat),
        c.width * c.height < 9227465 || short_code_table(code_table(c)),
    ensures
        huffman_decoded(c) == Some(pixel_keys(raw, (c.width * c.height) as nat)),
        expand_pixels(huffman_decoded(c).unwrap()) == raw,
{
    let n = (c.width * c.height) as nat;
    assert(raw.len() / 3 == n);
    lemma_huffman_roundtrip(raw, n, code_table(c), c.data@);
}

/// Decodes `n` pixels from the bits of `data` (each byte most significant
/// bit first) with the code table `table`: for each pixel, bits are taken
/// one at a time, shifted into a 32-bit code, until the table holds the
/// key of the code and its length, whose pixel comes next. `None` where the
/// bits run out before a pixel is complete, or where a code would need
/// more than 255 bits.
pub fn decode_pixel_stream(data: &Vec<u8>, table: &HashMap<u64, u32>, n: u32) -> (res: Option<Vec<u8>>)
    ensures
        res is Some <==> decode_pixels(bytes_bits(data@), table@, n as nat) is Some,
        res matches Some(raw) ==> raw@ == expand_pixels(
            decode_pixels(bytes_bits(data@), table@, n as nat).unwrap(),
        ),
{
    let mut reader = BitReader::new(data.clone());
    let mut raw: Vec<u8> = Vec::new();
    let ghost bits = bytes_bits(data@);
    let ghost mut pos: int = 0;
    let ghost mut done: Seq<u32> = Seq::empty();
    proof {
        assert(bits.skip(0) =~= bits);
    }
    let mut i: u32 = 0;
    while i < n
        invariant
            i <= n,
            bits == bytes_bits(data@),
            reader.wf(),
            0 <= pos <= bits.len(),
            reader.unread() == bits.skip(pos),
            done.len() == i,
            raw@ == expand_pixels(done),
            decode_pixels(bits, table@, n as nat) is Some <==> decode_pixels(
                bits.skip(pos),
                table@,
                (n - i) as nat,
            ) is Some,
            decode_pixels(bits.skip(pos), table@, (n - i) as nat) matches Some(rest)
                ==> decode_pixels(bits, table@, n as nat) == Some(done + rest),
        decreases n - i,
    {
        let ghost b = bits.skip(pos);
        let mut current_code: u32 = 0;
        let mut current_len: u8 = 0;
        let mut key: u64 = 0;
        proof {
            assert(b.skip(0) =~= b);
        }
        while !table.contains_key(&key)
            invariant
                reader.wf(),
                reader.unread() == b.skip(current_len as int),
                current_len <= b.len(),
                current_code == running_code(b, current_len as nat),
                key == code_key(current_len as nat, current_code as nat),
                find_code(b, table@, 0) == find_code(b, table@, current_len as nat),
                i < n,
                bits == bytes_bits(data@),
                decode_pixels(bits, table@, n as nat) is Some <==> decode_pixels(
                    b,
                    table@,
                    (n - i) as nat,
                ) is Some,
            decreases 256 - current_len,
        {
            if current_len == 255 {
                proof {
                    assert(find_code(b, table@, current_len as nat) is None);
                    assert(find_code(b, table@, 0) is None);
                    assert(n - i >= 1);
                    assert(decode_pixels(b, table@, (n - i) as nat) is None);
                }
                return None;
            }
            let bit = match reader.read_bit() {
                Some(bit) => bit,
                None => {
                    proof {
                        assert(current_len >= b.len());
                        assert(find_code(b, table@, current_len as nat) is None);
                        assert(find_code(b, table@, 0) is None);
                        assert(n - i >= 1);
                        assert(decode_pixels(b, table@, (n - i) as nat) is None);
                    }
                    return None;
                },
            };
            proof {
                lemma_shl_code(current_code);
                assert(bit == b[current_len as int]);
                assert(b.skip(current_len as int).drop_first() =~= b.skip(current_len + 1));
            }
            current_code = if bit {
                (current_code << 1) | 1
            } else {
                current_code << 1
            };
            current_len += 1;
            key = (current_len as u64) * 0x1_0000_0000 + (current_code as u64);
        }
        let p = *table.get(&key).unwrap();
        let ghost k = current_len as nat;
        proof {
            assert(find_code(b, table@, k) == Some((k, p)));
            assert(b.skip(k as int) =~= bits.skip(pos + k));
        }
        let ghost old_done = done;
        let ghost old_pos = pos;
        raw.push((p >> 16) as u8);
        raw.push((p >> 8) as u8);
        raw.push(p as u8);
        proof {
            done = done.push(p);
            pos = pos + k;
            assert(done.drop_last() =~= old_done);
            assert(raw@ =~= expand_pixels(done));
            if let Some(rest2) = decode_pixels(bits.skip(pos), table@, (n - i - 1) as nat) {
                assert(decode_pixels(bits.skip(old_pos), table@, (n - i) as nat) == Some(seq![p] + rest2));
                assert(done + rest2 =~= old_done + (seq![p] + rest2));
            }
        }
        i += 1;
    }
    proof {
        assert(decode_pixels(bits.skip(pos), table@, 0) == Some(Seq::<u32>::empty()));
        assert(done + Seq::<u32>::empty() =~= done);
    }
    Some(raw)
}

proof fn lemma_decode_len(bits: Seq<bool>, table: Map<u64, u32>, n: nat)
    ensures
        decode_pixels(bits, table, n) matches Some(ps) ==> ps.len() == n,
    decreases n,
{
    if n > 0 {
        if let Some((k, v)) = find_code(bits, table, 0) {
            lemma_decode_len(bits.skip(k as int), table, (n - 1) as nat);
        }
    }
}

/// Huffman coding of whole RGB pixels.
pub struct HuffmanCompressor {}

impl HuffmanCompressor {
    pub fn new() -> Self {
        HuffmanCompressor {  }
    }

    /// Builds the Huffman tree over the counts of the image's `width * height`
    /// pixels (see `build_huffman_tree`, with the pixels in the order they
    /// first occur), writes the
    /// code word of each pixel of the raw buffer, most significant bit first,
    /// zero-padded to whole bytes, and keeps the table from code words to
    /// pixels. An empty image gives no bytes and an empty table; an image of
    /// a single colour gives one code word of length 0 and no bytes. A pixel
    /// that occurs more often than another never gets a longer code word.
    #[verifier::spinoff_prover]
    pub fn compress(&self, image: &RgbImage) -> (res: Result<CompressedImage, String>)
        requires
            image.spec_width() * image.spec_height() <= u32::MAX,
            pixels_covered(image.spec_raw(), (image.spec_width() * image.spec_height()) as nat),
        ensures
            res matches Ok(c) && c.width == image.spec_width() && c.height == image.spec_height()
                && huffman_output(
                c,
                pixel_keys(image.spec_raw(), image.spec_raw().len() / 3),
                (image.spec_width() * image.spec_height()) as nat,
            ) && lengths_follow_counts(
                c,
                pixel_keys(image.spec_raw(), (image.spec_width() * image.spec_height()) as nat),
            ) && huffman_codes(
                c,
                pixel_keys(image.spec_raw(), image.spec_raw().len() / 3),
                pixel_keys(image.spec_raw(), (image.spec_width() * image.spec_height()) as nat),
            ),
    {
        let width = image.width();
        let height = image.height();
        let raw = image.as_raw();
        let ghost n = (width * height) as nat;
        let ghost psn = pixel_keys(raw@, n);
        let ghost ps = pixel_keys(raw@, raw@.len() / 3);
        let (freq, keys) = get_color_frequencies(image);
        // One leaf per distinct pixel, weighted by its count.
        let mut leaves: Vec<HuffmanNode> = Vec::new();
        let mut j: usize = 0;
        proof {
            assert(keys@.take(0) =~= Seq::<u32>::empty());
        }
        while j < keys.len()
            invariant
                j <= keys@.len(),
                leaves@.len() == j,
                keys@.no_duplicates(),
                forall|v: u32| keys@.contains(v) <==> psn.contains(v),
                forall|v: u32| freq@.contains_key(v) <==> psn.contains(v),
                forall|v: u32| #[trigger] freq@.contains_key(v) ==> freq@[v] == occurrences(psn, v),
                forall|i: int| 0 <= i < j ==> (#[trigger] leaves@[i] is Leaf) && leaves@[i].spec_freq() >= 1,
                forall|i: int| 0 <= i < j ==> (#[trigger] leaves@[i] matches HuffmanNode::Leaf { value, freq: fq }
                    && freq@.contains_key(value) && freq@[value] == fq),
                keys@ == first_seen(psn),
                forall|i: int| 0 <= i < j ==> #[trigger] leaves@[i] == (HuffmanNode::Leaf {
                    value: keys@[i],
                    freq: occurrences(psn, keys@[i]) as u32,
                }),
                forest_freq(leaves@) == sum_counts(keys@.take(j as int), freq@),
                forall|v: u32| forest_values(leaves@).contains(v) <==> keys@.take(j as int).contains(v),
            decreases keys@.len() - j,
        {
            let v = keys[j];
            let ghost old_leaves = leaves@;
            proof {
                assert(keys@.contains(v));
                assert(psn.contains(v));
                assert(freq@.contains_key(v));
                lemma_occurrences_bound(psn, v);
            }
            let c = *freq.get(&v).unwrap();
            leaves.push(HuffmanNode::Leaf { value: v, freq: c });
            proof {
                assert(leaves@.drop_last() =~= old_leaves);
                assert(keys@.take(j + 1).drop_last() =~= keys@.take(j as int));
                assert(keys@.take(j + 1).last() == v);
                assert(leaves@.last() == HuffmanNode::Leaf { value: v, freq: c });
                assert(forest_values(leaves@) == forest_values(old_leaves).union(set![v]));
                assert forall|x: u32| forest_values(leaves@).contains(x) <==> keys@.take(j + 1).contains(x) by {
                    if keys@.take(j + 1).contains(x) {
                        let i = choose|i: int| 0 <= i < j + 1 && #[trigger] keys@.take(j + 1)[i] == x;
                        if i < j {
                            assert(keys@.take(j as int)[i] == x);
                        }
                    }
                    if keys@.take(j as int).contains(x) {
                        let i = choose|i: int| 0 <= i < j && #[trigger] keys@.take(j as int)[i] == x;
                        assert(keys@.take(j + 1)[i] == x);
                    }
                }
                assert forall|i: int| 0 <= i < j + 1 implies (#[trigger] leaves@[i] is Leaf) && leaves@[i].spec_freq() >= 1 by {
                    if i < j {
                        assert(leaves@[i] == old_leaves[i]);
                    }
                }
                assert forall|i: int| 0 <= i < j + 1 implies (#[trigger] leaves@[i] matches HuffmanNode::Leaf { value, freq: fq }
                    && freq@.contains_key(value) && freq@[value] == fq) by {
                    if i < j {
                        assert(leaves@[i] == old_leaves[i]);
                    }
                }
                assert forall|i: int| 0 <= i < j + 1 implies #[trigger] leaves@[i] == (HuffmanNode::Leaf {
                    value: keys@[i],
                    freq: occurrences(psn, keys@[i]) as u32,
                }) by {
                    if i < j {
                        assert(leaves@[i] == old_leaves[i]);
                    }
                }
            }
            j += 1;
        }
        proof {
            assert(keys@.take(keys@.len() as int) =~= keys@);
            assert(psn.len() == n);
        }
        proof {
            assert(leaves@ =~= count_leaves(psn));
        }
        let root_opt = build_huffman_tree(leaves);
        let mut codes: HashMap<u32, (u32, u8)> = HashMap::new();
        match &root_opt {
            Some(root) => {
                proof {
                    lemma_height_bound(*root);
                }
                explore_node(root, 0, 0, &mut codes);
            },
            None => {},
        }
        let ghost gpicks: Seq<(nat, nat)> = match &root_opt {
            Some(root) => choose|picks: Seq<(nat, nat)>|
                #[trigger] greedy(count_leaves(psn), picks) && picks.len() + 1 == count_leaves(psn).len()
                    && *root == node_of(count_leaves(psn), picks, (2 * count_leaves(psn).len() - 2) as nat),
            None => Seq::empty(),
        };
        proof {
            assert(greedy_history(psn, gpicks));
            assert(codes@ == greedy_codes(psn, gpicks));
        }
        let ghost cb: Map<u32, Seq<bool>> = match &root_opt {
            Some(root) => tree_codebook(*root, codes@),
            None => Map::empty(),
        };
        let ghost short: bool = forall|v: u32| #[trigger] cb.contains_key(v) ==> cb[v].len() <= 32;
        proof {
            match &root_opt {
                Some(root) => {
                    lemma_tree_codebook(*root);
                    lemma_height_bound(*root);
                    assert forall|v: u32| #[trigger] cb.contains_key(v) <==> psn.contains(v) by {
                        assert(keys@.contains(v) <==> forest_values(leaves@).contains(v));
                    }
                    if n < 9227465 {
                        assert(short);
                    }
                },
                None => {
                    assert(keys@.len() == 0);
                    assert(cb =~= Map::<u32, Seq<bool>>::empty());
                    assert(codes@ =~= Map::<u32, (u32, u8)>::empty());
                    assert forall|v: u32| !psn.contains(v) by {
                        if psn.contains(v) {
                            assert(keys@.contains(v));
                        }
                    }
                },
            }
        }
        // More frequent pixels get no longer code words.
        let ghost leaves_all = leaves@;
        proof {
            if let Some(root) = &root_opt {
                lemma_height_bound(*root);
            }
            lemma_table_lengths_follow_counts(root_opt, codes@, leaves_all, freq@, psn);
        }
        // Invariant facts about the code table.
        assert(forall|v: u32| #[trigger] codes@.contains_key(v) <==> cb.contains_key(v));
        assert(forall|v: u32| #[trigger] cb.contains_key(v) <==> psn.contains(v));
        assert(forall|v: u32| #[trigger] cb.contains_key(v) ==> codes@[v] == path_code(0, 0, cb[v]) && cb[v].len() <= 45);
        assert(prefix_free(cb));
        let ghost words: Map<u32, Seq<bool>> = Map::new(
            |v: u32| codes@.contains_key(v),
            |v: u32| low_bits(codes@[v].0 as u64, codes@[v].1 as nat),
        );
        // Encode every pixel of the buffer.
        let mut writer = BitWriter::new();
        let npix = raw.len() / 3;
        let mut k: usize = 0;
        proof {
            assert(ps.take(0) =~= Seq::<u32>::empty());
        }
        while k < npix
            invariant
                k <= npix,
                npix == raw@.len() / 3,
                raw@.len() <= usize::MAX,
                ps == pixel_keys(raw@, raw@.len() / 3),
                raw@ == image.spec_raw(),
                n == image.spec_width() * image.spec_height(),
                psn == pixel_keys(raw@, n),
                pixels_covered(raw@, n),
                writer.wf(),
                writer.written() == encode_bits(ps.take(k as int), words),
                forall|v: u32| #[trigger] codes@.contains_key(v) <==> cb.contains_key(v),
                forall|v: u32| #[trigger] cb.contains_key(v) <==> psn.contains(v),
                forall|v: u32| #[trigger] cb.contains_key(v) ==> codes@[v] == path_code(0, 0, cb[v]) && cb[v].len() <= 45,
                words == Map::new(
                    |v: u32| codes@.contains_key(v),
                    |v: u32| low_bits(codes@[v].0 as u64, codes@[v].1 as nat),
                ),
            decreases npix - k,
        {
            let v = pixel_key_of(raw[3 * k], raw[3 * k + 1], raw[3 * k + 2]);
            proof {
                assert(ps[k as int] == v);
                assert(psn.contains(v));
                assert(cb.contains_key(v));
                lemma_code_fits(cb[v]);
            }
            let (code, len) = *codes.get(&v).unwrap();
            writer.write_code(code, len);
            proof {
                assert(ps.take(k + 1) =~= ps.take(k as int).push(v));
                lemma_encode_bits_push(ps.take(k as int), v, words);
            }
            k += 1;
        }
        proof {
            assert(ps.take(npix as int) =~= ps);
        }
        let data = writer.finish();
        // The decoding table: code word key to pixel.
        let mut table: HashMap<u64, u32> = HashMap::new();
        let mut j: usize = 0;
        while j < keys.len()
            invariant
                j <= keys@.len(),
                keys@.no_duplicates(),
                forall|v: u32| keys@.contains(v) <==> psn.contains(v),
                forall|v: u32| #[trigger] codes@.contains_key(v) <==> cb.contains_key(v),
                forall|v: u32| #[trigger] cb.contains_key(v) <==> psn.contains(v),
                forall|v: u32| #[trigger] cb.contains_key(v) ==> codes@[v] == path_code(0, 0, cb[v]) && cb[v].len() <= 45,
                prefix_free(cb),
                short == forall|v: u32| #[trigger] cb.contains_key(v) ==> cb[v].len() <= 32,
                forall|key: u64| #[trigger] table@.contains_key(key) ==> exists|i: int|
                    0 <= i < j && key == code_key(codes@[keys@[i]].1 as nat, codes@[keys@[i]].0 as nat),
                forall|i: int| 0 <= i < j ==> table@.contains_key(code_key(codes@[#[trigger] keys@[i]].1 as nat, codes@[keys@[i]].0 as nat)),
                short ==> forall|i: int| 0 <= i < j ==> table@[code_key(codes@[#[trigger] keys@[i]].1 as nat, codes@[keys@[i]].0 as nat)] == keys@[i],
                forall|key: u64| #[trigger] table@.contains_key(key) ==> codes@.contains_key(table@[key])
                    && key == code_key(codes@[table@[key]].1 as nat, codes@[table@[key]].0 as nat),
                forall|u: u32, w: u32|
                    #[trigger] codes@.contains_key(u) && #[trigger] codes@.contains_key(w) && occurrences(psn, u)
                        > occurrences(psn, w) ==> codes@[u].1 <= codes@[w].1,
            decreases keys@.len() - j,
        {
            let v = keys[j];
            proof {
                assert(keys@.contains(v));
            }
            let (code, len) = *codes.get(&v).unwrap();
            let key: u64 = (len as u64) * 0x1_0000_0000 + (code as u64);
            let ghost old_table = table@;
            table.insert(key, v);
            proof {
                assert(key == code_key(len as nat, code as nat));
                if short {
                    assert forall|i: int| 0 <= i < j + 1 implies table@[code_key(codes@[#[trigger] keys@[i]].1 as nat, codes@[keys@[i]].0 as nat)] == keys@[i] by {
                        if i < j {
                            let u = keys@[i];
                            assert(u != v);
                            assert(keys@.contains(u));
                            assert(psn.contains(u) && psn.contains(v));
                            assert(cb.contains_key(u) && cb.contains_key(v));
                            assert(cb[u].len() <= 32 && cb[v].len() <= 32);
                            lemma_short_keys_distinct(cb, u, v);
                        }
                    }
                }
                assert(codes@.contains_key(v));
                assert forall|key2: u64| #[trigger] table@.contains_key(key2) implies codes@.contains_key(table@[key2])
                    && key2 == code_key(codes@[table@[key2]].1 as nat, codes@[table@[key2]].0 as nat) by {
                    if key2 != key {
                        assert(old_table.contains_key(key2));
                    }
                }
                assert forall|key2: u64| #[trigger] table@.contains_key(key2) implies exists|i: int|
                    0 <= i < j + 1 && key2 == code_key(codes@[keys@[i]].1 as nat, codes@[keys@[i]].0 as nat) by {
                    if key2 != key {
                        assert(old_table.contains_key(key2));
                    } else {
                        assert(keys@[j as int] == v);
                    }
                }
            }
            j += 1;
        }
        proof {
            lemma_keys_follow_counts(table@, codes@, psn);
            lemma_compress_table(cb, codes@, keys@, table@, psn, short);
            assert(words == code_words(codes@));
            assert forall|i: int| 0 <= i < ps.len() implies codes@.contains_key(#[trigger] ps[i]) by {
                assert(psn.contains(ps[i]));
            }
            assert forall|v: u32| #[trigger] codes@.contains_key(v) implies table@.contains_key(
                code_key(codes@[v].1 as nat, codes@[v].0 as nat),
            ) by {
                assert(keys@.contains(v));
                let i = choose|i: int| 0 <= i < keys@.len() && keys@[i] == v;
                assert(table@.contains_key(code_key(codes@[keys@[i]].1 as nat, codes@[keys@[i]].0 as nat)));
            }
            assert(written_with(codes@, ps, table@, data@));
            if short {
                assert forall|v: u32| #[trigger] words.contains_key(v) implies words[v] == cb[v] by {
                    lemma_low_bits_value(cb[v]);
                    lemma_code_small(cb[v]);
                }
                assert(words =~= cb);
                assert forall|i: int| 0 <= i < ps.len() implies cb.contains_key(#[trigger] ps[i]) by {
                    assert(psn.contains(ps[i]));
                }
                assert(codebook_encodes(cb, ps, table@, data@));
            }
        }
        let ghost tv = table@;
        let ghost dv = data@;
        let out = CompressedImage {
            data,
            width,
            height,
            metadata: CompressionMetadata::Huffman { freq_table: table },
        };
        proof {
            assert(out.data@ == dv);
            assert(written_with(codes@, ps, tv, dv));
            assert(short_code_table(tv) ==> huffman_encoded(ps, tv, dv));
            assert(n < 9227465 ==> short_code_table(tv));
            lemma_huffman_output_of(out, ps, n, codes@);
            assert(greedy_history(psn, gpicks) && written_with(greedy_codes(psn, gpicks), ps, tv, dv));
            assert forall|key: u64| #[trigger] tv.contains_key(key) implies psn.contains(tv[key]) by {
                assert(codes@.contains_key(tv[key]));
                assert(cb.contains_key(tv[key]));
            }
            assert(huffman_codes(out, ps, psn));
        }
        Ok(out)
    }

    /// Reads `width * height` pixels from the bits of the data with the
    /// image's code table (see `decode_pixel_stream`) and wraps them into an
    /// image of the recorded dimensions.
    pub fn decompress(&self, compressed: &CompressedImage) -> (res: Result<RgbImage, String>)
        requires
            compressed.metadata is Huffman,
            3 * compressed.width * compressed.height <= u32::MAX,
            huffman_decoded(*compressed) is Some,
        ensures
            fits_usize(compressed.width, compressed.height) ==> (res matches Ok(img) && img.spec_width()
                == compressed.width && img.spec_height() == compressed.height && img.spec_raw()
                == expand_pixels(huffman_decoded(*compressed).unwrap())),
            !fits_usize(compressed.width, compressed.height) ==> (res matches Err(e) && e@
                == "Buffer too small for image dimensions"@),
    {
        if let CompressionMetadata::Huffman { freq_table } = &compressed.metadata {
            proof {
                assert(compressed.width * compressed.height <= 3 * compressed.width
                    * compressed.height) by (nonlinear_arith);
            }
            let n: u32 = compressed.width * compressed.height;
            assert(freq_table@ == code_table(*compressed));
            assert(n as nat == (compressed.width * compressed.height) as nat);
            let raw = decode_pixel_stream(&compressed.data, freq_table, n).unwrap();
            proof {
                lemma_expand_len(huffman_decoded(*compressed).unwrap());
                lemma_decode_len(bytes_bits(compressed.data@), code_table(*compressed), n as nat);
                assert(3 * compressed.width * compressed.height == 3 * (compressed.width
                    * compressed.height)) by (nonlinear_arith);
                assert(rgb_len(compressed.width, compressed.height) == 3 * n);
            }
            match RgbImage::from_raw(compressed.width, compressed.height, raw) {
                Some(img) => Ok(img),
                None => Err("Buffer too small for image dimensions".to_string()),
            }
        } else {
            vstd::pervasive::unreached()
        }
    }
}

} // verus!
