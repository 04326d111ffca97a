//! The merge history of a Huffman construction, and why its trees put no
//! leaf deeper than a less frequent one.
use crate::huffman::HuffmanNode;
use vstd::prelude::*;

verus! {

// The history of a Huffman construction over `leaves`: leaf `i` has id `i`,
// and step `k` joins the trees with ids `picks[k].0` (on the left) and
// `picks[k].1` (on the right) into the tree with id `leaves.len() + k`.

/// The tree with id `id`.
pub open spec fn node_of(leaves: Seq<HuffmanNode>, picks: Seq<(nat, nat)>, id: nat) -> HuffmanNode
    decreases id,
{
    let n = leaves.len();
    if id < n {
        leaves[id as int]
    } else if id < n + picks.len() && picks[id - n].0 < id && picks[id - n].1 < id {
        let l = node_of(leaves, picks, picks[id - n].0);
        let r = node_of(leaves, picks, picks[id - n].1);
        HuffmanNode::Internal {
            left: Box::new(l),
            right: Box::new(r),
            freq: (l.spec_freq() + r.spec_freq()) as u32,
        }
    } else {
        HuffmanNode::Leaf { value: 0, freq: 0 }
    }
}

/// The frequency of the tree with id `id`.
pub open spec fn weight(leaves: Seq<HuffmanNode>, picks: Seq<(nat, nat)>, id: nat) -> int {
    node_of(leaves, picks, id).spec_freq() as int
}

/// The step `p` joins tree `v`.
pub open spec fn joins(p: (nat, nat), v: nat) -> bool {
    p.0 == v || p.1 == v
}

/// Tree `v` was joined into another one before step `k`.
pub open spec fn consumed(picks: Seq<(nat, nat)>, k: int, v: nat) -> bool {
    exists|j: int| 0 <= j < k && #[trigger] joins(picks[j], v)
}

/// Tree `v` stands in the forest at step `k`.
pub open spec fn available(n: nat, picks: Seq<(nat, nat)>, k: int, v: nat) -> bool {
    v < n + k && !consumed(picks, k, v)
}

/// Tree `v` is lighter than tree `u`, or as light and older.
pub open spec fn precedes(leaves: Seq<HuffmanNode>, picks: Seq<(nat, nat)>, v: nat, u: nat) -> bool {
    ||| weight(leaves, picks, v) < weight(leaves, picks, u)
    ||| weight(leaves, picks, v) == weight(leaves, picks, u) && v < u
}

/// Step `k` joins the two trees of the forest that come first by weight,
/// then by age: the first on the left, the second on the right.
pub open spec fn greedy_step(leaves: Seq<HuffmanNode>, picks: Seq<(nat, nat)>, k: int) -> bool {
    let n = leaves.len();
    let a = picks[k].0;
    let b = picks[k].1;
    &&& available(n, picks, k, a)
    &&& available(n, picks, k, b)
    &&& a != b
    &&& forall|v: nat| #[trigger] available(n, picks, k, v) && v != a ==> precedes(leaves, picks, a, v)
    &&& forall|v: nat| #[trigger] available(n, picks, k, v) && v != a && v != b ==> precedes(leaves, picks, b, v)
    &&& weight(leaves, picks, a) + weight(leaves, picks, b) <= u32::MAX
}

/// Every step of the history is a greedy one.
pub open spec fn greedy(leaves: Seq<HuffmanNode>, picks: Seq<(nat, nat)>) -> bool {
    forall|k: int| 0 <= k < picks.len() ==> #[trigger] greedy_step(leaves, picks, k)
}

/// The step at which tree `v` is joined into another one.
pub open spec fn joined_at(n: nat, picks: Seq<(nat, nat)>, v: nat) -> int {
    choose|k: int| 0 <= k < picks.len() && #[trigger] joins(picks[k], v) && v < n + k
}

/// Depth of tree `v` in the tree that the history builds: the number of
/// later steps that join it or a tree that contains it.
pub open spec fn hist_depth(n: nat, picks: Seq<(nat, nat)>, v: nat) -> nat
    decreases n + picks.len() - v,
{
    if v < n + picks.len() && exists|k: int|
        0 <= k < picks.len() && #[trigger] joins(picks[k], v) && v < n + k {
        let k = joined_at(n, picks, v);
        proof {
            assert(0 <= k < picks.len() && v < n + k);
        }
        1 + hist_depth(n, picks, (n + k) as nat)
    } else {
        0
    }
}

/// The leaf ids of tree `id`, from left to right.
pub open spec fn leaf_ids(n: nat, picks: Seq<(nat, nat)>, id: nat) -> Seq<nat>
    decreases id,
{
    if id < n {
        seq![id]
    } else if id < n + picks.len() && picks[id - n].0 < id && picks[id - n].1 < id {
        leaf_ids(n, picks, picks[id - n].0) + leaf_ids(n, picks, picks[id - n].1)
    } else {
        Seq::empty()
    }
}

/// The frequency and depth of each leaf of `t`, from left to right.
pub open spec fn leaf_weights(t: HuffmanNode) -> Seq<(u32, nat)>
    decreases t,
{
    match t {
        HuffmanNode::Leaf { freq, .. } => seq![(freq, 0nat)],
        HuffmanNode::Internal { left, right, .. } => leaf_weights(*left).map_values(
            |e: (u32, nat)| (e.0, e.1 + 1),
        ) + leaf_weights(*right).map_values(|e: (u32, nat)| (e.0, e.1 + 1)),
    }
}

/// No leaf of `t` lies deeper than a leaf of lower frequency: a more frequent
/// pixel never gets a longer code word.
pub open spec fn frequent_leaves_shallower(t: HuffmanNode) -> bool {
    forall|i: int, j: int|
        0 <= i < leaf_weights(t).len() && 0 <= j < leaf_weights(t).len() && #[trigger] leaf_weights(t)[i].0
            > #[trigger] leaf_weights(t)[j].0 ==> leaf_weights(t)[i].1 <= leaf_weights(t)[j].1
}

pub(crate) proof fn lemma_node_of_push(leaves: Seq<HuffmanNode>, picks: Seq<(nat, nat)>, p: (nat, nat), id: nat)
    requires
        id < leaves.len() + picks.len(),
    ensures
        node_of(leaves, picks.push(p), id) == node_of(leaves, picks, id),
    decreases id,
{
    let n = leaves.len();
    let q = picks.push(p);
    if id >= n {
        assert(q[id - n] == picks[id - n]);
        if picks[id - n].0 < id && picks[id - n].1 < id {
            lemma_node_of_push(leaves, picks, p, picks[id - n].0);
            lemma_node_of_push(leaves, picks, p, picks[id - n].1);
        }
    }
}

pub(crate) proof fn lemma_consumed_push(picks: Seq<(nat, nat)>, p: (nat, nat), v: nat)
    ensures
        forall|k: int| 0 <= k <= picks.len() ==> consumed(picks.push(p), k, v) == consumed(picks, k, v),
        consumed(picks.push(p), picks.len() + 1int, v) == (consumed(picks, picks.len() as int, v) || joins(p, v)),
{
    let q = picks.push(p);
    assert forall|k: int| 0 <= k <= picks.len() implies consumed(q, k, v) == consumed(picks, k, v) by {
        if consumed(q, k, v) {
            let j = choose|j: int| 0 <= j < k && #[trigger] joins(q[j], v);
            assert(picks[j] == q[j]);
        }
        if consumed(picks, k, v) {
            let j = choose|j: int| 0 <= j < k && #[trigger] joins(picks[j], v);
            assert(picks[j] == q[j]);
        }
    }
    let len = picks.len() as int;
    if consumed(q, len + 1, v) {
        let j = choose|j: int| 0 <= j < len + 1 && #[trigger] joins(q[j], v);
        if j < len {
            assert(picks[j] == q[j]);
        }
    }
    if consumed(picks, len, v) {
        let j = choose|j: int| 0 <= j < len && #[trigger] joins(picks[j], v);
        assert(picks[j] == q[j]);
        assert(consumed(q, len + 1, v));
    }
    if joins(p, v) {
        assert(joins(q[len], v));
    }
}

/// A greedy history stays greedy when a greedy step is appended.
pub(crate) proof fn lemma_greedy_push(leaves: Seq<HuffmanNode>, picks: Seq<(nat, nat)>, p: (nat, nat))
    requires
        greedy(leaves, picks),
        greedy_step(leaves, picks.push(p), picks.len() as int),
    ensures
        greedy(leaves, picks.push(p)),
{
    let n = leaves.len();
    let q = picks.push(p);
    assert forall|k: int| 0 <= k < q.len() implies #[trigger] greedy_step(leaves, q, k) by {
        if k < picks.len() {
            assert(greedy_step(leaves, picks, k));
            assert(q[k] == picks[k]);
            let a = picks[k].0;
            let b = picks[k].1;
            assert forall|v: nat| available(n, q, k, v) == available(n, picks, k, v) by {
                lemma_consumed_push(picks, p, v);
            }
            assert forall|v: nat| #[trigger] available(n, q, k, v) implies weight(leaves, q, v) == weight(leaves, picks, v) by {
                lemma_node_of_push(leaves, picks, p, v);
            }
            assert(available(n, q, k, a));
            assert(available(n, q, k, b));
        }
    }
}

/// Consuming a tree happens at most once, and only while it stands.
proof fn lemma_joined_once(leaves: Seq<HuffmanNode>, picks: Seq<(nat, nat)>, v: nat, j: int, k: int)
    requires
        greedy(leaves, picks),
        0 <= j < picks.len(),
        0 <= k < picks.len(),
        joins(picks[j], v),
        joins(picks[k], v),
    ensures
        j == k,
        v < leaves.len() + j,
{
    assert(greedy_step(leaves, picks, j));
    assert(greedy_step(leaves, picks, k));
    if j < k {
        assert(consumed(picks, k, v));
    } else if k < j {
        assert(consumed(picks, j, v));
    }
}

proof fn lemma_joined_at(leaves: Seq<HuffmanNode>, picks: Seq<(nat, nat)>, v: nat, k: int)
    requires
        greedy(leaves, picks),
        0 <= k < picks.len(),
        joins(picks[k], v),
    ensures
        joined_at(leaves.len(), picks, v) == k,
        v < leaves.len() + k,
        hist_depth(leaves.len(), picks, v) == 1 + hist_depth(leaves.len(), picks, (leaves.len() + k) as nat),
{
    let n = leaves.len();
    lemma_joined_once(leaves, picks, v, k, k);
    let j = joined_at(n, picks, v);
    lemma_joined_once(leaves, picks, v, j, k);
}

/// The trees standing at step `k + 1`: the new one, and those standing at
/// step `k` that step `k` did not join.
proof fn lemma_available_next(leaves: Seq<HuffmanNode>, picks: Seq<(nat, nat)>, k: int, v: nat)
    requires
        0 <= k < picks.len(),
    ensures
        available(leaves.len(), picks, k + 1, v) == (v == leaves.len() + k && !consumed(picks, k + 1, v)
            || available(leaves.len(), picks, k, v) && !joins(picks[k], v)),
{
    if consumed(picks, k + 1, v) {
        let j = choose|j: int| 0 <= j < k + 1 && #[trigger] joins(picks[j], v);
        if j < k {
            assert(consumed(picks, k, v));
        }
    }
    if consumed(picks, k, v) {
        let j = choose|j: int| 0 <= j < k && #[trigger] joins(picks[j], v);
        assert(consumed(picks, k + 1, v));
    }
    if joins(picks[k], v) {
        assert(consumed(picks, k + 1, v));
    }
}

/// The tree that step `k` builds weighs what its two parts weigh together.
proof fn lemma_weight_new(leaves: Seq<HuffmanNode>, picks: Seq<(nat, nat)>, k: int)
    requires
        greedy(leaves, picks),
        0 <= k < picks.len(),
    ensures
        weight(leaves, picks, (leaves.len() + k) as nat) == weight(leaves, picks, picks[k].0) + weight(
            leaves,
            picks,
            picks[k].1,
        ),
{
    assert(greedy_step(leaves, picks, k));
}

/// A tree that a step joins is one that comes first among those standing.
proof fn lemma_pick_order(leaves: Seq<HuffmanNode>, picks: Seq<(nat, nat)>, k: int, u: nat, v: nat)
    requires
        greedy(leaves, picks),
        0 <= k < picks.len(),
        joins(picks[k], u),
        available(leaves.len(), picks, k, v),
        precedes(leaves, picks, v, u),
    ensures
        joins(picks[k], v),
{
    assert(greedy_step(leaves, picks, k));
}

/// Trees built later weigh no less.
proof fn lemma_built_weights(leaves: Seq<HuffmanNode>, picks: Seq<(nat, nat)>, j: int, k: int)
    requires
        greedy(leaves, picks),
        0 <= j <= k < picks.len(),
    ensures
        weight(leaves, picks, (leaves.len() + j) as nat) <= weight(leaves, picks, (leaves.len() + k) as nat),
    decreases k - j,
{
    let n = leaves.len();
    if j < k {
        lemma_built_weights(leaves, picks, j + 1, k);
        assert(greedy_step(leaves, picks, j));
        assert(greedy_step(leaves, picks, j + 1));
        lemma_weight_new(leaves, picks, j);
        lemma_weight_new(leaves, picks, j + 1);
        let a = picks[j].0;
        let b = picks[j].1;
        assert forall|v: nat| available(n, picks, j + 1, v) implies weight(leaves, picks, v) >= weight(leaves, picks, b) by {
            lemma_available_next(leaves, picks, j, v);
            if v != n + j {
                assert(available(n, picks, j, v));
            }
        }
        assert(available(n, picks, j + 1, picks[j + 1].0));
        assert(available(n, picks, j + 1, picks[j + 1].1));
    }
}

/// Of two built trees, the older is joined no later than the younger.
proof fn lemma_older_joined_first(leaves: Seq<HuffmanNode>, picks: Seq<(nat, nat)>, j: int, k: int, t: int)
    requires
        greedy(leaves, picks),
        0 <= j < k < picks.len(),
        0 <= t < picks.len(),
        joins(picks[t], (leaves.len() + k) as nat),
    ensures
        exists|s: int| 0 <= s <= t && #[trigger] joins(picks[s], (leaves.len() + j) as nat),
{
    let n = leaves.len();
    let cj = (n + j) as nat;
    let ck = (n + k) as nat;
    lemma_joined_at(leaves, picks, ck, t);
    if consumed(picks, t, cj) {
        let s = choose|s: int| 0 <= s < t && #[trigger] joins(picks[s], cj);
        assert(joins(picks[s], cj));
    } else {
        lemma_built_weights(leaves, picks, j, k);
        assert(available(n, picks, t, cj));
        lemma_pick_order(leaves, picks, t, ck, cj);
        assert(joins(picks[t], cj));
    }
}

/// A tree joined no later than another one ends up no shallower.
proof fn lemma_depth_order(leaves: Seq<HuffmanNode>, picks: Seq<(nat, nat)>, v: nat, kv: int, u: nat, ku: int)
    requires
        greedy(leaves, picks),
        0 <= kv <= ku < picks.len(),
        joins(picks[kv], v),
        joins(picks[ku], u),
    ensures
        hist_depth(leaves.len(), picks, v) >= hist_depth(leaves.len(), picks, u),
    decreases picks.len() - kv,
{
    let n = leaves.len();
    lemma_joined_at(leaves, picks, v, kv);
    lemma_joined_at(leaves, picks, u, ku);
    if kv < ku {
        let pv = (n + kv) as nat;
        let pu = (n + ku) as nat;
        if exists|t: int| 0 <= t < picks.len() && #[trigger] joins(picks[t], pu) {
            let t = choose|t: int| 0 <= t < picks.len() && #[trigger] joins(picks[t], pu);
            lemma_older_joined_first(leaves, picks, kv, ku, t);
            let s = choose|s: int| 0 <= s <= t && #[trigger] joins(picks[s], pv);
            lemma_joined_at(leaves, picks, pv, s);
            lemma_depth_order(leaves, picks, pv, s, pu, t);
        } else {
            assert(hist_depth(n, picks, pu) == 0);
        }
    }
}

/// In a tree that a greedy history builds from leaves, a more frequent leaf
/// never lies deeper than a less frequent one.
proof fn lemma_leaf_depths(leaves: Seq<HuffmanNode>, picks: Seq<(nat, nat)>, x: nat, y: nat)
    requires
        greedy(leaves, picks),
        x < leaves.len(),
        y < leaves.len(),
        weight(leaves, picks, x) > weight(leaves, picks, y),
    ensures
        hist_depth(leaves.len(), picks, x) <= hist_depth(leaves.len(), picks, y),
{
    let n = leaves.len();
    if exists|t: int| 0 <= t < picks.len() && #[trigger] joins(picks[t], x) {
        let t = choose|t: int| 0 <= t < picks.len() && #[trigger] joins(picks[t], x);
        lemma_joined_at(leaves, picks, x, t);
        if consumed(picks, t, y) {
            let s = choose|s: int| 0 <= s < t && #[trigger] joins(picks[s], y);
            lemma_depth_order(leaves, picks, y, s, x, t);
        } else {
            assert(available(n, picks, t, y));
            lemma_pick_order(leaves, picks, t, x, y);
            lemma_depth_order(leaves, picks, y, t, x, t);
        }
    } else {
        assert(hist_depth(n, picks, x) == 0);
    }
}

/// The ids of the trees standing, in forest order, are increasing.
pub open spec fn increasing(s: Seq<nat>) -> bool {
    forall|i: int, j: int| 0 <= i < j < s.len() ==> s[i] < s[j]
}

pub(crate) proof fn lemma_increasing_remove(s: Seq<nat>, i: int)
    requires
        increasing(s),
        0 <= i < s.len(),
    ensures
        increasing(s.remove(i)),
        forall|v: nat| s.remove(i).contains(v) <==> (s.contains(v) && v != s[i]),
{
    let r = s.remove(i);
    assert forall|p: int, q: int| 0 <= p < q < r.len() implies r[p] < r[q] by {
        let pp = if p < i { p } else { p + 1 };
        let qq = if q < i { q } else { q + 1 };
        assert(r[p] == s[pp]);
        assert(r[q] == s[qq]);
    }
    assert forall|v: nat| r.contains(v) <==> (s.contains(v) && v != s[i]) by {
        if r.contains(v) {
            let p = choose|p: int| 0 <= p < r.len() && r[p] == v;
            let pp = if p < i { p } else { p + 1 };
            assert(r[p] == s[pp]);
        }
        if s.contains(v) && v != s[i] {
            let p = choose|p: int| 0 <= p < s.len() && s[p] == v;
            if p < i {
                assert(r[p] == v);
            } else {
                assert(r[p - 1] == v);
            }
        }
    }
}

pub(crate) proof fn lemma_increasing_push(s: Seq<nat>, x: nat)
    requires
        increasing(s),
        forall|i: int| 0 <= i < s.len() ==> s[i] < x,
    ensures
        increasing(s.push(x)),
        forall|v: nat| s.push(x).contains(v) <==> (s.contains(v) || v == x),
{
    let r = s.push(x);
    assert forall|v: nat| r.contains(v) <==> (s.contains(v) || v == x) by {
        if r.contains(v) {
            let p = choose|p: int| 0 <= p < r.len() && r[p] == v;
            if p < s.len() {
                assert(s[p] == v);
            }
        }
        if s.contains(v) {
            let p = choose|p: int| 0 <= p < s.len() && s[p] == v;
            assert(r[p] == v);
        }
        if v == x {
            assert(r[s.len() as int] == v);
        }
    }
}

/// Every step joins trees built before it.
pub(crate) proof fn lemma_picks_older(leaves: Seq<HuffmanNode>, picks: Seq<(nat, nat)>, k: int)
    requires
        greedy(leaves, picks),
        0 <= k < picks.len(),
    ensures
        picks[k].0 < leaves.len() + k,
        picks[k].1 < leaves.len() + k,
{
    assert(greedy_step(leaves, picks, k));
}

/// `i` is the first position of a lightest tree of `forest`.
pub open spec fn first_lightest(forest: Seq<HuffmanNode>, i: int) -> bool {
    &&& 0 <= i < forest.len()
    &&& forall|j: int| 0 <= j < forest.len() ==> forest[i].spec_freq() <= #[trigger] forest[j].spec_freq()
    &&& forall|j: int| 0 <= j < i ==> forest[i].spec_freq() < #[trigger] forest[j].spec_freq()
}

/// The trees standing after the history `picks` are `forest`, with the
/// increasing ids `ids`.
pub open spec fn stands(leaves: Seq<HuffmanNode>, picks: Seq<(nat, nat)>, ids: Seq<nat>, forest: Seq<HuffmanNode>) -> bool {
    &&& ids.len() == forest.len()
    &&& increasing(ids)
    &&& forall|p: int| 0 <= p < forest.len() ==> #[trigger] forest[p] == node_of(leaves, picks, ids[p])
    &&& forall|v: nat| available(leaves.len(), picks, picks.len() as int, v) <==> ids.contains(v)
}

proof fn lemma_precedes_in(
    leaves: Seq<HuffmanNode>,
    picks: Seq<(nat, nat)>,
    ids: Seq<nat>,
    forest: Seq<HuffmanNode>,
    i: int,
    v: nat,
)
    requires
        ids.len() == forest.len(),
        increasing(ids),
        forall|p: int| 0 <= p < forest.len() ==> #[trigger] forest[p] == node_of(leaves, picks, ids[p]),
        first_lightest(forest, i),
        ids.contains(v),
        v != ids[i],
    ensures
        precedes(leaves, picks, ids[i], v),
{
    let p = choose|p: int| 0 <= p < ids.len() && ids[p] == v;
    assert(forest[p] == node_of(leaves, picks, ids[p]));
    assert(forest[i] == node_of(leaves, picks, ids[i]));
    assert(forest[i].spec_freq() <= forest[p].spec_freq());
    if p < i {
        assert(forest[i].spec_freq() < forest[p].spec_freq());
    }
}

/// Joining the first lightest tree and then the first lightest of the rest
/// is a greedy step, after which the trees standing are the rest and the
/// joined tree, with the next id.
pub(crate) proof fn lemma_greedy_join(
    leaves: Seq<HuffmanNode>,
    picks: Seq<(nat, nat)>,
    ids: Seq<nat>,
    forest: Seq<HuffmanNode>,
    i1: int,
    i2: int,
    node: HuffmanNode,
)
    requires
        greedy(leaves, picks),
        stands(leaves, picks, ids, forest),
        first_lightest(forest, i1),
        first_lightest(forest.remove(i1), i2),
        forest[i1].spec_freq() + forest.remove(i1)[i2].spec_freq() <= u32::MAX,
        node == (HuffmanNode::Internal {
            left: Box::new(forest[i1]),
            right: Box::new(forest.remove(i1)[i2]),
            freq: (forest[i1].spec_freq() + forest.remove(i1)[i2].spec_freq()) as u32,
        }),
    ensures
        ({
            let pick = (ids[i1], ids.remove(i1)[i2]);
            let q = picks.push(pick);
            &&& greedy(leaves, q)
            &&& stands(
                leaves,
                q,
                ids.remove(i1).remove(i2).push((leaves.len() + picks.len()) as nat),
                forest.remove(i1).remove(i2).push(node),
            )
        }),
{
    let n = leaves.len();
    let k = picks.len() as int;
    let ids1 = ids.remove(i1);
    let f1 = forest.remove(i1);
    let a = ids[i1];
    let b = ids1[i2];
    let pick = (a, b);
    let q = picks.push(pick);
    lemma_increasing_remove(ids, i1);
    let ids2 = ids1.remove(i2);
    lemma_increasing_remove(ids1, i2);
    let newid = (n + k) as nat;
    assert forall|p: int| 0 <= p < f1.len() implies #[trigger] f1[p] == node_of(leaves, picks, ids1[p]) by {
        if p < i1 {
            assert(f1[p] == forest[p]);
            assert(ids1[p] == ids[p]);
        } else {
            assert(f1[p] == forest[p + 1]);
            assert(ids1[p] == ids[p + 1]);
        }
    }
    assert(ids.contains(a));
    assert(ids1[i2] == b);
    assert(ids1.contains(b));
    assert(ids.contains(b) && b != a);
    // The ids that stand are below the next id.
    assert forall|v: nat| ids.contains(v) implies v < newid by {
        assert(available(n, picks, k, v));
    }
    assert forall|v: nat| #[trigger] available(n, q, k, v) == available(n, picks, k, v) by {
        lemma_consumed_push(picks, pick, v);
    }
    assert forall|v: nat| v < newid implies #[trigger] node_of(leaves, q, v) == node_of(leaves, picks, v) by {
        lemma_node_of_push(leaves, picks, pick, v);
    }
    // The step is greedy.
    assert(q[k] == pick);
    assert forall|v: nat| #[trigger] available(n, q, k, v) && v != a implies precedes(leaves, q, a, v) by {
        assert(ids.contains(v));
        lemma_precedes_in(leaves, picks, ids, forest, i1, v);
    }
    assert forall|v: nat| #[trigger] available(n, q, k, v) && v != a && v != b implies precedes(leaves, q, b, v) by {
        assert(ids.contains(v));
        assert(ids1.contains(v));
        lemma_precedes_in(leaves, picks, ids1, f1, i2, v);
    }
    assert(forest[i1] == node_of(leaves, picks, a));
    assert(f1[i2] == node_of(leaves, picks, b));
    assert(a < newid && b < newid);
    assert(available(n, q, k, a));
    assert(available(n, q, k, b));
    assert(a != b);
    assert(weight(leaves, q, a) + weight(leaves, q, b) <= u32::MAX);
    assert(greedy_step(leaves, q, k));
    lemma_greedy_push(leaves, picks, pick);
    // The trees that stand afterwards.
    let f2 = f1.remove(i2);
    let f3 = f2.push(node);
    let ids3 = ids2.push(newid);
    assert forall|i: int| 0 <= i < ids2.len() implies ids2[i] < newid by {
        assert(ids2.contains(ids2[i]));
        assert(ids1.contains(ids2[i]));
        assert(ids.contains(ids2[i]));
    }
    lemma_increasing_push(ids2, newid);
    assert(node_of(leaves, q, newid) == node);
    assert forall|p: int| 0 <= p < f3.len() implies #[trigger] f3[p] == node_of(leaves, q, ids3[p]) by {
        if p < f2.len() {
            assert(f3[p] == f2[p]);
            assert(ids3[p] == ids2[p]);
            if p < i2 {
                assert(f2[p] == f1[p]);
                assert(ids2[p] == ids1[p]);
            } else {
                assert(f2[p] == f1[p + 1]);
                assert(ids2[p] == ids1[p + 1]);
            }
            assert(ids1.contains(ids2[p]));
        }
    }
    assert forall|v: nat| available(n, q, k + 1, v) <==> ids3.contains(v) by {
        lemma_available_next(leaves, q, k, v);
        lemma_consumed_push(picks, pick, v);
        assert(q[k] == pick);
        if ids.contains(v) {
            assert(v < newid);
        }
        if v == newid {
            if consumed(picks, k, v) {
                let j = choose|j: int| 0 <= j < k && #[trigger] joins(picks[j], v);
                lemma_picks_older(leaves, picks, j);
            }
        }
    }
}

/// The leaves of the tree with id `id`, with their frequencies and their
/// depths below it, are its leaf ids, at their depths in the whole history.
proof fn lemma_leaf_weights_of(leaves: Seq<HuffmanNode>, picks: Seq<(nat, nat)>, id: nat)
    requires
        greedy(leaves, picks),
        forall|i: int| 0 <= i < leaves.len() ==> #[trigger] leaves[i] is Leaf,
        id < leaves.len() + picks.len(),
    ensures
        leaf_weights(node_of(leaves, picks, id)).len() == leaf_ids(leaves.len(), picks, id).len(),
        forall|i: int|
            0 <= i < leaf_ids(leaves.len(), picks, id).len() ==> {
                let x = #[trigger] leaf_ids(leaves.len(), picks, id)[i];
                &&& x < leaves.len()
                &&& leaf_weights(node_of(leaves, picks, id))[i].0 == weight(leaves, picks, x)
                &&& leaf_weights(node_of(leaves, picks, id))[i].1 + hist_depth(leaves.len(), picks, id)
                    == hist_depth(leaves.len(), picks, x)
            },
    decreases id,
{
    let n = leaves.len();
    if id < n {
        assert(leaves[id as int] is Leaf);
    } else {
        let k = id - n;
        assert(greedy_step(leaves, picks, k));
        let a = picks[k].0;
        let b = picks[k].1;
        lemma_joined_at(leaves, picks, a, k);
        lemma_joined_at(leaves, picks, b, k);
        lemma_leaf_weights_of(leaves, picks, a);
        lemma_leaf_weights_of(leaves, picks, b);
        let la = leaf_ids(n, picks, a);
        let lb = leaf_ids(n, picks, b);
        let wa = leaf_weights(node_of(leaves, picks, a));
        let wb = leaf_weights(node_of(leaves, picks, b));
        let ids = leaf_ids(n, picks, id);
        let ws = leaf_weights(node_of(leaves, picks, id));
        assert(ids == la + lb);
        assert(ws == wa.map_values(|e: (u32, nat)| (e.0, e.1 + 1)) + wb.map_values(
            |e: (u32, nat)| (e.0, e.1 + 1),
        ));
        assert forall|i: int| 0 <= i < ids.len() implies {
            let x = #[trigger] ids[i];
            &&& x < n
            &&& ws[i].0 == weight(leaves, picks, x)
            &&& ws[i].1 + hist_depth(n, picks, id) == hist_depth(n, picks, x)
        } by {
            if i < la.len() {
                assert(ids[i] == la[i]);
            } else {
                assert(ids[i] == lb[i - la.len()]);
            }
        }
    }
}

/// The tree that a greedy history builds from leaves puts no leaf deeper
/// than a less frequent one.
pub proof fn lemma_greedy_tree_shallower(leaves: Seq<HuffmanNode>, picks: Seq<(nat, nat)>, r: nat)
    requires
        greedy(leaves, picks),
        forall|i: int| 0 <= i < leaves.len() ==> #[trigger] leaves[i] is Leaf,
        r < leaves.len() + picks.len(),
        !consumed(picks, picks.len() as int, r),
    ensures
        frequent_leaves_shallower(node_of(leaves, picks, r)),
{
    let n = leaves.len();
    let t = node_of(leaves, picks, r);
    lemma_leaf_weights_of(leaves, picks, r);
    assert(hist_depth(n, picks, r) == 0) by {
        if exists|k: int| 0 <= k < picks.len() && #[trigger] joins(picks[k], r) && r < n + k {
            let k = choose|k: int| 0 <= k < picks.len() && #[trigger] joins(picks[k], r) && r < n + k;
            assert(consumed(picks, picks.len() as int, r));
        }
    }
    let ids = leaf_ids(n, picks, r);
    assert forall|i: int, j: int|
        0 <= i < leaf_weights(t).len() && 0 <= j < leaf_weights(t).len() && #[trigger] leaf_weights(t)[i].0
            > #[trigger] leaf_weights(t)[j].0 implies leaf_weights(t)[i].1 <= leaf_weights(t)[j].1 by {
        let x = ids[i];
        let y = ids[j];
        lemma_leaf_depths(leaves, picks, x, y);
    }
}

} // verus!
