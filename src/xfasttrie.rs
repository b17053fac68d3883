//! The x-fast trie.
//!
//! Nodes live in one hash table per depth (the level index), keyed by the
//! node's prefix, so that a node is found by its prefix alone: the parent of
//! the node with prefix `p` at depth `i` is the node with prefix `p / 2` at
//! depth `i - 1`, and its children are the nodes with prefixes `2p` and
//! `2p + 1` at depth `i + 1`. A reference to a leaf is the key it stores.
//! The leaves form a doubly linked list in ascending order; `None` at either
//! end stands for the sentinel.
use crate::prefix::{lemma_pat, lemma_pat_injective, lemma_pre_bound, lemma_pre_branch, lemma_pre_ends, lemma_pre_mono, lemma_pre_step, pat, pattern, pre, prefix_of, W};
use std::collections::HashMap;
use vstd::prelude::*;

verus! {

broadcast use vstd::std_specs::hash::group_hash_axioms;

/// One node of the trie, internal or leaf.
#[derive(Clone, Copy, Debug)]
pub struct BTNode {
    /// The stored key (leaves only).
    pub x: i32,
    /// The bit-prefix this node represents.
    pub prefix: u32,
    /// With one child only: the key of the boundary leaf on the missing side.
    pub jump: Option<i32>,
    /// Previous leaf in ascending order (leaves only).
    pub prev: Option<i32>,
    /// Next leaf in ascending order (leaves only).
    pub next: Option<i32>,
}

impl BTNode {
    pub fn new() -> (r: BTNode)
        ensures
            r.x == 0,
            r.prefix == 0,
            r.jump is None,
            r.prev is None,
            r.next is None,
    {
        BTNode { x: 0, prefix: 0, jump: None, prev: None, next: None }
    }
}

/// Some key of `s` has prefix `p` at depth `i`.
pub open spec fn occupied(s: Set<i32>, i: int, p: int) -> bool {
    exists|k: i32| #[trigger] s.contains(k) && pre(pat(k), i) == p
}

/// `j` is the smallest key of `s` with prefix `p` at depth `i`.
pub open spec fn is_block_min(s: Set<i32>, i: int, p: int, j: i32) -> bool {
    &&& s.contains(j)
    &&& pre(pat(j), i) == p
    &&& forall|k: i32| #[trigger] s.contains(k) && pre(pat(k), i) == p ==> pat(j) <= pat(k)
}

/// `j` is the largest key of `s` with prefix `p` at depth `i`.
pub open spec fn is_block_max(s: Set<i32>, i: int, p: int, j: i32) -> bool {
    &&& s.contains(j)
    &&& pre(pat(j), i) == p
    &&& forall|k: i32| #[trigger] s.contains(k) && pre(pat(k), i) == p ==> pat(k) <= pat(j)
}

/// `r` is the key of `s` with the smallest pattern at or above `x`, or none
/// when there is no such key.
pub open spec fn is_succ(s: Set<i32>, x: int, r: Option<i32>) -> bool {
    match r {
        Some(v) => {
            &&& s.contains(v)
            &&& pat(v) >= x
            &&& forall|k: i32| #[trigger] s.contains(k) && pat(k) >= x ==> pat(v) <= pat(k)
        },
        None => forall|k: i32| #[trigger] s.contains(k) ==> pat(k) < x,
    }
}

/// `r` is the key of `s` with the largest pattern below `x`, or none when
/// there is no such key.
pub open spec fn is_pred(s: Set<i32>, x: int, r: Option<i32>) -> bool {
    match r {
        Some(v) => {
            &&& s.contains(v)
            &&& pat(v) < x
            &&& forall|k: i32| #[trigger] s.contains(k) && pat(k) < x ==> pat(k) <= pat(v)
        },
        None => forall|k: i32| #[trigger] s.contains(k) ==> pat(k) >= x,
    }
}

/// The jump of the node with prefix `p` at depth `i < W`: the smallest key
/// below it when its 0-child is missing, the largest when its 1-child is
/// missing, and nothing when it has both children or none.
pub open spec fn jump_ok(s: Set<i32>, i: int, p: int, j: Option<i32>) -> bool {
    let has0 = occupied(s, i + 1, 2 * p);
    let has1 = occupied(s, i + 1, 2 * p + 1);
    &&& (!has0 && has1) ==> (j matches Some(v) && is_block_min(s, i, p, v))
    &&& (has0 && !has1) ==> (j matches Some(v) && is_block_max(s, i, p, v))
    &&& (has0 == has1) ==> j is None
}

/// A nonempty block below an internal node reaches at least one child.
proof fn lemma_occupied_child(s: Set<i32>, i: int, p: int)
    requires
        0 <= i < W,
        occupied(s, i, p),
    ensures
        occupied(s, i + 1, 2 * p) || occupied(s, i + 1, 2 * p + 1),
{
    let k = choose|k: i32| #[trigger] s.contains(k) && pre(pat(k), i) == p;
    lemma_pat(k);
    lemma_pre_step(pat(k), i);
}

/// When every key under a node lies below `x`, the key after the node's
/// largest key answers the query for `x`.
proof fn lemma_succ_after_block(s: Set<i32>, i: int, x: int, j: i32, r: Option<i32>)
    requires
        0 <= i <= W,
        0 <= x,
        is_block_max(s, i, pre(x, i), j),
        pat(j) < x,
        forall|k: i32| #[trigger] s.contains(k) && pre(pat(k), i) == pre(x, i) ==> pat(k) < x,
        is_succ(s, pat(j) + 1, r),
    ensures
        is_succ(s, x, r),
{
    assert forall|k: i32| #[trigger] s.contains(k) implies (pat(k) >= x <==> pat(k) >= pat(j) + 1) by {
        lemma_pat(k);
        if pat(k) > pat(j) && pat(k) < x {
            lemma_pre_mono(pat(j), pat(k), i);
            lemma_pre_mono(pat(k), x, i);
        }
    }
}

/// When every key under a node lies at or above `x`, the node's smallest
/// key answers the query for `x`.
proof fn lemma_succ_block_min(s: Set<i32>, i: int, x: int, j: i32)
    requires
        0 <= i <= W,
        0 <= x,
        is_block_min(s, i, pre(x, i), j),
        forall|k: i32| #[trigger] s.contains(k) && pre(pat(k), i) == pre(x, i) ==> pat(k) >= x,
    ensures
        is_succ(s, x, Some(j)),
{
    assert forall|k: i32| #[trigger] s.contains(k) && pat(k) >= x implies pat(j) <= pat(k) by {
        lemma_pat(k);
        if pat(k) < pat(j) {
            lemma_pre_mono(x, pat(k), i);
            lemma_pre_mono(pat(k), pat(j), i);
        }
    }
}

/// A leaf of pattern `p`: it stores the key of that pattern, and links to
/// the keys just below and just above it.
pub open spec fn leaf_ok(s: Set<i32>, p: u32, u: BTNode) -> bool {
    &&& pat(u.x) == p
    &&& is_pred(s, p as int, u.prev)
    &&& is_succ(s, p + 1, u.next)
}

/// The level index of depth `i` agrees with the keys `s`.
pub open spec fn level_ok(s: Set<i32>, m: Map<u32, BTNode>, i: int) -> bool {
    &&& i == 0 ==> m.contains_key(0) && forall|p: u32| #[trigger] m.contains_key(p) ==> p == 0
    &&& i >= 1 ==> forall|p: u32| #[trigger] m.contains_key(p) <==> occupied(s, i, p as int)
    &&& forall|p: u32| #[trigger] m.contains_key(p) ==> m[p].prefix == p
    &&& i < W ==> forall|p: u32| #[trigger]
        m.contains_key(p) ==> jump_ok(s, i, p as int, m[p].jump)
    &&& i == W ==> forall|p: u32| #[trigger] m.contains_key(p) ==> leaf_ok(s, p, m[p])
}

/// The jump of a node on the path of a newly added key `x`, given which
/// children it has afterwards and its jump before.
pub open spec fn add_jump(has0: bool, has1: bool, j: Option<i32>, x: i32) -> Option<i32> {
    if has0 && has1 {
        None
    } else if !has0 {
        match j {
            Some(v) => if pat(v) < pat(x) { Some(v) } else { Some(x) },
            None => Some(x),
        }
    } else {
        match j {
            Some(v) => if pat(v) > pat(x) { Some(v) } else { Some(x) },
            None => Some(x),
        }
    }
}

/// A leaf with its `next` link replaced.
pub open spec fn with_next(u: BTNode, n: Option<i32>) -> BTNode {
    BTNode { x: u.x, prefix: u.prefix, jump: u.jump, prev: u.prev, next: n }
}

/// A leaf with its `prev` link replaced.
pub open spec fn with_prev(u: BTNode, n: Option<i32>) -> BTNode {
    BTNode { x: u.x, prefix: u.prefix, jump: u.jump, prev: n, next: u.next }
}

/// The leaf level after `x` is linked in between `pred` and `succ`.
pub open spec fn add_leaves(m: Map<u32, BTNode>, x: i32, pred: Option<i32>, succ: Option<i32>) -> Map<
    u32,
    BTNode,
> {
    let k = pat(x) as u32;
    let m1 = m.insert(k, BTNode { x: x, prefix: k, jump: None, prev: pred, next: succ });
    let m2 = match pred {
        Some(a) => m1.insert(pat(a) as u32, with_next(m1[pat(a) as u32], Some(x))),
        None => m1,
    };
    match succ {
        Some(b) => m2.insert(pat(b) as u32, with_prev(m2[pat(b) as u32], Some(x))),
        None => m2,
    }
}

proof fn lemma_occupied_insert(s: Set<i32>, x: i32, i: int, p: int)
    ensures
        occupied(s.insert(x), i, p) <==> occupied(s, i, p) || pre(pat(x), i) == p,
{
    if occupied(s.insert(x), i, p) {
        let k = choose|k: i32| #[trigger] s.insert(x).contains(k) && pre(pat(k), i) == p;
        if k != x {
            assert(s.contains(k));
        }
    }
    if occupied(s, i, p) {
        let k = choose|k: i32| #[trigger] s.contains(k) && pre(pat(k), i) == p;
        assert(s.insert(x).contains(k));
    }
    if pre(pat(x), i) == p {
        assert(s.insert(x).contains(x));
    }
}

/// A pattern present at the leaf level belongs to a key.
proof fn lemma_leaf_key(s: Set<i32>, p: int) -> (k: i32)
    requires
        occupied(s, W as int, p),
    ensures
        s.contains(k),
        pat(k) == p,
{
    let k = choose|k: i32| #[trigger] s.contains(k) && pre(pat(k), W as int) == p;
    lemma_pat(k);
    lemma_pre_ends(pat(k));
    k
}

/// Adding a key keeps one internal level in order, once its node on the
/// key's path carries the jump that `add_jump` gives.
proof fn lemma_add_level(
    s: Set<i32>,
    x: i32,
    mo: Map<u32, BTNode>,
    m1: Map<u32, BTNode>,
    i: int,
    oj: Option<i32>,
    u: BTNode,
)
    requires
        0 <= i < W,
        !s.contains(x),
        level_ok(s, mo, i),
        level_ok(s.insert(x), m1, i + 1),
        u.prefix as int == pre(pat(x), i),
        mo.contains_key(u.prefix) ==> oj == mo[u.prefix].jump,
        !mo.contains_key(u.prefix) ==> oj is None,
        u.jump == add_jump(
            occupied(s.insert(x), i + 1, 2 * u.prefix),
            occupied(s.insert(x), i + 1, 2 * u.prefix + 1),
            oj,
            x,
        ),
    ensures
        level_ok(s.insert(x), mo.insert(u.prefix, u), i),
{
    let s2 = s.insert(x);
    let ix = pat(x);
    let q = u.prefix;
    let mn = mo.insert(q, u);
    lemma_pat(x);
    lemma_pre_step(ix, i);
    lemma_pre_ends(ix);
    if i >= 1 {
        assert forall|p: u32| #[trigger] mn.contains_key(p) <==> occupied(s2, i, p as int) by {
            lemma_occupied_insert(s, x, i, p as int);
        }
    }
    assert forall|p: u32| #[trigger] mn.contains_key(p) implies jump_ok(s2, i, p as int, mn[p].jump) by {
        lemma_occupied_insert(s, x, i + 1, 2 * p);
        lemma_occupied_insert(s, x, i + 1, 2 * p + 1);
        lemma_occupied_insert(s, x, i, p as int);
        if p != q {
            assert(jump_ok(s, i, p as int, mo[p].jump));
            assert forall|k: i32| #[trigger] s2.contains(k) && pre(pat(k), i) == p implies s.contains(
                k,
            ) by {}
        } else {
            let has0 = occupied(s2, i + 1, 2 * p);
            let has1 = occupied(s2, i + 1, 2 * p + 1);
            let old_occ = occupied(s, i, p as int);
            if old_occ && i < W {
                lemma_occupied_child(s, i, p as int);
            }
            if !old_occ {
                assert forall|k: i32| #[trigger] s2.contains(k) && pre(pat(k), i) == p implies k
                    == x by {
                    if k != x {
                        assert(s.contains(k));
                    }
                }
            }
            if i == 0 {
                assert(mo.contains_key(0));
            }
        }
    }
}

/// Linking a new key into the leaf list between its neighbours keeps the
/// leaf level in order.
proof fn lemma_add_leaves(
    s: Set<i32>,
    x: i32,
    mo: Map<u32, BTNode>,
    pred: Option<i32>,
    succ: Option<i32>,
)
    requires
        !s.contains(x),
        level_ok(s, mo, W as int),
        is_pred(s, pat(x), pred),
        is_succ(s, pat(x), succ),
    ensures
        level_ok(s.insert(x), add_leaves(mo, x, pred, succ), W as int),
{
    let s2 = s.insert(x);
    let ix = pat(x);
    let mn = add_leaves(mo, x, pred, succ);
    lemma_pat(x);
    lemma_pre_ends(ix);
    assert forall|k: i32| #[trigger] s.contains(k) implies pat(k) != ix by {
        lemma_pat_injective(k, x);
    }
    if let Some(a) = pred {
        lemma_pat(a);
        lemma_pre_ends(pat(a));
        assert(mo.contains_key(pat(a) as u32));
    }
    if let Some(b) = succ {
        lemma_pat(b);
        lemma_pre_ends(pat(b));
        assert(mo.contains_key(pat(b) as u32));
    }
    assert forall|p: u32| #[trigger] mn.contains_key(p) <==> occupied(s2, W as int, p as int) by {
        lemma_occupied_insert(s, x, W as int, p as int);
    }
    assert forall|p: u32| #[trigger] mn.contains_key(p) implies mn[p].prefix == p && leaf_ok(
        s2,
        p,
        mn[p],
    ) by {
        if p as int != ix {
            lemma_occupied_insert(s, x, W as int, p as int);
            let k = lemma_leaf_key(s, p as int);
            assert(mo.contains_key(p));
            assert(leaf_ok(s, p, mo[p]));
        }
    }
}

/// The jump of a node on the path of a removed key `x`, given which
/// children it has afterwards, its jump before, and the neighbours of `x`.
pub open spec fn rem_jump(
    has0: bool,
    has1: bool,
    j: Option<i32>,
    x: i32,
    prev: Option<i32>,
    next: Option<i32>,
) -> Option<i32> {
    if has0 == has1 {
        None
    } else if !has0 {
        match j {
            Some(v) => if v != x { Some(v) } else { next },
            None => next,
        }
    } else {
        match j {
            Some(v) => if v != x { Some(v) } else { prev },
            None => prev,
        }
    }
}

/// The leaf level after `x` is unlinked from between `prev` and `next`.
pub open spec fn rem_leaves(m: Map<u32, BTNode>, x: i32, prev: Option<i32>, next: Option<i32>) -> Map<
    u32,
    BTNode,
> {
    let m1 = m.remove(pat(x) as u32);
    let m2 = match prev {
        Some(a) => m1.insert(pat(a) as u32, with_next(m1[pat(a) as u32], next)),
        None => m1,
    };
    match next {
        Some(b) => m2.insert(pat(b) as u32, with_prev(m2[pat(b) as u32], prev)),
        None => m2,
    }
}

proof fn lemma_occupied_remove(s: Set<i32>, x: i32, i: int, p: int)
    ensures
        occupied(s.remove(x), i, p) ==> occupied(s, i, p),
        occupied(s, i, p) && pre(pat(x), i) != p ==> occupied(s.remove(x), i, p),
{
    if occupied(s.remove(x), i, p) {
        let k = choose|k: i32| #[trigger] s.remove(x).contains(k) && pre(pat(k), i) == p;
        assert(s.contains(k));
    }
    if occupied(s, i, p) && pre(pat(x), i) != p {
        let k = choose|k: i32| #[trigger] s.contains(k) && pre(pat(k), i) == p;
        assert(s.remove(x).contains(k));
    }
}

/// A node is occupied exactly when one of its children is.
proof fn lemma_occupied_parent(s: Set<i32>, i: int, p: int)
    requires
        0 <= i < W,
    ensures
        occupied(s, i, p) <==> occupied(s, i + 1, 2 * p) || occupied(s, i + 1, 2 * p + 1),
{
    if occupied(s, i, p) {
        lemma_occupied_child(s, i, p);
    }
    if occupied(s, i + 1, 2 * p) {
        let k = choose|k: i32| #[trigger] s.contains(k) && pre(pat(k), i + 1) == 2 * p;
        lemma_pat(k);
        lemma_pre_step(pat(k), i);
    }
    if occupied(s, i + 1, 2 * p + 1) {
        let k = choose|k: i32| #[trigger] s.contains(k) && pre(pat(k), i + 1) == 2 * p + 1;
        lemma_pat(k);
        lemma_pre_step(pat(k), i);
    }
}

/// Removing a key keeps one internal level in order, once its node on the
/// key's path is dropped when it has no child left, or else carries the
/// jump that `rem_jump` gives.
proof fn lemma_rem_level(
    s: Set<i32>,
    x: i32,
    mo: Map<u32, BTNode>,
    i: int,
    prev: Option<i32>,
    next: Option<i32>,
    has0: bool,
    has1: bool,
    u: BTNode,
)
    requires
        0 <= i < W,
        s.contains(x),
        level_ok(s, mo, i),
        is_pred(s, pat(x), prev),
        is_succ(s, pat(x) + 1, next),
        u.prefix as int == pre(pat(x), i),
        has0 == occupied(s.remove(x), i + 1, 2 * u.prefix),
        has1 == occupied(s.remove(x), i + 1, 2 * u.prefix + 1),
        u.jump == rem_jump(has0, has1, mo[u.prefix].jump, x, prev, next),
    ensures
        mo.contains_key(u.prefix),
        level_ok(
            s.remove(x),
            if i > 0 && !has0 && !has1 {
                mo.remove(u.prefix)
            } else {
                mo.insert(u.prefix, u)
            },
            i,
        ),
{
    let s2 = s.remove(x);
    let ix = pat(x);
    let q = u.prefix;
    let mn = if i > 0 && !has0 && !has1 {
        mo.remove(q)
    } else {
        mo.insert(q, u)
    };
    lemma_pat(x);
    lemma_pre_step(ix, i);
    assert(occupied(s, i, q as int));
    if i == 0 {
        lemma_pre_ends(ix);
    }
    assert(mo.contains_key(q));
    lemma_occupied_parent(s2, i, q as int);
    if i >= 1 {
        assert forall|p: u32| #[trigger] mn.contains_key(p) <==> occupied(s2, i, p as int) by {
            lemma_occupied_remove(s, x, i, p as int);
        }
    }
    assert forall|p: u32| #[trigger] mn.contains_key(p) implies jump_ok(s2, i, p as int, mn[p].jump) by {
        lemma_occupied_remove(s, x, i + 1, 2 * p);
        lemma_occupied_remove(s, x, i + 1, 2 * p + 1);
        if p != q {
            assert(jump_ok(s, i, p as int, mo[p].jump));
            assert forall|k: i32| #[trigger] s.contains(k) && pre(pat(k), i) == p implies s2.contains(
                k,
            ) by {}
        } else {
            assert(jump_ok(s, i, q as int, mo[q].jump));
            lemma_occupied_parent(s, i, q as int);
            // every key left under the node lies on the side away from x
            let oj = mo[q].jump;
            if !has0 && has1 {
                assert forall|k: i32| #[trigger]
                    s2.contains(k) && pre(pat(k), i) == q && (oj is None || oj == Some(x)) implies pat(
                    k,
                ) > ix by {
                    lemma_pat(k);
                    lemma_pre_step(pat(k), i);
                    lemma_pat_injective(k, x);
                    if pre(pat(k), i + 1) == 2 * q {
                        assert(occupied(s2, i + 1, 2 * q));
                    }
                    if occupied(s, i + 1, 2 * q) {
                        let k0 = choose|k0: i32| #[trigger] s.contains(k0) && pre(pat(k0), i + 1) == 2 * q;
                        if k0 != x {
                            assert(s2.contains(k0));
                        }
                        lemma_pre_branch(ix, pat(k), i);
                    } else {
                        assert(s.contains(k));
                    }
                }
                let w = choose|w: i32| #[trigger] s2.contains(w) && pre(pat(w), i + 1) == 2 * q + 1;
                lemma_pat(w);
                lemma_pre_step(pat(w), i);
                if oj is None || oj == Some(x) {
                    if let Some(b) = next {
                        assert(pat(w) > ix);
                        lemma_pat(b);
                        lemma_pre_mono(ix, pat(b), i);
                        lemma_pre_mono(pat(b), pat(w), i);
                        assert(s2.contains(b));
                    }
                }
            }
            if has0 && !has1 {
                assert forall|k: i32| #[trigger]
                    s2.contains(k) && pre(pat(k), i) == q && (oj is None || oj == Some(x)) implies pat(
                    k,
                ) < ix by {
                    lemma_pat(k);
                    lemma_pre_step(pat(k), i);
                    lemma_pat_injective(k, x);
                    if pre(pat(k), i + 1) == 2 * q + 1 {
                        assert(occupied(s2, i + 1, 2 * q + 1));
                    }
                    if occupied(s, i + 1, 2 * q + 1) {
                        let k0 = choose|k0: i32| #[trigger] s.contains(k0) && pre(pat(k0), i + 1) == 2 * q + 1;
                        if k0 != x {
                            assert(s2.contains(k0));
                        }
                        lemma_pre_branch(pat(k), ix, i);
                    } else {
                        assert(s.contains(k));
                    }
                }
                let w = choose|w: i32| #[trigger] s2.contains(w) && pre(pat(w), i + 1) == 2 * q;
                lemma_pat(w);
                lemma_pre_step(pat(w), i);
                if oj is None || oj == Some(x) {
                    if let Some(a) = prev {
                        assert(pat(w) < ix);
                        lemma_pat(a);
                        lemma_pre_mono(pat(a), ix, i);
                        lemma_pre_mono(pat(w), pat(a), i);
                        assert(s2.contains(a));
                    }
                }
            }
        }
    }
}

/// Unlinking a key from the leaf list keeps the leaf level in order.
proof fn lemma_rem_leaves(
    s: Set<i32>,
    x: i32,
    mo: Map<u32, BTNode>,
    prev: Option<i32>,
    next: Option<i32>,
)
    requires
        s.contains(x),
        level_ok(s, mo, W as int),
        is_pred(s, pat(x), prev),
        is_succ(s, pat(x) + 1, next),
    ensures
        level_ok(s.remove(x), rem_leaves(mo, x, prev, next), W as int),
{
    let s2 = s.remove(x);
    let ix = pat(x);
    let mn = rem_leaves(mo, x, prev, next);
    lemma_pat(x);
    lemma_pre_ends(ix);
    assert forall|k: i32| #[trigger] s2.contains(k) implies pat(k) != ix by {
        lemma_pat_injective(k, x);
    }
    if let Some(a) = prev {
        lemma_pat(a);
        lemma_pre_ends(pat(a));
        assert(mo.contains_key(pat(a) as u32));
    }
    if let Some(b) = next {
        lemma_pat(b);
        lemma_pre_ends(pat(b));
        assert(mo.contains_key(pat(b) as u32));
    }
    assert forall|p: u32| #[trigger] mn.contains_key(p) <==> occupied(s2, W as int, p as int) by {
        lemma_occupied_remove(s, x, W as int, p as int);
        if occupied(s2, W as int, p as int) {
            let k = lemma_leaf_key(s2, p as int);
        }
    }
    assert forall|p: u32| #[trigger] mn.contains_key(p) implies mn[p].prefix == p && leaf_ok(
        s2,
        p,
        mn[p],
    ) by {
        lemma_occupied_remove(s, x, W as int, p as int);
        let k = lemma_leaf_key(s, p as int);
        assert(mo.contains_key(p));
        assert(leaf_ok(s, p, mo[p]));
    }
}

/// The x-fast trie: a set of `i32` keys, ordered by their raw 32-bit
/// patterns.
pub struct XFastTrie {
    n: usize,
    /// One level index per depth `0..=W`; depth 0 holds the root alone.
    t: Vec<HashMap<u32, BTNode>>,
    /// The first leaf of the list (the head sentinel's successor).
    head: Option<i32>,
    keys: Ghost<Set<i32>>,
}

impl View for XFastTrie {
    type V = Set<i32>;

    closed spec fn view(&self) -> Set<i32> {
        self.keys@
    }
}

impl XFastTrie {
    /// The structural invariant tying the level indices, the jumps and the
    /// leaf list to the set of keys.
    pub closed spec fn wf(&self) -> bool {
        let s = self.keys@;
        &&& self.t.len() == W + 1
        &&& s.finite()
        &&& self.n == s.len()
        &&& forall|i: int| 0 <= i <= W ==> level_ok(s, (#[trigger] self.t[i])@, i)
        &&& is_succ(s, 0, self.head)
    }

    pub fn new() -> (r: XFastTrie)
        ensures
            r.wf(),
            r@ == Set::<i32>::empty(),
    {
        let mut t: Vec<HashMap<u32, BTNode>> = Vec::new();
        let mut i: usize = 0;
        while i <= W
            invariant
                i <= W + 1,
                t.len() == i,
                forall|j: int| 0 <= j < i ==> (#[trigger] t[j])@ == Map::<u32, BTNode>::empty(),
            decreases W + 1 - i,
        {
            t.push(HashMap::new());
            i = i + 1;
        }
        t[0].insert(0, BTNode::new());
        let r = XFastTrie { n: 0, t, head: None, keys: Ghost(Set::empty()) };
        assert forall|i: int, p: u32|
            1 <= i <= W implies (#[trigger] r.t[i]@.contains_key(p) <==> occupied(
                r.keys@,
                i,
                p as int,
            )) by {
            assert(r.t[i]@ == Map::<u32, BTNode>::empty());
        }
        r
    }

    pub fn size(&self) -> (r: usize)
        requires
            self.wf(),
        ensures
            r == self@.len(),
    {
        self.n
    }

    /// The smallest stored key whose pattern is at or above that of `x`.
    pub fn find(&self, x: i32) -> (r: Option<i32>)
        requires
            self.wf(),
        ensures
            is_succ(self@, pat(x), r),
    {
        let ghost s = self.keys@;
        let ix = pattern(x);
        proof {
            lemma_pat(x);
            lemma_pre_ends(ix as int);
        }
        let mut l: usize = 0;
        let mut h: usize = W + 1;
        proof {
            assert forall|i: int| 0 <= i <= W implies 0 <= #[trigger] pre(ix as int, i) <= ix by {
                lemma_pre_bound(ix as int, i);
            }
        }
        let mut u: BTNode = match self.t[0].get(&0) {
            Some(v) => *v,
            None => BTNode::new(),
        };
        // binary search for the deepest depth whose prefix of `x` is present
        while h - l > 1
            invariant
                self.wf(),
                s == self.keys@,
                ix as int == pat(x),
                forall|i: int| 0 <= i <= W ==> 0 <= #[trigger] pre(ix as int, i) <= ix,
                l < h <= W + 1,
                self.t[l as int]@.contains_key(pre(ix as int, l as int) as u32),
                u == self.t[l as int]@[pre(ix as int, l as int) as u32],
                h <= W ==> !occupied(s, h as int, pre(ix as int, h as int)),
            decreases h - l,
        {
            let i = l + (h - l) / 2;
            let q = prefix_of(ix, i);
            match self.t[i].get(&q) {
                None => {
                    h = i;
                },
                Some(v) => {
                    u = *v;
                    l = i;
                },
            }
        }
        if l == W {
            proof {
                let k = choose|k: i32| #[trigger] s.contains(k) && pre(pat(k), W as int) == ix;
                lemma_pat(k);
                lemma_pre_ends(pat(k));
                lemma_pat_injective(k, x);
                lemma_pat_injective(u.x, x);
            }
            return Some(u.x);
        }
        let p0 = prefix_of(ix, l);
        let p1 = prefix_of(ix, l + 1);
        proof {
            lemma_pre_step(ix as int, l as int);
        }
        let ghost li = l as int;
        let ghost p = p0 as int;
        assert(!occupied(s, li + 1, pre(ix as int, li + 1)));
        if p1 - p0 - p0 == 1 {
            // every stored key under the node lies on its 0-side, below `x`
            match u.jump {
                None => {
                    proof {
                        if li > 0 {
                            lemma_occupied_child(s, li, p);
                        }
                        assert forall|k: i32| #[trigger] s.contains(k) implies pat(k) < pat(x) by {
                            lemma_pat(k);
                            lemma_pre_ends(pat(k));
                            lemma_pre_step(pat(k), 0);
                        }
                    }
                    None
                },
                Some(j) => {
                    let lj = match self.t[W].get(&pattern(j)) {
                        Some(v) => *v,
                        None => BTNode::new(),
                    };
                    proof {
                        if li > 0 {
                            lemma_occupied_child(s, li, p);
                        } else {
                            lemma_pat(j);
                            lemma_pre_ends(pat(j));
                        }
                        assert(is_block_max(s, li, p, j));
                        assert forall|k: i32| #[trigger]
                            s.contains(k) && pre(pat(k), li) == p implies pat(k) < pat(x) by {
                            lemma_pat(k);
                            lemma_pre_step(pat(k), li);
                            lemma_pre_branch(pat(k), ix as int, li);
                        }
                        lemma_pat(j);
                        lemma_pre_ends(pat(j));
                        assert(self.t[W as int]@.contains_key(pat(j) as u32));
                        lemma_succ_after_block(s, li, ix as int, j, lj.next);
                    }
                    lj.next
                },
            }
        } else {
            // every stored key under the node lies on its 1-side, above `x`,
            // so the jump (the leaf after its predecessor) is the answer
            match u.jump {
                None => {
                    proof {
                        if li > 0 {
                            lemma_occupied_child(s, li, p);
                        }
                        assert forall|k: i32| #[trigger] s.contains(k) implies pat(k) < pat(x) by {
                            lemma_pat(k);
                            lemma_pre_ends(pat(k));
                            lemma_pre_step(pat(k), 0);
                        }
                    }
                    None
                },
                Some(j) => {
                    proof {
                        if li > 0 {
                            lemma_occupied_child(s, li, p);
                        } else {
                            lemma_pat(j);
                            lemma_pre_ends(pat(j));
                        }
                        assert(is_block_min(s, li, p, j));
                        assert forall|k: i32| #[trigger]
                            s.contains(k) && pre(pat(k), li) == p implies pat(k) >= pat(x) by {
                            lemma_pat(k);
                            lemma_pre_step(pat(k), li);
                            if pat(k) < pat(x) {
                                lemma_pre_branch(ix as int, pat(k), li);
                            }
                        }
                        lemma_succ_block_min(s, li, ix as int, j);
                    }
                    Some(j)
                },
            }
        }
    }

    /// The leaf of pattern `k`.
    fn leaf(&self, k: u32) -> (r: BTNode)
        requires
            self.wf(),
            self.t[W as int]@.contains_key(k),
        ensures
            r == self.t[W as int]@[k],
    {
        match self.t[W].get(&k) {
            Some(v) => *v,
            None => BTNode::new(),
        }
    }

    /// Walks down from the root along the bits of `ix` while the next node
    /// exists; returns the depth reached and the node there.
    fn search(&self, ix: u32) -> (r: (usize, BTNode))
        requires
            self.wf(),
        ensures
            r.0 <= W,
            self.t[r.0 as int]@.contains_key(pre(ix as int, r.0 as int) as u32),
            r.1 == self.t[r.0 as int]@[pre(ix as int, r.0 as int) as u32],
            r.0 < W ==> !occupied(self@, r.0 + 1, pre(ix as int, r.0 + 1)),
    {
        proof {
            lemma_pre_ends(ix as int);
            assert(level_ok(self.keys@, self.t[0]@, 0));
        }
        let mut i: usize = 0;
        let mut u: BTNode = match self.t[0].get(&0) {
            Some(v) => *v,
            None => BTNode::new(),
        };
        let mut go = true;
        while go && i < W
            invariant
                self.wf(),
                i <= W,
                self.t[i as int]@.contains_key(pre(ix as int, i as int) as u32),
                u == self.t[i as int]@[pre(ix as int, i as int) as u32],
                !go ==> i < W && !occupied(self@, i + 1, pre(ix as int, i + 1)),
            decreases (if go { 1int } else { 0int }) + W - i,
        {
            let q = prefix_of(ix, i + 1);
            proof {
                lemma_pre_bound(ix as int, i + 1);
                assert(level_ok(self.keys@, self.t[i + 1]@, i + 1));
            }
            match self.t[i + 1].get(&q) {
                Some(v) => {
                    u = *v;
                    i = i + 1;
                },
                None => {
                    go = false;
                },
            }
        }
        (i, u)
    }

    /// Inserts `x`; returns false, changing nothing, when it is already
    /// stored.
    pub fn add(&mut self, x: i32) -> (r: bool)
        requires
            old(self).wf(),
            old(self)@.len() < usize::MAX,
        ensures
            final(self).wf(),
            r == !old(self)@.contains(x),
            final(self)@ == old(self)@.insert(x),
    {
        let ghost s = self.keys@;
        let ghost s2 = s.insert(x);
        let ix = pattern(x);
        proof {
            lemma_pat(x);
            lemma_pre_ends(ix as int);
        }
        // 1 - search for x until falling out of the trie
        let (m, u) = self.search(ix);
        if m == W {
            proof {
                lemma_leaf_key(s, ix as int);
                let k = lemma_leaf_key(s, ix as int);
                lemma_pat_injective(k, x);
                assert(s2 =~= s);
            }
            return false;
        }
        proof {
            if s.contains(x) {
                lemma_pre_bound(ix as int, m + 1);
                assert(occupied(s, m + 1, pre(ix as int, m + 1)));
            }
            assert(level_ok(s, self.t[m as int]@, m as int));
            lemma_pre_step(ix as int, m as int);
        }
        // 2 - the neighbours of x, through the jump of the deepest node
        let p0 = prefix_of(ix, m);
        let p1 = prefix_of(ix, m + 1);
        let ghost mi = m as int;
        let ghost p = p0 as int;
        let (pred, succ) = if p1 - p0 - p0 == 1 {
            match u.jump {
                None => (None, None),
                Some(j) => {
                    proof {
                        lemma_pat(j);
                        lemma_pre_ends(pat(j));
                        assert(level_ok(s, self.t[W as int]@, W as int));
                    }
                    (Some(j), self.leaf(pattern(j)).next)
                },
            }
        } else {
            match u.jump {
                None => (None, None),
                Some(j) => {
                    proof {
                        lemma_pat(j);
                        lemma_pre_ends(pat(j));
                        assert(level_ok(s, self.t[W as int]@, W as int));
                    }
                    (self.leaf(pattern(j)).prev, Some(j))
                },
            }
        };
        proof {
            if mi > 0 {
                lemma_occupied_child(s, mi, p);
            }
            assert forall|k: i32| #[trigger] s.contains(k) && pre(pat(k), mi) == p implies (p1 - p0
                - p0 == 1 ==> pat(k) < ix) && (p1 - p0 - p0 != 1 ==> pat(k) > ix) by {
                lemma_pat(k);
                lemma_pre_step(pat(k), mi);
                lemma_pre_step(pat(k), 0);
                lemma_pre_ends(pat(k));
                if p1 - p0 - p0 == 1 {
                    lemma_pre_branch(pat(k), ix as int, mi);
                } else if pat(k) <= ix {
                    lemma_pat_injective(k, x);
                    lemma_pre_branch(ix as int, pat(k), mi);
                }
            }
            assert forall|k: i32| #[trigger] s.contains(k) implies (pre(pat(k), mi) < p ==> pat(k)
                < ix) && (pre(pat(k), mi) > p ==> pat(k) > ix) by {
                lemma_pat(k);
                if pat(k) >= ix {
                    lemma_pre_mono(ix as int, pat(k), mi);
                }
                if pat(k) <= ix {
                    lemma_pre_mono(pat(k), ix as int, mi);
                }
            }
            match u.jump {
                Some(j) => {
                    assert forall|k: i32| #[trigger] s.contains(k) implies (pre(pat(k), mi) < p
                        ==> pat(k) < pat(j)) && (pre(pat(k), mi) > p ==> pat(k) > pat(j)) by {
                        lemma_pat(k);
                        if pat(k) >= pat(j) {
                            lemma_pre_mono(pat(j), pat(k), mi);
                        }
                        if pat(k) <= pat(j) {
                            lemma_pre_mono(pat(k), pat(j), mi);
                        }
                    }
                    assert forall|k: i32| #[trigger] s.contains(k) implies pat(k) != ix by {
                        lemma_pat_injective(k, x);
                    }
                },
                None => {
                    assert forall|k: i32| #[trigger] s.contains(k) implies false by {
                        lemma_pat(k);
                        lemma_pre_step(pat(k), 0);
                        lemma_pre_ends(pat(k));
                    }
                },
            }
            assert(level_ok(s, self.t[W as int]@, W as int));
            lemma_pre_bound(ix as int, mi);
            assert(jump_ok(s, mi, p, u.jump));
            if p1 - p0 - p0 == 1 {
                if let Some(j) = u.jump {
                    assert(is_block_max(s, mi, p, j));
                    lemma_pat(j);
                    lemma_pre_ends(pat(j));
                    assert(occupied(s, W as int, pat(j)));
                    assert(self.t[W as int]@.contains_key(pat(j) as u32));
                    assert(leaf_ok(s, pat(j) as u32, self.t[W as int]@[pat(j) as u32]));
                }
            } else {
                if let Some(j) = u.jump {
                    assert(is_block_min(s, mi, p, j));
                    lemma_pat(j);
                    lemma_pre_ends(pat(j));
                    assert(occupied(s, W as int, pat(j)));
                    assert(self.t[W as int]@.contains_key(pat(j) as u32));
                    assert(leaf_ok(s, pat(j) as u32, self.t[W as int]@[pat(j) as u32]));
                }
            }
            assert(is_pred(s, ix as int, pred));
            assert(is_succ(s, ix as int, succ));
        }
        // 3 - the new leaf, linked in between its neighbours
        let ghost ot = self.t@;
        let leaf = BTNode { x: x, prefix: ix, jump: None, prev: pred, next: succ };
        self.t[W].insert(ix, leaf);
        match pred {
            Some(a) => {
                let ka = pattern(a);
                let la = match self.t[W].get(&ka) {
                    Some(v) => *v,
                    None => BTNode::new(),
                };
                self.t[W].insert(ka, BTNode { x: la.x, prefix: la.prefix, jump: la.jump, prev: la.prev, next: Some(x) });
            },
            None => {
                self.head = Some(x);
            },
        }
        match succ {
            Some(b) => {
                let kb = pattern(b);
                let lb = match self.t[W].get(&kb) {
                    Some(v) => *v,
                    None => BTNode::new(),
                };
                self.t[W].insert(kb, BTNode { x: lb.x, prefix: lb.prefix, jump: lb.jump, prev: Some(x), next: lb.next });
            },
            None => {},
        }
        proof {
            assert(level_ok(s, ot[W as int]@, W as int));
            if let Some(a) = pred {
                lemma_pat(a);
                lemma_pre_ends(pat(a));
                assert(ot[W as int]@.contains_key(pat(a) as u32));
            }
            if let Some(b) = succ {
                lemma_pat(b);
                lemma_pre_ends(pat(b));
                assert(ot[W as int]@.contains_key(pat(b) as u32));
            }
            assert(self.t[W as int]@ == add_leaves(ot[W as int]@, x, pred, succ));
            lemma_add_leaves(s, x, ot[W as int]@, pred, succ);
            assert forall|k: i32| #[trigger] s2.contains(k) implies pat(k) >= 0 by {
                lemma_pat(k);
            }
        }
        proof {
            assert(is_succ(s2, 0, self.head)) by {
                if let Some(a) = pred {
                    assert(s.contains(a));
                }
                assert forall|k: i32| #[trigger] s2.contains(k) implies pat(k) >= 0 by {
                    lemma_pat(k);
                }
            }
        }
        // 4 - walk back up, bringing the jumps on the path up to date
        let mut d: usize = W;
        while d > 0
            invariant
                d <= W,
                self.t.len() == W + 1,
                s2 == s.insert(x),
                !s.contains(x),
                ix as int == pat(x),
                forall|i: int| d <= i <= W ==> level_ok(s2, (#[trigger] self.t[i])@, i),
                forall|i: int| 0 <= i < d ==> (#[trigger] self.t[i])@ == ot[i]@,
                forall|i: int| 0 <= i <= W ==> level_ok(s, (#[trigger] ot[i])@, i),
                ot.len() == W + 1,
                self.keys@ == s,
                self.n == s.len(),
                s.len() < usize::MAX,
                is_succ(s2, 0, self.head),
            decreases d,
        {
            d = d - 1;
            let q = prefix_of(ix, d);
            let c = prefix_of(ix, d + 1);
            proof {
                lemma_pre_step(ix as int, d as int);
                lemma_pre_bound(ix as int, d + 1);
                assert(level_ok(s2, self.t[d + 1]@, d + 1));
                lemma_occupied_insert(s, x, d + 1, c as int);
            }
            let side_one = c - q - q == 1;
            let sib = if side_one { c - 1 } else { c + 1 };
            let has_sib = self.t[d + 1].contains_key(&sib);
            let has0 = !side_one || has_sib;
            let has1 = side_one || has_sib;
            let old = self.t[d].get(&q);
            let oj = match old {
                Some(v) => v.jump,
                None => None,
            };
            let nj = if has0 && has1 {
                None
            } else if !has0 {
                match oj {
                    Some(v) => if pattern(v) < ix { Some(v) } else { Some(x) },
                    None => Some(x),
                }
            } else {
                match oj {
                    Some(v) => if pattern(v) > ix { Some(v) } else { Some(x) },
                    None => Some(x),
                }
            };
            let node = match old {
                Some(v) => BTNode { x: v.x, prefix: q, jump: nj, prev: v.prev, next: v.next },
                None => BTNode { x: 0, prefix: q, jump: nj, prev: None, next: None },
            };
            proof {
                assert(self.t[d as int]@ == ot[d as int]@);
                assert(has0 == occupied(s2, d + 1, 2 * q));
                assert(has1 == occupied(s2, d + 1, 2 * q + 1));
                lemma_add_level(s, x, ot[d as int]@, self.t[d + 1]@, d as int, oj, node);
            }
            self.t[d].insert(q, node);
        }
        self.keys = Ghost(s2);
        self.n = self.n + 1;
        proof {
            assert(s2.len() == s.len() + 1);
        }
        true
    }

    /// Removes `x`; returns it when it was stored, none (changing nothing)
    /// otherwise.
    pub fn remove(&mut self, x: i32) -> (r: Option<i32>)
        requires
            old(self).wf(),
        ensures
            final(self).wf(),
            r == (if old(self)@.contains(x) { Some(x) } else { None::<i32> }),
            final(self)@ == old(self)@.remove(x),
    {
        let ghost s = self.keys@;
        let ghost s2 = s.remove(x);
        let ix = pattern(x);
        proof {
            lemma_pat(x);
            lemma_pre_ends(ix as int);
        }
        // 1 - find the leaf holding x
        let (m, u) = self.search(ix);
        if m < W {
            proof {
                if s.contains(x) {
                    lemma_pre_bound(ix as int, m + 1);
                    assert(occupied(s, m + 1, pre(ix as int, m + 1)));
                }
                assert(s2 =~= s);
            }
            return None;
        }
        proof {
            assert(level_ok(s, self.t[W as int]@, W as int));
            let k = lemma_leaf_key(s, ix as int);
            lemma_pat_injective(k, x);
            assert(leaf_ok(s, ix, u));
            assert(s2.len() == s.len() - 1);
        }
        let prev = u.prev;
        let next = u.next;
        // 2 - unlink it from the leaf list
        let ghost ot = self.t@;
        self.t[W].remove(&ix);
        match prev {
            Some(a) => {
                let ka = pattern(a);
                let la = match self.t[W].get(&ka) {
                    Some(v) => *v,
                    None => BTNode::new(),
                };
                self.t[W].insert(ka, BTNode { x: la.x, prefix: la.prefix, jump: la.jump, prev: la.prev, next: next });
            },
            None => {
                self.head = next;
            },
        }
        match next {
            Some(b) => {
                let kb = pattern(b);
                let lb = match self.t[W].get(&kb) {
                    Some(v) => *v,
                    None => BTNode::new(),
                };
                self.t[W].insert(kb, BTNode { x: lb.x, prefix: lb.prefix, jump: lb.jump, prev: prev, next: lb.next });
            },
            None => {},
        }
        proof {
            if let Some(a) = prev {
                lemma_pat(a);
                lemma_pre_ends(pat(a));
                lemma_pat_injective(a, x);
                assert(ot[W as int]@.contains_key(pat(a) as u32));
            }
            if let Some(b) = next {
                lemma_pat(b);
                lemma_pre_ends(pat(b));
                lemma_pat_injective(b, x);
                assert(ot[W as int]@.contains_key(pat(b) as u32));
            }
            assert(self.t[W as int]@ == rem_leaves(ot[W as int]@, x, prev, next));
            lemma_rem_leaves(s, x, ot[W as int]@, prev, next);
            assert(is_succ(s2, 0, self.head)) by {
                assert forall|k: i32| #[trigger] s2.contains(k) implies pat(k) >= 0 && pat(k) != pat(
                    x,
                ) by {
                    lemma_pat(k);
                    lemma_pat_injective(k, x);
                }
                if let Some(a) = prev {
                    assert(s.contains(a));
                    lemma_pat_injective(a, x);
                }
            }
        }
        // 3 - walk back up, dropping the nodes left without children and
        // repairing the jumps that pointed at x
        let mut d: usize = W;
        while d > 0
            invariant
                d <= W,
                self.t.len() == W + 1,
                s2 == s.remove(x),
                s.contains(x),
                ix as int == pat(x),
                is_pred(s, pat(x), prev),
                is_succ(s, pat(x) + 1, next),
                forall|i: int| d <= i <= W ==> level_ok(s2, (#[trigger] self.t[i])@, i),
                forall|i: int| 0 <= i < d ==> (#[trigger] self.t[i])@ == ot[i]@,
                forall|i: int| 0 <= i <= W ==> level_ok(s, (#[trigger] ot[i])@, i),
                ot.len() == W + 1,
                self.keys@ == s,
                self.n == s.len(),
                s2.len() == s.len() - 1,
                is_succ(s2, 0, self.head),
            decreases d,
        {
            d = d - 1;
            let q = prefix_of(ix, d);
            let c = prefix_of(ix, d + 1);
            proof {
                lemma_pre_step(ix as int, d as int);
                lemma_pre_bound(ix as int, d + 1);
                assert(level_ok(s2, self.t[d + 1]@, d + 1));
                assert(self.t[d as int]@ == ot[d as int]@);
            }
            let side_one = c - q - q == 1;
            let sib = if side_one { c - 1 } else { c + 1 };
            let has_c = self.t[d + 1].contains_key(&c);
            let has_sib = self.t[d + 1].contains_key(&sib);
            let has0 = if side_one { has_sib } else { has_c };
            let has1 = if side_one { has_c } else { has_sib };
            let old = self.t[d].get(&q);
            let (ox, oj, op, on) = match old {
                Some(v) => (v.x, v.jump, v.prev, v.next),
                None => (0, None, None, None),
            };
            let nj = if has0 == has1 {
                None
            } else if !has0 {
                match oj {
                    Some(v) => if v != x { Some(v) } else { next },
                    None => next,
                }
            } else {
                match oj {
                    Some(v) => if v != x { Some(v) } else { prev },
                    None => prev,
                }
            };
            let node = BTNode { x: ox, prefix: q, jump: nj, prev: op, next: on };
            proof {
                assert(s.contains(x) && pre(pat(x), d as int) == q as int);
                if d == 0 {
                    lemma_pre_ends(ix as int);
                }
                assert(level_ok(s, ot[d as int]@, d as int));
                assert(ot[d as int]@.contains_key(q));
                assert(has0 == occupied(s2, d + 1, 2 * q));
                assert(has1 == occupied(s2, d + 1, 2 * q + 1));
                lemma_rem_level(s, x, ot[d as int]@, d as int, prev, next, has0, has1, node);
            }
            if d > 0 && !has0 && !has1 {
                self.t[d].remove(&q);
            } else {
                self.t[d].insert(q, node);
            }
        }
        self.keys = Ghost(s2);
        self.n = self.n - 1;
        Some(x)
    }

    /// The stored keys, read along the leaf list from front to back.
    pub fn leaves(&self) -> (r: Vec<i32>)
        requires
            self.wf(),
        ensures
            forall|a: int, b: int| 0 <= a < b < r.len() ==> pat(#[trigger] r[a]) < pat(#[trigger] r[b]),
            forall|k: i32| self@.contains(k) <==> r@.contains(k),
    {
        let ghost s = self.keys@;
        let mut out: Vec<i32> = Vec::new();
        let mut cur = self.head;
        let ghost bound: int = 0;
        while cur.is_some()
            invariant
                self.wf(),
                s == self.keys@,
                0 <= bound,
                is_succ(s, bound, cur),
                forall|a: int| 0 <= a < out.len() ==> s.contains(#[trigger] out[a]),
                forall|a: int| 0 <= a < out.len() ==> pat(#[trigger] out[a]) < bound,
                forall|a: int, b: int|
                    0 <= a < b < out.len() ==> pat(#[trigger] out[a]) < pat(#[trigger] out[b]),
                forall|k: i32| #[trigger] s.contains(k) && pat(k) < bound ==> out@.contains(k),
            decreases
                match cur {
                    Some(v) => 0x1_0000_0001 - pat(v),
                    None => 0,
                },
        {
            let v = match cur {
                Some(v) => v,
                None => 0,
            };
            proof {
                lemma_pat(v);
                lemma_pre_ends(pat(v));
                assert(level_ok(s, self.t[W as int]@, W as int));
                assert(occupied(s, W as int, pat(v)));
            }
            let u = self.leaf(pattern(v));
            proof {
                assert(leaf_ok(s, pat(v) as u32, u));
                if let Some(w) = u.next {
                    lemma_pat(w);
                }
                assert forall|k: i32| #[trigger] s.contains(k) && pat(k) < pat(v) + 1 implies out@.push(
                    v,
                ).contains(k) by {
                    if pat(k) < bound {
                        let a = choose|a: int| 0 <= a < out.len() && out[a] == k;
                        assert(out@.push(v)[a] == k);
                    } else {
                        lemma_pat_injective(k, v);
                        assert(out@.push(v)[out.len() as int] == k);
                    }
                }
            }
            out.push(v);
            cur = u.next;
            proof {
                bound = pat(v) + 1;
            }
        }
        proof {
            assert forall|k: i32| self@.contains(k) implies out@.contains(k) by {
                assert(s.contains(k));
            }
            assert forall|k: i32| out@.contains(k) implies self@.contains(k) by {
                let a = choose|a: int| 0 <= a < out.len() && out[a] == k;
                assert(s.contains(out[a]));
            }
        }
        out
    }
}

} // verus!
