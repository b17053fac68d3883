//! Bit-prefix arithmetic on 32-bit key patterns.
//!
//! A key is placed in the trie by its raw 32-bit pattern: a signed key is
//! reinterpreted bit for bit, with no sign extension. The prefix of length
//! `i` of a pattern `k` is `k / 2^(32 - i)`; the node of depth `i` that
//! represents prefix `p` covers exactly the patterns of the interval
//! `[p * 2^(32 - i), (p + 1) * 2^(32 - i))`.
use vstd::arithmetic::div_mod::*;
use vstd::arithmetic::power2::*;
use vstd::bits::*;
use vstd::prelude::*;

verus! {

/// Width of a key in bits: the depth of every leaf.
pub const W: usize = 32;

/// The raw 32-bit pattern of a signed key, read as an unsigned number.
pub open spec fn pat(x: i32) -> int {
    if x >= 0 {
        x as int
    } else {
        x as int + 0x1_0000_0000
    }
}

/// Number of patterns below one node of depth `i`.
pub open spec fn span(i: int) -> int {
    pow2((32 - i) as nat) as int
}

/// The prefix of length `i` of pattern `k`.
pub open spec fn pre(k: int, i: int) -> int {
    k / span(i)
}

pub proof fn lemma_pat(x: i32)
    ensures
        0 <= pat(x) < 0x1_0000_0000,
{
}

pub proof fn lemma_pat_injective(x: i32, y: i32)
    ensures
        pat(x) == pat(y) <==> x == y,
{
}

pub proof fn lemma_span(i: int)
    requires
        0 <= i <= 32,
    ensures
        span(i) > 0,
        i < 32 ==> span(i) == 2 * span(i + 1),
        i == 32 ==> span(i) == 1,
        i == 0 ==> span(i) == 0x1_0000_0000,
{
    lemma_pow2_pos((32 - i) as nat);
    if i < 32 {
        lemma_pow2_unfold((32 - i) as nat);
    }
    if i == 32 {
        lemma2_to64();
    }
    if i == 0 {
        lemma2_to64();
    }
}

/// The patterns with prefix `p` at depth `i` form one interval.
pub proof fn lemma_pre_block(k: int, i: int, p: int)
    requires
        0 <= i <= 32,
    ensures
        pre(k, i) == p <==> p * span(i) <= k < p * span(i) + span(i),
{
    let d = span(i);
    lemma_span(i);
    lemma_fundamental_div_mod(k, d);
    lemma_mod_bound(k, d);
    if p * d <= k < p * d + d {
        lemma_fundamental_div_mod_converse(k, d, p, k - p * d);
    }
    if pre(k, i) == p {
        assert(k == d * p + k % d);
        assert(p * d <= k < p * d + d) by (nonlinear_arith)
            requires
                k == d * p + k % d,
                0 <= k % d < d,
        ;
    }
}

/// A prefix of length `i` is the prefix of length `i + 1` without its last bit.
pub proof fn lemma_pre_step(k: int, i: int)
    requires
        0 <= i < 32,
        0 <= k,
    ensures
        pre(k, i) == pre(k, i + 1) / 2,
        pre(k, i + 1) == 2 * pre(k, i) || pre(k, i + 1) == 2 * pre(k, i) + 1,
{
    lemma_span(i);
    lemma_span(i + 1);
    lemma_div_denominator(k, span(i + 1), 2);
    assert(span(i + 1) * 2 == span(i));
    let q = pre(k, i + 1);
    lemma_fundamental_div_mod(q, 2);
    lemma_mod_bound(q, 2);
}

/// Prefixes keep the order of the patterns.
pub proof fn lemma_pre_mono(k1: int, k2: int, i: int)
    requires
        0 <= i <= 32,
        k1 <= k2,
    ensures
        pre(k1, i) <= pre(k2, i),
{
    lemma_span(i);
    lemma_div_is_ordered(k1, k2, span(i));
}

/// A prefix is no larger than the pattern.
pub proof fn lemma_pre_bound(k: int, i: int)
    requires
        0 <= i <= W,
        0 <= k,
    ensures
        0 <= pre(k, i) <= k,
{
    lemma_span(i);
    lemma_div_is_ordered_by_denominator(k, 1, span(i));
    lemma_div_pos_is_pos(k, span(i));
}

/// The prefix of full length is the pattern; the empty prefix is zero.
pub proof fn lemma_pre_ends(k: int)
    requires
        0 <= k < 0x1_0000_0000,
    ensures
        pre(k, 32) == k,
        pre(k, 0) == 0,
{
    lemma_span(32);
    lemma_span(0);
    lemma_pre_block(k, 0, 0);
}

/// Two patterns that share a prefix and differ in the next bit are ordered
/// by that bit.
pub proof fn lemma_pre_branch(k: int, x: int, i: int)
    requires
        0 <= i < 32,
        pre(k, i + 1) == 2 * pre(x, i),
        pre(x, i + 1) == 2 * pre(x, i) + 1,
    ensures
        k < x,
{
    let p = pre(x, i);
    lemma_pre_block(k, i + 1, 2 * p);
    lemma_pre_block(x, i + 1, 2 * p + 1);
    let d = span(i + 1);
    assert(2 * p * d + d == (2 * p + 1) * d) by (nonlinear_arith);
}

/// The raw pattern of a key.
pub fn pattern(x: i32) -> (r: u32)
    ensures
        r as int == pat(x),
{
    if x >= 0 {
        x as u32
    } else {
        ((x as i64) + 0x1_0000_0000i64) as u32
    }
}

/// The prefix of length `i` of pattern `k`.
pub fn prefix_of(k: u32, i: usize) -> (r: u32)
    requires
        i <= W,
    ensures
        r as int == pre(k as int, i as int),
{
    if i == 0 {
        proof {
            lemma_pre_ends(k as int);
        }
        0
    } else {
        let s: u32 = (32 - i) as u32;
        proof {
            lemma_u32_shr_is_div(k, s);
        }
        k >> s
    }
}

} // verus!
