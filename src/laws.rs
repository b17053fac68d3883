//! Laws of the trie, stated over the set of keys that every operation's
//! contract speaks of: `add` turns `s` into `s.insert(x)`, `remove` turns it
//! into `s.remove(x)`, `size` returns `s.len()`, and `find(x)` returns the
//! `r` with `is_succ(s, pat(x), r)`.
use crate::prefix::{lemma_pat, lemma_pat_injective, pat};
use crate::xfasttrie::is_succ;
use vstd::prelude::*;

verus! {

/// The keys present after inserting `keys` one after another into `s`.
pub open spec fn insert_all(s: Set<i32>, keys: Seq<i32>) -> Set<i32>
    decreases keys.len(),
{
    if keys.len() == 0 {
        s
    } else {
        insert_all(s, keys.drop_last()).insert(keys.last())
    }
}

proof fn lemma_insert_all_contains(keys: Seq<i32>, k: i32)
    ensures
        insert_all(Set::empty(), keys).finite(),
        insert_all(Set::empty(), keys).contains(k) <==> keys.contains(k),
    decreases keys.len(),
{
    if keys.len() > 0 {
        lemma_insert_all_contains(keys.drop_last(), k);
        if keys.contains(k) && k != keys.last() {
            let a = choose|a: int| 0 <= a < keys.len() && keys[a] == k;
            assert(keys.drop_last()[a] == k);
        }
        if keys.drop_last().contains(k) {
            let a = choose|a: int| 0 <= a < keys.len() - 1 && keys.drop_last()[a] == k;
            assert(keys[a] == k);
        }
    }
}

/// After a sequence of distinct inserts into an empty trie, the size is
/// the number of inserts.
pub proof fn lemma_distinct_inserts_size(keys: Seq<i32>)
    requires
        keys.no_duplicates(),
    ensures
        insert_all(Set::empty(), keys).len() == keys.len(),
    decreases keys.len(),
{
    if keys.len() > 0 {
        let init = keys.drop_last();
        assert(init.no_duplicates());
        lemma_distinct_inserts_size(init);
        lemma_insert_all_contains(init, keys.last());
        if init.contains(keys.last()) {
            let a = choose|a: int| 0 <= a < init.len() && init[a] == keys.last();
            assert(keys[a] == keys[keys.len() - 1]);
        }
    }
}

/// Inserting a key that is already present leaves the keys, and so the
/// size, unchanged.
pub proof fn lemma_add_present(s: Set<i32>, x: i32)
    requires
        s.contains(x),
    ensures
        s.insert(x) == s,
        s.insert(x).len() == s.len(),
{
    assert(s.insert(x) =~= s);
}

/// Right after `x` is added, a query for `x` returns `x`.
pub proof fn lemma_add_then_find(s: Set<i32>, x: i32)
    ensures
        is_succ(s.insert(x), pat(x), Some(x)),
{
}

/// Right after `x` is removed, a query for `x` returns the smallest key
/// that was stored above `x`, and never `x` itself.
pub proof fn lemma_remove_then_find(s: Set<i32>, x: i32, r: Option<i32>)
    requires
        is_succ(s.remove(x), pat(x), r),
    ensures
        r != Some(x),
        is_succ(s, pat(x) + 1, r),
{
    assert forall|k: i32| #[trigger] s.contains(k) && k != x implies (pat(k) >= pat(x) <==> pat(k)
        >= pat(x) + 1) by {
        lemma_pat_injective(k, x);
    }
    if let Some(v) = r {
        assert(s.remove(x).contains(v));
    }
    assert forall|k: i32| #[trigger] s.contains(k) && k != x implies s.remove(x).contains(k) by {}
}

/// Removing an absent key leaves the keys unchanged, and so the size and
/// the answer to every query.
pub proof fn lemma_remove_absent(s: Set<i32>, x: i32, y: i32, r: Option<i32>)
    requires
        !s.contains(x),
    ensures
        s.remove(x) == s,
        s.remove(x).len() == s.len(),
        is_succ(s.remove(x), pat(y), r) <==> is_succ(s, pat(y), r),
{
    assert(s.remove(x) =~= s);
}

/// A query has at most one answer: two structures that both meet the
/// contract of `find` on the same keys answer every query alike.
pub proof fn lemma_succ_unique(s: Set<i32>, x: int, r1: Option<i32>, r2: Option<i32>)
    requires
        is_succ(s, x, r1),
        is_succ(s, x, r2),
    ensures
        r1 == r2,
{
    if let (Some(a), Some(b)) = (r1, r2) {
        lemma_pat_injective(a, b);
    }
}

/// Queries are monotone in the key order: a query for a larger pattern
/// never answers a smaller key, and finds nothing where a smaller one
/// found nothing.
pub proof fn lemma_find_monotone(s: Set<i32>, x: int, y: int, a: Option<i32>, b: Option<i32>)
    requires
        x <= y,
        is_succ(s, x, a),
        is_succ(s, y, b),
    ensures
        a is None ==> b is None,
        a is Some && b is Some ==> pat(a.unwrap()) <= pat(b.unwrap()),
{
    if let Some(v) = b {
        assert(s.contains(v));
    }
}

} // verus!
