use rand::{thread_rng, Rng};
use std::collections::BTreeSet;
use xfasttrie::xfasttrie::{BTNode, XFastTrie};

fn reference_find(s: &BTreeSet<i32>, x: i32) -> Option<i32> {
    s.range(x..).next().copied()
}

#[test]
fn test_xfasttrie() {
    let mut rng = thread_rng();
    let n = 200;
    let mut reference = BTreeSet::<i32>::new();
    let mut xfasttrie = XFastTrie::new();
    for _ in 0..5 {
        for _ in 0..n {
            let x = rng.gen_range(0, 5 * n);
            reference.insert(x);
            xfasttrie.add(x);
            assert_eq!(reference.len(), xfasttrie.size());
        }
        for _ in 0..n {
            let x = rng.gen_range(0, 5 * n);
            let y1 = reference_find(&reference, x);
            let y2 = xfasttrie.find(x);
            assert_eq!(y1, y2);
        }
        for _ in 0..n {
            let x = rng.gen_range(0, 5 * n);
            let b1 = if reference.remove(&x) { Some(x) } else { None };
            let b2 = xfasttrie.remove(x);
            assert_eq!(b1, b2);
        }
        assert_eq!(reference.len(), xfasttrie.size());
        for _ in 0..n {
            let x = rng.gen_range(0, 5 * n);
            let y1 = reference_find(&reference, x);
            let y2 = xfasttrie.find(x);
            assert_eq!(y1, y2);
        }
    }
}

#[test]
fn scenario_insert_four_then_remove_two() {
    let mut t = XFastTrie::new();
    for x in [10, 3, 77, 42] {
        assert!(t.add(x));
    }
    assert_eq!(t.find(0), Some(3));
    assert_eq!(t.find(10), Some(10));
    assert_eq!(t.find(11), Some(42));
    assert_eq!(t.find(78), None);
    assert_eq!(t.remove(42), Some(42));
    assert_eq!(t.find(11), Some(77));
    assert_eq!(t.remove(77), Some(77));
    assert_eq!(t.find(11), None);
    assert_eq!(t.size(), 2);
}

#[test]
fn empty_trie_finds_nothing() {
    let t = XFastTrie::new();
    assert_eq!(t.size(), 0);
    assert_eq!(t.find(0), None);
    assert_eq!(t.find(-1), None);
    assert_eq!(t.find(i32::MIN), None);
    assert!(t.leaves().is_empty());
}

#[test]
fn distinct_inserts_count_and_duplicates_do_not() {
    let mut t = XFastTrie::new();
    let keys = [5, 1, 9, 1000, 0, 77];
    for (i, &k) in keys.iter().enumerate() {
        assert!(t.add(k));
        assert_eq!(t.size(), i + 1);
    }
    assert!(!t.add(9));
    assert!(!t.add(0));
    assert_eq!(t.size(), keys.len());
}

#[test]
fn add_then_find_returns_the_key() {
    let mut t = XFastTrie::new();
    for x in [8, 3, 1 << 20, 12345, 2] {
        t.add(x);
        assert_eq!(t.find(x), Some(x));
    }
}

#[test]
fn remove_then_find_returns_next_larger() {
    let mut t = XFastTrie::new();
    for x in [4, 8, 15, 16, 23, 42] {
        t.add(x);
    }
    assert_eq!(t.remove(16), Some(16));
    assert_eq!(t.find(16), Some(23));
    assert_eq!(t.remove(42), Some(42));
    assert_eq!(t.find(42), None);
    assert_eq!(t.remove(4), Some(4));
    assert_eq!(t.find(0), Some(8));
}

#[test]
fn remove_absent_changes_nothing() {
    let mut t = XFastTrie::new();
    for x in [4, 8, 15] {
        t.add(x);
    }
    assert_eq!(t.remove(5), None);
    assert_eq!(t.remove(100), None);
    assert_eq!(t.size(), 3);
    assert_eq!(t.find(5), Some(8));
    assert_eq!(t.find(0), Some(4));
    assert_eq!(t.find(16), None);
    assert_eq!(t.leaves(), vec![4, 8, 15]);
}

#[test]
fn leaves_ascend_through_changes() {
    let mut t = XFastTrie::new();
    for x in [50, 10, 40, 20, 30, 60, 0] {
        t.add(x);
        let l = t.leaves();
        assert!(l.windows(2).all(|w| w[0] < w[1]));
    }
    assert_eq!(t.leaves(), vec![0, 10, 20, 30, 40, 50, 60]);
    t.remove(30);
    t.remove(0);
    assert_eq!(t.leaves(), vec![10, 20, 40, 50, 60]);
}

#[test]
fn find_is_monotone() {
    let mut t = XFastTrie::new();
    for x in [3, 17, 18, 90, 91, 500] {
        t.add(x);
    }
    let mut last = None;
    for x in 0..600 {
        let r = t.find(x);
        if let (Some(a), Some(b)) = (last, r) {
            assert!(a <= b);
        }
        if last.is_none() && x > 0 {
            assert!(r.is_none());
        }
        last = r;
    }
    assert_eq!(t.find(18), Some(18));
    assert_eq!(t.find(19), Some(90));
}

#[test]
fn keys_order_by_raw_bit_pattern() {
    let mut t = XFastTrie::new();
    for x in [0, i32::MAX, i32::MIN, -1, 7] {
        assert!(t.add(x));
    }
    assert_eq!(t.leaves(), vec![0, 7, i32::MAX, i32::MIN, -1]);
    assert_eq!(t.find(8), Some(i32::MAX));
    assert_eq!(t.find(i32::MAX), Some(i32::MAX));
    assert_eq!(t.find(-5), Some(-1));
    assert_eq!(t.find(i32::MIN + 1), Some(-1));
    assert_eq!(t.remove(-1), Some(-1));
    assert_eq!(t.find(-5), None);
    assert_eq!(t.remove(i32::MIN), Some(i32::MIN));
    assert_eq!(t.find(i32::MIN), None);
    assert_eq!(t.size(), 3);
}

#[test]
fn neighbours_across_the_top_bit() {
    let mut t = XFastTrie::new();
    t.add(1 << 30);
    t.add(1);
    assert_eq!(t.find(2), Some(1 << 30));
    t.add((1 << 30) - 1);
    assert_eq!(t.find(2), Some((1 << 30) - 1));
    assert_eq!(t.remove((1 << 30) - 1), Some((1 << 30) - 1));
    assert_eq!(t.find(2), Some(1 << 30));
    assert_eq!(t.remove(1), Some(1));
    assert_eq!(t.find(0), Some(1 << 30));
}

#[test]
fn agrees_with_btreeset_on_mixed_operations() {
    let mut t = XFastTrie::new();
    let mut reference = BTreeSet::new();
    let mut state: u64 = 0x2545_f491_4f6c_dd1d;
    for step in 0..4000 {
        state = state.wrapping_mul(6364136223846793005).wrapping_add(1442695040888963407);
        let x = ((state >> 33) % 300) as i32 - 150;
        match step % 3 {
            0 => assert_eq!(t.add(x), reference.insert(x)),
            1 => assert_eq!(t.remove(x), if reference.remove(&x) { Some(x) } else { None }),
            _ => {
                let expected = reference
                    .iter()
                    .copied()
                    .filter(|&k| k as u32 >= x as u32)
                    .min_by_key(|&k| k as u32);
                assert_eq!(t.find(x), expected);
            }
        }
        assert_eq!(t.size(), reference.len());
    }
}

#[test]
fn new_node_is_blank() {
    let n = BTNode::new();
    assert_eq!(n.x, 0);
    assert_eq!(n.prefix, 0);
    assert_eq!(n.jump, None);
    assert_eq!(n.prev, None);
    assert_eq!(n.next, None);
}
