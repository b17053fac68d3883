use std::collections::VecDeque;
use xfasttrie::vectrique::VecTrique;

#[test]
fn test_vec_trique() {
    let mut tq: VecTrique<_> = Default::default();
    tq.add(0, 1);
    tq.add(1, 2);
    tq.add(0, 3);
    tq.add(3, 4);
    tq.add(1, 2);
    tq.set(1, 5);
    assert_eq!(Some(1), tq.remove(2));

    tq.add(2, 6);

    assert_eq!(Some(3), tq.get(0));
    assert_eq!(Some(5), tq.get(1));
    assert_eq!(Some(6), tq.get(2));
    assert_eq!(Some(2), tq.get(3));
    assert_eq!(Some(4), tq.get(4));
}

#[test]
fn test_rotate() {
    let mut dq: VecDeque<_> = Default::default();
    let mut tq: VecTrique<_> = Default::default();

    for i in 0..10 {
        dq.insert(i, i);
        tq.add(i, i);
    }

    dq.rotate_right(3);
    tq.rotate(6);

    for i in 0..10 {
        assert_eq!(Some(&i), dq.get((i + 3) % 10));
    }

    for i in 0..10 {
        assert_eq!(Some(i), tq.get((i + 6) % 10));
    }
}

#[test]
fn out_of_range_indices_change_nothing() {
    let mut tq: VecTrique<i32> = Default::default();
    assert_eq!(tq.get(0), None);
    assert_eq!(tq.remove(0), None);
    tq.add(5, 1);
    assert_eq!(tq.size(), 0);
    tq.add(0, 1);
    assert_eq!(tq.set(1, 9), None);
    assert_eq!(tq.set(0, 9), Some(1));
    assert_eq!(tq.get(0), Some(9));
    assert_eq!(tq.size(), 1);
}

#[test]
fn rotate_small_and_large_amounts() {
    let mut tq: VecTrique<i32> = Default::default();
    for i in 0..5 {
        tq.add(i as usize, i);
    }
    tq.rotate(1);
    let got: Vec<i32> = (0..5).map(|i| tq.get(i).unwrap()).collect();
    assert_eq!(got, vec![4, 0, 1, 2, 3]);
    tq.rotate(12);
    let got: Vec<i32> = (0..5).map(|i| tq.get(i).unwrap()).collect();
    assert_eq!(got, vec![2, 3, 4, 0, 1]);
    tq.rotate(5);
    let got: Vec<i32> = (0..5).map(|i| tq.get(i).unwrap()).collect();
    assert_eq!(got, vec![2, 3, 4, 0, 1]);
}
