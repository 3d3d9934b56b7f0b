use segtree2::monoid::{AddU32, Concat, Identity};
use segtree2::segtree::{RangeError, Segtree};

fn chars(s: &str) -> Vec<char> {
    s.chars().collect()
}

#[test]
fn sum_fold_and_set() {
    let mut seg = Segtree::<AddU32>::from_slice(&[1, 2, 3, 4]);
    assert_eq!(seg.len(), 4);
    assert_eq!(seg.fold(1..3), Ok(5));
    assert_eq!(seg.set(2, 10), Ok(()));
    assert_eq!(seg.fold(0..4), Ok(17));
    assert_eq!(seg.fold(2..3), Ok(10));
    assert_eq!(seg.fold(0..2), Ok(3));
    assert_eq!(seg.fold(3..4), Ok(4));
}

#[test]
fn prefix_sum_search_forward() {
    let seg = Segtree::<AddU32>::from_slice(&[1, 2, 3, 4]);
    assert_eq!(seg.search_forward(0..4, |x: &u32| *x <= 3), Ok(2));
    assert_eq!(seg.search_forward(0..4, |x: &u32| *x <= 0), Ok(0));
    assert_eq!(seg.search_forward(0..4, |x: &u32| *x <= 100), Ok(4));
    assert_eq!(seg.search_forward(1..4, |x: &u32| *x <= 5), Ok(3));
    assert_eq!(seg.search_forward(2..2, |x: &u32| *x <= 5), Ok(2));
}

#[test]
fn suffix_sum_search_backward() {
    let seg = Segtree::<AddU32>::from_slice(&[1, 2, 3, 4]);
    assert_eq!(seg.search_backward(0..4, |x: &u32| *x <= 7), Ok(2));
    assert_eq!(seg.search_backward(0..4, |x: &u32| *x <= 3), Ok(4));
    assert_eq!(seg.search_backward(0..4, |x: &u32| *x <= 100), Ok(0));
    assert_eq!(seg.search_backward(0..3, |x: &u32| *x <= 5), Ok(1));
    assert_eq!(seg.search_backward(3..3, |x: &u32| *x <= 5), Ok(3));
}

#[test]
fn concatenation_keeps_order() {
    let seg = Segtree::<Concat>::from_slice(&[chars("a"), chars("b"), chars("c")]);
    assert_eq!(seg.fold(0..3), Ok(chars("abc")));
    assert_eq!(seg.fold(1..3), Ok(chars("bc")));
    assert_eq!(seg.fold(0..2), Ok(chars("ab")));
    let letters: Vec<Vec<char>> = "abcdefghijk".chars().map(|c| vec![c]).collect();
    let seg = Segtree::<Concat>::from_slice(&letters);
    for s in 0..=letters.len() {
        for e in s..=letters.len() {
            assert_eq!(seg.fold(s..e), Ok(chars(&"abcdefghijk"[s..e])));
        }
    }
}

#[test]
fn empty_range_folds_to_identity() {
    let seg = Segtree::<AddU32>::from_slice(&[5, 6, 7]);
    for k in 0..=3 {
        assert_eq!(seg.fold(k..k), Ok(0));
    }
    let seg = Segtree::<Concat>::from_slice(&[chars("x"), chars("y")]);
    for k in 0..=2 {
        assert_eq!(seg.fold(k..k), Ok(Concat::identity()));
    }
}

#[test]
fn empty_tree_folds_to_identity() {
    let seg = Segtree::<AddU32>::from_slice(&[]);
    assert_eq!(seg.len(), 0);
    assert_eq!(seg.fold(0..0), Ok(0));
    assert_eq!(seg.search_forward(0..0, |x: &u32| *x <= 3), Ok(0));
    assert_eq!(seg.search_backward(0..0, |x: &u32| *x <= 3), Ok(0));
    assert_eq!(seg.fold(0..1), Err(RangeError::IndexOutOfRange));
}

#[test]
fn rejected_ranges_and_indices() {
    let mut seg = Segtree::<AddU32>::from_slice(&[1, 2, 3, 4]);
    assert_eq!(seg.fold(3..2), Err(RangeError::InvalidRange));
    assert_eq!(seg.fold(2..5), Err(RangeError::IndexOutOfRange));
    assert_eq!(seg.fold(6..5), Err(RangeError::InvalidRange));
    assert_eq!(seg.search_forward(3..2, |_: &u32| true), Err(RangeError::InvalidRange));
    assert_eq!(seg.search_forward(0..5, |_: &u32| true), Err(RangeError::IndexOutOfRange));
    assert_eq!(seg.search_backward(3..2, |_: &u32| true), Err(RangeError::InvalidRange));
    assert_eq!(seg.search_backward(0..5, |_: &u32| true), Err(RangeError::IndexOutOfRange));
    assert_eq!(seg.set(4, 9), Err(RangeError::IndexOutOfRange));
    assert_eq!(seg.fold(0..4), Ok(10));
}

#[test]
fn add_u32_wraps_around() {
    assert_eq!(AddU32::op(u32::MAX, 2), 1);
    assert_eq!(AddU32::identity(), 0);
    let mut x = u32::MAX;
    AddU32::op_left(&mut x, 3);
    assert_eq!(x, 2);
    let mut y = 7;
    AddU32::op_right(u32::MAX, &mut y);
    assert_eq!(y, 6);
}

#[test]
fn trees_are_cloned_compared_and_shown() {
    let seg = Segtree::<AddU32>::from_slice(&[1, 2, 3]);
    let mut other = seg.clone();
    assert_eq!(seg, other);
    assert_eq!(other.set(0, 7), Ok(()));
    assert_ne!(seg, other);
    assert_eq!(seg.fold(0..3), Ok(6));
    assert_eq!(other.fold(0..3), Ok(12));
    assert!(format!("{:?}", seg).contains("Segtree"));
}
