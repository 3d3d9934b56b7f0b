use rand::rngs::StdRng;
use rand::{Rng, SeedableRng};
use segtree2::inversion::{InversionMerge, InversionValue};
use segtree2::monoid::{AddU32, Identity};
use segtree2::segtree::Segtree;
use segtree2::vector::Vector;
use std::ops::Range;

fn brute_fold<T: Identity>(a: &[T::Value], range: Range<usize>) -> T::Value {
    a[range].iter().fold(T::identity(), |x, y| T::op(x, y.clone()))
}

fn gen_range_of(rng: &mut StdRng, len: usize) -> Range<usize> {
    let mut u = rng.gen_range(0..len + 1);
    let mut v = rng.gen_range(0..len + 1);
    if v < u {
        std::mem::swap(&mut u, &mut v);
    }
    u..v
}

fn judge_forward<T: Identity>(
    a: &[T::Value],
    range: Range<usize>,
    pred: impl Fn(&T::Value) -> bool,
    output: usize,
) -> bool {
    let holds = |end: usize| pred(&brute_fold::<T>(a, range.start..end));
    (range.start <= output && output <= range.end && range.start == output || holds(output))
        && (range.end == output || !holds(output + 1))
}

fn judge_backward<T: Identity>(
    a: &[T::Value],
    range: Range<usize>,
    pred: impl Fn(&T::Value) -> bool,
    output: usize,
) -> bool {
    let holds = |start: usize| pred(&brute_fold::<T>(a, start..range.end));
    (range.start <= output
        && output <= range.end
        && (range.start == output || !holds(output - 1)))
        && (range.end == output || holds(output))
}

#[test]
fn test_add_u32() {
    let mut rng = StdRng::seed_from_u64(42);
    for _ in 0..4 {
        let len = rng.gen_range(1..20);
        let mut brute = Vector::<AddU32>((0..len).map(|_| rng.gen_range(0..20)).collect());
        let mut seg = Segtree::<AddU32>::from_slice(&brute.0);
        for _ in 0..100 {
            let command = rng.gen_range(0..4);
            match command {
                0 => {
                    let i = rng.gen_range(0..brute.0.len());
                    let x = rng.gen_range(0..20);
                    brute.mutate(i, x);
                    assert_eq!(seg.set(i, x), Ok(()));
                }
                1 => {
                    let range = gen_range_of(&mut rng, brute.0.len());
                    assert_eq!(seg.fold(range.clone()), Ok(brute.solve(range)));
                }
                2 => {
                    let range = gen_range_of(&mut rng, brute.0.len());
                    let key: u32 = rng.gen_range(0..100);
                    let output = seg.search_forward(range.clone(), |x: &u32| *x <= key).unwrap();
                    assert!(brute.judge_forward(range.clone(), |x: &u32| *x <= key, output));
                    assert!(judge_forward::<AddU32>(&brute.0, range, |x: &u32| *x <= key, output));
                }
                3 => {
                    let range = gen_range_of(&mut rng, brute.0.len());
                    let key: u32 = rng.gen_range(0..100);
                    let output = seg.search_backward(range.clone(), |x: &u32| *x <= key).unwrap();
                    assert!(brute.judge_backward(range.clone(), |x: &u32| *x <= key, output));
                    assert!(judge_backward::<AddU32>(&brute.0, range, |x: &u32| *x <= key, output));
                }
                _ => unreachable!(),
            }
        }
    }
}

#[test]
fn test_inversion_value() {
    type Value = InversionValue;
    let mut rng = StdRng::seed_from_u64(42);
    for _ in 0..4 {
        let len = rng.gen_range(1..20);
        let mut brute = Vector::<InversionMerge>(
            (0..len)
                .map(|_| InversionValue::from_bool(rng.gen_ratio(1, 2)))
                .collect(),
        );
        let mut seg = Segtree::<InversionMerge>::from_slice(&brute.0);
        for _ in 0..100 {
            let command = rng.gen_range(0..4);
            match command {
                0 => {
                    let i = rng.gen_range(0..brute.0.len());
                    let x = InversionValue::from_bool(rng.gen_ratio(1, 2));
                    brute.mutate(i, x);
                    assert_eq!(seg.set(i, x), Ok(()));
                }
                1 => {
                    let range = gen_range_of(&mut rng, brute.0.len());
                    assert_eq!(seg.fold(range.clone()), Ok(brute.solve(range)));
                }
                2 => {
                    let range = gen_range_of(&mut rng, brute.0.len());
                    let key: u64 = rng.gen_range(0..20);
                    let output = seg
                        .search_forward(range.clone(), |x: &Value| x.inversion < key)
                        .unwrap();
                    assert!(brute.judge_forward(
                        range.clone(),
                        |x: &Value| x.inversion < key,
                        output
                    ));
                    assert!(judge_forward::<InversionMerge>(
                        &brute.0,
                        range,
                        |x: &Value| x.inversion < key,
                        output
                    ));
                }
                3 => {
                    let range = gen_range_of(&mut rng, brute.0.len());
                    let key: u64 = rng.gen_range(0..20);
                    let output = seg
                        .search_backward(range.clone(), |x: &Value| x.inversion < key)
                        .unwrap();
                    assert!(brute.judge_backward(
                        range.clone(),
                        |x: &Value| x.inversion < key,
                        output
                    ));
                    assert!(judge_backward::<InversionMerge>(
                        &brute.0,
                        range,
                        |x: &Value| x.inversion < key,
                        output
                    ));
                }
                _ => unreachable!(),
            }
        }
    }
}

#[test]
fn vector_solves_and_judges() {
    let mut brute = Vector::<AddU32>(vec![1, 2, 3, 4]);
    assert_eq!(brute.solve(0..4), 10);
    assert_eq!(brute.solve(1..3), 5);
    assert_eq!(brute.solve(2..2), 0);
    assert!(brute.judge_forward(0..4, |x: &u32| *x <= 3, 2));
    assert!(!brute.judge_forward(0..4, |x: &u32| *x <= 3, 1));
    assert!(!brute.judge_forward(0..4, |x: &u32| *x <= 3, 3));
    assert!(!brute.judge_forward(0..2, |x: &u32| *x <= 100, 3));
    assert!(brute.judge_forward(0..2, |x: &u32| *x <= 100, 2));
    assert!(brute.judge_forward(1..4, |x: &u32| *x <= 1, 1));
    assert!(brute.judge_backward(0..4, |x: &u32| *x <= 7, 2));
    assert!(!brute.judge_backward(0..4, |x: &u32| *x <= 7, 1));
    assert!(!brute.judge_backward(0..4, |x: &u32| *x <= 7, 3));
    assert!(!brute.judge_backward(2..4, |x: &u32| *x <= 100, 1));
    assert!(brute.judge_backward(2..4, |x: &u32| *x <= 100, 2));
    assert!(brute.judge_backward(0..4, |x: &u32| *x <= 3, 4));
    brute.mutate(2, 10);
    assert_eq!(brute.0, vec![1, 2, 10, 4]);
    assert_eq!(brute.solve(0..4), 17);
}

#[test]
fn every_range_of_every_length_matches_reduction() {
    for len in 0..=17usize {
        let brute: Vec<u32> = (0..len as u32).map(|i| i * i + 1).collect();
        let seg = Segtree::<AddU32>::from_slice(&brute);
        for s in 0..=len {
            for e in s..=len {
                assert_eq!(seg.fold(s..e), Ok(brute_fold::<AddU32>(&brute, s..e)));
                for key in [0u32, 1, 5, 30, 200, 100_000] {
                    let f = seg.search_forward(s..e, |x: &u32| *x <= key).unwrap();
                    let sum_to = |k: usize| brute_fold::<AddU32>(&brute, s..k);
                    let expected_f = (s..=e).rev().find(|&k| k == s || sum_to(k) <= key).unwrap();
                    assert_eq!(f, expected_f);
                    let b = seg.search_backward(s..e, |x: &u32| *x <= key).unwrap();
                    let sum_from = |k: usize| brute_fold::<AddU32>(&brute, k..e);
                    let expected_b = (s..=e).find(|&k| k == e || sum_from(k) <= key).unwrap();
                    assert_eq!(b, expected_b);
                }
            }
        }
    }
}

#[test]
fn inversion_counts_ones_before_zeros() {
    let bits = [true, false, true, true, false, false];
    let values: Vec<InversionValue> = bits.iter().map(|&b| InversionValue::from_bool(b)).collect();
    let seg = Segtree::<InversionMerge>::from_slice(&values);
    assert_eq!(
        seg.fold(0..6),
        Ok(InversionValue { zeros: 3, ones: 3, inversion: 7 })
    );
    assert_eq!(
        seg.fold(1..4),
        Ok(InversionValue { zeros: 1, ones: 2, inversion: 0 })
    );
    assert_eq!(
        InversionMerge::op(InversionValue::from_bool(true), InversionValue::from_bool(false)),
        InversionValue { zeros: 1, ones: 1, inversion: 1 }
    );
    assert_eq!(
        InversionMerge::op(InversionValue::from_bool(false), InversionValue::from_bool(true)),
        InversionValue { zeros: 1, ones: 1, inversion: 0 }
    );
    assert_eq!(
        InversionMerge::identity(),
        InversionValue { zeros: 0, ones: 0, inversion: 0 }
    );
}

#[test]
fn set_changes_one_leaf_only() {
    let brute: Vec<u32> = vec![3, 1, 4, 1, 5, 9, 2, 6, 5];
    for i in 0..brute.len() {
        let mut seg = Segtree::<AddU32>::from_slice(&brute);
        assert_eq!(seg.set(i, 100), Ok(()));
        assert_eq!(seg.fold(i..i + 1), Ok(100));
        for s in 0..=brute.len() {
            for e in s..=brute.len() {
                if e <= i || i < s {
                    assert_eq!(seg.fold(s..e), Ok(brute_fold::<AddU32>(&brute, s..e)));
                }
            }
        }
    }
}
