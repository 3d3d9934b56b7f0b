use rand::rngs::StdRng;
use rand::{Rng, SeedableRng};
use segtree2::dual_segtree::DualSegtree;
use segtree2::monoid::Concat;
use std::iter::repeat_with;
use std::mem::swap;

fn chars(s: &str) -> Vec<char> {
    s.chars().collect()
}

#[test]
fn test_dual_segtree() {
    let mut rng = StdRng::seed_from_u64(42);
    let new_value = |rng: &mut StdRng| vec![rng.gen_range('a'..='z')];
    for _ in 0..200 {
        let n = rng.gen_range(1..=50);
        let a = repeat_with(|| new_value(&mut rng))
            .take(n)
            .collect::<Vec<_>>();
        let mut seg = DualSegtree::<Concat>::new(a.clone());
        let mut brute = a.clone();
        for _ in 0..20 {
            match rng.gen_range(0..1) {
                0 => {
                    let mut l = rng.gen_range(0..n);
                    let mut r = rng.gen_range(0..n);
                    if l > r {
                        swap(&mut l, &mut r);
                        r += 1;
                    }
                    let x = new_value(&mut rng);
                    seg.apply(l..r, x.clone());
                    brute[l..r]
                        .iter_mut()
                        .for_each(|y| y.extend(x.iter().copied()));
                }
                _ => unreachable!(),
            }
            assert_eq!(seg.silent_collect(), brute);
        }
    }
}

#[test]
fn apply_appends_on_the_range_only() {
    let mut seg = DualSegtree::<Concat>::new(vec![chars("a"), chars("b"), chars("c")]);
    assert_eq!(seg.len(), 3);
    assert!(!seg.is_empty());
    seg.apply(0..2, chars("x"));
    assert_eq!(seg.silent_collect(), vec![chars("ax"), chars("bx"), chars("c")]);
    seg.apply(1..3, chars("y"));
    assert_eq!(seg.silent_collect(), vec![chars("ax"), chars("bxy"), chars("cy")]);
    seg.apply(2..2, chars("z"));
    assert_eq!(seg.silent_collect(), vec![chars("ax"), chars("bxy"), chars("cy")]);
    seg.apply(0..3, chars("w"));
    assert_eq!(seg.to_vec(), vec![chars("axw"), chars("bxyw"), chars("cyw")]);
    assert_eq!(seg.to_vec(), vec![chars("axw"), chars("bxyw"), chars("cyw")]);
    seg.apply(0..1, chars("v"));
    assert_eq!(seg.into_vec(), vec![chars("axwv"), chars("bxyw"), chars("cyw")]);
}

#[test]
fn empty_dual_segtree() {
    let mut seg = DualSegtree::<Concat>::new(Vec::new());
    assert!(seg.is_empty());
    assert_eq!(seg.len(), 0);
    seg.apply(0..0, chars("x"));
    assert_eq!(seg.silent_collect(), Vec::<Vec<char>>::new());
    assert_eq!(seg.to_vec(), Vec::<Vec<char>>::new());
    assert_eq!(seg.into_vec(), Vec::<Vec<char>>::new());
}

#[test]
fn every_range_of_every_length_is_applied() {
    for n in 1..=13usize {
        for l in 0..=n {
            for r in l..=n {
                let a: Vec<Vec<char>> = (0..n).map(|i| vec![(b'a' + i as u8) as char]).collect();
                let mut seg = DualSegtree::<Concat>::new(a.clone());
                let mut brute = a;
                seg.apply(l..r, chars("1"));
                brute[l..r].iter_mut().for_each(|y| y.push('1'));
                seg.apply(0..n, chars("2"));
                brute.iter_mut().for_each(|y| y.push('2'));
                seg.apply(l..r, chars("3"));
                brute[l..r].iter_mut().for_each(|y| y.push('3'));
                assert_eq!(seg.silent_collect(), brute);
                assert_eq!(seg.to_vec(), brute);
            }
        }
    }
}

#[test]
fn debug_shows_the_elements_as_a_list() {
    let mut seg = DualSegtree::<Concat>::new(vec![chars("a"), chars("b")]);
    seg.apply(0..2, chars("x"));
    assert_eq!(format!("{:?}", seg), "[['a', 'x'], ['b', 'x']]");
    let empty = DualSegtree::<Concat>::new(Vec::new());
    assert_eq!(format!("{:?}", empty), "[]");
}
