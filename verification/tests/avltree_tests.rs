use segtree2::avltree::Avltree;
use std::cmp::Ordering;

fn insert(tree: &mut Avltree<i32, &'static str>, k: i32, v: &'static str) -> Option<usize> {
    tree.insert_by(k, v, |a: &i32, b: &i32| a.cmp(b))
}

fn sample() -> Avltree<i32, &'static str> {
    let mut tree = Avltree::new();
    for (k, v) in [(5, "five"), (2, "two"), (8, "eight"), (1, "one"), (9, "nine"), (3, "three")] {
        assert!(insert(&mut tree, k, v).is_some());
    }
    tree
}

#[test]
fn new_tree_is_empty() {
    let tree: Avltree<i32, i32> = Avltree::new();
    assert!(tree.is_empty());
    assert_eq!(tree.len(), 0);
    assert_eq!(tree.ht(), 0);
    assert_eq!(tree.collect_vec(), vec![]);
    assert_eq!(tree.get_extremum(0), None);
    assert_eq!(tree.get_extremum(1), None);
    let other: Avltree<i32, i32> = Avltree::default();
    assert!(other.is_empty());
}

#[test]
fn insert_returns_index_and_keeps_order() {
    let mut tree = Avltree::new();
    assert_eq!(insert(&mut tree, 5, "five"), Some(0));
    assert_eq!(insert(&mut tree, 2, "two"), Some(0));
    assert_eq!(insert(&mut tree, 8, "eight"), Some(2));
    assert_eq!(insert(&mut tree, 5, "again"), None);
    assert_eq!(insert(&mut tree, 6, "six"), Some(2));
    assert_eq!(tree.len(), 4);
    assert!(!tree.is_empty());
    assert_eq!(
        tree.collect_vec(),
        vec![(2, "two"), (5, "five"), (6, "six"), (8, "eight")]
    );
    assert_eq!(tree.collect_keys_vec(), vec![2, 5, 6, 8]);
}

#[test]
fn extremum_is_first_or_last() {
    let mut tree = sample();
    assert_eq!(tree.get_extremum(0), Some((&1, &"one")));
    assert_eq!(tree.get_extremum(1), Some((&9, &"nine")));
    if let Some((k, v)) = tree.get_mut_extremum(0) {
        assert_eq!(*k, 1);
        *v = "uno";
    }
    if let Some((k, v)) = tree.get_mut_extremum(1) {
        assert_eq!(*k, 9);
        *v = "nueve";
    }
    assert_eq!(
        tree.collect_vec(),
        vec![(1, "uno"), (2, "two"), (3, "three"), (5, "five"), (8, "eight"), (9, "nueve")]
    );
}

#[test]
fn get_by_key_and_by_index() {
    let mut tree = sample();
    assert_eq!(
        tree.get_by(0, |_: usize, k: &i32| 3.cmp(k)),
        Some((2, &3, &"three"))
    );
    assert_eq!(tree.get_by(0, |_: usize, k: &i32| 4.cmp(k)), None);
    assert_eq!(
        tree.get_by(0, |i: usize, _: &i32| 4usize.cmp(&i)),
        Some((4, &8, &"eight"))
    );
    assert_eq!(
        tree.get_by(10, |i: usize, _: &i32| 14usize.cmp(&i)),
        Some((14, &8, &"eight"))
    );
    assert_eq!(tree.get_by(0, |i: usize, _: &i32| 6usize.cmp(&i)), None);
    if let Some((i, k, v)) = tree.get_mut_by(0, |_: usize, k: &i32| 5.cmp(k)) {
        assert_eq!((i, *k), (3, 5));
        *v = "cinq";
    }
    assert_eq!(tree.get_mut_by(0, |_: usize, k: &i32| 7.cmp(k)), None);
    assert_eq!(
        tree.collect_vec(),
        vec![(1, "one"), (2, "two"), (3, "three"), (5, "cinq"), (8, "eight"), (9, "nine")]
    );
}

#[test]
fn delete_by_key_and_by_index() {
    let mut tree = sample();
    assert_eq!(
        tree.delete_by(0, |_: usize, k: &i32| 5.cmp(k)),
        Some((3, 5, "five"))
    );
    assert_eq!(tree.delete_by(0, |_: usize, k: &i32| 5.cmp(k)), None);
    assert_eq!(tree.collect_keys_vec(), vec![1, 2, 3, 8, 9]);
    assert_eq!(
        tree.delete_by(0, |i: usize, _: &i32| 0usize.cmp(&i)),
        Some((0, 1, "one"))
    );
    assert_eq!(
        tree.delete_by(0, |i: usize, _: &i32| 3usize.cmp(&i)),
        Some((3, 9, "nine"))
    );
    assert_eq!(tree.collect_keys_vec(), vec![2, 3, 8]);
    assert_eq!(tree.len(), 3);
    for key in [2, 3, 8] {
        assert!(tree.delete_by(0, |_: usize, k: &i32| key.cmp(k)).is_some());
    }
    assert!(tree.is_empty());
    assert_eq!(tree.ht(), 0);
}

#[test]
fn partition_point_counts_accepted_keys() {
    let tree = sample();
    assert_eq!(tree.partition_point(|k: &i32| *k < 0), 0);
    assert_eq!(tree.partition_point(|k: &i32| *k < 3), 2);
    assert_eq!(tree.partition_point(|k: &i32| *k <= 3), 3);
    assert_eq!(tree.partition_point(|k: &i32| *k < 100), 6);
}

#[test]
fn for_each_visits_in_order() {
    let tree = sample();
    let mut seen = Vec::new();
    tree.for_each(&mut |k: &i32, v: &&'static str| seen.push((*k, *v)));
    assert_eq!(seen, tree.collect_vec());
    let mut back = Vec::new();
    tree.rfor_each(&mut |k: &i32, _: &&'static str| back.push(*k));
    assert_eq!(back, vec![9, 8, 5, 3, 2, 1]);
}

#[test]
fn clone_has_the_same_entries() {
    let tree = sample();
    let mut copy = tree.clone();
    assert_eq!(copy.collect_vec(), tree.collect_vec());
    assert_eq!(copy.ht(), tree.ht());
    assert!(copy.delete_by(0, |_: usize, k: &i32| 5.cmp(k)).is_some());
    assert_eq!(tree.len(), 6);
    assert_eq!(copy.len(), 5);
}

#[test]
fn many_inserts_and_deletes_match_a_sorted_vector() {
    let mut tree: Avltree<u32, u32> = Avltree::new();
    let mut brute: Vec<(u32, u32)> = Vec::new();
    let mut state: u32 = 12345;
    for step in 0..2000u32 {
        state = state.wrapping_mul(1664525).wrapping_add(1013904223);
        let key = (state >> 16) % 200;
        if step % 3 != 2 {
            let expected = match brute.binary_search_by(|e| e.0.cmp(&key)) {
                Ok(_) => None,
                Err(i) => {
                    brute.insert(i, (key, step));
                    Some(i)
                }
            };
            assert_eq!(tree.insert_by(key, step, |a: &u32, b: &u32| a.cmp(b)), expected);
        } else {
            let expected = match brute.binary_search_by(|e| e.0.cmp(&key)) {
                Ok(i) => {
                    let (k, v) = brute.remove(i);
                    Some((i, k, v))
                }
                Err(_) => None,
            };
            assert_eq!(tree.delete_by(0, |_: usize, k: &u32| key.cmp(k)), expected);
        }
        assert_eq!(tree.len(), brute.len());
        assert_eq!(tree.is_empty(), brute.is_empty());
    }
    assert_eq!(tree.collect_vec(), brute);
    let by_index = |i: usize| move |j: usize, _: &u32| match i.cmp(&j) {
        Ordering::Less => Ordering::Less,
        Ordering::Equal => Ordering::Equal,
        Ordering::Greater => Ordering::Greater,
    };
    for i in 0..brute.len() {
        assert_eq!(tree.get_by(0, by_index(i)), Some((i, &brute[i].0, &brute[i].1)));
    }
}

#[test]
fn height_is_cached() {
    let mut tree: Avltree<u32, ()> = Avltree::new();
    assert_eq!(tree.ht(), 0);
    tree.insert_by(1, (), |a: &u32, b: &u32| a.cmp(b));
    assert_eq!(tree.ht(), 1);
    tree.insert_by(2, (), |a: &u32, b: &u32| a.cmp(b));
    assert_eq!(tree.ht(), 2);
    tree.insert_by(3, (), |a: &u32, b: &u32| a.cmp(b));
    assert_eq!(tree.ht(), 2);
    assert_eq!(tree.collect_keys_vec(), vec![1, 2, 3]);
}

#[test]
fn debug_shows_the_entries_as_a_map() {
    let tree = sample();
    assert_eq!(
        format!("{:?}", tree),
        "{1: \"one\", 2: \"two\", 3: \"three\", 5: \"five\", 8: \"eight\", 9: \"nine\"}"
    );
    let empty: Avltree<i32, i32> = Avltree::new();
    assert_eq!(format!("{:?}", empty), "{}");
}

struct Keys<'a>(&'a Avltree<i32, &'static str>);

impl std::fmt::Debug for Keys<'_> {
    fn fmt(&self, f: &mut std::fmt::Formatter<'_>) -> std::fmt::Result {
        let mut set = f.debug_set();
        self.0.fmt_keys_impl(&mut set);
        set.finish()
    }
}

#[test]
fn fmt_keys_impl_enters_the_keys_in_order() {
    let tree = sample();
    assert_eq!(format!("{:?}", Keys(&tree)), "{1, 2, 3, 5, 8, 9}");
}

#[test]
fn one_rotation_per_node_on_the_way_up() {
    let mut tree: Avltree<u32, ()> = Avltree::new();
    for key in [3, 1, 2] {
        tree.insert_by(key, (), |a: &u32, b: &u32| a.cmp(b));
    }
    assert_eq!(tree.collect_keys_vec(), vec![1, 2, 3]);
    assert_eq!(tree.ht(), 3);
    let mut tree: Avltree<u32, ()> = Avltree::new();
    for key in [1, 2, 3, 4, 5, 6, 7] {
        tree.insert_by(key, (), |a: &u32, b: &u32| a.cmp(b));
    }
    assert_eq!(tree.collect_keys_vec(), vec![1, 2, 3, 4, 5, 6, 7]);
    assert_eq!(tree.ht(), 3);
}
