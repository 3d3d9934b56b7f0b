use crate::formatting::{map_entry, set_entry};
use std::cmp::Ordering;
use std::fmt::{Debug, DebugMap, DebugSet};
use vstd::prelude::*;

verus! {

/// A sequence kept in a binary tree that caches, in each node, the height
/// and the number of entries of the subtree below it.
pub struct Avltree<K, V>(Option<Box<Node<K, V>>>);

/// One entry of a tree, with the two subtrees before and after it.
pub struct Node<K, V> {
    ht: usize,
    len: usize,
    key: K,
    value: V,
    left: Box<Avltree<K, V>>,
    right: Box<Avltree<K, V>>,
}

/// The larger of two numbers.
pub open spec fn larger(a: nat, b: nat) -> nat {
    if a < b {
        b
    } else {
        a
    }
}

/// An index as a mathematical integer.
pub open spec fn at(i: usize) -> int {
    i as int
}

/// The length of a sequence as a mathematical integer.
pub open spec fn count<A>(s: Seq<A>) -> int {
    s.len() as int
}

/// The index `j` places after `offset`.
pub open spec fn shifted(offset: usize, j: int) -> usize {
    (offset + j) as usize
}

/// `j` is a place in `s` at which a search by `cmp` ends without a match:
/// the entry before it, if any, compares as greater, and the entry at it, if
/// any, as less, each with its index counted from `offset`.
pub open spec fn is_gap<K, V, F: Fn(usize, &K) -> Ordering>(
    cmp: F,
    s: Seq<(K, V)>,
    offset: usize,
    j: int,
) -> bool {
    &&& 0 <= j <= s.len()
    &&& j > 0 ==> call_ensures(cmp, (shifted(offset, j - 1), &s[j - 1].0), Ordering::Greater)
    &&& j < s.len() ==> call_ensures(cmp, (shifted(offset, j), &s[j].0), Ordering::Less)
}

/// A gap among the entries before a node is a gap of the whole, if the
/// node's key compares as less.
pub proof fn lemma_gap_before<K, V, F: Fn(usize, &K) -> Ordering>(
    cmp: F,
    l: Seq<(K, V)>,
    kv: (K, V),
    rt: Seq<(K, V)>,
    offset: usize,
    j: int,
)
    requires
        is_gap(cmp, l, offset, j),
        call_ensures(cmp, (shifted(offset, count(l)), &kv.0), Ordering::Less),
    ensures
        is_gap(cmp, l.push(kv) + rt, offset, j),
{
    let s = l.push(kv) + rt;
    if j > 0 {
        assert(s[j - 1] == l[j - 1]);
    }
    if j < l.len() {
        assert(s[j] == l[j]);
    } else {
        assert(s[j] == kv);
    }
}

/// A gap among the entries after a node is a gap of the whole, if the
/// node's key compares as greater.
pub proof fn lemma_gap_after<K, V, F: Fn(usize, &K) -> Ordering>(
    cmp: F,
    l: Seq<(K, V)>,
    kv: (K, V),
    rt: Seq<(K, V)>,
    offset: usize,
    next: usize,
    j: int,
)
    requires
        is_gap(cmp, rt, next, j),
        next == offset + l.len() + 1,
        next + rt.len() <= usize::MAX,
        call_ensures(cmp, (shifted(offset, count(l)), &kv.0), Ordering::Greater),
    ensures
        is_gap(cmp, l.push(kv) + rt, offset, count(l) + 1 + j),
{
    let s = l.push(kv) + rt;
    let n = count(l);
    if j > 0 {
        assert(s[n + 1 + j - 1] == rt[j - 1]);
        assert(shifted(offset, n + 1 + j - 1) == shifted(next, j - 1));
    } else {
        assert(s[n + 1 + j - 1] == kv);
    }
    if j < rt.len() {
        assert(s[n + 1 + j] == rt[j]);
        assert(shifted(offset, n + 1 + j) == shifted(next, j));
    }
}

/// Taking an entry out before, at or after a node takes it out of the whole.
pub proof fn lemma_remove_around<A>(l: Seq<A>, kv: A, rt: Seq<A>, j: int)
    requires
        0 <= j < l.len() + 1 + rt.len(),
    ensures
        j < l.len() ==> l.remove(j).push(kv) + rt == (l.push(kv) + rt).remove(j),
        j == l.len() ==> l + rt == (l.push(kv) + rt).remove(j),
        j > l.len() ==> l.push(kv) + rt.remove(j - l.len() - 1) == (l.push(kv) + rt).remove(j),
{
    if j < l.len() {
        assert(l.remove(j).push(kv) + rt =~= (l.push(kv) + rt).remove(j));
    } else if j == l.len() {
        assert(l + rt =~= (l.push(kv) + rt).remove(j));
    } else {
        assert(l.push(kv) + rt.remove(j - l.len() - 1) =~= (l.push(kv) + rt).remove(j));
    }
}

impl<K, V> Node<K, V> {
    fn new(k: K, v: V) -> (res: Self)
        ensures
            res.ht == 1,
            res.len == 1,
            res.key == k,
            res.value == v,
            res.left@ == Seq::<(K, V)>::empty(),
            res.right@ == Seq::<(K, V)>::empty(),
            res.left.wf(),
            res.right.wf(),
            res.left.spec_ht() == 0,
            res.right.spec_ht() == 0,
    {
        Self {
            ht: 1,
            len: 1,
            key: k,
            value: v,
            left: Box::new(Avltree::new()),
            right: Box::new(Avltree::new()),
        }
    }

    fn update(&mut self)
        requires
            old(self).left.wf(),
            old(self).right.wf(),
            old(self).left@.len() + old(self).right@.len() < usize::MAX,
        ensures
            final(self).key == old(self).key,
            final(self).value == old(self).value,
            final(self).left == old(self).left,
            final(self).right == old(self).right,
            final(self).len == old(self).left@.len() + old(self).right@.len() + 1,
            final(self).ht == larger(old(self).left.spec_ht(), old(self).right.spec_ht()) + 1,
    {
        proof {
            self.left.lemma_ht_le_len();
            self.right.lemma_ht_le_len();
        }
        let a = self.left.ht();
        let b = self.right.ht();
        self.ht = if a < b { b } else { a } + 1;
        self.len = self.left.len() + self.right.len() + 1;
    }

    fn into_kv(self) -> (res: (K, V))
        ensures
            res == (self.key, self.value),
    {
        (self.key, self.value)
    }
}

impl<K: Clone, V: Clone> Clone for Avltree<K, V> {
    fn clone(&self) -> (res: Self)
        ensures
            self.wf() ==> res.wf(),
            res.spec_ht() == self.spec_ht(),
            res@.len() == self@.len(),
            forall|i: int|
                0 <= i < self@.len() ==> cloned(self@[i].0, #[trigger] res@[i].0) && cloned(
                    self@[i].1,
                    res@[i].1,
                ),
    {
        self.duplicate()
    }
}

impl<K, V> Default for Avltree<K, V> {
    fn default() -> (res: Self)
        ensures
            res.wf(),
            res@ == Seq::<(K, V)>::empty(),
            res.spec_ht() == 0,
    {
        Self(None)
    }
}

impl<K, V> Avltree<K, V> {
    /// The entries, in order.
    pub closed spec fn view(&self) -> Seq<(K, V)>
        decreases self,
    {
        match self.0 {
            None => Seq::empty(),
            Some(node) => node.left.view().push((node.key, node.value)) + node.right.view(),
        }
    }

    /// The number of nodes on the longest way down from the root.
    pub closed spec fn spec_ht(&self) -> nat
        decreases self,
    {
        match self.0 {
            None => 0,
            Some(node) => larger(node.left.spec_ht(), node.right.spec_ht()) + 1,
        }
    }

    /// Every node caches the height and the number of entries of its subtree.
    pub closed spec fn wf(&self) -> bool
        decreases self,
    {
        match self.0 {
            None => true,
            Some(node) => {
                &&& node.left.wf()
                &&& node.right.wf()
                &&& node.len == node.left.view().len() + node.right.view().len() + 1
                &&& node.ht == larger(node.left.spec_ht(), node.right.spec_ht()) + 1
            },
        }
    }

    /// A tree is no higher than it has entries.
    pub proof fn lemma_ht_le_len(&self)
        ensures
            self.spec_ht() <= self@.len(),
        decreases self,
    {
        match self.0 {
            None => {},
            Some(node) => {
                node.left.lemma_ht_le_len();
                node.right.lemma_ht_le_len();
            },
        }
    }

    /// The two subtrees of the root, if there is one, cache what they should.
    pub closed spec fn children_wf(&self) -> bool {
        match self.0 {
            None => true,
            Some(node) => node.left.wf() && node.right.wf(),
        }
    }

    /// The subtree before the root; of an empty tree, the tree itself.
    spec fn left_part(&self) -> Avltree<K, V> {
        match self.0 {
            None => *self,
            Some(node) => *node.left,
        }
    }

    /// The subtree after the root; of an empty tree, the tree itself.
    spec fn right_part(&self) -> Avltree<K, V> {
        match self.0 {
            None => *self,
            Some(node) => *node.right,
        }
    }

    /// The entry at the root, if there is one.
    spec fn root_entry(&self) -> Option<(K, V)> {
        match self.0 {
            None => None,
            Some(node) => Some((node.key, node.value)),
        }
    }

    /// By how much the subtree before the root is higher than the one after
    /// it.
    spec fn tilt(&self) -> int {
        self.left_part().spec_ht() - self.right_part().spec_ht()
    }

    /// `after` is `self` turned to the right: the root of the subtree before
    /// the root has come to the top, and the old root has gone down to the
    /// right, with the subtree that stood between them on its left.
    spec fn turned_right(&self, after: Avltree<K, V>) -> bool {
        &&& after.root_entry() is Some
        &&& after.root_entry() == self.left_part().root_entry()
        &&& after.left_part() == self.left_part().left_part()
        &&& after.right_part().wf()
        &&& after.right_part().root_entry() == self.root_entry()
        &&& after.right_part().left_part() == self.left_part().right_part()
        &&& after.right_part().right_part() == self.right_part()
    }

    /// `after` is `self` turned to the left: the root of the subtree after
    /// the root has come to the top, and the old root has gone down to the
    /// left, with the subtree that stood between them on its right.
    spec fn turned_left(&self, after: Avltree<K, V>) -> bool {
        &&& after.root_entry() is Some
        &&& after.root_entry() == self.right_part().root_entry()
        &&& after.right_part() == self.right_part().right_part()
        &&& after.left_part().wf()
        &&& after.left_part().root_entry() == self.root_entry()
        &&& after.left_part().left_part() == self.left_part()
        &&& after.left_part().right_part() == self.right_part().left_part()
    }

    /// Turns the tree once towards its lower side, where one side is higher
    /// than the other by more than one; the cached numbers of the new root
    /// are left for `rotate_update`.
    fn rotate(&mut self)
        requires
            old(self).children_wf(),
            old(self)@.len() <= usize::MAX,
        ensures
            final(self).children_wf(),
            final(self)@ == old(self)@,
            old(self).tilt() > 1 ==> old(self).turned_right(*final(self)),
            old(self).tilt() < -1 ==> old(self).turned_left(*final(self)),
            -1 <= old(self).tilt() <= 1 ==> *final(self) == *old(self),
    {
        let mut left_heavy = false;
        let mut right_heavy = false;
        match &self.0 {
            None => {},
            Some(node) => {
                proof {
                    node.left.lemma_ht_le_len();
                    node.right.lemma_ht_le_len();
                }
                let a = node.left.ht();
                let b = node.right.ht();
                left_heavy = b + 1 < a;
                right_heavy = a + 1 < b;
            },
        }
        if left_heavy {
            let node = self.0.take().unwrap();
            let Node { key, value, left, right, .. } = *node;
            let Avltree(inner) = *left;
            let Node { key: k, value: v, left: a, right: b, .. } = *inner.unwrap();
            let mut lower = Node { ht: 0, len: 0, key, value, left: b, right };
            lower.update();
            let lower = Box::new(Avltree(Some(Box::new(lower))));
            let ghost upper = Avltree(inner);
            proof {
                assert(old(self)@ == upper@.push((key, value)) + right@);
                assert(upper@ == a@.push((k, v)) + b@);
                assert(lower@ == b@.push((key, value)) + right@);
            }
            self.0 = Some(Box::new(Node { ht: 0, len: 0, key: k, value: v, left: a, right: lower }));
            proof {
                assert(self@ == a@.push((k, v)) + lower@);
                assert(self@ =~= old(self)@);
            }
        } else if right_heavy {
            let node = self.0.take().unwrap();
            let Node { key, value, left, right, .. } = *node;
            let Avltree(inner) = *right;
            let Node { key: k, value: v, left: b, right: c, .. } = *inner.unwrap();
            let mut lower = Node { ht: 0, len: 0, key, value, left, right: b };
            lower.update();
            let lower = Box::new(Avltree(Some(Box::new(lower))));
            let ghost upper = Avltree(inner);
            proof {
                assert(old(self)@ == left@.push((key, value)) + upper@);
                assert(upper@ == b@.push((k, v)) + c@);
                assert(lower@ == left@.push((key, value)) + b@);
            }
            self.0 = Some(Box::new(Node { ht: 0, len: 0, key: k, value: v, left: lower, right: c }));
            proof {
                assert(self@ == lower@.push((k, v)) + c@);
                assert(self@ =~= old(self)@);
            }
        }
    }

    fn rotate_update(&mut self)
        requires
            old(self).children_wf(),
            old(self)@.len() <= usize::MAX,
        ensures
            final(self).wf(),
            final(self)@ == old(self)@,
    {
        self.rotate();
        match self.0.take() {
            None => {},
            Some(mut node) => {
                node.update();
                self.0 = Some(node);
            },
        }
    }

    /// Puts the entry `(k, v)` where a search by `cmp` from the root ends,
    /// and returns its index, unless the search meets an entry that compares
    /// as equal.
    pub fn insert_by<F: Fn(&K, &K) -> Ordering>(&mut self, k: K, v: V, cmp: F) -> (res: Option<
        usize,
    >)
        requires
            old(self).wf(),
            old(self)@.len() < usize::MAX,
            forall|a: K, b: K| call_requires(cmp, (&a, &b)),
        ensures
            final(self).wf(),
            match res {
                Some(i) => {
                    &&& i <= old(self)@.len()
                    &&& final(self)@ == old(self)@.insert(at(i), (k, v))
                    &&& i > 0 ==> call_ensures(cmp, (&k, &old(self)@[i - 1].0), Ordering::Greater)
                    &&& i < old(self)@.len() ==> call_ensures(
                        cmp,
                        (&k, &old(self)@[at(i)].0),
                        Ordering::Less,
                    )
                },
                None => {
                    &&& final(self)@ == old(self)@
                    &&& exists|j: int|
                        0 <= j < old(self)@.len() && call_ensures(
                            cmp,
                            (&k, &old(self)@[j].0),
                            Ordering::Equal,
                        )
                },
            },
        decreases *old(self),
    {
        let res = match self.0.take() {
            None => {
                self.0 = Some(Box::new(Node::new(k, v)));
                proof {
                    assert(self@ =~= old(self)@.insert(0, (k, v)));
                }
                Some(0)
            },
            Some(mut node) => {
                let ghost l = node.left@;
                let ghost rt = node.right@;
                let ghost kv = (node.key, node.value);
                proof {
                    assert(old(self)@ == l.push(kv) + rt);
                    assert(old(self)@[count(l)] == kv);
                    assert forall|j: int| 0 <= j < l.len() implies old(self)@[j] == l[j] by {}
                    assert forall|j: int| 0 <= j < rt.len() implies old(self)@[l.len() + 1 + j]
                        == rt[j] by {}
                }
                let r = match cmp(&k, &node.key) {
                    Ordering::Less => {
                        let r = node.left.insert_by(k, v, cmp);
                        proof {
                            match r {
                                Some(i) => {
                                    assert(node.left@.push(kv) + rt =~= old(self)@.insert(
                                        at(i),
                                        (k, v),
                                    ));
                                },
                                None => {
                                    let j = choose|j: int|
                                        0 <= j < l.len() && call_ensures(
                                            cmp,
                                            (&k, &l[j].0),
                                            Ordering::Equal,
                                        );
                                    assert(old(self)@[j] == l[j]);
                                },
                            }
                        }
                        r
                    },
                    Ordering::Equal => None,
                    Ordering::Greater => {
                        let aug = node.left.len();
                        match node.right.insert_by(k, v, cmp) {
                            None => {
                                proof {
                                    let j = choose|j: int|
                                        0 <= j < rt.len() && call_ensures(
                                            cmp,
                                            (&k, &rt[j].0),
                                            Ordering::Equal,
                                        );
                                    assert(old(self)@[l.len() + 1 + j] == rt[j]);
                                }
                                None
                            },
                            Some(s) => {
                                proof {
                                    assert(l.push(kv) + node.right@ =~= old(self)@.insert(
                                        l.len() + 1 + s,
                                        (k, v),
                                    ));
                                    if s > 0 {
                                        assert(old(self)@[l.len() + 1 + (s - 1)] == rt[s - 1]);
                                    }
                                    if s < rt.len() {
                                        assert(old(self)@[l.len() + 1 + s] == rt[at(s)]);
                                    }
                                }
                                Some(aug + 1 + s)
                            },
                        }
                    },
                };
                self.0 = Some(node);
                proof {
                    assert(self@ == node.left@.push(kv) + node.right@);
                }
                r
            },
        };
        self.rotate_update();
        res
    }

    /// The first entry if `e` is 0, the last if `e` is 1; none in an empty
    /// tree.
    pub fn get_extremum(&self, e: usize) -> (res: Option<(&K, &V)>)
        requires
            e < 2 || self@.len() == 0,
        ensures
            match res {
                None => self@.len() == 0,
                Some((k, v)) => self@.len() > 0 && (*k, *v) == if e == 0 {
                    self@.first()
                } else {
                    self@.last()
                },
            },
    {
        let mut cur: &Avltree<K, V> = self;
        if cur.is_empty() {
            return None;
        }
        loop
            invariant
                e < 2,
                cur@.len() > 0,
                self@.len() > 0,
                e == 0 ==> cur@.first() == self@.first(),
                e == 1 ==> cur@.last() == self@.last(),
            decreases cur@.len(),
        {
            let node = cur.0.as_ref().unwrap();
            let next: &Avltree<K, V> = if e == 0 {
                &node.left
            } else {
                &node.right
            };
            proof {
                assert(cur@ == node.left@.push((node.key, node.value)) + node.right@);
            }
            if next.is_empty() {
                return Some((&node.key, &node.value));
            }
            cur = next;
        }
    }

    /// As `get_extremum`, with the value lent for writing.
    pub fn get_mut_extremum(&mut self, e: usize) -> (res: Option<(&K, &mut V)>)
        requires
            e < 2 || old(self)@.len() == 0,
        ensures
            old(self).wf() ==> final(self).wf(),
            final(self).spec_ht() == old(self).spec_ht(),
            final(self)@.len() == old(self)@.len(),
            match res {
                None => old(self)@.len() == 0 && final(self)@ == old(self)@,
                Some((k, v)) => {
                    &&& old(self)@.len() > 0
                    &&& e == 0 ==> (*k, *v) == old(self)@.first() && final(self)@ == old(
                        self,
                    )@.update(0, (*k, *final(v)))
                    &&& e == 1 ==> (*k, *v) == old(self)@.last() && final(self)@ == old(
                        self,
                    )@.update(old(self)@.len() - 1, (*k, *final(v)))
                },
            },
        decreases *old(self),
    {
        match &mut self.0 {
            None => None,
            Some(node) => {
                let ghost l = node.left@;
                let ghost rt = node.right@;
                let ghost kv = (node.key, node.value);
                proof {
                    assert(old(self)@ == l.push(kv) + rt);
                    assert forall|x: (K, V)| l.len() > 0 implies #[trigger] l.update(0, x).push(kv)
                        + rt == (l.push(kv) + rt).update(0, x) by {
                        assert(l.update(0, x).push(kv) + rt =~= (l.push(kv) + rt).update(0, x));
                    }
                    assert forall|x: (K, V)| rt.len() > 0 implies l.push(kv) + #[trigger] rt.update(
                        rt.len() - 1,
                        x,
                    ) == (l.push(kv) + rt).update(l.len() + 1 + rt.len() - 1, x) by {
                        assert(l.push(kv) + rt.update(rt.len() - 1, x) =~= (l.push(kv) + rt).update(
                            l.len() + 1 + rt.len() - 1,
                            x,
                        ));
                    }
                    assert forall|w: V| #[trigger] l.push((kv.0, w)) + rt == (l.push(kv) + rt).update(
                        l.len() as int,
                        (kv.0, w),
                    ) by {
                        assert(l.push((kv.0, w)) + rt =~= (l.push(kv) + rt).update(
                            l.len() as int,
                            (kv.0, w),
                        ));
                    }
                }
                if e == 0 {
                    if node.left.is_empty() {
                        Some((&node.key, &mut node.value))
                    } else {
                        node.left.get_mut_extremum(e)
                    }
                } else {
                    if node.right.is_empty() {
                        Some((&node.key, &mut node.value))
                    } else {
                        node.right.get_mut_extremum(e)
                    }
                }
            },
        }
    }

    /// Searches by `cmp`, which is given each entry's index, counted from
    /// `offset`, and its key; returns the entry that compares as equal, with
    /// its index, if the search meets one.
    pub fn get_by<F: Fn(usize, &K) -> Ordering>(&self, offset: usize, cmp: F) -> (res: Option<
        (usize, &K, &V),
    >)
        requires
            self.wf(),
            offset + self@.len() <= usize::MAX,
            forall|i: usize, a: K| call_requires(cmp, (i, &a)),
        ensures
            match res {
                Some((i, k, v)) => {
                    &&& offset <= i < offset + self@.len()
                    &&& (*k, *v) == self@[i - offset]
                    &&& call_ensures(cmp, (i, k), Ordering::Equal)
                },
                None => exists|j: int| is_gap(cmp, self@, offset, j),
            },
        decreases self,
    {
        match &self.0 {
            None => {
                proof {
                    assert(is_gap(cmp, self@, offset, 0));
                }
                None
            },
            Some(node) => {
                let ghost l = node.left@;
                let ghost rt = node.right@;
                let ghost kv = (node.key, node.value);
                proof {
                    assert(self@ == l.push(kv) + rt);
                    assert(self@[count(l)] == kv);
                    assert forall|j: int| 0 <= j < l.len() implies self@[j] == l[j] by {}
                    assert forall|j: int| 0 <= j < rt.len() implies self@[l.len() + 1 + j]
                        == rt[j] by {}
                }
                let aug = node.left.len();
                match cmp(offset + aug, &node.key) {
                    Ordering::Less => {
                        let r = node.left.get_by(offset, cmp);
                        proof {
                            if r is None {
                                let j = choose|j: int| is_gap(cmp, l, offset, j);
                                assert(is_gap(cmp, self@, offset, j));
                            }
                        }
                        r
                    },
                    Ordering::Equal => Some((offset + aug, &node.key, &node.value)),
                    Ordering::Greater => {
                        let next = offset + aug + 1;
                        let r = node.right.get_by(next, cmp);
                        proof {
                            if r is None {
                                let j = choose|j: int| is_gap(cmp, rt, next, j);
                                assert(is_gap(cmp, self@, offset, l.len() + 1 + j));
                            }
                        }
                        r
                    },
                }
            },
        }
    }

    fn delete_extremum(&mut self, e: usize) -> (res: (K, V))
        requires
            old(self).wf(),
            old(self)@.len() > 0,
            e < 2,
        ensures
            final(self).wf(),
            e == 0 ==> res == old(self)@.last() && final(self)@ == old(self)@.drop_last(),
            e == 1 ==> res == old(self)@.first() && final(self)@ == old(self)@.drop_first(),
        decreases *old(self),
    {
        let mut node = self.0.take().unwrap();
        let ghost l = node.left@;
        let ghost rt = node.right@;
        let ghost kv = (node.key, node.value);
        proof {
            assert(old(self)@ == l.push(kv) + rt);
        }
        let far_is_empty = if e == 0 {
            node.right.is_empty()
        } else {
            node.left.is_empty()
        };
        let res = if far_is_empty {
            let mut near = Box::new(Avltree::new());
            if e == 0 {
                core::mem::swap(&mut near, &mut node.left);
            } else {
                core::mem::swap(&mut near, &mut node.right);
            }
            let ghost kept = *near;
            let Avltree(inner) = *near;
            self.0 = inner;
            proof {
                assert(kept.wf());
                assert(*self == kept);
                if e == 0 {
                    assert(self@ =~= old(self)@.drop_last());
                } else {
                    assert(self@ =~= old(self)@.drop_first());
                }
            }
            let whole: Node<K, V> = *node;
            whole.into_kv()
        } else {
            let r = if e == 0 {
                node.right.delete_extremum(e)
            } else {
                node.left.delete_extremum(e)
            };
            self.0 = Some(node);
            proof {
                assert(self@ == node.left@.push(kv) + node.right@);
                if e == 0 {
                    assert(self@ =~= old(self)@.drop_last());
                } else {
                    assert(self@ =~= old(self)@.drop_first());
                }
            }
            r
        };
        self.rotate_update();
        res
    }

    fn take_root(&mut self, node: Box<Node<K, V>>) -> (res: (K, V))
        requires
            old(self).0 is None,
            node.left.wf(),
            node.right.wf(),
        ensures
            res == (node.key, node.value),
            final(self)@ == node.left@ + node.right@,
            final(self).children_wf(),
    {
        let mut node = node;
        let ghost l = node.left@;
        let ghost rt = node.right@;
        if !node.left.is_empty() {
            let (mut k, mut v) = node.left.delete_extremum(0);
            core::mem::swap(&mut node.key, &mut k);
            core::mem::swap(&mut node.value, &mut v);
            self.0 = Some(node);
            proof {
                assert(self@ == node.left@.push((node.key, node.value)) + rt);
                assert(self@ =~= l + rt);
            }
            (k, v)
        } else if !node.right.is_empty() {
            let (mut k, mut v) = node.right.delete_extremum(1);
            core::mem::swap(&mut node.key, &mut k);
            core::mem::swap(&mut node.value, &mut v);
            self.0 = Some(node);
            proof {
                assert(self@ == l.push((node.key, node.value)) + node.right@);
                assert(self@ =~= l + rt);
            }
            (k, v)
        } else {
            let whole: Node<K, V> = *node;
            proof {
                assert(self@ =~= l + rt);
            }
            whole.into_kv()
        }
    }

    /// Searches by `cmp` as `get_by` does, and takes out the entry that
    /// compares as equal, if the search meets one; returns it with its index.
    pub fn delete_by<F: Fn(usize, &K) -> Ordering>(&mut self, offset: usize, cmp: F) -> (res:
        Option<(usize, K, V)>)
        requires
            old(self).wf(),
            offset + old(self)@.len() <= usize::MAX,
            forall|i: usize, a: K| call_requires(cmp, (i, &a)),
        ensures
            final(self).wf(),
            match res {
                Some((i, k, v)) => {
                    &&& offset <= i < offset + old(self)@.len()
                    &&& (k, v) == old(self)@[i - offset]
                    &&& final(self)@ == old(self)@.remove(i - offset)
                    &&& call_ensures(cmp, (i, &k), Ordering::Equal)
                },
                None => {
                    &&& final(self)@ == old(self)@
                    &&& exists|j: int| is_gap(cmp, old(self)@, offset, j)
                },
            },
        decreases *old(self),
    {
        let res = match self.0.take() {
            None => {
                proof {
                    assert(is_gap(cmp, old(self)@, offset, 0));
                }
                None
            },
            Some(mut node) => {
                let ghost l = node.left@;
                let ghost rt = node.right@;
                let ghost kv = (node.key, node.value);
                proof {
                    assert(old(self)@ == l.push(kv) + rt);
                }
                let aug = node.left.len();
                match cmp(offset + aug, &node.key) {
                    Ordering::Less => {
                        let r = node.left.delete_by(offset, cmp);
                        self.0 = Some(node);
                        proof {
                            assert(self@ == node.left@.push(kv) + rt);
                            if r is None {
                                let j = choose|j: int| is_gap(cmp, l, offset, j);
                                lemma_gap_before(cmp, l, kv, rt, offset, j);
                            } else {
                                let j = r.unwrap().0 - offset;
                                lemma_remove_around(l, kv, rt, j);
                                assert(old(self)@[j] == l[j]);
                            }
                        }
                        r
                    },
                    Ordering::Equal => {
                        let (k, v) = self.take_root(node);
                        proof {
                            lemma_remove_around(l, kv, rt, count(l));
                            assert(old(self)@[count(l)] == kv);
                        }
                        Some((offset + aug, k, v))
                    },
                    Ordering::Greater => {
                        let next = offset + aug + 1;
                        let r = node.right.delete_by(next, cmp);
                        self.0 = Some(node);
                        proof {
                            assert(self@ == l.push(kv) + node.right@);
                            if r is None {
                                let j = choose|j: int| is_gap(cmp, rt, next, j);
                                lemma_gap_after(cmp, l, kv, rt, offset, next, j);
                            } else {
                                let j = r.unwrap().0 - next;
                                lemma_remove_around(l, kv, rt, l.len() + 1 + j);
                                assert(old(self)@[l.len() + 1 + j] == rt[j]);
                            }
                        }
                        r
                    },
                }
            },
        };
        self.rotate_update();
        res
    }

    /// The number of entries up to the place where a search by `f` ends: the
    /// search goes on after an entry whose key `f` accepts, and before one
    /// whose key it rejects.
    pub fn partition_point<F: Fn(&K) -> bool>(&self, f: F) -> (res: usize)
        requires
            self.wf(),
            forall|a: K| call_requires(f, (&a,)),
        ensures
            res <= self@.len(),
            res > 0 ==> call_ensures(f, (&self@[res - 1].0,), true),
            res < self@.len() ==> call_ensures(f, (&self@[res as int].0,), false),
        decreases self,
    {
        match &self.0 {
            None => 0,
            Some(node) => {
                let ghost l = node.left@;
                let ghost rt = node.right@;
                let ghost kv = (node.key, node.value);
                proof {
                    assert(self@ == l.push(kv) + rt);
                    assert(self@[l.len() as int] == kv);
                    assert forall|j: int| 0 <= j < l.len() implies self@[j] == l[j] by {}
                    assert forall|j: int| 0 <= j < rt.len() implies self@[l.len() + 1 + j]
                        == rt[j] by {}
                }
                if f(&node.key) {
                    let s = node.right.partition_point(f);
                    proof {
                        if s > 0 {
                            assert(self@[l.len() + 1 + (s - 1)] == rt[s - 1]);
                        }
                        if s < rt.len() {
                            assert(self@[l.len() + 1 + s] == rt[s as int]);
                        }
                    }
                    node.left.len() + 1 + s
                } else {
                    node.left.partition_point(f)
                }
            },
        }
    }

    /// The entries, cloned, in order.
    pub fn collect_vec(&self) -> (res: Vec<(K, V)>) where K: Clone, V: Clone
        ensures
            res@.len() == self@.len(),
            forall|i: int|
                0 <= i < self@.len() ==> cloned(self@[i].0, #[trigger] res@[i].0) && cloned(
                    self@[i].1,
                    res@[i].1,
                ),
    {
        let mut vec: Vec<(K, V)> = Vec::new();
        self.collect_into(&mut vec);
        vec
    }

    fn collect_into(&self, vec: &mut Vec<(K, V)>) where K: Clone, V: Clone
        ensures
            final(vec)@.len() == old(vec)@.len() + self@.len(),
            forall|i: int| 0 <= i < old(vec)@.len() ==> final(vec)@[i] == old(vec)@[i],
            forall|i: int|
                old(vec)@.len() <= i < final(vec)@.len() ==> cloned(
                    self@[i - old(vec)@.len()].0,
                    #[trigger] final(vec)@[i].0,
                ) && cloned(self@[i - old(vec)@.len()].1, final(vec)@[i].1),
        decreases self,
    {
        match &self.0 {
            None => {},
            Some(node) => {
                let ghost l = node.left@;
                let ghost rt = node.right@;
                let ghost kv = (node.key, node.value);
                let ghost start = old(vec)@.len();
                proof {
                    assert(self@ == l.push(kv) + rt);
                    assert(self@[l.len() as int] == kv);
                    assert forall|j: int| 0 <= j < l.len() implies self@[j] == l[j] by {}
                    assert forall|j: int| 0 <= j < rt.len() implies self@[l.len() + 1 + j]
                        == rt[j] by {}
                }
                node.left.collect_into(vec);
                let ghost mid = vec@;
                let key = node.key.clone();
                let value = node.value.clone();
                vec.push((key, value));
                let ghost mid2 = vec@;
                node.right.collect_into(vec);
                proof {
                    assert(mid2 == mid.push((key, value)));
                    assert forall|i: int| start <= i < vec@.len() implies cloned(
                        self@[i - start].0,
                        #[trigger] vec@[i].0,
                    ) && cloned(self@[i - start].1, vec@[i].1) by {
                        if i < start + l.len() {
                            assert(vec@[i] == mid2[i]);
                            assert(mid2[i] == mid[i]);
                            assert(self@[i - start] == l[i - start]);
                            assert(cloned(l[i - start].0, mid[i].0));
                            assert(cloned(l[i - start].1, mid[i].1));
                        } else if i == start + l.len() {
                            assert(vec@[i] == mid2[i]);
                            assert(mid2[i] == (key, value));
                            assert(self@[i - start] == kv);
                        } else {
                            let j = i - mid2.len();
                            assert(self@[i - start] == rt[j]);
                            assert(cloned(rt[j].0, vec@[i].0));
                            assert(cloned(rt[j].1, vec@[i].1));
                        }
                    }
                    assert forall|i: int| 0 <= i < start implies vec@[i] == old(vec)@[i] by {
                        assert(vec@[i] == mid2[i]);
                        assert(mid2[i] == mid[i]);
                    }
                }
            },
        }
    }

    fn duplicate(&self) -> (res: Self) where K: Clone, V: Clone
        ensures
            self.wf() ==> res.wf(),
            res.spec_ht() == self.spec_ht(),
            res@.len() == self@.len(),
            forall|i: int|
                0 <= i < self@.len() ==> cloned(self@[i].0, #[trigger] res@[i].0) && cloned(
                    self@[i].1,
                    res@[i].1,
                ),
        decreases self,
    {
        match &self.0 {
            None => Avltree(None),
            Some(node) => {
                let left = node.left.duplicate();
                let right = node.right.duplicate();
                let key = node.key.clone();
                let value = node.value.clone();
                let res = Avltree(
                    Some(
                        Box::new(
                            Node {
                                ht: node.ht,
                                len: node.len,
                                key,
                                value,
                                left: Box::new(left),
                                right: Box::new(right),
                            },
                        ),
                    ),
                );
                proof {
                    let l = node.left@;
                    assert(self@ == l.push((node.key, node.value)) + node.right@);
                    assert(res@ == left@.push((key, value)) + right@);
                    assert forall|i: int| 0 <= i < self@.len() implies cloned(
                        self@[i].0,
                        #[trigger] res@[i].0,
                    ) && cloned(self@[i].1, res@[i].1) by {
                        if i < l.len() {
                            assert(cloned(l[i].0, left@[i].0));
                        } else if i > l.len() {
                            assert(cloned(node.right@[i - l.len() - 1].0, right@[i - l.len() - 1].0));
                        }
                    }
                }
                res
            },
        }
    }

    /// The keys, cloned, in order.
    pub fn collect_keys_vec(&self) -> (res: Vec<K>) where K: Clone
        ensures
            res@.len() == self@.len(),
            forall|i: int| 0 <= i < self@.len() ==> cloned(self@[i].0, #[trigger] res@[i]),
    {
        let mut vec: Vec<K> = Vec::new();
        self.collect_keys_into(&mut vec);
        vec
    }

    fn collect_keys_into(&self, vec: &mut Vec<K>) where K: Clone
        ensures
            final(vec)@.len() == old(vec)@.len() + self@.len(),
            forall|i: int| 0 <= i < old(vec)@.len() ==> final(vec)@[i] == old(vec)@[i],
            forall|i: int|
                old(vec)@.len() <= i < final(vec)@.len() ==> cloned(
                    self@[i - old(vec)@.len()].0,
                    #[trigger] final(vec)@[i],
                ),
        decreases self,
    {
        match &self.0 {
            None => {},
            Some(node) => {
                let ghost l = node.left@;
                let ghost rt = node.right@;
                let ghost kv = (node.key, node.value);
                let ghost start = old(vec)@.len();
                proof {
                    assert(self@ == l.push(kv) + rt);
                    assert(self@[l.len() as int] == kv);
                    assert forall|j: int| 0 <= j < l.len() implies self@[j] == l[j] by {}
                    assert forall|j: int| 0 <= j < rt.len() implies self@[l.len() + 1 + j]
                        == rt[j] by {}
                }
                node.left.collect_keys_into(vec);
                let ghost mid = vec@;
                let key = node.key.clone();
                vec.push(key);
                let ghost mid2 = vec@;
                node.right.collect_keys_into(vec);
                proof {
                    assert(mid2 == mid.push(key));
                    assert forall|i: int| start <= i < vec@.len() implies cloned(
                        self@[i - start].0,
                        #[trigger] vec@[i],
                    ) by {
                        if i < start + l.len() {
                            assert(vec@[i] == mid2[i]);
                            assert(mid2[i] == mid[i]);
                            assert(self@[i - start] == l[i - start]);
                            assert(cloned(l[i - start].0, mid[i]));
                        } else if i == start + l.len() {
                            assert(vec@[i] == mid2[i]);
                            assert(mid2[i] == key);
                            assert(self@[i - start] == kv);
                        } else {
                            let j = i - mid2.len();
                            assert(self@[i - start] == rt[j]);
                            assert(cloned(rt[j].0, vec@[i]));
                        }
                    }
                    assert forall|i: int| 0 <= i < start implies vec@[i] == old(vec)@[i] by {
                        assert(vec@[i] == mid2[i]);
                        assert(mid2[i] == mid[i]);
                    }
                }
            },
        }
    }

    /// Searches as `get_by` does, and lends the value of the entry found
    /// for writing.
    pub fn get_mut_by<F: Fn(usize, &K) -> Ordering>(&mut self, offset: usize, cmp: F) -> (res:
        Option<(usize, &K, &mut V)>)
        requires
            old(self).wf(),
            offset + old(self)@.len() <= usize::MAX,
            forall|i: usize, a: K| call_requires(cmp, (i, &a)),
        ensures
            final(self).wf(),
            final(self).spec_ht() == old(self).spec_ht(),
            match res {
                Some((i, k, v)) => {
                    &&& offset <= i < offset + old(self)@.len()
                    &&& (*k, *v) == old(self)@[i - offset]
                    &&& call_ensures(cmp, (i, k), Ordering::Equal)
                    &&& final(self)@ == old(self)@.update(i - offset, (*k, *final(v)))
                },
                None => {
                    &&& final(self)@ == old(self)@
                    &&& exists|j: int| is_gap(cmp, old(self)@, offset, j)
                },
            },
        decreases *old(self),
    {
        match &mut self.0 {
            None => {
                proof {
                    assert(is_gap(cmp, old(self)@, offset, 0));
                }
                None
            },
            Some(node) => {
                let ghost l = node.left@;
                let ghost rt = node.right@;
                let ghost kv = (node.key, node.value);
                proof {
                    assert(old(self)@ == l.push(kv) + rt);
                    assert(old(self)@[count(l)] == kv);
                    assert forall|j: int| 0 <= j < l.len() implies old(self)@[j] == l[j] by {}
                    assert forall|j: int| 0 <= j < rt.len() implies old(self)@[l.len() + 1 + j]
                        == rt[j] by {}
                    assert forall|j: int, x: (K, V)| 0 <= j < l.len() implies #[trigger] l.update(
                        j,
                        x,
                    ).push(kv) + rt == (l.push(kv) + rt).update(j, x) by {
                        assert(l.update(j, x).push(kv) + rt =~= (l.push(kv) + rt).update(j, x));
                    }
                    assert forall|j: int, x: (K, V)| 0 <= j < rt.len() implies l.push(kv)
                        + #[trigger] rt.update(j, x) == (l.push(kv) + rt).update(l.len() + 1 + j, x) by {
                        assert(l.push(kv) + rt.update(j, x) =~= (l.push(kv) + rt).update(
                            l.len() + 1 + j,
                            x,
                        ));
                    }
                    assert forall|w: V| #[trigger] l.push((kv.0, w)) + rt == (l.push(kv) + rt).update(
                        count(l),
                        (kv.0, w),
                    ) by {
                        assert(l.push((kv.0, w)) + rt =~= (l.push(kv) + rt).update(
                            count(l),
                            (kv.0, w),
                        ));
                    }
                }
                let aug = node.left.len();
                match cmp(offset + aug, &node.key) {
                    Ordering::Less => {
                        let r = node.left.get_mut_by(offset, cmp);
                        proof {
                            if r is None {
                                let j = choose|j: int| is_gap(cmp, l, offset, j);
                                assert(is_gap(cmp, old(self)@, offset, j));
                            }
                        }
                        r
                    },
                    Ordering::Equal => Some((offset + aug, &node.key, &mut node.value)),
                    Ordering::Greater => {
                        let next = offset + aug + 1;
                        let r = node.right.get_mut_by(next, cmp);
                        proof {
                            if r is None {
                                let j = choose|j: int| is_gap(cmp, rt, next, j);
                                assert(is_gap(cmp, old(self)@, offset, l.len() + 1 + j));
                            }
                        }
                        r
                    },
                }
            },
        }
    }

    /// Calls `f` on each entry, from the first to the last.
    pub fn for_each<F: FnMut(&K, &V)>(&self, f: &mut F)
        requires
            forall|g: F, a: K, b: V| call_requires(g, (&a, &b)),
        ensures
            *final(f) == *old(f),
            forall|i: int|
                0 <= i < self@.len() ==> call_ensures(
                    *old(f),
                    (&(#[trigger] self@[i]).0, &self@[i].1),
                    (),
                ),
        decreases self,
    {
        match &self.0 {
            None => {},
            Some(node) => {
                let ghost l = node.left@;
                let ghost rt = node.right@;
                let ghost kv = (node.key, node.value);
                node.left.for_each(f);
                f(&node.key, &node.value);
                node.right.for_each(f);
                proof {
                    assert(self@ == l.push(kv) + rt);
                    assert forall|i: int| 0 <= i < self@.len() implies call_ensures(
                        *old(f),
                        (&(#[trigger] self@[i]).0, &self@[i].1),
                        (),
                    ) by {
                        if i < l.len() {
                            assert(self@[i] == l[i]);
                        } else if i == l.len() {
                            assert(self@[i] == kv);
                        } else {
                            assert(self@[i] == rt[i - l.len() - 1]);
                        }
                    }
                }
            },
        }
    }

    /// Calls `f` on each entry, from the last to the first.
    pub fn rfor_each<F: FnMut(&K, &V)>(&self, f: &mut F)
        requires
            forall|g: F, a: K, b: V| call_requires(g, (&a, &b)),
        ensures
            *final(f) == *old(f),
            forall|i: int|
                0 <= i < self@.len() ==> call_ensures(
                    *old(f),
                    (&(#[trigger] self@[i]).0, &self@[i].1),
                    (),
                ),
        decreases self,
    {
        match &self.0 {
            None => {},
            Some(node) => {
                let ghost l = node.left@;
                let ghost rt = node.right@;
                let ghost kv = (node.key, node.value);
                node.right.rfor_each(f);
                f(&node.key, &node.value);
                node.left.rfor_each(f);
                proof {
                    assert(self@ == l.push(kv) + rt);
                    assert forall|i: int| 0 <= i < self@.len() implies call_ensures(
                        *old(f),
                        (&(#[trigger] self@[i]).0, &self@[i].1),
                        (),
                    ) by {
                        if i < l.len() {
                            assert(self@[i] == l[i]);
                        } else if i == l.len() {
                            assert(self@[i] == kv);
                        } else {
                            assert(self@[i] == rt[i - l.len() - 1]);
                        }
                    }
                }
            },
        }
    }

    /// Enters the keys, in order, into a set that is being written.
    pub fn fmt_keys_impl(&self, debug_map: &mut DebugSet<'_, '_>) where K: Debug
        decreases self,
    {
        match &self.0 {
            None => {},
            Some(node) => {
                node.left.fmt_keys_impl(debug_map);
                set_entry(debug_map, &node.key);
                node.right.fmt_keys_impl(debug_map);
            },
        }
    }

    /// Enters the entries, in order, into a map that is being written.
    pub(crate) fn fmt_impl(&self, debug_map: &mut DebugMap<'_, '_>) where K: Debug, V: Debug
        decreases self,
    {
        match &self.0 {
            None => {},
            Some(node) => {
                node.left.fmt_impl(debug_map);
                map_entry(debug_map, &node.key, &node.value);
                node.right.fmt_impl(debug_map);
            },
        }
    }

    /// The empty tree.
    pub fn new() -> (res: Self)
        ensures
            res.wf(),
            res@ == Seq::<(K, V)>::empty(),
            res.spec_ht() == 0,
    {
        Self::default()
    }

    /// The number of entries.
    pub fn len(&self) -> (res: usize)
        requires
            self.wf(),
        ensures
            res == self@.len(),
    {
        match &self.0 {
            None => 0,
            Some(node) => node.len,
        }
    }

    /// Whether there are no entries.
    pub fn is_empty(&self) -> (res: bool)
        ensures
            res == (self@.len() == 0),
    {
        self.0.is_none()
    }

    /// The number of nodes on the longest way down from the root.
    pub fn ht(&self) -> (res: usize)
        requires
            self.wf(),
        ensures
            res == self.spec_ht(),
    {
        match &self.0 {
            None => 0,
            Some(node) => node.ht,
        }
    }
}

} // verus!
