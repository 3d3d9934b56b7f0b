use crate::levels::{
    base, lemma_base_children, lemma_base_div, lemma_base_lower, lemma_base_mono, lemma_base_next,
    lemma_base_of_zero, lemma_base_zero, lemma_level_bound, on_path,
};
use crate::monoid::{fold_seq, lemma_fold_empty, lemma_fold_single, lemma_fold_split, Identity};
use std::ops::Range;
use vstd::arithmetic::power2::pow2;
use vstd::bits::lemma_usize_shr_is_div;
use vstd::prelude::*;

verus! {

/// Why an operation on a tree was rejected.
#[derive(Debug, Clone, Copy, PartialEq, Eq, Structural)]
pub enum RangeError {
    /// An index, or the end of a range, lies beyond the number of leaves.
    IndexOutOfRange,
    /// A range starts after it ends.
    InvalidRange,
}

/// What a table of `2 * n` models must satisfy to be a tree over `n` leaves:
/// the leaves stand at `n..2 * n`, and each inner node `1..n` holds the
/// combination of its two children.
pub open spec fn is_tree<T: Identity>(m: Seq<T::Model>, n: int) -> bool {
    &&& 0 <= n
    &&& m.len() == 2 * n
    &&& forall|i: int| 1 <= i < n ==> #[trigger] m[i] == T::combine(m[2 * i], m[2 * i + 1])
}

/// The error, if any, with which a range is rejected on `n` leaves.
pub open spec fn range_error(n: int, start: int, end: int) -> Option<RangeError> {
    if start > end {
        Some(RangeError::InvalidRange)
    } else if end > n {
        Some(RangeError::IndexOutOfRange)
    } else {
        None
    }
}

/// Folding the children of the nodes `l..r` of a tree gives what folding the
/// nodes themselves gives.
pub proof fn lemma_fold_level<T: Identity>(m: Seq<T::Model>, n: int, l: int, r: int)
    requires
        is_tree::<T>(m, n),
        1 <= l <= r <= n,
    ensures
        fold_seq::<T>(m.subrange(2 * l, 2 * r)) == fold_seq::<T>(m.subrange(l, r)),
    decreases r - l,
{
    if l < r {
        lemma_fold_level::<T>(m, n, l, r - 1);
        lemma_fold_split::<T>(m, 2 * l, 2 * r - 2, 2 * r);
        lemma_fold_split::<T>(m, 2 * r - 2, 2 * r - 1, 2 * r);
        lemma_fold_single::<T>(m, 2 * r - 2);
        lemma_fold_single::<T>(m, 2 * r - 1);
        lemma_fold_split::<T>(m, l, r - 1, r);
        lemma_fold_single::<T>(m, r - 1);
        assert(m[r - 1] == T::combine(m[2 * (r - 1)], m[2 * (r - 1) + 1]));
    } else {
        assert(m.subrange(2 * l, 2 * r) =~= m.subrange(l, r));
    }
}

/// Taking the first node of a stretch into the left accumulator keeps the
/// combination of accumulator, stretch and right accumulator.
pub proof fn lemma_take_left<T: Identity>(
    m: Seq<T::Model>,
    l: int,
    r: int,
    left: T::Model,
    right: T::Model,
)
    requires
        0 <= l < r <= m.len(),
    ensures
        T::combine(
            T::combine(left, m[l]),
            T::combine(fold_seq::<T>(m.subrange(l + 1, r)), right),
        ) == T::combine(left, T::combine(fold_seq::<T>(m.subrange(l, r)), right)),
{
    let rest = fold_seq::<T>(m.subrange(l + 1, r));
    lemma_fold_split::<T>(m, l, l + 1, r);
    lemma_fold_single::<T>(m, l);
    T::combine_assoc(left, m[l], T::combine(rest, right));
    T::combine_assoc(m[l], rest, right);
}

/// Taking the last node of a stretch into the right accumulator keeps the
/// combination of stretch and right accumulator.
pub proof fn lemma_take_right<T: Identity>(m: Seq<T::Model>, l: int, r: int, right: T::Model)
    requires
        0 <= l < r <= m.len(),
    ensures
        T::combine(fold_seq::<T>(m.subrange(l, r - 1)), T::combine(m[r - 1], right))
            == T::combine(fold_seq::<T>(m.subrange(l, r)), right),
{
    lemma_fold_split::<T>(m, l, r - 1, r);
    lemma_fold_single::<T>(m, r - 1);
    T::combine_assoc(fold_seq::<T>(m.subrange(l, r - 1)), m[r - 1], right);
}

/// A node whose stretch, `k` levels further down, lies among the leaves
/// holds the fold of that stretch.
pub proof fn lemma_block<T: Identity>(m: Seq<T::Model>, n: int, i: int, k: nat)
    requires
        is_tree::<T>(m, n),
        0 <= i,
        n <= base(i, k),
        base(i, k) + pow2(k) <= 2 * n,
    ensures
        i < 2 * n,
        k > 0 ==> 1 <= i < n,
        k == 0 ==> n <= i,
        m[i] == fold_seq::<T>(m.subrange(base(i, k), base(i, k) + pow2(k))),
    decreases k,
{
    if k == 0 {
        lemma_base_zero(i);
        lemma_fold_single::<T>(m, i);
    } else {
        lemma_base_lower(i, k);
        lemma_base_children(i, k);
        assert(i >= 1) by {
            lemma_base_of_zero(k);
        }
        let half = pow2((k - 1) as nat) as int;
        lemma_block::<T>(m, n, 2 * i, (k - 1) as nat);
        lemma_block::<T>(m, n, 2 * i + 1, (k - 1) as nat);
        lemma_fold_split::<T>(m, base(i, k), base(i, k) + half, base(i, k) + pow2(k));
        assert(m[i] == T::combine(m[2 * i], m[2 * i + 1]));
    }
}

/// `pred` has `true` among what it returns on a value that stands for `m`.
pub open spec fn accepts<T: Identity, F: Fn(&T::Value) -> bool>(pred: F, m: T::Model) -> bool {
    exists|v: T::Value| T::model(v) == m && call_ensures(pred, (&v,), true)
}

/// `pred` has `false` among what it returns on a value that stands for `m`.
pub open spec fn rejects<T: Identity, F: Fn(&T::Value) -> bool>(pred: F, m: T::Model) -> bool {
    exists|v: T::Value| T::model(v) == m && call_ensures(pred, (&v,), false)
}

/// `pred` can be called on every value.
pub open spec fn is_predicate<T: Identity, F: Fn(&T::Value) -> bool>(pred: F) -> bool {
    forall|v: T::Value| call_requires(pred, (&v,))
}

/// What `pred` returned on a value, it returns on the value's model.
pub proof fn lemma_tested<T: Identity, F: Fn(&T::Value) -> bool>(pred: F, v: T::Value, b: bool)
    requires
        call_ensures(pred, (&v,), b),
    ensures
        b ==> accepts::<T, F>(pred, T::model(v)),
        !b ==> rejects::<T, F>(pred, T::model(v)),
{
}

/// `i` is a place in `start..=end` up to which `pred` accepts the fold from
/// `start`, and beyond which, by one leaf, it rejects it.
pub open spec fn is_forward_boundary<T: Identity, F: Fn(&T::Value) -> bool>(
    leaves: Seq<T::Model>,
    pred: F,
    start: int,
    end: int,
    i: int,
) -> bool {
    &&& start <= i <= end
    &&& i == start || accepts::<T, F>(pred, fold_seq::<T>(leaves.subrange(start, i)))
    &&& i == end || rejects::<T, F>(pred, fold_seq::<T>(leaves.subrange(start, i + 1)))
}

/// `i` is a place in `start..=end` from which `pred` accepts the fold up to
/// `end`, and before which, by one leaf, it rejects it.
pub open spec fn is_backward_boundary<T: Identity, F: Fn(&T::Value) -> bool>(
    leaves: Seq<T::Model>,
    pred: F,
    start: int,
    end: int,
    i: int,
) -> bool {
    &&& start <= i <= end
    &&& i == end || accepts::<T, F>(pred, fold_seq::<T>(leaves.subrange(i, end)))
    &&& i == start || rejects::<T, F>(pred, fold_seq::<T>(leaves.subrange(i - 1, end)))
}

/// An array of fixed length with point updates and folds of ranges by an
/// associative operation.
#[derive(Debug, Clone, PartialEq)]
pub struct Segtree<T: Identity> {
    len: usize,
    table: Vec<T::Value>,
}

impl<T: Identity> Segtree<T> {
    /// The models of the whole table, inner nodes included.
    pub closed spec fn models(&self) -> Seq<T::Model> {
        Seq::new(self.table@.len(), |i: int| T::model(self.table@[i]))
    }

    /// The number of leaves.
    pub closed spec fn spec_len(&self) -> nat {
        self.len as nat
    }

    /// The table is a tree over the leaves, and its size fits the machine.
    pub closed spec fn wf(&self) -> bool {
        &&& is_tree::<T>(self.models(), self.len as int)
        &&& 2 * self.len <= usize::MAX
    }

    /// The leaves, in order.
    pub closed spec fn view(&self) -> Seq<T::Model> {
        self.models().subrange(self.len as int, 2 * self.len)
    }

    /// The leaves are as many as `spec_len` says.
    pub proof fn lemma_view_len(&self)
        requires
            self.wf(),
        ensures
            self@.len() == self.spec_len(),
    {
    }

    fn node(&self, i: usize) -> (res: T::Value)
        requires
            i < self.table@.len(),
        ensures
            T::model(res) == self.models()[i as int],
    {
        let res = self.table[i].clone();
        proof {
            T::clone_keeps_model(self.table@[i as int], res);
        }
        res
    }

    /// The number of leaves.
    pub fn len(&self) -> (res: usize)
        ensures
            res == self.spec_len(),
    {
        self.len
    }

    /// Builds the tree whose leaves are the elements of `src`, in order.
    pub fn from_slice(src: &[T::Value]) -> (res: Self)
        requires
            2 * src@.len() <= usize::MAX,
        ensures
            res.wf(),
            res.spec_len() == src@.len(),
            res@ == Seq::new(src@.len(), |i: int| T::model(src@[i])),
    {
        let len = src.len();
        let mut table: Vec<T::Value> = Vec::new();
        let mut k: usize = 0;
        while k < 2 * len
            invariant
                len == src@.len(),
                2 * len <= usize::MAX,
                k <= 2 * len,
                table@.len() == k,
                forall|j: int|
                    0 <= j < k ==> T::model(#[trigger] table@[j]) == T::model(
                        src@[if j < len { j } else { j - len }],
                    ),
            decreases 2 * len - k,
        {
            let x = if k < len { src[k].clone() } else { src[k - len].clone() };
            proof {
                T::clone_keeps_model(src@[if k < len { k as int } else { k - len }], x);
            }
            table.push(x);
            k += 1;
        }
        let mut res = Segtree { len, table };
        let mut i: usize = len;
        while i > 1
            invariant
                res.len == len,
                len == src@.len(),
                2 * len <= usize::MAX,
                res.table@.len() == 2 * len,
                i <= len,
                forall|j: int|
                    len <= j < 2 * len ==> T::model(#[trigger] res.table@[j]) == T::model(
                        src@[j - len],
                    ),
                forall|j: int|
                    i <= j < len ==> #[trigger] res.models()[j] == T::combine(
                        res.models()[2 * j],
                        res.models()[2 * j + 1],
                    ),
            decreases i,
        {
            i -= 1;
            res.update(i);
        }
        proof {
            assert(res@ =~= Seq::new(src@.len(), |i: int| T::model(src@[i])));
        }
        res
    }

    /// Puts `x` at leaf `i`, unless `i` is not the index of a leaf.
    pub fn set(&mut self, i: usize, x: T::Value) -> (res: Result<(), RangeError>)
        requires
            old(self).wf(),
        ensures
            final(self).wf(),
            final(self).spec_len() == old(self).spec_len(),
            i < old(self).spec_len() ==> res == Ok::<(), RangeError>(()) && final(self)@ == old(
                self,
            )@.update(i as int, T::model(x)),
            i >= old(self).spec_len() ==> res == Err::<(), RangeError>(
                RangeError::IndexOutOfRange,
            ) && *final(self) == *old(self),
    {
        if i >= self.len {
            return Err(RangeError::IndexOutOfRange);
        }
        let ghost leaf = i + self.len;
        let ghost before = self.models();
        let mut i = i + self.len;
        self.table[i] = x;
        proof {
            assert(self.models() =~= before.update(leaf, T::model(x)));
            assert(on_path(leaf / 2, leaf / 2) || leaf / 2 == 0);
        }
        i = i / 2;
        while 0 != i
            invariant
                self.len == old(self).len,
                2 * self.len <= usize::MAX,
                self.table@.len() == 2 * self.len,
                i < self.len,
                self.len <= leaf < 2 * self.len,
                forall|j: int|
                    1 <= j < self.len ==> on_path(j, i as int) || #[trigger] self.models()[j]
                        == T::combine(self.models()[2 * j], self.models()[2 * j + 1]),
                forall|j: int|
                    self.len <= j < 2 * self.len ==> #[trigger] self.models()[j] == before.update(
                        leaf,
                        T::model(x),
                    )[j],
            decreases i,
        {
            self.update(i);
            i = i / 2;
        }
        proof {
            assert(!on_path(0, 0));
            assert(self@ =~= old(self)@.update(leaf - self.len, T::model(x)));
        }
        Ok(())
    }

    /// The combination of the leaves in `range`, from left to right, unless
    /// the range is rejected.
    pub fn fold(&self, range: Range<usize>) -> (res: Result<T::Value, RangeError>)
        requires
            self.wf(),
        ensures
            match range_error(self.spec_len() as int, range.start as int, range.end as int) {
                Some(e) => res == Err::<T::Value, RangeError>(e),
                None => res is Ok && T::model(res.unwrap()) == fold_seq::<T>(
                    self@.subrange(range.start as int, range.end as int),
                ),
            },
            range.start == range.end <= self.spec_len() ==> T::model(res.unwrap()) == T::unit(),
    {
        let Range { mut start, mut end } = range;
        if start > end {
            return Err(RangeError::InvalidRange);
        }
        if end > self.len {
            return Err(RangeError::IndexOutOfRange);
        }
        proof {
            lemma_fold_empty::<T>(self@, start as int);
        }
        start += self.len;
        end += self.len;
        let mut left = T::identity();
        let mut right = T::identity();
        let ghost m = self.models();
        let ghost goal = fold_seq::<T>(m.subrange(start as int, end as int));
        proof {
            T::unit_neutral(goal);
            assert(self@.subrange(range.start as int, range.end as int) =~= m.subrange(
                start as int,
                end as int,
            ));
        }
        while start != end
            invariant
                self.wf(),
                m == self.models(),
                start <= end <= 2 * self.len,
                1 <= start || start == end,
                T::combine(
                    T::model(left),
                    T::combine(fold_seq::<T>(m.subrange(start as int, end as int)), T::model(right)),
                ) == goal,
            decreases end - start,
        {
            if start % 2 == 1 {
                proof {
                    lemma_take_left::<T>(
                        m,
                        start as int,
                        end as int,
                        T::model(left),
                        T::model(right),
                    );
                }
                T::op_left(&mut left, self.node(start));
                start += 1;
            }
            if end % 2 == 1 {
                proof {
                    lemma_take_right::<T>(m, start as int, end as int, T::model(right));
                }
                end -= 1;
                T::op_right(self.node(end), &mut right);
            }
            proof {
                lemma_fold_level::<T>(m, self.len as int, start as int / 2, end as int / 2);
            }
            start = start / 2;
            end = end / 2;
        }
        proof {
            lemma_fold_empty::<T>(m, start as int);
            T::unit_neutral(T::model(right));
        }
        Ok(T::op(left, right))
    }

    fn dup(v: &T::Value) -> (res: T::Value)
        ensures
            T::model(res) == T::model(*v),
    {
        let res = v.clone();
        proof {
            T::clone_keeps_model(*v, res);
        }
        res
    }

    /// A boundary of `pred` over the folds that start at `range.start` and
    /// grow up to `range.end`, unless the range is rejected.
    pub fn search_forward<F: Fn(&T::Value) -> bool>(&self, range: Range<usize>, pred: F) -> (res:
        Result<usize, RangeError>)
        requires
            self.wf(),
            is_predicate::<T, F>(pred),
        ensures
            match range_error(self.spec_len() as int, range.start as int, range.end as int) {
                Some(e) => res == Err::<usize, RangeError>(e),
                None => res is Ok && is_forward_boundary::<T, F>(
                    self@,
                    pred,
                    range.start as int,
                    range.end as int,
                    res.unwrap() as int,
                ),
            },
    {
        let Range { mut start, mut end } = range;
        if start > end {
            return Err(RangeError::InvalidRange);
        }
        if end > self.len {
            return Err(RangeError::IndexOutOfRange);
        }
        if start == end {
            return Ok(start);
        }
        start += self.len;
        end += self.len;
        let orig_end = end;
        let ghost from = start as int;
        let ghost m = self.models();
        let mut crr = T::identity();
        let mut shift: usize = 0;
        proof {
            lemma_base_zero(start as int);
            lemma_base_zero(end as int);
            lemma_fold_empty::<T>(m, from);
        }
        while start != end
            invariant
                self.wf(),
                m == self.models(),
                is_predicate::<T, F>(pred),
                from == range.start + self.len,
                orig_end == range.end + self.len,
                range.start < range.end <= self.len,
                1 <= start <= end,
                shift < usize::BITS,
                end == orig_end as int / (pow2(shift as nat) as int),
                from <= base(start as int, shift as nat) <= orig_end,
                T::model(crr) == fold_seq::<T>(m.subrange(from, base(start as int, shift as nat))),
                from == base(start as int, shift as nat) || accepts::<T, F>(pred, T::model(crr)),
            decreases end - start,
        {
            let ghost k = shift as nat;
            proof {
                lemma_base_div(orig_end as int, k);
                lemma_base_next(start as int, k);
                lemma_base_mono(start as int + 1, end as int, k);
            }
            if start % 2 == 1 {
                let nxt = T::op(Self::dup(&crr), self.node(start));
                let ok = pred(&nxt);
                proof {
                    lemma_tested::<T, F>(pred, nxt, ok);
                    lemma_block::<T>(m, self.len as int, start as int, k);
                    lemma_fold_split::<T>(
                        m,
                        from,
                        base(start as int, k),
                        base(start as int, k) + pow2(k),
                    );
                }
                if !ok {
                    let i = self.search_subtree_forward(crr, start, pred, Ghost(k), Ghost(from));
                    proof {
                        self.lemma_leaves(range.start as int, i as int);
                        self.lemma_leaves(range.start as int, i as int + 1);
                    }
                    return Ok(i);
                }
                crr = nxt;
                start += 1;
            }
            proof {
                lemma_base_children(start as int / 2, k + 1);
                lemma_base_mono(start as int / 2, end as int / 2, k + 1);
                lemma_base_div(orig_end as int, k + 1);
                lemma_level_bound(start as int / 2, k + 1);
            }
            start = start / 2;
            end = end / 2;
            shift += 1;
        }
        let mut p: usize = shift;
        while p > 0
            invariant
                self.wf(),
                m == self.models(),
                is_predicate::<T, F>(pred),
                from == range.start + self.len,
                orig_end == range.end + self.len,
                range.start < range.end <= self.len,
                p < usize::BITS,
                from <= base(orig_end as int / (pow2(p as nat) as int), p as nat) <= orig_end,
                T::model(crr) == fold_seq::<T>(
                    m.subrange(from, base(orig_end as int / (pow2(p as nat) as int), p as nat)),
                ),
                from == base(orig_end as int / (pow2(p as nat) as int), p as nat) || accepts::<
                    T,
                    F,
                >(pred, T::model(crr)),
            decreases p,
        {
            p -= 1;
            let ghost k = p as nat;
            let ghost q = orig_end as int / (pow2(k) as int);
            proof {
                lemma_usize_shr_is_div(orig_end, p);
                lemma_base_div(orig_end as int, k);
                lemma_base_children(q / 2, k + 1);
                lemma_base_next(q - 1, k);
                lemma_base_of_zero(k + 1);
            }
            let end = (orig_end >> p) - 1;
            if end % 2 == 0 {
                let nxt = T::op(Self::dup(&crr), self.node(end));
                let ok = pred(&nxt);
                proof {
                    lemma_tested::<T, F>(pred, nxt, ok);
                    lemma_block::<T>(m, self.len as int, end as int, k);
                    lemma_fold_split::<T>(m, from, base(end as int, k), base(end as int, k) + pow2(k));
                }
                if !ok {
                    let i = self.search_subtree_forward(crr, end, pred, Ghost(k), Ghost(from));
                    proof {
                        self.lemma_leaves(range.start as int, i as int);
                        self.lemma_leaves(range.start as int, i as int + 1);
                    }
                    return Ok(i);
                }
                crr = nxt;
            }
        }
        proof {
            lemma_base_zero(orig_end as int);
            self.lemma_leaves(range.start as int, range.end as int);
        }
        Ok(orig_end - self.len)
    }

    /// A boundary of `pred` over the folds that end at `range.end` and grow
    /// down to `range.start`, unless the range is rejected.
    pub fn search_backward<F: Fn(&T::Value) -> bool>(&self, range: Range<usize>, pred: F) -> (res:
        Result<usize, RangeError>)
        requires
            self.wf(),
            is_predicate::<T, F>(pred),
        ensures
            match range_error(self.spec_len() as int, range.start as int, range.end as int) {
                Some(e) => res == Err::<usize, RangeError>(e),
                None => res is Ok && is_backward_boundary::<T, F>(
                    self@,
                    pred,
                    range.start as int,
                    range.end as int,
                    res.unwrap() as int,
                ),
            },
    {
        let Range { mut start, mut end } = range;
        if start > end {
            return Err(RangeError::InvalidRange);
        }
        if end > self.len {
            return Err(RangeError::IndexOutOfRange);
        }
        if start == end {
            return Ok(start);
        }
        start += self.len;
        end += self.len;
        let orig_start_m1 = start - 1;
        let ghost to = end as int;
        let ghost m = self.models();
        let mut crr = T::identity();
        let mut shift: usize = 0;
        proof {
            lemma_base_zero(start as int);
            lemma_base_zero(end as int);
            lemma_fold_empty::<T>(m, to);
        }
        while start != end
            invariant
                self.wf(),
                m == self.models(),
                is_predicate::<T, F>(pred),
                orig_start_m1 + 1 == range.start + self.len,
                to == range.end + self.len,
                range.start < range.end <= self.len,
                1 <= start <= end,
                shift < usize::BITS,
                start == orig_start_m1 as int / (pow2(shift as nat) as int) + 1,
                orig_start_m1 < base(end as int, shift as nat) <= to,
                T::model(crr) == fold_seq::<T>(m.subrange(base(end as int, shift as nat), to)),
                to == base(end as int, shift as nat) || accepts::<T, F>(pred, T::model(crr)),
            decreases end - start,
        {
            let ghost k = shift as nat;
            proof {
                lemma_base_div(orig_start_m1 as int, k);
                lemma_base_next(start as int - 1, k);
                lemma_base_next(end as int - 1, k);
                lemma_base_mono(start as int, end as int - 1, k);
            }
            if end % 2 == 1 {
                end -= 1;
                proof {
                    lemma_block::<T>(m, self.len as int, end as int, k);
                }
                let nxt = T::op(self.node(end), Self::dup(&crr));
                let ok = pred(&nxt);
                proof {
                    lemma_tested::<T, F>(pred, nxt, ok);
                    lemma_fold_split::<T>(
                        m,
                        base(end as int, k),
                        base(end as int, k) + pow2(k),
                        to,
                    );
                }
                if !ok {
                    let i = self.search_subtree_backward(crr, end, pred, Ghost(k), Ghost(to));
                    proof {
                        self.lemma_leaves(i as int, range.end as int);
                        self.lemma_leaves(i as int - 1, range.end as int);
                    }
                    return Ok(i);
                }
                crr = nxt;
            }
            proof {
                lemma_base_children(end as int / 2, k + 1);
                lemma_base_div(orig_start_m1 as int, k + 1);
                lemma_base_next(orig_start_m1 as int / (pow2(k + 1) as int), k + 1);
                lemma_base_mono((start as int + 1) / 2, end as int / 2, k + 1);
                lemma_level_bound(end as int / 2, k + 1);
            }
            start = (start + 1) / 2;
            end = end / 2;
            shift += 1;
        }
        let mut p: usize = shift;
        while p > 0
            invariant
                self.wf(),
                m == self.models(),
                is_predicate::<T, F>(pred),
                orig_start_m1 + 1 == range.start + self.len,
                to == range.end + self.len,
                range.start < range.end <= self.len,
                p < usize::BITS,
                orig_start_m1 < base(
                    orig_start_m1 as int / (pow2(p as nat) as int) + 1,
                    p as nat,
                ) <= to,
                T::model(crr) == fold_seq::<T>(
                    m.subrange(
                        base(orig_start_m1 as int / (pow2(p as nat) as int) + 1, p as nat),
                        to,
                    ),
                ),
                to == base(orig_start_m1 as int / (pow2(p as nat) as int) + 1, p as nat)
                    || accepts::<T, F>(pred, T::model(crr)),
            decreases p,
        {
            p -= 1;
            let ghost k = p as nat;
            let ghost c = orig_start_m1 as int / (pow2(k) as int) + 1;
            proof {
                lemma_usize_shr_is_div(orig_start_m1, p);
                lemma_base_div(orig_start_m1 as int, k);
                lemma_base_children((c + 1) / 2, k + 1);
                lemma_base_next(c - 1, k);
                lemma_base_next(c, k);
            }
            let start = (orig_start_m1 >> p) + 1;
            if start % 2 == 1 {
                proof {
                    lemma_block::<T>(m, self.len as int, start as int, k);
                }
                let nxt = T::op(self.node(start), Self::dup(&crr));
                let ok = pred(&nxt);
                proof {
                    lemma_tested::<T, F>(pred, nxt, ok);
                    lemma_fold_split::<T>(
                        m,
                        base(start as int, k),
                        base(start as int, k) + pow2(k),
                        to,
                    );
                }
                if !ok {
                    let i = self.search_subtree_backward(crr, start, pred, Ghost(k), Ghost(to));
                    proof {
                        self.lemma_leaves(i as int, range.end as int);
                        self.lemma_leaves(i as int - 1, range.end as int);
                    }
                    return Ok(i);
                }
                crr = nxt;
            }
        }
        proof {
            lemma_base_zero(orig_start_m1 as int + 1);
            self.lemma_leaves(range.start as int, range.end as int);
        }
        Ok(orig_start_m1 + 1 - self.len)
    }

    fn search_subtree_backward<F: Fn(&T::Value) -> bool>(
        &self,
        crr: T::Value,
        root: usize,
        pred: F,
        Ghost(level): Ghost<nat>,
        Ghost(to): Ghost<int>,
    ) -> (res: usize)
        requires
            self.wf(),
            is_predicate::<T, F>(pred),
            self.len <= base(root as int, level),
            base(root as int, level) + pow2(level) <= to <= 2 * self.len,
            T::model(crr) == fold_seq::<T>(
                self.models().subrange(base(root as int, level) + pow2(level), to),
            ),
            to == base(root as int, level) + pow2(level) || accepts::<T, F>(pred, T::model(crr)),
            rejects::<T, F>(pred, T::combine(self.models()[root as int], T::model(crr))),
        ensures
            base(root as int, level) < res + self.len <= to,
            res + self.len == to || accepts::<T, F>(
                pred,
                fold_seq::<T>(self.models().subrange(res + self.len, to)),
            ),
            rejects::<T, F>(
                pred,
                fold_seq::<T>(self.models().subrange(res + self.len - 1, to)),
            ),
    {
        let ghost m = self.models();
        let ghost mut k = level;
        let ghost bottom = base(root as int, level);
        let mut crr = crr;
        let mut root = root;
        while root < self.len
            invariant
                self.wf(),
                m == self.models(),
                is_predicate::<T, F>(pred),
                self.len <= bottom <= base(root as int, k),
                base(root as int, k) + pow2(k) <= to <= 2 * self.len,
                T::model(crr) == fold_seq::<T>(m.subrange(base(root as int, k) + pow2(k), to)),
                to == base(root as int, k) + pow2(k) || accepts::<T, F>(pred, T::model(crr)),
                rejects::<T, F>(pred, T::combine(m[root as int], T::model(crr))),
            decreases k,
        {
            proof {
                lemma_block::<T>(m, self.len as int, root as int, k);
                if k == 0 {
                    lemma_base_zero(root as int);
                }
                lemma_base_children(root as int, k);
                lemma_block::<T>(m, self.len as int, 2 * root + 1, (k - 1) as nat);
                lemma_fold_split::<T>(
                    m,
                    base(root as int, k) + pow2((k - 1) as nat),
                    base(root as int, k) + pow2(k),
                    to,
                );
                T::combine_assoc(m[2 * root], m[2 * root + 1], T::model(crr));
            }
            let nxt = T::op(self.node(root * 2 + 1), Self::dup(&crr));
            let ok = pred(&nxt);
            proof {
                lemma_tested::<T, F>(pred, nxt, ok);
                k = (k - 1) as nat;
            }
            if ok {
                crr = nxt;
                root = root * 2;
            } else {
                root = root * 2 + 1;
            }
        }
        proof {
            lemma_block::<T>(m, self.len as int, root as int, k);
            lemma_base_zero(root as int);
            lemma_fold_split::<T>(m, root as int, root as int + 1, to);
            lemma_fold_single::<T>(m, root as int);
        }
        root + 1 - self.len
    }

    /// A range of leaves is a range of the table, moved by the number of
    /// leaves.
    proof fn lemma_leaves(&self, i: int, j: int)
        requires
            self.wf(),
            0 <= i <= j <= self.len,
        ensures
            self@.subrange(i, j) == self.models().subrange(self.len + i, self.len + j),
    {
        assert(self@.subrange(i, j) =~= self.models().subrange(self.len + i, self.len + j));
    }

    fn search_subtree_forward<F: Fn(&T::Value) -> bool>(
        &self,
        crr: T::Value,
        root: usize,
        pred: F,
        Ghost(level): Ghost<nat>,
        Ghost(from): Ghost<int>,
    ) -> (res: usize)
        requires
            self.wf(),
            is_predicate::<T, F>(pred),
            self.len <= from <= base(root as int, level),
            base(root as int, level) + pow2(level) <= 2 * self.len,
            T::model(crr) == fold_seq::<T>(
                self.models().subrange(from, base(root as int, level)),
            ),
            from == base(root as int, level) || accepts::<T, F>(pred, T::model(crr)),
            rejects::<T, F>(pred, T::combine(T::model(crr), self.models()[root as int])),
        ensures
            from <= res + self.len < base(root as int, level) + pow2(level),
            res + self.len == from || accepts::<T, F>(
                pred,
                fold_seq::<T>(self.models().subrange(from, res + self.len)),
            ),
            rejects::<T, F>(
                pred,
                fold_seq::<T>(self.models().subrange(from, res + self.len + 1)),
            ),
    {
        let ghost m = self.models();
        let ghost mut k = level;
        let ghost top = base(root as int, level) + pow2(level);
        let mut crr = crr;
        let mut root = root;
        while root < self.len
            invariant
                self.wf(),
                m == self.models(),
                is_predicate::<T, F>(pred),
                self.len <= from <= base(root as int, k),
                base(root as int, k) + pow2(k) <= top <= 2 * self.len,
                T::model(crr) == fold_seq::<T>(m.subrange(from, base(root as int, k))),
                from == base(root as int, k) || accepts::<T, F>(pred, T::model(crr)),
                rejects::<T, F>(pred, T::combine(T::model(crr), m[root as int])),
            decreases k,
        {
            proof {
                lemma_block::<T>(m, self.len as int, root as int, k);
                if k == 0 {
                    lemma_base_zero(root as int);
                }
                lemma_base_children(root as int, k);
                lemma_block::<T>(m, self.len as int, 2 * root, (k - 1) as nat);
                lemma_fold_split::<T>(
                    m,
                    from,
                    base(root as int, k),
                    base(root as int, k) + pow2((k - 1) as nat),
                );
                T::combine_assoc(T::model(crr), m[2 * root], m[2 * root + 1]);
            }
            let nxt = T::op(Self::dup(&crr), self.node(root * 2));
            let ok = pred(&nxt);
            proof {
                lemma_tested::<T, F>(pred, nxt, ok);
                k = (k - 1) as nat;
            }
            if ok {
                crr = nxt;
                root = root * 2 + 1;
            } else {
                root = root * 2;
            }
        }
        proof {
            lemma_block::<T>(m, self.len as int, root as int, k);
            lemma_base_zero(root as int);
            lemma_fold_split::<T>(m, from, root as int, root as int + 1);
            lemma_fold_single::<T>(m, root as int);
        }
        root - self.len
    }

    fn update(&mut self, i: usize)
        requires
            1 <= i < old(self).len,
            old(self).table@.len() == 2 * old(self).len,
            2 * old(self).len <= usize::MAX,
        ensures
            final(self).len == old(self).len,
            final(self).table@.len() == old(self).table@.len(),
            final(self).models() == old(self).models().update(
                i as int,
                T::combine(old(self).models()[2 * i], old(self).models()[2 * i + 1]),
            ),
            forall|j: int|
                0 <= j < old(self).table@.len() && j != i ==> final(self).table@[j] == old(
                    self,
                ).table@[j],
    {
        let x = T::op(self.node(2 * i), self.node(2 * i + 1));
        self.table[i] = x;
        proof {
            assert(self.models() =~= old(self).models().update(
                i as int,
                T::combine(old(self).models()[2 * i], old(self).models()[2 * i + 1]),
            ));
        }
    }
}

} // verus!
