use crate::levels::{
    base, lemma_base_children, lemma_base_div, lemma_base_double, lemma_base_level_mono,
    lemma_base_lower, lemma_base_mono, lemma_base_next, lemma_base_of_zero, lemma_base_zero,
    lemma_above_top, lemma_level_bound, lemma_on_path_bounds, lemma_on_path_iff_block,
    lemma_quot_unique, lemma_unaligned_up, on_path, unaligned,
};
use std::fmt::Debug;
use std::ops::Range;
use vstd::arithmetic::power2::pow2;
use vstd::bits::{lemma_usize_shl_is_mul, lemma_usize_shr_is_div};
use vstd::prelude::*;

verus! {

/// An associative operation with an identity element, by which values are
/// acted on from the right.
pub trait Ops {
    /// The values that are stored and combined.
    type Value: Clone + Debug;

    /// What a value stands for in contracts.
    type Model;

    /// The model of a value.
    spec fn model(v: Self::Value) -> Self::Model;

    /// The operation, on models.
    spec fn combine(a: Self::Model, b: Self::Model) -> Self::Model;

    /// The identity element, as a model.
    spec fn unit() -> Self::Model;

    /// The operation is associative.
    proof fn combine_assoc(a: Self::Model, b: Self::Model, c: Self::Model)
        ensures
            Self::combine(Self::combine(a, b), c) == Self::combine(a, Self::combine(b, c)),
    ;

    /// The identity element is neutral on both sides.
    proof fn unit_neutral(a: Self::Model)
        ensures
            Self::combine(Self::unit(), a) == a,
            Self::combine(a, Self::unit()) == a,
    ;

    /// A clone stands for the same model as its source.
    proof fn clone_keeps_model(a: Self::Value, b: Self::Value)
        requires
            cloned(a, b),
        ensures
            Self::model(a) == Self::model(b),
    ;

    /// Combines two values, the left one first.
    fn op(lhs: Self::Value, rhs: Self::Value) -> (res: Self::Value)
        ensures
            Self::model(res) == Self::combine(Self::model(lhs), Self::model(rhs)),
    ;

    /// The identity element.
    fn identity() -> (res: Self::Value)
        ensures
            Self::model(res) == Self::unit(),
    ;

    /// Replaces `lhs` by the combination of `lhs` and `rhs`.
    fn op_assign_from_right(lhs: &mut Self::Value, rhs: Self::Value)
        ensures
            Self::model(*final(lhs)) == Self::combine(Self::model(*old(lhs)), Self::model(rhs)),
    {
        let left = lhs.clone();
        proof {
            Self::clone_keeps_model(*lhs, left);
        }
        *lhs = Self::op(left, rhs);
    }
}

/// What has acted on node `i` in all: what is stored at `i`, then what is
/// stored at each of its ancestors, from the nearest to the root.
pub open spec fn effective<O: Ops>(m: Seq<O::Model>, i: int) -> O::Model
    decreases i,
{
    if i <= 0 {
        O::unit()
    } else {
        O::combine(m[i], effective::<O>(m, i / 2))
    }
}

/// Node `u` and all its ancestors hold the identity element.
pub open spec fn clean_from<O: Ops>(m: Seq<O::Model>, u: int) -> bool
    decreases u,
{
    u <= 0 || (m[u] == O::unit() && clean_from::<O>(m, u / 2))
}

/// The table after what is stored at node `i` has moved to its two children.
pub open spec fn pushed<O: Ops>(m: Seq<O::Model>, i: int) -> Seq<O::Model> {
    let a = m.update(i, O::unit());
    let b = a.update(2 * i, O::combine(a[2 * i], m[i]));
    b.update(2 * i + 1, O::combine(b[2 * i + 1], m[i]))
}

/// Nothing has acted on a node that holds the identity element as its
/// ancestors do.
pub proof fn lemma_clean_effective<O: Ops>(m: Seq<O::Model>, u: int)
    requires
        clean_from::<O>(m, u),
    ensures
        effective::<O>(m, u) == O::unit(),
    decreases u,
{
    if u > 0 {
        lemma_clean_effective::<O>(m, u / 2);
        O::unit_neutral(O::unit());
    }
}

/// Where the first `n` nodes hold the identity element, each of them is
/// clean with its ancestors.
pub proof fn lemma_all_clean<O: Ops>(m: Seq<O::Model>, n: int, u: int)
    requires
        forall|j: int| 0 <= j < n ==> #[trigger] m[j] == O::unit(),
        u < n,
    ensures
        clean_from::<O>(m, u),
    decreases u,
{
    if u > 0 {
        lemma_all_clean::<O>(m, n, u / 2);
    }
}

/// Moving what is stored at the unused node zero changes nothing.
pub proof fn lemma_push_zero<O: Ops>(m: Seq<O::Model>)
    requires
        2 <= m.len(),
        m[0] == O::unit(),
    ensures
        pushed::<O>(m, 0) == m,
{
    O::unit_neutral(O::unit());
    O::unit_neutral(m[1]);
    assert(pushed::<O>(m, 0) =~= m);
}

/// Moving what is stored at node `i` to its children changes what has acted
/// on no other node.
pub proof fn lemma_push_keeps<O: Ops>(m: Seq<O::Model>, i: int, t: int)
    requires
        1 <= i,
        2 * i + 1 < m.len(),
        0 <= t < m.len(),
        t != i,
    ensures
        effective::<O>(pushed::<O>(m, i), t) == effective::<O>(m, t),
    decreases t,
{
    let after = pushed::<O>(m, i);
    if t >= 1 {
        if t / 2 == i {
            let above = effective::<O>(m, i / 2);
            lemma_push_keeps::<O>(m, i, i / 2);
            assert(after[i] == O::unit());
            assert(after[t] == O::combine(m[t], m[i]));
            assert(effective::<O>(after, i) == O::combine(after[i], effective::<O>(after, i / 2)));
            assert(effective::<O>(after, t) == O::combine(after[t], effective::<O>(after, i)));
            assert(effective::<O>(m, i) == O::combine(m[i], above));
            assert(effective::<O>(m, t) == O::combine(m[t], effective::<O>(m, i)));
            O::unit_neutral(above);
            O::combine_assoc(m[t], m[i], above);
        } else {
            lemma_push_keeps::<O>(m, i, t / 2);
            assert(after[t] == m[t]);
        }
    }
}

/// An array of fixed length on whose ranges values act from the right.
#[derive(Clone, Default, PartialEq)]
pub struct DualSegtree<O: Ops> {
    table: Vec<O::Value>,
}

/// After `x` has acted on node `b`, whose ancestors hold the identity
/// element, it has acted on the nodes below `b` and on `b`, and on no other.
pub proof fn lemma_act_on_node<O: Ops>(m: Seq<O::Model>, b: int, x: O::Model, t: int)
    requires
        1 <= b < m.len(),
        0 <= t < m.len(),
        clean_from::<O>(m, b / 2),
    ensures
        effective::<O>(m.update(b, O::combine(m[b], x)), t) == if on_path(b, t) {
            O::combine(effective::<O>(m, t), x)
        } else {
            effective::<O>(m, t)
        },
    decreases t,
{
    let after = m.update(b, O::combine(m[b], x));
    if t >= 1 {
        lemma_act_on_node::<O>(m, b, x, t / 2);
        assert(effective::<O>(after, t) == O::combine(after[t], effective::<O>(after, t / 2)));
        assert(effective::<O>(m, t) == O::combine(m[t], effective::<O>(m, t / 2)));
        if t == b {
            if on_path(b, b / 2) {
                lemma_on_path_bounds(b, b / 2);
            }
            lemma_clean_effective::<O>(m, b / 2);
            O::unit_neutral(m[b]);
            O::unit_neutral(O::combine(m[b], x));
        } else if on_path(b, t / 2) {
            O::combine_assoc(m[t], effective::<O>(m, t / 2), x);
        }
    }
}

/// Above level `k`, the nodes over `i` hold the identity element wherever
/// `i` is not their base.
pub open spec fn clean_path_above<O: Ops>(m: Seq<O::Model>, i: int, k: nat) -> bool {
    forall|q: nat| q > k && #[trigger] unaligned(i, q) ==> m[i / (pow2(q) as int)] == O::unit()
}

/// Where the path over `i` is clean above level `k`, a node on it above that
/// level, of which `i` is not the base, is clean with its ancestors.
pub proof fn lemma_clean_path_from<O: Ops>(m: Seq<O::Model>, i: int, k: nat, q: nat)
    requires
        0 <= i,
        q > k,
        unaligned(i, q),
        clean_path_above::<O>(m, i, k),
    ensures
        clean_from::<O>(m, i / (pow2(q) as int)),
    decreases i / (pow2(q) as int),
{
    let u = i / (pow2(q) as int);
    lemma_base_div(i, q);
    if u > 0 {
        lemma_unaligned_up(i, q);
        lemma_clean_path_from::<O>(m, i, k, q + 1);
    }
}

/// Moving what is stored at a node to its children keeps a clean path clean.
pub proof fn lemma_push_keeps_clean_path<O: Ops>(m: Seq<O::Model>, u: int, j: int, k: nat)
    requires
        0 <= u,
        2 * u + 1 < m.len(),
        m[0] == O::unit(),
        0 <= j <= m.len(),
        clean_path_above::<O>(m, j, k),
    ensures
        clean_path_above::<O>(pushed::<O>(m, u), j, k),
{
    let after = pushed::<O>(m, u);
    if u == 0 {
        lemma_push_zero::<O>(m);
    } else {
        assert forall|q: nat| q > k && #[trigger] unaligned(j, q) implies after[j / (pow2(q) as int)]
            == O::unit() by {
            let c = j / (pow2(q) as int);
            lemma_base_div(j, q);
            lemma_base_lower(c, q);
            assert(m[c] == O::unit());
            assert(after[u] == O::unit());
            if c == 2 * u || c == 2 * u + 1 {
                lemma_unaligned_up(j, q);
                assert(unaligned(j, q + 1));
                assert(m[u] == O::unit());
                O::unit_neutral(O::unit());
            }
        }
    }
}

/// Where the path over `from` is clean above level `k`, the ancestors of an
/// odd node that is the first at level `k` not before `from` are clean.
pub proof fn lemma_left_block_clean<O: Ops>(m: Seq<O::Model>, from: int, k: nat, l: int)
    requires
        1 <= from,
        l % 2 == 1,
        l == (from - 1) / (pow2(k) as int) + 1,
        clean_path_above::<O>(m, from, k),
    ensures
        clean_from::<O>(m, l / 2),
{
    let c = (from - 1) / (pow2(k + 1) as int);
    lemma_base_div(from - 1, k);
    lemma_base_children(c, k + 1);
    lemma_base_double(1, k);
    lemma_quot_unique(from, k + 1, c);
    lemma_clean_path_from::<O>(m, from, k, k + 1);
}

/// Where the path over `to` is clean above level `k`, the ancestors of an odd
/// node that holds `to` at level `k` are clean.
pub proof fn lemma_right_block_clean<O: Ops>(m: Seq<O::Model>, to: int, k: nat, r: int)
    requires
        0 <= to,
        r % 2 == 1,
        r == to / (pow2(k) as int),
        clean_path_above::<O>(m, to, k),
    ensures
        clean_from::<O>(m, r / 2),
{
    let c = to / (pow2(k + 1) as int);
    lemma_base_div(to, k);
    lemma_base_div(to, k + 1);
    if !unaligned(to, k + 1) {
        lemma_base_children(c, k + 1);
        lemma_base_next(2 * c, k);
        lemma_quot_unique(to, k, 2 * c);
    }
    lemma_clean_path_from::<O>(m, to, k, k + 1);
}

/// Acting on a node whose stretch at level `k` lies among the leaves from
/// `from` on keeps the paths over `from` and over `to` clean above `k`.
pub proof fn lemma_act_keeps_clean_paths<O: Ops>(
    m: Seq<O::Model>,
    b: int,
    k: nat,
    x: O::Model,
    n: int,
    from: int,
    to: int,
)
    requires
        1 <= n,
        m.len() == 2 * n,
        0 <= b < m.len(),
        0 <= from <= base(b, k),
        from <= 2 * n,
        n <= base(b, k),
        0 <= to <= 2 * n,
        clean_path_above::<O>(m, from, k),
        clean_path_above::<O>(m, to, k),
    ensures
        clean_path_above::<O>(m.update(b, O::combine(m[b], x)), from, k),
        clean_path_above::<O>(m.update(b, O::combine(m[b], x)), to, k),
{
    let after = m.update(b, O::combine(m[b], x));
    assert forall|q: nat| q > k && #[trigger] unaligned(from, q) implies after[from / (pow2(q) as int)]
        == O::unit() by {
        let c = from / (pow2(q) as int);
        lemma_base_div(from, q);
        lemma_base_lower(c, q);
        lemma_base_level_mono(b, k, q);
        assert(c != b);
        assert(m[c] == O::unit());
    }
    assert forall|q: nat| q > k && #[trigger] unaligned(to, q) implies after[to / (pow2(q) as int)]
        == O::unit() by {
        let c = to / (pow2(q) as int);
        lemma_base_div(to, q);
        lemma_base_lower(c, q);
        lemma_base_level_mono(b, k + 1, q);
        lemma_base_double(b, k);
        assert(c != b);
        assert(m[c] == O::unit());
    }
}

fn push_down<O: Ops>(a: &mut Vec<O::Value>, i: usize)
    requires
        2 * i + 1 < old(a)@.len(),
    ensures
        final(a)@.len() == old(a)@.len(),
        models::<O>(final(a)@) == pushed::<O>(models::<O>(old(a)@), i as int),
{
    let ghost before = models::<O>(a@);
    assert(2 * i + 1 <= usize::MAX) by {
        vstd::std_specs::vec::axiom_spec_len(a);
    }
    let mut x = O::identity();
    core::mem::swap(&mut x, &mut a[i]);
    let y = x.clone();
    proof {
        O::clone_keeps_model(x, y);
    }
    O::op_assign_from_right(&mut a[2 * i], y);
    O::op_assign_from_right(&mut a[2 * i + 1], x);
    proof {
        assert(models::<O>(a@) =~= pushed::<O>(before, i as int));
    }
}

/// A table of even length whose unused node holds the identity element.
pub open spec fn is_table<O: Ops>(m: Seq<O::Model>) -> bool {
    &&& m.len() % 2 == 0
    &&& m.len() > 0 ==> m[0] == O::unit()
}

fn update_all<O: Ops>(a: &mut Vec<O::Value>)
    ensures
        final(a)@.len() == old(a)@.len(),
        is_table::<O>(models::<O>(old(a)@)) ==> forall|j: int|
            0 <= j < old(a)@.len() / 2 ==> #[trigger] models::<O>(final(a)@)[j] == O::unit(),
        is_table::<O>(models::<O>(old(a)@)) ==> forall|t: int|
            old(a)@.len() / 2 <= t < old(a)@.len() ==> #[trigger] models::<O>(final(a)@)[t]
                == effective::<O>(models::<O>(old(a)@), t),
{
    let ghost before = models::<O>(a@);
    let ghost good = is_table::<O>(before);
    let n = a.len() / 2;
    let mut i: usize = 0;
    while i < n
        invariant
            i <= n,
            n == a@.len() / 2,
            before.len() == a@.len(),
            good == is_table::<O>(before),
            good && n > 0 ==> models::<O>(a@)[0] == O::unit(),
            good ==> forall|j: int| 0 <= j < i ==> #[trigger] models::<O>(a@)[j] == O::unit(),
            good ==> forall|t: int|
                i <= t < 2 * n ==> #[trigger] effective::<O>(models::<O>(a@), t) == effective::<O>(
                    before,
                    t,
                ),
        decreases n - i,
    {
        let ghost m = models::<O>(a@);
        push_down::<O>(a, i);
        proof {
            if good {
                if i == 0 {
                    lemma_push_zero::<O>(m);
                } else {
                    assert forall|t: int| i < t < 2 * n implies #[trigger] effective::<O>(
                        models::<O>(a@),
                        t,
                    ) == effective::<O>(before, t) by {
                        lemma_push_keeps::<O>(m, i as int, t);
                    }
                }
            }
        }
        i += 1;
    }
    proof {
        if good {
            let m = models::<O>(a@);
            assert forall|t: int| n <= t < 2 * n implies #[trigger] m[t] == effective::<O>(
                before,
                t,
            ) by {
                lemma_all_clean::<O>(m, n as int, t / 2);
                lemma_clean_effective::<O>(m, t / 2);
                O::unit_neutral(m[t]);
                assert(effective::<O>(m, t) == O::combine(m[t], effective::<O>(m, t / 2)));
            }
        }
    }
}

/// The models of the values of a table.
pub open spec fn models<O: Ops>(a: Seq<O::Value>) -> Seq<O::Model> {
    Seq::new(a.len(), |i: int| O::model(a[i]))
}

impl<O: Ops> DualSegtree<O> {
    /// The table is made of two halves, and its unused node holds the
    /// identity element.
    pub closed spec fn wf(&self) -> bool {
        is_table::<O>(models::<O>(self.table@))
    }

    /// The number of elements.
    pub closed spec fn spec_len(&self) -> nat {
        self.table@.len() / 2
    }

    /// The elements, each with all that has acted on it.
    pub closed spec fn view(&self) -> Seq<O::Model> {
        Seq::new(
            self.table@.len() / 2,
            |j: int| effective::<O>(models::<O>(self.table@), self.table@.len() / 2 + j),
        )
    }

    /// The elements are as many as `spec_len` says.
    pub proof fn lemma_view_len(&self)
        ensures
            self@.len() == self.spec_len(),
    {
    }

    /// The array of the elements of `values`, in order.
    pub fn new(values: Vec<O::Value>) -> (res: Self)
        requires
            2 * values@.len() <= usize::MAX,
        ensures
            res.wf(),
            res.spec_len() == values@.len(),
            res@ == models::<O>(values@),
    {
        let ghost src = values@;
        let mut values = values;
        let n = values.len();
        let mut table: Vec<O::Value> = Vec::new();
        let mut i: usize = 0;
        while i < n
            invariant
                i <= n,
                table@.len() == i,
                forall|j: int| 0 <= j < i ==> O::model(#[trigger] table@[j]) == O::unit(),
            decreases n - i,
        {
            table.push(O::identity());
            i += 1;
        }
        table.append(&mut values);
        let res = DualSegtree { table };
        proof {
            let m = models::<O>(res.table@);
            assert forall|j: int| 0 <= j < n implies #[trigger] res@[j] == O::model(src[j]) by {
                lemma_all_clean::<O>(m, n as int, (n + j) / 2);
                lemma_clean_effective::<O>(m, (n + j) / 2);
                O::unit_neutral(m[n + j]);
                assert(effective::<O>(m, n + j) == O::combine(
                    m[n + j],
                    effective::<O>(m, (n + j) / 2),
                ));
            }
            assert(res@ =~= models::<O>(src));
        }
        res
    }

    /// Whether there are no elements.
    pub fn is_empty(&self) -> (res: bool)
        requires
            self.wf(),
        ensures
            res == (self.spec_len() == 0),
    {
        self.table.is_empty()
    }

    /// The number of elements.
    pub fn len(&self) -> (res: usize)
        ensures
            res == self.spec_len(),
    {
        self.table.len() / 2
    }

    /// The elements, each with all that has acted on it; what was pending
    /// is settled on the way.
    pub fn to_vec(&mut self) -> (res: Vec<O::Value>)
        requires
            old(self).wf(),
        ensures
            final(self).wf(),
            final(self)@ == old(self)@,
            models::<O>(res@) == old(self)@,
    {
        update_all::<O>(&mut self.table);
        let res = leaves::<O>(&self.table);
        proof {
            let m = models::<O>(self.table@);
            let n = self.table@.len() / 2;
            assert forall|j: int| 0 <= j < n implies #[trigger] self@[j] == m[n + j] by {
                lemma_all_clean::<O>(m, n as int, (n + j) / 2);
                lemma_clean_effective::<O>(m, (n + j) / 2);
                O::unit_neutral(m[n + j]);
                assert(effective::<O>(m, n + j) == O::combine(
                    m[n + j],
                    effective::<O>(m, (n + j) / 2),
                ));
            }
            assert(n > 0 ==> m[0] == O::unit());
            assert(self@ =~= old(self)@);
            assert(models::<O>(res@) =~= old(self)@);
        }
        res
    }

    /// The elements, each with all that has acted on it.
    pub fn into_vec(self) -> (res: Vec<O::Value>)
        requires
            self.wf(),
        ensures
            models::<O>(res@) == self@,
    {
        let mut table = self.table;
        update_all::<O>(&mut table);
        let res = leaves::<O>(&table);
        proof {
            assert(models::<O>(res@) =~= self@);
        }
        res
    }

    /// The elements, each with all that has acted on it; the array itself is
    /// left as it is.
    pub fn silent_collect(&self) -> (res: Vec<O::Value>)
        ensures
            self.wf() ==> models::<O>(res@) == self@,
    {
        let mut table = copy_of::<O>(&self.table);
        proof {
            if table@.len() > 0 {
                assert(models::<O>(table@)[0] == models::<O>(self.table@)[0]);
                assert(models::<O>(self.table@)[0] == O::model(self.table@[0]));
            }
        }
        update_all::<O>(&mut table);
        let res = leaves::<O>(&table);
        proof {
            if self.wf() {
                assert(models::<O>(res@) =~= self@);
            }
        }
        res
    }

    /// Lets `x` act, from the right, on the elements in `range`.
    pub fn apply(&mut self, range: Range<usize>, x: O::Value)
        requires
            old(self).wf(),
            range.start <= range.end <= old(self).spec_len(),
        ensures
            final(self).wf(),
            final(self).spec_len() == old(self).spec_len(),
            final(self)@ == Seq::new(
                old(self).spec_len(),
                |j: int|
                    if range.start <= j < range.end {
                        O::combine(old(self)@[j], O::model(x))
                    } else {
                        old(self)@[j]
                    },
            ),
    {
        let Range { mut start, mut end } = range;
        let n = self.table.len() / 2;
        start += n;
        end += n;
        let ghost from = start as int;
        let ghost to = end as int;
        self.thrust(start, Ghost(from));
        self.thrust(end, Ghost(from));
        let ghost m0 = models::<O>(self.table@);
        if start == end {
            proof {
                assert(self@ =~= old(self)@);
            }
            return ;
        }
        let ghost mut k: nat = 0;
        proof {
            lemma_base_zero(from);
            lemma_base_zero(to);
            lemma_base_zero(from - 1);
        }
        while start != end
            invariant
                self.table@.len() == 2 * n,
                models::<O>(self.table@)[0] == O::unit(),
                1 <= n <= from < to <= 2 * n,
                1 <= start <= end,
                start == (from - 1) / (pow2(k) as int) + 1,
                end == to / (pow2(k) as int),
                from <= base(start as int, k) <= base(end as int, k) <= to,
                clean_path_above::<O>(models::<O>(self.table@), from, k),
                clean_path_above::<O>(models::<O>(self.table@), to, k),
                forall|t: int|
                    n <= t < 2 * n ==> #[trigger] effective::<O>(models::<O>(self.table@), t) == if from
                        <= t < base(start as int, k) || base(end as int, k) <= t < to {
                        O::combine(effective::<O>(m0, t), O::model(x))
                    } else {
                        effective::<O>(m0, t)
                    },
            decreases end - start,
        {
            proof {
                lemma_base_div(from - 1, k);
                lemma_base_div(to, k);
                lemma_base_next(start as int, k);
                lemma_base_next(end as int - 1, k);
                lemma_base_mono(start as int + 1, end as int, k);
                lemma_base_mono(start as int, end as int - 1, k);
            }
            if start % 2 == 1 {
                let ghost m = models::<O>(self.table@);
                proof {
                    lemma_left_block_clean::<O>(m, from, k, start as int);
                    assert forall|t: int| n <= t < 2 * n implies #[trigger] effective::<O>(
                        m.update(start as int, O::combine(m[start as int], O::model(x))),
                        t,
                    ) == if base(start as int, k) <= t < base(start as int, k) + pow2(k) {
                        O::combine(effective::<O>(m, t), O::model(x))
                    } else {
                        effective::<O>(m, t)
                    } by {
                        lemma_act_on_node::<O>(m, start as int, O::model(x), t);
                        lemma_on_path_iff_block(n as int, start as int, k, t);
                    }
                    lemma_act_keeps_clean_paths::<O>(
                        m,
                        start as int,
                        k,
                        O::model(x),
                        n as int,
                        from,
                        to,
                    );
                }
                let y = x.clone();
                proof {
                    O::clone_keeps_model(x, y);
                }
                O::op_assign_from_right(&mut self.table[start], y);
                proof {
                    assert(models::<O>(self.table@) =~= m.update(
                        start as int,
                        O::combine(m[start as int], O::model(x)),
                    ));
                }
                start += 1;
            }
            if end % 2 == 1 {
                end -= 1;
                let ghost m = models::<O>(self.table@);
                proof {
                    lemma_right_block_clean::<O>(m, to, k, end as int + 1);
                    assert forall|t: int| n <= t < 2 * n implies #[trigger] effective::<O>(
                        m.update(end as int, O::combine(m[end as int], O::model(x))),
                        t,
                    ) == if base(end as int, k) <= t < base(end as int, k) + pow2(k) {
                        O::combine(effective::<O>(m, t), O::model(x))
                    } else {
                        effective::<O>(m, t)
                    } by {
                        lemma_act_on_node::<O>(m, end as int, O::model(x), t);
                        lemma_on_path_iff_block(n as int, end as int, k, t);
                    }
                    lemma_act_keeps_clean_paths::<O>(
                        m,
                        end as int,
                        k,
                        O::model(x),
                        n as int,
                        from,
                        to,
                    );
                }
                let y = x.clone();
                proof {
                    O::clone_keeps_model(x, y);
                }
                O::op_assign_from_right(&mut self.table[end], y);
                proof {
                    assert(models::<O>(self.table@) =~= m.update(
                        end as int,
                        O::combine(m[end as int], O::model(x)),
                    ));
                }
            }
            proof {
                lemma_base_children(start as int / 2, k + 1);
                lemma_base_children(end as int / 2, k + 1);
                lemma_base_mono(start as int / 2, end as int / 2, k + 1);
                k = k + 1;
            }
            start /= 2;
            end /= 2;
        }
        proof {
            assert(self@ =~= Seq::new(
                old(self).spec_len(),
                |j: int|
                    if range.start <= j < range.end {
                        O::combine(old(self)@[j], O::model(x))
                    } else {
                        old(self)@[j]
                    },
            ));
        }
    }

    fn lg(&self) -> (res: usize)
        ensures
            self.spec_len() <= pow2(res as nat),
            res < usize::BITS,
    {
        let n = self.table.len() / 2;
        let mut p: usize = 0;
        let mut c: usize = 1;
        proof {
            lemma_base_zero(1);
            lemma_level_bound(1, 0);
        }
        while c < n
            invariant
                c == pow2(p as nat),
                1 <= c,
                p < usize::BITS,
                2 * n <= usize::MAX,
            decreases usize::BITS - p,
        {
            proof {
                lemma_base_double(1, p as nat);
                assert(base(1, (p + 1) as nat) == pow2((p + 1) as nat)) by (nonlinear_arith)
                    requires
                        base(1, (p + 1) as nat) == 1 * pow2((p + 1) as nat),
                ;
                lemma_level_bound(1, (p + 1) as nat);
            }
            c = c * 2;
            p += 1;
        }
        p
    }

    fn thrust(&mut self, i: usize, Ghost(other): Ghost<int>)
        requires
            old(self).wf(),
            i <= old(self).table@.len(),
            0 <= other <= old(self).table@.len(),
        ensures
            final(self).wf(),
            final(self).table@.len() == old(self).table@.len(),
            final(self)@ == old(self)@,
            forall|t: int|
                old(self).table@.len() / 2 <= t < old(self).table@.len() ==> #[trigger] effective::<O>(
                    models::<O>(final(self).table@),
                    t,
                ) == effective::<O>(models::<O>(old(self).table@), t),
            clean_path_above::<O>(models::<O>(final(self).table@), i as int, 0),
            clean_path_above::<O>(models::<O>(old(self).table@), other, 0) ==> clean_path_above::<O>(
                models::<O>(final(self).table@),
                other,
                0,
            ),
    {
        let lg = self.lg();
        let ghost n = self.table@.len() / 2;
        let ghost before = models::<O>(self.table@);
        let mut p: usize = lg;
        proof {
            lemma_base_double(1, lg as nat);
            assert forall|q: nat| q > lg && #[trigger] unaligned(i as int, q) implies before[i as int
                / (pow2(q) as int)] == O::unit() by {
                lemma_above_top(i as int, (lg + 1) as nat, q);
                lemma_base_of_zero(q);
                assert(before[0] == O::model(self.table@[0]));
            }
        }
        while p > 0
            invariant
                self.wf(),
                self.table@.len() == 2 * n,
                before.len() == 2 * n,
                i <= 2 * n,
                0 <= other <= 2 * n,
                p <= lg < usize::BITS,
                forall|t: int|
                    n <= t < 2 * n ==> #[trigger] effective::<O>(models::<O>(self.table@), t)
                        == effective::<O>(before, t),
                clean_path_above::<O>(models::<O>(self.table@), i as int, p as nat),
                clean_path_above::<O>(before, other, 0) ==> clean_path_above::<O>(
                    models::<O>(self.table@),
                    other,
                    0,
                ),
            decreases p,
        {
            let ghost m = models::<O>(self.table@);
            proof {
                assert(n > 0 ==> m[0] == O::model(self.table@[0]));
                lemma_usize_shr_is_div(i, p);
                lemma_base_div(i as int, p as nat);
                lemma_usize_shl_is_mul(i >> p, p);
            }
            if (i >> p) << p != i {
                let u = i >> p;
                proof {
                    lemma_base_lower(u as int, p as nat);
                }
                self.push(u);
                proof {
                    lemma_push_keeps_clean_path::<O>(m, u as int, i as int, p as nat);
                    if clean_path_above::<O>(m, other, 0) {
                        lemma_push_keeps_clean_path::<O>(m, u as int, other, 0);
                    }
                    if u == 0 {
                        lemma_push_zero::<O>(m);
                    } else {
                        assert forall|t: int| n <= t < 2 * n implies #[trigger] effective::<O>(
                            models::<O>(self.table@),
                            t,
                        ) == effective::<O>(before, t) by {
                            lemma_push_keeps::<O>(m, u as int, t);
                        }
                    }
                    assert(models::<O>(self.table@)[u as int] == O::unit());
                    assert(models::<O>(self.table@)[0] == O::unit());
                    assert(models::<O>(self.table@)[0] == O::model(self.table@[0]));
                }
            }
            proof {
                let after = models::<O>(self.table@);
                assert forall|q: nat| q > p - 1 && #[trigger] unaligned(i as int, q) implies after[i as int
                    / (pow2(q) as int)] == O::unit() by {
                    if q > p {
                        assert(clean_path_above::<O>(after, i as int, p as nat));
                    }
                }
            }
            p -= 1;
        }
        proof {
            assert(self@ =~= old(self)@);
        }
    }

    fn push(&mut self, i: usize)
        requires
            2 * i + 1 < old(self).table@.len(),
        ensures
            final(self).table@.len() == old(self).table@.len(),
            models::<O>(final(self).table@) == pushed::<O>(models::<O>(old(self).table@), i as int),
    {
        push_down::<O>(&mut self.table, i);
    }
}

fn leaves<O: Ops>(a: &Vec<O::Value>) -> (res: Vec<O::Value>)
    ensures
        models::<O>(res@) == models::<O>(a@).subrange((a@.len() / 2) as int, a@.len() as int),
{
    let n = a.len() / 2;
    let mut res: Vec<O::Value> = Vec::new();
    let mut i: usize = n;
    while i < a.len()
        invariant
            n == a@.len() / 2,
            n <= i <= a@.len(),
            res@.len() == i - n,
            forall|j: int| 0 <= j < i - n ==> O::model(#[trigger] res@[j]) == O::model(a@[n + j]),
        decreases a@.len() - i,
    {
        let x = a[i].clone();
        proof {
            O::clone_keeps_model(a@[i as int], x);
        }
        res.push(x);
        i += 1;
    }
    proof {
        assert(models::<O>(res@) =~= models::<O>(a@).subrange(n as int, a@.len() as int));
    }
    res
}

fn copy_of<O: Ops>(a: &Vec<O::Value>) -> (res: Vec<O::Value>)
    ensures
        res@.len() == a@.len(),
        models::<O>(res@) == models::<O>(a@),
{
    let mut res: Vec<O::Value> = Vec::new();
    let mut i: usize = 0;
    while i < a.len()
        invariant
            i <= a@.len(),
            res@.len() == i,
            forall|j: int| 0 <= j < i ==> O::model(#[trigger] res@[j]) == O::model(a@[j]),
        decreases a@.len() - i,
    {
        let x = a[i].clone();
        proof {
            O::clone_keeps_model(a@[i as int], x);
        }
        res.push(x);
        i += 1;
    }
    proof {
        assert(models::<O>(res@) =~= models::<O>(a@));
    }
    res
}

} // verus!
