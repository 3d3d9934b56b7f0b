use crate::dual_segtree::Ops;
use vstd::prelude::*;

verus! {

/// An associative operation with an identity element, on values that are
/// seen through a mathematical model.
pub trait Identity {
    /// The values that are stored and combined.
    type Value: Clone;

    /// What a value stands for in contracts.
    type Model;

    /// The model of a value.
    spec fn model(v: Self::Value) -> Self::Model;

    /// The operation, on models.
    spec fn combine(a: Self::Model, b: Self::Model) -> Self::Model;

    /// The identity element, as a model.
    spec fn unit() -> Self::Model;

    /// The operation is associative.
    proof fn combine_assoc(a: Self::Model, b: Self::Model, c: Self::Model)
        ensures
            Self::combine(Self::combine(a, b), c) == Self::combine(a, Self::combine(b, c)),
    ;

    /// The identity element is neutral on both sides.
    proof fn unit_neutral(a: Self::Model)
        ensures
            Self::combine(Self::unit(), a) == a,
            Self::combine(a, Self::unit()) == a,
    ;

    /// A clone stands for the same model as its source.
    proof fn clone_keeps_model(a: Self::Value, b: Self::Value)
        requires
            cloned(a, b),
        ensures
            Self::model(a) == Self::model(b),
    ;

    /// Combines two values, the left one first.
    fn op(lhs: Self::Value, rhs: Self::Value) -> (res: Self::Value)
        ensures
            Self::model(res) == Self::combine(Self::model(lhs), Self::model(rhs)),
    ;

    /// The identity element.
    fn identity() -> (res: Self::Value)
        ensures
            Self::model(res) == Self::unit(),
    ;

    /// Replaces `lhs` by the combination of `lhs` and `rhs`.
    fn op_left(lhs: &mut Self::Value, rhs: Self::Value)
        ensures
            Self::model(*final(lhs)) == Self::combine(Self::model(*old(lhs)), Self::model(rhs)),
    {
        let left = lhs.clone();
        proof {
            Self::clone_keeps_model(*lhs, left);
        }
        *lhs = Self::op(left, rhs);
    }

    /// Replaces `rhs` by the combination of `lhs` and `rhs`.
    fn op_right(lhs: Self::Value, rhs: &mut Self::Value)
        ensures
            Self::model(*final(rhs)) == Self::combine(Self::model(lhs), Self::model(*old(rhs))),
    {
        let right = rhs.clone();
        proof {
            Self::clone_keeps_model(*rhs, right);
        }
        *rhs = Self::op(lhs, right);
    }
}

/// The combination of the elements of `s`, from left to right, starting from
/// the identity element.
pub open spec fn fold_seq<T: Identity>(s: Seq<T::Model>) -> T::Model
    decreases s.len(),
{
    if s.len() == 0 {
        T::unit()
    } else {
        T::combine(fold_seq::<T>(s.drop_last()), s.last())
    }
}

/// The fold of a single element is that element.
pub proof fn lemma_fold_one<T: Identity>(s: Seq<T::Model>)
    requires
        s.len() == 1,
    ensures
        fold_seq::<T>(s) == s[0],
{
    assert(s.drop_last().len() == 0);
    assert(fold_seq::<T>(s.drop_last()) == T::unit());
    T::unit_neutral(s[0]);
}

/// The fold of a concatenation is the combination of the two folds.
pub proof fn lemma_fold_concat<T: Identity>(a: Seq<T::Model>, b: Seq<T::Model>)
    ensures
        fold_seq::<T>(a + b) == T::combine(fold_seq::<T>(a), fold_seq::<T>(b)),
    decreases b.len(),
{
    if b.len() == 0 {
        assert(a + b =~= a);
        T::unit_neutral(fold_seq::<T>(a));
    } else {
        assert((a + b).drop_last() =~= a + b.drop_last());
        assert((a + b).last() == b.last());
        lemma_fold_concat::<T>(a, b.drop_last());
        T::combine_assoc(fold_seq::<T>(a), fold_seq::<T>(b.drop_last()), b.last());
    }
}

/// The fold of a range is the combination of the folds of its two parts.
pub proof fn lemma_fold_split<T: Identity>(s: Seq<T::Model>, i: int, j: int, k: int)
    requires
        0 <= i <= j <= k <= s.len(),
    ensures
        fold_seq::<T>(s.subrange(i, k)) == T::combine(
            fold_seq::<T>(s.subrange(i, j)),
            fold_seq::<T>(s.subrange(j, k)),
        ),
{
    assert(s.subrange(i, k) =~= s.subrange(i, j) + s.subrange(j, k));
    lemma_fold_concat::<T>(s.subrange(i, j), s.subrange(j, k));
}

/// The fold of a range of one element is that element.
pub proof fn lemma_fold_single<T: Identity>(s: Seq<T::Model>, i: int)
    requires
        0 <= i < s.len(),
    ensures
        fold_seq::<T>(s.subrange(i, i + 1)) == s[i],
{
    lemma_fold_one::<T>(s.subrange(i, i + 1));
}

/// The fold of an empty range is the identity element.
pub proof fn lemma_fold_empty<T: Identity>(s: Seq<T::Model>, i: int)
    requires
        0 <= i <= s.len(),
    ensures
        fold_seq::<T>(s.subrange(i, i)) == T::unit(),
{
}

/// A sum of two 32-bit numbers wraps around at most once.
pub proof fn lemma_wrap_once(x: int)
    requires
        0 <= x < 2 * 0x1_0000_0000,
    ensures
        x % 0x1_0000_0000 == if x < 0x1_0000_0000 {
            x
        } else {
            x - 0x1_0000_0000
        },
{
}

/// Addition of `u32` modulo two to the power 32.
#[derive(Debug, Clone, Copy, PartialEq, Eq, Default)]
pub struct AddU32;

impl Identity for AddU32 {
    type Value = u32;

    type Model = u32;

    open spec fn model(v: u32) -> u32 {
        v
    }

    open spec fn combine(a: u32, b: u32) -> u32 {
        ((a + b) % 0x1_0000_0000) as u32
    }

    open spec fn unit() -> u32 {
        0
    }

    proof fn combine_assoc(a: u32, b: u32, c: u32) {
        lemma_wrap_once(a + b);
        lemma_wrap_once(b + c);
        lemma_wrap_once(Self::combine(a, b) + c);
        lemma_wrap_once(a + Self::combine(b, c));
    }

    proof fn unit_neutral(a: u32) {
    }

    proof fn clone_keeps_model(a: u32, b: u32) {
    }

    fn op(lhs: u32, rhs: u32) -> (res: u32) {
        lhs.wrapping_add(rhs)
    }

    fn identity() -> (res: u32) {
        0
    }
}

/// Concatenation of sequences of characters.
#[derive(Debug, Clone, Copy, PartialEq, Eq, Default)]
pub struct Concat;

/// The characters of `a`, then those of `b`.
pub fn concat(a: Vec<char>, b: Vec<char>) -> (res: Vec<char>)
    ensures
        res@ == a@ + b@,
{
    let mut res = a;
    let mut b = b;
    res.append(&mut b);
    res
}

impl Identity for Concat {
    type Value = Vec<char>;

    type Model = Seq<char>;

    open spec fn model(v: Vec<char>) -> Seq<char> {
        v@
    }

    open spec fn combine(a: Seq<char>, b: Seq<char>) -> Seq<char> {
        a + b
    }

    open spec fn unit() -> Seq<char> {
        Seq::empty()
    }

    proof fn combine_assoc(a: Seq<char>, b: Seq<char>, c: Seq<char>) {
        assert((a + b) + c =~= a + (b + c));
    }

    proof fn unit_neutral(a: Seq<char>) {
        assert(Seq::<char>::empty() + a =~= a);
        assert(a + Seq::<char>::empty() =~= a);
    }

    proof fn clone_keeps_model(a: Vec<char>, b: Vec<char>) {
        assert(a@ =~= b@);
    }

    fn op(lhs: Vec<char>, rhs: Vec<char>) -> (res: Vec<char>) {
        concat(lhs, rhs)
    }

    fn identity() -> (res: Vec<char>) {
        Vec::new()
    }
}

impl Ops for Concat {
    type Value = Vec<char>;

    type Model = Seq<char>;

    open spec fn model(v: Vec<char>) -> Seq<char> {
        v@
    }

    open spec fn combine(a: Seq<char>, b: Seq<char>) -> Seq<char> {
        a + b
    }

    open spec fn unit() -> Seq<char> {
        Seq::empty()
    }

    proof fn combine_assoc(a: Seq<char>, b: Seq<char>, c: Seq<char>) {
        assert((a + b) + c =~= a + (b + c));
    }

    proof fn unit_neutral(a: Seq<char>) {
        assert(Seq::<char>::empty() + a =~= a);
        assert(a + Seq::<char>::empty() =~= a);
    }

    proof fn clone_keeps_model(a: Vec<char>, b: Vec<char>) {
        assert(a@ =~= b@);
    }

    fn op(lhs: Vec<char>, rhs: Vec<char>) -> (res: Vec<char>) {
        concat(lhs, rhs)
    }

    fn identity() -> (res: Vec<char>) {
        Vec::new()
    }
}

} // verus!
