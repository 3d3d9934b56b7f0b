use crate::monoid::{fold_seq, lemma_fold_single, Identity};
use crate::segtree::{accepts, is_backward_boundary, is_forward_boundary, rejects, Segtree};
use vstd::prelude::*;

verus! {

/// A tree whose leaves are the models of `src` folds every range as the
/// reduction of that part of `src` does, the empty sequence included.
pub proof fn lemma_built_tree_folds<T: Identity>(
    tree: Segtree<T>,
    src: Seq<T::Value>,
    start: int,
    end: int,
)
    requires
        tree@ == Seq::new(src.len(), |i: int| T::model(src[i])),
        0 <= start <= end <= src.len(),
    ensures
        fold_seq::<T>(tree@.subrange(start, end)) == fold_seq::<T>(
            Seq::new((end - start) as nat, |i: int| T::model(src[start + i])),
        ),
{
    assert(tree@.subrange(start, end) =~= Seq::new(
        (end - start) as nat,
        |i: int| T::model(src[start + i]),
    ));
}

/// After leaf `i` is set to `x`, the fold of `i..i + 1` is `x`.
pub proof fn lemma_set_then_fold_one<T: Identity>(leaves: Seq<T::Model>, i: int, x: T::Model)
    requires
        0 <= i < leaves.len(),
    ensures
        fold_seq::<T>(leaves.update(i, x).subrange(i, i + 1)) == x,
{
    lemma_fold_single::<T>(leaves.update(i, x), i);
}

/// After leaf `i` is set to `x`, the fold of a range that does not hold `i`
/// is what it was.
pub proof fn lemma_set_keeps_other_folds<T: Identity>(
    leaves: Seq<T::Model>,
    i: int,
    x: T::Model,
    start: int,
    end: int,
)
    requires
        0 <= i < leaves.len(),
        0 <= start <= end <= leaves.len(),
        i < start || end <= i,
    ensures
        fold_seq::<T>(leaves.update(i, x).subrange(start, end)) == fold_seq::<T>(
            leaves.subrange(start, end),
        ),
{
    assert(leaves.update(i, x).subrange(start, end) =~= leaves.subrange(start, end));
}

/// Once `pred` rejects the fold of `start..j`, with `start < j`, it accepts
/// the fold of no range from `start` that is as long or longer, within
/// `start..end`.
pub open spec fn is_monotone_forward<T: Identity, F: Fn(&T::Value) -> bool>(
    leaves: Seq<T::Model>,
    pred: F,
    start: int,
    end: int,
) -> bool {
    forall|j: int, k: int|
        start < j <= k <= end && rejects::<T, F>(
            pred,
            fold_seq::<T>(#[trigger] leaves.subrange(start, j)),
        ) ==> !accepts::<T, F>(pred, fold_seq::<T>(#[trigger] leaves.subrange(start, k)))
}

/// Once `pred` rejects the fold of `j..end`, with `j < end`, it accepts the
/// fold of no range up to `end` that is as long or longer, within
/// `start..end`.
pub open spec fn is_monotone_backward<T: Identity, F: Fn(&T::Value) -> bool>(
    leaves: Seq<T::Model>,
    pred: F,
    start: int,
    end: int,
) -> bool {
    forall|j: int, k: int|
        start <= k <= j < end && rejects::<T, F>(
            pred,
            fold_seq::<T>(#[trigger] leaves.subrange(j, end)),
        ) ==> !accepts::<T, F>(pred, fold_seq::<T>(#[trigger] leaves.subrange(k, end)))
}

/// For a monotone predicate a forward boundary `i` parts the range: the
/// fold of `start..k` is not rejected for `k` up to `i`, and not accepted
/// beyond.
pub proof fn lemma_forward_boundary_parts<T: Identity, F: Fn(&T::Value) -> bool>(
    leaves: Seq<T::Model>,
    pred: F,
    start: int,
    end: int,
    i: int,
    k: int,
)
    requires
        is_monotone_forward::<T, F>(leaves, pred, start, end),
        is_forward_boundary::<T, F>(leaves, pred, start, end, i),
        start < k <= end,
    ensures
        k <= i ==> !rejects::<T, F>(pred, fold_seq::<T>(leaves.subrange(start, k))),
        k > i ==> !accepts::<T, F>(pred, fold_seq::<T>(leaves.subrange(start, k))),
{
    if k <= i {
        assert(accepts::<T, F>(pred, fold_seq::<T>(leaves.subrange(start, i))));
    } else {
        assert(rejects::<T, F>(pred, fold_seq::<T>(leaves.subrange(start, i + 1))));
    }
}

/// For a monotone predicate there is one forward boundary only.
pub proof fn lemma_forward_boundary_unique<T: Identity, F: Fn(&T::Value) -> bool>(
    leaves: Seq<T::Model>,
    pred: F,
    start: int,
    end: int,
    i: int,
    j: int,
)
    requires
        is_monotone_forward::<T, F>(leaves, pred, start, end),
        is_forward_boundary::<T, F>(leaves, pred, start, end, i),
        is_forward_boundary::<T, F>(leaves, pred, start, end, j),
    ensures
        i == j,
{
    if i < j {
        lemma_forward_boundary_parts::<T, F>(leaves, pred, start, end, i, j);
    }
    if j < i {
        lemma_forward_boundary_parts::<T, F>(leaves, pred, start, end, j, i);
    }
}

/// For a monotone predicate a backward boundary `i` parts the range: the
/// fold of `k..end` is not rejected for `k` from `i` on, and not accepted
/// before.
pub proof fn lemma_backward_boundary_parts<T: Identity, F: Fn(&T::Value) -> bool>(
    leaves: Seq<T::Model>,
    pred: F,
    start: int,
    end: int,
    i: int,
    k: int,
)
    requires
        is_monotone_backward::<T, F>(leaves, pred, start, end),
        is_backward_boundary::<T, F>(leaves, pred, start, end, i),
        start <= k < end,
    ensures
        i <= k ==> !rejects::<T, F>(pred, fold_seq::<T>(leaves.subrange(k, end))),
        k < i ==> !accepts::<T, F>(pred, fold_seq::<T>(leaves.subrange(k, end))),
{
    if i <= k {
        assert(accepts::<T, F>(pred, fold_seq::<T>(leaves.subrange(i, end))));
    } else {
        assert(rejects::<T, F>(pred, fold_seq::<T>(leaves.subrange(i - 1, end))));
    }
}

/// For a monotone predicate there is one backward boundary only.
pub proof fn lemma_backward_boundary_unique<T: Identity, F: Fn(&T::Value) -> bool>(
    leaves: Seq<T::Model>,
    pred: F,
    start: int,
    end: int,
    i: int,
    j: int,
)
    requires
        is_monotone_backward::<T, F>(leaves, pred, start, end),
        is_backward_boundary::<T, F>(leaves, pred, start, end, i),
        is_backward_boundary::<T, F>(leaves, pred, start, end, j),
    ensures
        i == j,
{
    if i < j {
        lemma_backward_boundary_parts::<T, F>(leaves, pred, start, end, j, i);
    }
    if j < i {
        lemma_backward_boundary_parts::<T, F>(leaves, pred, start, end, i, j);
    }
}

} // verus!
