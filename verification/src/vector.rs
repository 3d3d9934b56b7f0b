use crate::monoid::{fold_seq, lemma_fold_single, lemma_fold_split, Identity};
use crate::segtree::{accepts, is_backward_boundary, is_forward_boundary, is_predicate, rejects};
use std::ops::Range;
use vstd::prelude::*;

verus! {

/// A plain vector that answers, element by element, what a tree answers by
/// its inner nodes.
#[derive(Debug, Clone, PartialEq)]
pub struct Vector<T: Identity>(pub Vec<T::Value>);

impl<T: Identity> Vector<T> {
    /// The models of the elements, in order.
    pub open spec fn view(&self) -> Seq<T::Model> {
        Seq::new(self.0@.len(), |i: int| T::model(self.0@[i]))
    }

    /// Puts `x` at index `i`.
    pub fn mutate(&mut self, i: usize, x: T::Value)
        requires
            i < old(self).0@.len(),
        ensures
            final(self).0@ == old(self).0@.update(i as int, x),
            final(self)@ == old(self)@.update(i as int, T::model(x)),
    {
        self.0[i] = x;
        proof {
            assert(self@ =~= old(self)@.update(i as int, T::model(x)));
        }
    }

    /// The combination of the elements in `range`, from left to right,
    /// starting from the identity element.
    pub fn solve(&self, range: Range<usize>) -> (res: T::Value)
        requires
            range.start <= range.end <= self.0@.len(),
        ensures
            T::model(res) == fold_seq::<T>(self@.subrange(range.start as int, range.end as int)),
    {
        let mut acc = T::identity();
        let mut k = range.start;
        while k < range.end
            invariant
                range.start <= k <= range.end <= self.0@.len(),
                T::model(acc) == fold_seq::<T>(self@.subrange(range.start as int, k as int)),
            decreases range.end - k,
        {
            let x = self.0[k].clone();
            proof {
                T::clone_keeps_model(self.0@[k as int], x);
                lemma_fold_split::<T>(self@, range.start as int, k as int, k + 1);
                lemma_fold_single::<T>(self@, k as int);
            }
            acc = T::op(acc, x);
            k += 1;
        }
        acc
    }

    /// Whether `output` is seen to be a forward boundary of `pred` in
    /// `range`: within the range, with the fold up to it accepted and the
    /// fold up to the next leaf rejected.
    pub fn judge_forward<F: Fn(&T::Value) -> bool>(
        &self,
        range: Range<usize>,
        pred: F,
        output: usize,
    ) -> (res: bool)
        requires
            range.start <= range.end <= self.0@.len(),
            is_predicate::<T, F>(pred),
        ensures
            res ==> is_forward_boundary::<T, F>(
                self@,
                pred,
                range.start as int,
                range.end as int,
                output as int,
            ),
            !res ==> {
                ||| !(range.start <= output <= range.end)
                ||| output != range.start && rejects::<T, F>(
                    pred,
                    fold_seq::<T>(self@.subrange(range.start as int, output as int)),
                )
                ||| output != range.end && accepts::<T, F>(
                    pred,
                    fold_seq::<T>(self@.subrange(range.start as int, output + 1)),
                )
            },
    {
        if output < range.start || range.end < output {
            return false;
        }
        if range.start != output {
            let upto = self.solve(range.start..output);
            if !pred(&upto) {
                return false;
            }
        }
        if range.end != output {
            let beyond = self.solve(range.start..output + 1);
            if pred(&beyond) {
                return false;
            }
        }
        true
    }

    /// Whether `output` is seen to be a backward boundary of `pred` in
    /// `range`: within the range, with the fold from it accepted and the fold
    /// from the leaf before it rejected.
    pub fn judge_backward<F: Fn(&T::Value) -> bool>(
        &self,
        range: Range<usize>,
        pred: F,
        output: usize,
    ) -> (res: bool)
        requires
            range.start <= range.end <= self.0@.len(),
            is_predicate::<T, F>(pred),
        ensures
            res ==> is_backward_boundary::<T, F>(
                self@,
                pred,
                range.start as int,
                range.end as int,
                output as int,
            ),
            !res ==> {
                ||| !(range.start <= output <= range.end)
                ||| output != range.start && accepts::<T, F>(
                    pred,
                    fold_seq::<T>(self@.subrange(output - 1, range.end as int)),
                )
                ||| output != range.end && rejects::<T, F>(
                    pred,
                    fold_seq::<T>(self@.subrange(output as int, range.end as int)),
                )
            },
    {
        if output < range.start || range.end < output {
            return false;
        }
        if range.start != output {
            let before = self.solve(output - 1..range.end);
            if pred(&before) {
                return false;
            }
        }
        if range.end != output {
            let from = self.solve(output..range.end);
            if !pred(&from) {
                return false;
            }
        }
        true
    }
}

} // verus!
