use std::ops::Range;
use vstd::prelude::*;

verus! {

/// One end of a range of indices.
#[derive(Debug, Clone, Copy, PartialEq, Eq, Structural)]
pub enum Limit {
    /// The range reaches the index itself.
    Included(usize),
    /// The range stops short of the index.
    Excluded(usize),
    /// The range reaches the end of the sequence.
    Unbounded,
}

/// The first index of a range that starts at `start`.
pub open spec fn first_index(start: Limit) -> int {
    match start {
        Limit::Unbounded => 0,
        Limit::Included(x) => x as int,
        Limit::Excluded(x) => x + 1,
    }
}

/// The index after the last one of a range that ends at `end`, in a sequence
/// of length `len`.
pub open spec fn end_index(len: usize, end: Limit) -> int {
    match end {
        Limit::Excluded(x) => x as int,
        Limit::Included(x) => x + 1,
        Limit::Unbounded => len as int,
    }
}

/// The half-open range of indices between two limits, in a sequence of
/// length `len`.
pub fn open(len: usize, start: Limit, end: Limit) -> (res: Range<usize>)
    requires
        first_index(start) <= usize::MAX,
        end_index(len, end) <= usize::MAX,
    ensures
        res.start == first_index(start),
        res.end == end_index(len, end),
{
    (match start {
        Limit::Unbounded => 0,
        Limit::Included(x) => x,
        Limit::Excluded(x) => x + 1,
    })..(match end {
        Limit::Excluded(x) => x,
        Limit::Included(x) => x + 1,
        Limit::Unbounded => len,
    })
}

/// Which end of a range lies beyond the largest index.
#[derive(Debug, Clone, Copy, PartialEq, Eq, Structural)]
pub enum Overflow {
    /// The range starts after the largest index.
    Start,
    /// The range ends after the largest index.
    End,
}

/// The half-open range of indices between two limits, in a sequence of
/// length `len`, unless one of its ends lies beyond the largest index; of
/// two such ends the start is reported.
pub fn into_slice_range(len: usize, start: Limit, end: Limit) -> (res: Result<
    Range<usize>,
    Overflow,
>)
    ensures
        first_index(start) > usize::MAX ==> res == Err::<Range<usize>, Overflow>(Overflow::Start),
        first_index(start) <= usize::MAX && end_index(len, end) > usize::MAX ==> res == Err::<
            Range<usize>,
            Overflow,
        >(Overflow::End),
        first_index(start) <= usize::MAX && end_index(len, end) <= usize::MAX ==> res is Ok
            && res.unwrap().start == first_index(start) && res.unwrap().end == end_index(len, end),
{
    let start = match start {
        Limit::Included(start) => start,
        Limit::Excluded(start) => match start.checked_add(1) {
            Some(next) => next,
            None => {
                return Err(Overflow::Start);
            },
        },
        Limit::Unbounded => 0,
    };
    let end = match end {
        Limit::Included(end) => match end.checked_add(1) {
            Some(next) => next,
            None => {
                return Err(Overflow::End);
            },
        },
        Limit::Excluded(end) => end,
        Limit::Unbounded => len,
    };
    Ok(start..end)
}

} // verus!
