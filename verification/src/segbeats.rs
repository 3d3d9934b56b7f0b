use std::cmp::Ordering;
use std::fmt::Debug;
use std::ops::Add;
use vstd::prelude::*;
use vstd::std_specs::cmp::OrdSpec;
use vstd::std_specs::ops::AddSpec;

verus! {

/// What the values under a node of maxima and sums must offer: an order, a
/// sum, and a value to stand where there is no second maximum.
pub trait Elm: Sized + Debug + Copy + Ord + Add<Output = Self> {
    /// The value that stands where there is no second maximum.
    spec fn spec_min_value() -> Self;

    /// The value that stands where there is no second maximum.
    fn min_value() -> (res: Self)
        ensures
            res == Self::spec_min_value(),
    ;
}

impl Elm for i32 {
    open spec fn spec_min_value() -> i32 {
        i32::MAX
    }

    fn min_value() -> (res: i32) {
        i32::MAX
    }
}

/// The maximum of a stretch of values, a second maximum, the number of
/// times the maximum occurs, and the sum.
#[derive(Debug, Clone, Copy, PartialEq, Eq)]
pub struct Node<T> {
    /// The maximum, then the second maximum.
    pub max: [T; 2],
    /// How often the maximum occurs.
    pub c_max: usize,
    /// The sum.
    pub sum: T,
}

/// The one of two values that `max` of the order returns.
pub open spec fn larger_of<T: Elm>(a: T, b: T) -> T {
    match b.cmp_spec(&a) {
        Ordering::Less => a,
        Ordering::Equal => b,
        Ordering::Greater => b,
    }
}

/// The sum of two counts.
pub open spec fn counted(a: usize, b: usize) -> usize {
    (a + b) as usize
}

/// The node of two stretches, one after the other.
pub open spec fn merged<T: Elm>(left: Node<T>, right: Node<T>) -> Node<T> {
    let sum = left.sum.add_spec(right.sum);
    match left.max[0].cmp_spec(&right.max[0]) {
        Ordering::Equal => Node {
            max: [left.max[0], larger_of(left.max[1], right.max[1])],
            c_max: counted(left.c_max, right.c_max),
            sum,
        },
        Ordering::Greater => Node {
            max: [left.max[0], larger_of(right.max[0], right.max[1])],
            c_max: left.c_max,
            sum,
        },
        Ordering::Less => Node {
            max: [right.max[0], larger_of(left.max[0], left.max[1])],
            c_max: right.c_max,
            sum,
        },
    }
}

impl<T: Elm> Node<T> {
    /// The node of the one value `x`.
    pub fn new(x: T) -> (res: Self)
        ensures
            res == (Node { max: [x, T::spec_min_value()], c_max: 1, sum: x }),
    {
        Node { max: [x, T::min_value()], c_max: 1, sum: x }
    }

    /// The node of two stretches, one after the other.
    pub fn merge(left: Node<T>, right: Node<T>) -> (res: Self)
        requires
            T::obeys_cmp_spec(),
            T::obeys_add_spec(),
            left.sum.add_req(right.sum),
            left.c_max + right.c_max <= usize::MAX,
        ensures
            res == merged(left, right),
    {
        let a = left.max[0];
        let b = left.max[1];
        let c = right.max[0];
        let d = right.max[1];
        let sum = left.sum + right.sum;
        match a.cmp(&c) {
            Ordering::Equal => Node { max: [a, b.max(d)], c_max: left.c_max + right.c_max, sum },
            Ordering::Greater => Node { max: [a, c.max(d)], c_max: left.c_max, sum },
            Ordering::Less => Node { max: [c, a.max(b)], c_max: right.c_max, sum },
        }
    }
}

} // verus!
