//! Trees over arrays of fixed length.
//!
//! [`segtree::Segtree`] folds ranges by an associative operation, takes
//! point updates, and searches for the boundary of a predicate over growing
//! folds. [`dual_segtree::DualSegtree`] lets values act on ranges.
//! [`avltree::Avltree`] keeps a sequence in a binary tree that is searched by
//! comparators. Each contract is stated over a view of the structure as a
//! plain sequence.
pub mod avltree;
pub mod bounds;
pub mod dual_segtree;
pub mod formatting;
pub mod inversion;
pub mod levels;
pub mod monoid;
pub mod segbeats;
pub mod segtree;
pub mod segtree_lemmas;
pub mod vector;
