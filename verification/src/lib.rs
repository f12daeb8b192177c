//! Ordered sets backed by a sorted, duplicate-free sequence, together with
//! lazy lock-step merge iterators (union, intersection, difference,
//! symmetric difference) and short-circuiting set-relationship predicates,
//! all specified and verified with Verus.

pub mod order;
pub mod seqs;
pub mod cursor;
pub mod ops;
pub mod relations;
pub mod set;
pub mod laws;

pub use crate::cursor::{AdvanceUntilIter, OrdListSetIter, OrdSetOpsIterAdapter, SkipAheadIterator};
pub use crate::ops::{
    Difference, Intersection, OrdSetOpsIter, SetOperation, SymmetricDifference, Union,
};
pub use crate::order::{Orderable, Rank};
pub use crate::set::{is_sorted_and_no_dups, ItemRangeBounds, OrdListSet, UsizeRangeBounds};
