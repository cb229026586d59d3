//! Sets of non-negative integers, held as sorted lists of disjoint,
//! non-adjacent closed intervals over `u32` bounds.
//!
//! Every set is kept in a normal form, so that two sets with the same
//! elements hold the same intervals. Contracts speak of a set through the
//! mathematical set of integers that it covers.

pub mod convert;
pub mod interval;
pub mod laws;
pub mod merge;
pub mod model;
pub mod order;
pub mod set;
pub mod text;

pub use interval::Interval;
pub use interval::IntervalError;
pub use set::IntervalSet;
pub use set::IntervalSetIterator;
pub use convert::ToIntervalSet;
