//! A rolling quantile filter: for each value of a sequence, the quantile of the
//! window of the last `k` values. The window is kept in two blocks, each a sorted
//! doubly-linked list over a slice of the input with a cursor that walks it, and
//! a quantile is read off the merge of the two lists.

pub mod argsort;
pub mod block;
pub mod laws;
pub mod links;
pub mod merge;
pub mod rank;
pub mod rolling;
pub mod select;
