//! Linked-list variants, each exercising a different ownership discipline
//! over a chain of heap nodes:
//!
//! - [`exclusive`]: a singly-linked chain of `i32` where every node has
//!   exactly one owner, with in-place splice and merge.
//! - [`generic`]: the same exclusive chain generalized over the element
//!   type, with peeking and iteration.
//! - [`persistent`]: a singly-linked chain of reference-counted, immutable
//!   nodes; distinct list values share common suffixes, and teardown stops
//!   at the first node another list still references.
//! - [`deque`]: a doubly-linked chain with push, pop and peek at both
//!   ends, backed by a node table addressed through stable indices.

pub mod deque;
pub mod exclusive;
pub mod generic;
pub mod persistent;
