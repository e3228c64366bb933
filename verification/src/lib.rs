//! A circular doubly-linked list.
//!
//! Nodes live in an arena owned by the list and are addressed by stable
//! integer indices; the `next` and `prev` links of each node are indices
//! into that arena.  A non-empty list is a single ring: following `next`
//! from the head visits every node exactly once and returns to the head.
//!
//! `insert_front` places an element at the front of the list,
//! `insert_back` at the back; `delete` removes the first element equal to
//! a given value; `iter` and `iter_rev` walk the ring in both directions.

mod iter;
mod laws;
mod list;

pub use iter::ListIterator;
pub use iter::RevListIterator;
pub use list::DoubleList;
pub use list::ListError;
