//! A verified singly linked list with shared node storage.
//!
//! The list keeps its nodes in an arena (a vector of slots) and links them by
//! index: `head` and each node's `next` are index-valued options that root the
//! chain, while `tail` is a non-owning index to the last node kept only as a
//! fast path for appending.  A well-formedness invariant ties the head link,
//! the tail index and the cached length together, and every public operation
//! is specified against the abstract sequence of values held by the chain.

mod laws;
mod list;

pub use laws::lemma_insert_then_remove_roundtrip;
pub use list::Error;
pub use list::LinkedList;
pub use list::LinkedListIterator;
pub use list::LinkedListIteratorMut;
pub use list::Node;
