//! Three linked-list variants with verified sequence semantics.
//!
//! * [`immutable_linked_list`]: a persistent singly-linked list whose tails
//!   are shared between lists through reference counting.
//! * [`mutable_chain`]: a mutable singly-linked stack with a single owning
//!   chain of nodes.
//! * [`mutable_doubly_linked_list`]: a doubly-linked list with owning forward
//!   links and non-owning back-references, stored in a slot arena so that the
//!   back-references are plain indices that can never dangle.

pub mod immutable_linked_list;
pub mod mutable_chain;
pub mod mutable_doubly_linked_list;
