//! Linked sequence containers with verified contracts.
//!
//! The central type is [`dlist::UnsafeLinkedList`], a doubly linked list whose
//! nodes live in an arena addressed by integer handles, together with its
//! iterators ([`dlist::iter`]) and the editing cursor [`dlist::cursor::CursorMut`]. The
//! other modules hold simpler containers: a boxed stack, an immutable list
//! with shared tails, and a deque and a queue over the doubly linked list.
use vstd::prelude::*;

mod arena;
pub mod dlist;
pub mod laws;
pub mod stack;
pub mod persistent;
pub mod deque;
pub mod queue;

verus! {

} // verus!
