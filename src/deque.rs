//! A double-ended queue over the doubly linked list.
use vstd::prelude::*;

use crate::dlist::{back_of, front_of, without_back, without_front, UnsafeLinkedList};

verus! {

/// A double-ended queue: values enter and leave at both ends.
pub struct Deque<T> {
    list: UnsafeLinkedList<T>,
}

impl<T> View for Deque<T> {
    type V = Seq<T>;

    /// The values, from front to back.
    closed spec fn view(&self) -> Seq<T> {
        self.list@
    }
}

impl<T> Deque<T> {
    /// Creates an empty deque.
    pub fn new() -> (r: Self)
        ensures
            r@ == Seq::<T>::empty(),
    {
        Deque { list: UnsafeLinkedList::new() }
    }

    /// Puts `value` at the front.
    pub fn push_front(&mut self, value: T)
        requires
            old(self)@.len() + 1 < usize::MAX,
        ensures
            final(self)@ == seq![value] + old(self)@,
    {
        self.list.push(value);
    }

    /// Puts `value` at the back.
    pub fn push_back(&mut self, value: T)
        requires
            old(self)@.len() + 1 < usize::MAX,
        ensures
            final(self)@ == old(self)@.push(value),
    {
        self.list.push_back(value);
    }

    /// Takes the front value, or `None` when the deque is empty.
    pub fn pop_front(&mut self) -> (r: Option<T>)
        ensures
            r == front_of(old(self)@),
            final(self)@ == without_front(old(self)@),
    {
        self.list.pop_first()
    }

    /// Takes the back value, or `None` when the deque is empty.
    pub fn pop_back(&mut self) -> (r: Option<T>)
        ensures
            r == back_of(old(self)@),
            final(self)@ == without_back(old(self)@),
    {
        self.list.pop_back()
    }

    /// The front value, or `None` when the deque is empty.
    pub fn peek_front(&self) -> (r: Option<&T>)
        ensures
            r is None <==> self@.len() == 0,
            r is Some ==> *r->0 == self@[0],
    {
        self.list.first()
    }

    /// A mutable reference to the front value, or `None` when the deque is empty.
    pub fn peek_front_mut(&mut self) -> (r: Option<&mut T>)
        ensures
            old(self)@.len() == 0 ==> r is None && final(self)@ == old(self)@,
            old(self)@.len() > 0 ==> r is Some && *r->0 == old(self)@[0] && final(self)@ == old(
                self)@.update(0, *final(r->0)),
    {
        self.list.first_mut()
    }

    /// The back value, or `None` when the deque is empty.
    pub fn peek_back(&self) -> (r: Option<&T>)
        ensures
            r is None <==> self@.len() == 0,
            r is Some ==> *r->0 == self@.last(),
    {
        self.list.back()
    }

    /// A mutable reference to the back value, or `None` when the deque is empty.
    pub fn peek_back_mut(&mut self) -> (r: Option<&mut T>)
        ensures
            old(self)@.len() == 0 ==> r is None && final(self)@ == old(self)@,
            old(self)@.len() > 0 ==> r is Some && *r->0 == old(self)@.last() && final(self)@
                == old(self)@.update(old(self)@.len() - 1, *final(r->0)),
    {
        self.list.back_mut()
    }
}

} // verus!
