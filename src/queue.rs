//! A first-in first-out queue over the doubly linked list.
use vstd::prelude::*;

use crate::dlist::{front_of, without_front, UnsafeLinkedList};
use crate::dlist::iter::{IntoIter as ListIntoIter, Iter as ListIter, IterMut as ListIterMut};

verus! {

/// A queue: values enter at the tail and leave at the head.
pub struct UnsafeQueue<T> {
    list: UnsafeLinkedList<T>,
}

/// Moves the values out of a queue, from the head.
pub struct IntoIter<T>(ListIntoIter<T>);

/// Iterates over shared references, from the head.
pub struct Iter<'a, T> {
    inner: ListIter<'a, T>,
}

/// Iterates over mutable references, from the head. Each reference lives
/// until the next step.
pub struct IterMut<'a, T> {
    inner: ListIterMut<'a, T>,
}

impl<T> View for UnsafeQueue<T> {
    type V = Seq<T>;

    /// The values, from head to tail.
    closed spec fn view(&self) -> Seq<T> {
        self.list@
    }
}

impl<T> UnsafeQueue<T> {
    /// Creates an empty queue.
    pub fn new() -> (r: Self)
        ensures
            r@ == Seq::<T>::empty(),
    {
        UnsafeQueue { list: UnsafeLinkedList::new() }
    }

    /// Puts `value` at the tail.
    pub fn push(&mut self, value: T)
        requires
            old(self)@.len() + 1 < usize::MAX,
        ensures
            final(self)@ == old(self)@.push(value),
    {
        self.list.push_back(value);
    }

    /// Takes the head value, or `None` when the queue is empty.
    pub fn pop(&mut self) -> (r: Option<T>)
        ensures
            r == front_of(old(self)@),
            final(self)@ == without_front(old(self)@),
    {
        self.list.pop_first()
    }

    /// The head value, or `None` when the queue is empty.
    pub fn peek(&self) -> (r: Option<&T>)
        ensures
            r is None <==> self@.len() == 0,
            r is Some ==> *r->0 == self@[0],
    {
        self.list.first()
    }

    /// A mutable reference to the head value, or `None` when the queue is empty.
    pub fn peek_mut(&mut self) -> (r: Option<&mut T>)
        ensures
            old(self)@.len() == 0 ==> r is None && final(self)@ == old(self)@,
            old(self)@.len() > 0 ==> r is Some && *r->0 == old(self)@[0] && final(self)@ == old(
                self)@.update(0, *final(r->0)),
    {
        self.list.first_mut()
    }

    /// An iterator over shared references, from the head.
    pub fn iter(&self) -> (r: Iter<'_, T>)
        ensures
            r.wf(),
            r@ == self@,
    {
        Iter { inner: self.list.iter() }
    }

    /// An iterator over mutable references, from the head.
    pub fn iter_mut(&mut self) -> (r: IterMut<'_, T>)
        ensures
            r.wf(),
            r@ == old(self)@,
    {
        IterMut { inner: self.list.iter_mut() }
    }

    /// An iterator that moves the values out, from the head.
    pub fn into_iter(self) -> (r: IntoIter<T>)
        ensures
            r@ == self@,
    {
        IntoIter(self.list.into_iter())
    }
}

impl<T> View for IntoIter<T> {
    type V = Seq<T>;

    /// The values not yet moved out.
    closed spec fn view(&self) -> Seq<T> {
        self.0@
    }
}

impl<T> IntoIter<T> {
    /// Moves out the next value from the head.
    pub fn next(&mut self) -> (r: Option<T>)
        ensures
            r == front_of(old(self)@),
            final(self)@ == without_front(old(self)@),
    {
        self.0.next()
    }
}

impl<'a, T> View for Iter<'a, T> {
    type V = Seq<T>;

    /// The values not yet handed out.
    closed spec fn view(&self) -> Seq<T> {
        self.inner@
    }
}

impl<'a, T> Iter<'a, T> {
    pub closed spec fn wf(&self) -> bool {
        self.inner.wf()
    }

    /// Hands out the next value, or `None` at the tail.
    pub fn next(&mut self) -> (r: Option<&'a T>)
        requires
            old(self).wf(),
        ensures
            final(self).wf(),
            r is None <==> old(self)@.len() == 0,
            r is Some ==> *r->0 == old(self)@[0],
            final(self)@ == without_front(old(self)@),
    {
        self.inner.next()
    }
}

impl<'a, T> View for IterMut<'a, T> {
    type V = Seq<T>;

    /// The values not yet handed out.
    closed spec fn view(&self) -> Seq<T> {
        self.inner@
    }
}

impl<'a, T> IterMut<'a, T> {
    pub closed spec fn wf(&self) -> bool {
        self.inner.wf()
    }

    /// Hands out the next value, or `None` at the tail.
    pub fn next(&mut self) -> (r: Option<&mut T>)
        requires
            old(self).wf(),
        ensures
            final(self).wf(),
            r is None <==> old(self)@.len() == 0,
            r is Some ==> *r->0 == old(self)@[0],
            final(self)@ == without_front(old(self)@),
    {
        self.inner.next()
    }
}

} // verus!
