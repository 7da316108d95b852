//! A singly linked stack of boxed nodes.
use vstd::prelude::*;

use crate::dlist::{front_of, without_front};

verus! {

/// A stack: `push` and `pop` work at the head.
pub struct LinkedList<T> {
    head: Option<Box<LinkedNode<T>>>,
}

struct LinkedNode<T> {
    value: T,
    next: Option<Box<LinkedNode<T>>>,
}

/// The values of a chain of nodes, from its head.
spec fn chain_view<T>(link: Option<Box<LinkedNode<T>>>) -> Seq<T>
    decreases link,
{
    match link {
        Some(node) => seq![node.value] + chain_view(node.next),
        None => Seq::empty(),
    }
}

/// The values of the nodes from `node` on.
spec fn node_view<T>(node: Option<&LinkedNode<T>>) -> Seq<T> {
    match node {
        Some(n) => seq![n.value] + chain_view(n.next),
        None => Seq::empty(),
    }
}

impl<T> View for LinkedList<T> {
    type V = Seq<T>;

    /// The values, from the top of the stack down.
    closed spec fn view(&self) -> Seq<T> {
        chain_view(self.head)
    }
}

/// Moves the values out of a stack, from the top.
pub struct IntoIter<T>(LinkedList<T>);

/// Iterates over shared references, from the top of the stack.
pub struct Iter<'a, T> {
    next: Option<&'a LinkedNode<T>>,
}

/// Iterates over mutable references, from the top of the stack.
pub struct IterMut<'a, T> {
    next: Option<&'a mut LinkedNode<T>>,
}

impl<T> LinkedList<T> {
    /// Creates an empty stack.
    pub fn new() -> (r: Self)
        ensures
            r@ == Seq::<T>::empty(),
    {
        LinkedList { head: None }
    }

    /// Puts `value` on top.
    pub fn push(&mut self, value: T)
        ensures
            final(self)@ == seq![value] + old(self)@,
    {
        let next = self.head.take();
        self.head = Some(Box::new(LinkedNode { value, next }));
    }

    /// Takes the top value off, or `None` when the stack is empty.
    pub fn pop(&mut self) -> (r: Option<T>)
        ensures
            r == front_of(old(self)@),
            final(self)@ == without_front(old(self)@),
    {
        match self.head.take() {
            Some(node) => {
                let node = *node;
                self.head = node.next;
                proof {
                    assert(chain_view(self.head) =~= without_front(old(self)@));
                }
                Some(node.value)
            },
            None => None,
        }
    }

    /// The top value, or `None` when the stack is empty.
    pub fn peek(&self) -> (r: Option<&T>)
        ensures
            r is None <==> self@.len() == 0,
            r is Some ==> *r->0 == self@[0],
    {
        match &self.head {
            Some(node) => Some(&node.value),
            None => None,
        }
    }

    /// A mutable reference to the top value, or `None` when the stack is empty.
    pub fn peek_mut(&mut self) -> (r: Option<&mut T>)
        ensures
            old(self)@.len() == 0 ==> r is None && final(self)@ == old(self)@,
            old(self)@.len() > 0 ==> r is Some && *r->0 == old(self)@[0] && final(self)@ == old(
                self)@.update(0, *final(r->0)),
    {
        match &mut self.head {
            Some(node) => {
                let r = &mut node.value;
                assert(after_borrow(*self)@ =~= old(self)@.update(0, *final(r)));
                Some(r)
            },
            None => None,
        }
    }

    /// An iterator that moves the values out, from the top.
    pub fn into_iter(self) -> (r: IntoIter<T>)
        ensures
            r@ == self@,
    {
        IntoIter(self)
    }

    /// An iterator over shared references, from the top.
    pub fn iter(&self) -> (r: Iter<'_, T>)
        ensures
            r@ == self@,
    {
        match &self.head {
            Some(node) => Iter { next: Some(&**node) },
            None => Iter { next: None },
        }
    }

    /// An iterator over mutable references, from the top.
    pub fn iter_mut(&mut self) -> (r: IterMut<'_, T>)
        ensures
            r@ == old(self)@,
    {
        match &mut self.head {
            Some(node) => IterMut { next: Some(&mut **node) },
            None => IterMut { next: None },
        }
    }
}

impl<T> View for IntoIter<T> {
    type V = Seq<T>;

    /// The values not yet moved out.
    closed spec fn view(&self) -> Seq<T> {
        self.0@
    }
}

impl<T> IntoIter<T> {
    /// Moves out the next value from the top.
    pub fn next(&mut self) -> (r: Option<T>)
        ensures
            r == front_of(old(self)@),
            final(self)@ == without_front(old(self)@),
    {
        self.0.pop()
    }
}

impl<'a, T> View for Iter<'a, T> {
    type V = Seq<T>;

    /// The values not yet handed out.
    closed spec fn view(&self) -> Seq<T> {
        node_view(self.next)
    }
}

impl<'a, T> Iter<'a, T> {
    /// Hands out the next value, or `None` at the bottom of the stack.
    pub fn next(&mut self) -> (r: Option<&'a T>)
        ensures
            r is None <==> old(self)@.len() == 0,
            r is Some ==> *r->0 == old(self)@[0],
            final(self)@ == without_front(old(self)@),
    {
        match self.next {
            Some(node) => {
                self.next = match &node.next {
                    Some(b) => Some(&**b),
                    None => None,
                };
                assert(self@ =~= without_front(old(self)@));
                Some(&node.value)
            },
            None => None,
        }
    }
}

impl<'a, T> View for IterMut<'a, T> {
    type V = Seq<T>;

    /// The current values of the nodes not yet handed out.
    closed spec fn view(&self) -> Seq<T> {
        match self.next {
            Some(n) => seq![n.value] + chain_view(n.next),
            None => Seq::empty(),
        }
    }
}

impl<'a, T> IterMut<'a, T> {
    /// Hands out the next value, or `None` at the bottom of the stack.
    pub fn next(&mut self) -> (r: Option<&'a mut T>)
        ensures
            r is None <==> old(self)@.len() == 0,
            r is Some ==> *r->0 == old(self)@[0],
            final(self)@ == without_front(old(self)@),
    {
        match self.next.take() {
            Some(node) => {
                let LinkedNode { value, next } = node;
                self.next = match next {
                    Some(b) => Some(&mut **b),
                    None => None,
                };
                assert(self@ =~= without_front(old(self)@));
                Some(value)
            },
            None => None,
        }
    }
}

impl<T> Drop for LinkedList<T> {
    /// Frees the nodes one at a time from the top, so that a long stack does
    /// not drop its nodes by deep recursion.
    fn drop(&mut self)
        opens_invariants none
        no_unwind
    {
        let mut link = None;
        std::mem::swap(&mut self.head, &mut link);
        loop
            decreases chain_view(link).len(),
        {
            match link {
                Some(node) => {
                    let node = *node;
                    link = node.next;
                },
                None => {
                    break;
                },
            }
        }
    }
}

} // verus!
