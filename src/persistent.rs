//! An immutable list whose versions share their tails through reference counting.
use std::rc::Rc;
use vstd::prelude::*;

use crate::dlist::without_front;

verus! {

/// An immutable list: `prepend` and `drop_last` build new lists that share
/// the old nodes instead of copying them.
pub struct ImmutableList<T> {
    head: Option<Rc<ImmNode<T>>>,
}

struct ImmNode<T> {
    value: T,
    next: Option<Rc<ImmNode<T>>>,
}

/// The values of a shared chain, from its head.
spec fn shared_view<T>(link: Option<Rc<ImmNode<T>>>) -> Seq<T>
    decreases link,
{
    match link {
        Some(node) => seq![node.value] + shared_view(node.next),
        None => Seq::empty(),
    }
}

impl<T> View for ImmutableList<T> {
    type V = Seq<T>;

    /// The values, from the head.
    closed spec fn view(&self) -> Seq<T> {
        shared_view(self.head)
    }
}

/// Iterates over shared references, from the head.
pub struct Iter<'a, T> {
    next: Option<&'a ImmNode<T>>,
}

/// Relies on `Rc::clone`: the new pointer shares the allocation of `link`,
/// so it points to the same node.
#[verifier::external_body]
fn share<T>(link: &Rc<ImmNode<T>>) -> (r: Rc<ImmNode<T>>)
    ensures
        r == *link,
{
    Rc::clone(link)
}

/// Another handle on the chain `link`.
fn share_link<T>(link: &Option<Rc<ImmNode<T>>>) -> (r: Option<Rc<ImmNode<T>>>)
    ensures
        r == *link,
{
    match link {
        Some(node) => Some(share(node)),
        None => None,
    }
}

impl<T> ImmutableList<T> {
    /// Creates an empty list.
    pub fn new() -> (r: Self)
        ensures
            r@ == Seq::<T>::empty(),
    {
        ImmutableList { head: None }
    }

    /// A new list with `value` in front of this one, sharing this one's nodes.
    pub fn prepend(&self, value: T) -> (r: Self)
        ensures
            r@ == seq![value] + self@,
    {
        let node = ImmNode { value, next: share_link(&self.head) };
        ImmutableList { head: Some(Rc::new(node)) }
    }

    /// A new list without the head value, sharing the remaining nodes; the
    /// empty list stays empty.
    pub fn drop_last(&self) -> (r: Self)
        ensures
            r@ == without_front(self@),
    {
        match &self.head {
            Some(node) => {
                let r = ImmutableList { head: share_link(&node.next) };
                assert(r@ =~= without_front(self@));
                r
            },
            None => ImmutableList { head: None },
        }
    }

    /// The head value, or `None` when the list is empty.
    pub fn first(&self) -> (r: Option<&T>)
        ensures
            r is None <==> self@.len() == 0,
            r is Some ==> *r->0 == self@[0],
    {
        match &self.head {
            Some(node) => Some(&node.value),
            None => None,
        }
    }

    /// An iterator over shared references, from the head.
    pub fn iter(&self) -> (r: Iter<'_, T>)
        ensures
            r@ == self@,
    {
        match &self.head {
            Some(node) => Iter { next: Some(&**node) },
            None => Iter { next: None },
        }
    }
}

impl<'a, T> View for Iter<'a, T> {
    type V = Seq<T>;

    /// The values not yet handed out.
    closed spec fn view(&self) -> Seq<T> {
        match self.next {
            Some(n) => seq![n.value] + shared_view(n.next),
            None => Seq::empty(),
        }
    }
}

impl<'a, T> Iter<'a, T> {
    /// Hands out the next value, or `None` at the end.
    pub fn next(&mut self) -> (r: Option<&'a T>)
        ensures
            r is None <==> old(self)@.len() == 0,
            r is Some ==> *r->0 == old(self)@[0],
            final(self)@ == without_front(old(self)@),
    {
        match self.next {
            Some(node) => {
                self.next = match &node.next {
                    Some(b) => Some(&**b),
                    None => None,
                };
                assert(self@ =~= without_front(old(self)@));
                Some(&node.value)
            },
            None => None,
        }
    }
}

/// Relies on `Rc::try_unwrap`: the node itself when `link` is its only
/// handle, else `link` back; it does not panic.
#[verifier::external_body]
fn take_unique<T>(link: Rc<ImmNode<T>>) -> (r: Result<ImmNode<T>, Rc<ImmNode<T>>>)
    ensures
        match r {
            Ok(node) => node == *link,
            Err(back) => back == link,
        },
    opens_invariants none
    no_unwind
{
    Rc::try_unwrap(link)
}

impl<T> Drop for ImmutableList<T> {
    /// Frees the nodes that no other list shares, one at a time from the head,
    /// so that a long list does not drop its nodes by deep recursion.
    fn drop(&mut self)
        opens_invariants none
        no_unwind
    {
        let mut link = None;
        std::mem::swap(&mut self.head, &mut link);
        loop
            decreases shared_view(link).len(),
        {
            match link {
                Some(node) => match take_unique(node) {
                    Ok(node) => {
                        link = node.next;
                    },
                    Err(_) => {
                        break;
                    },
                },
                None => {
                    break;
                },
            }
        }
    }
}

} // verus!
