//! Iterators over [`crate::dlist::UnsafeLinkedList`]: by shared reference,
//! by mutable reference, and by value.
use vstd::prelude::*;

use crate::dlist::{back_of, front_of, without_back, without_front, UnsafeLinkedList};

verus! {

/// A double-ended iterator over shared references, from `first` toward `last`.
pub struct Iter<'a, T> {
    list: &'a UnsafeLinkedList<T>,
    first: Option<usize>,
    last: Option<usize>,
    len: usize,
    front: Ghost<int>,
}

/// A double-ended iterator over mutable references. Each reference it hands
/// out lives until the next step.
pub struct IterMut<'a, T> {
    list: &'a mut UnsafeLinkedList<T>,
    first: Option<usize>,
    last: Option<usize>,
    len: usize,
    front: Ghost<int>,
}

/// A double-ended iterator that moves the elements out of the list.
pub struct IntoIter<T> {
    list: UnsafeLinkedList<T>,
}

impl<'a, T> View for Iter<'a, T> {
    type V = Seq<T>;

    /// The elements not yet handed out, in order.
    closed spec fn view(&self) -> Seq<T> {
        (*self.list)@.subrange(self.front@, self.front@ + self.len)
    }
}

impl<'a, T> Iter<'a, T> {
    /// The window `front .. front + len` lies in the list, and the two end
    /// handles are the ones at its ends.
    pub closed spec fn wf(&self) -> bool {
        &&& self.list.nodes.wf()
        &&& 0 <= self.front@
        &&& self.front@ + self.len <= self.list.nodes.len
        &&& self.len > 0 ==> self.first == self.list.nodes.handle(self.front@) && self.last
            == self.list.nodes.handle(self.front@ + self.len - 1)
    }

    /// Hands out the next element from the front, or `None` once the two ends have met.
    pub fn next(&mut self) -> (r: Option<&'a T>)
        requires
            old(self).wf(),
        ensures
            final(self).wf(),
            r is None <==> old(self)@.len() == 0,
            r is Some ==> *r->0 == old(self)@[0],
            final(self)@ == without_front(old(self)@),
    {
        let list: &'a UnsafeLinkedList<T> = self.list;
        proof {
            list.nodes.lemma_ends();
        }
        if self.len == 0 {
            return None;
        }
        match self.first {
            Some(s) => {
                proof {
                    list.nodes.lemma_at(self.front@);
                }
                self.first = list.nodes.next[s];
                self.len = self.len - 1;
                self.front = Ghost(self.front@ + 1);
                assert(self@ =~= without_front(old(self)@));
                Some(&list.nodes.values[s])
            },
            None => None,
        }
    }

    /// Hands out the next element from the back, or `None` once the two ends have met.
    pub fn next_back(&mut self) -> (r: Option<&'a T>)
        requires
            old(self).wf(),
        ensures
            final(self).wf(),
            r is None <==> old(self)@.len() == 0,
            r is Some ==> *r->0 == old(self)@.last(),
            final(self)@ == without_back(old(self)@),
    {
        let list: &'a UnsafeLinkedList<T> = self.list;
        proof {
            list.nodes.lemma_ends();
        }
        if self.len == 0 {
            return None;
        }
        match self.last {
            Some(s) => {
                proof {
                    list.nodes.lemma_at(self.front@ + self.len - 1);
                }
                self.last = list.nodes.prev[s];
                self.len = self.len - 1;
                assert(self@ =~= without_back(old(self)@));
                Some(&list.nodes.values[s])
            },
            None => None,
        }
    }

    /// The exact number of elements left, as lower and upper bound.
    pub fn size_hint(&self) -> (r: (usize, Option<usize>))
        requires
            self.wf(),
        ensures
            r.0 == self@.len(),
            r.1 == Some(r.0),
    {
        proof {
            self.list.nodes.lemma_ends();
        }
        (self.len, Some(self.len))
    }

    /// The number of elements left.
    pub fn len(&self) -> (r: usize)
        requires
            self.wf(),
        ensures
            r == self@.len(),
    {
        proof {
            self.list.nodes.lemma_ends();
        }
        self.len
    }
}

impl<'a, T> View for IterMut<'a, T> {
    type V = Seq<T>;

    /// The elements not yet handed out, in order.
    closed spec fn view(&self) -> Seq<T> {
        (*self.list)@.subrange(self.front@, self.front@ + self.len)
    }
}

impl<'a, T> IterMut<'a, T> {
    /// The borrow of the list that the iterator walks.
    pub closed spec fn list_ref(&self) -> &'a mut UnsafeLinkedList<T> {
        self.list
    }

    /// The elements of the list, as the iterator sees them now.
    pub closed spec fn items(&self) -> Seq<T> {
        (*self.list)@
    }

    /// Ends the walk and releases the borrow: the list keeps the elements
    /// that the iterator saw last.
    pub fn finish(self)
        ensures
            (*final(self.list_ref()))@ == self.items(),
    {
    }

    /// The index of the next element from the front.
    pub closed spec fn front(&self) -> int {
        self.front@
    }

    /// The window `front .. front + len` lies in the list, and the two end
    /// handles are the ones at its ends.
    pub closed spec fn wf(&self) -> bool {
        &&& self.list.nodes.wf()
        &&& 0 <= self.front@
        &&& self.front@ + self.len <= self.list.nodes.len
        &&& self.len > 0 ==> self.first == self.list.nodes.handle(self.front@) && self.last
            == self.list.nodes.handle(self.front@ + self.len - 1)
    }

    /// Hands out the next element from the front, or `None` once the two ends have met.
    pub fn next(&mut self) -> (r: Option<&mut T>)
        requires
            old(self).wf(),
        ensures
            final(self).wf(),
            final(self).front() == old(self).front() + (if old(self)@.len() == 0 { 0int } else { 1 }),
            old(self)@.len() == 0 ==> r is None && final(self).items() == old(self).items(),
            old(self)@.len() > 0 ==> r is Some && *r->0 == old(self)@[0] && final(self).items()
                == old(self).items().update(old(self).front(), *final(r->0)),
            final(self)@ == without_front(old(self)@),
            *final(final(self).list_ref()) == *final(old(self).list_ref()),
    {
        proof {
            self.list.nodes.lemma_ends();
        }
        if self.len == 0 {
            return None;
        }
        match self.first {
            Some(s) => {
                proof {
                    self.list.nodes.lemma_at(self.front@);
                }
                let k = self.front;
                self.first = self.list.nodes.next[s];
                self.len = self.len - 1;
                self.front = Ghost(self.front@ + 1);
                let r = self.list.nodes.value_mut(s, k);
                assert(after_borrow(*self)@ =~= without_front(old(self)@));
                Some(r)
            },
            None => None,
        }
    }

    /// Hands out the next element from the back, or `None` once the two ends have met.
    pub fn next_back(&mut self) -> (r: Option<&mut T>)
        requires
            old(self).wf(),
        ensures
            final(self).wf(),
            final(self).front() == old(self).front(),
            old(self)@.len() == 0 ==> r is None && final(self).items() == old(self).items(),
            old(self)@.len() > 0 ==> r is Some && *r->0 == old(self)@.last() && final(self).items()
                == old(self).items().update(old(self).front() + old(self)@.len() - 1, *final(r->0)),
            final(self)@ == without_back(old(self)@),
            *final(final(self).list_ref()) == *final(old(self).list_ref()),
    {
        proof {
            self.list.nodes.lemma_ends();
        }
        if self.len == 0 {
            return None;
        }
        match self.last {
            Some(s) => {
                let ghost k = self.front@ + self.len - 1;
                proof {
                    self.list.nodes.lemma_at(k);
                }
                self.last = self.list.nodes.prev[s];
                self.len = self.len - 1;
                let r = self.list.nodes.value_mut(s, Ghost(k));
                assert(after_borrow(*self)@ =~= without_back(old(self)@));
                Some(r)
            },
            None => None,
        }
    }

    /// The exact number of elements left, as lower and upper bound.
    pub fn size_hint(&self) -> (r: (usize, Option<usize>))
        requires
            self.wf(),
        ensures
            r.0 == self@.len(),
            r.1 == Some(r.0),
    {
        proof {
            self.list.nodes.lemma_ends();
        }
        (self.len, Some(self.len))
    }

    /// The number of elements left.
    pub fn len(&self) -> (r: usize)
        requires
            self.wf(),
        ensures
            r == self@.len(),
    {
        proof {
            self.list.nodes.lemma_ends();
        }
        self.len
    }
}

impl<T> View for IntoIter<T> {
    type V = Seq<T>;

    /// The elements not yet handed out, in order.
    closed spec fn view(&self) -> Seq<T> {
        self.list@
    }
}

impl<T> IntoIter<T> {
    /// Moves out the next element from the front.
    pub fn next(&mut self) -> (r: Option<T>)
        ensures
            r == front_of(old(self)@),
            final(self)@ == without_front(old(self)@),
    {
        self.list.pop_first()
    }

    /// Moves out the next element from the back.
    pub fn next_back(&mut self) -> (r: Option<T>)
        ensures
            r == back_of(old(self)@),
            final(self)@ == without_back(old(self)@),
    {
        self.list.pop_back()
    }

    /// The exact number of elements left, as lower and upper bound.
    pub fn size_hint(&self) -> (r: (usize, Option<usize>))
        ensures
            r.0 == self@.len(),
            r.1 == Some(r.0),
    {
        let n = self.list.len();
        (n, Some(n))
    }

    /// The number of elements left.
    pub fn len(&self) -> (r: usize)
        ensures
            r == self@.len(),
    {
        self.list.len()
    }
}

impl<T> UnsafeLinkedList<T> {
    /// An iterator over the elements, by shared reference.
    pub fn iter(&self) -> (r: Iter<'_, T>)
        ensures
            r.wf(),
            r@ == self@,
    {
        proof {
            use_type_invariant(self);
            self.nodes.lemma_ends();
        }
        let r = Iter {
            list: self,
            first: self.nodes.first,
            last: self.nodes.last,
            len: self.nodes.len,
            front: Ghost(0),
        };
        assert(r@ =~= self@);
        r
    }

    /// An iterator over the elements, by mutable reference.
    pub fn iter_mut(&mut self) -> (r: IterMut<'_, T>)
        ensures
            r.wf(),
            r@ == old(self)@,
            r.items() == old(self)@,
            r.front() == 0,
            *final(self) == *final(r.list_ref()),
    {
        proof {
            use_type_invariant(&*self);
            self.nodes.lemma_ends();
        }
        let first = self.nodes.first;
        let last = self.nodes.last;
        let len = self.nodes.len;
        let r = IterMut { list: self, first, last, len, front: Ghost(0) };
        assert(r@ =~= old(self)@);
        r
    }

    /// An iterator that moves the elements out, from either end.
    pub fn into_iter(self) -> (r: IntoIter<T>)
        ensures
            r@ == self@,
    {
        IntoIter { list: self }
    }
}

} // verus!
