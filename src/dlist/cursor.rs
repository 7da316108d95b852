//! An editing cursor over [`crate::dlist::UnsafeLinkedList`].
use vstd::prelude::*;

use crate::arena::NodeArena;
use crate::dlist::UnsafeLinkedList;

verus! {

/// A movable position inside a list, holding the list's exclusive borrow.
///
/// The cursor stands either on an element (its index counts from `first`) or
/// on the ghost position, which lies both before `first` and after `last`.
pub struct CursorMut<'a, T> {
    list: &'a mut UnsafeLinkedList<T>,
    cur: Option<usize>,
    index: Option<usize>,
}

/// The position reached by one step toward `last` in a list of length `n`.
pub open spec fn next_position(pos: Option<int>, n: int) -> Option<int> {
    match pos {
        None => if n > 0 {
            Some(0)
        } else {
            None
        },
        Some(k) => if k + 1 < n {
            Some(k + 1)
        } else {
            None
        },
    }
}

/// The position reached by one step toward `first` in a list of length `n`.
pub open spec fn prev_position(pos: Option<int>, n: int) -> Option<int> {
    match pos {
        None => if n > 0 {
            Some(n - 1)
        } else {
            None
        },
        Some(k) => if k > 0 {
            Some(k - 1)
        } else {
            None
        },
    }
}

/// `split_before` at `pos` on the elements `s`: the detached prefix, what the
/// list keeps, and the cursor's new position.
pub open spec fn split_before_result<A>(s: Seq<A>, pos: Option<int>) -> (Seq<A>, Seq<A>, Option<int>) {
    match pos {
        None => (s, Seq::empty(), None),
        Some(k) => (s.subrange(0, k), s.subrange(k, s.len() as int), Some(0)),
    }
}

/// `split_after` at `pos` on the elements `s`: the detached suffix, what the
/// list keeps, and the cursor's new position.
pub open spec fn split_after_result<A>(s: Seq<A>, pos: Option<int>) -> (Seq<A>, Seq<A>, Option<int>) {
    match pos {
        None => (s, Seq::empty(), None),
        Some(k) => (s.subrange(k + 1, s.len() as int), s.subrange(0, k + 1), Some(k)),
    }
}

/// `splice_before` of `t` at `pos` on the elements `s`: the new elements and
/// the cursor's new position, which still designates the same element.
pub open spec fn splice_before_result<A>(s: Seq<A>, pos: Option<int>, t: Seq<A>) -> (Seq<A>, Option<int>) {
    match pos {
        None => (s + t, None),
        Some(k) => (s.subrange(0, k) + t + s.subrange(k, s.len() as int), Some(k + t.len())),
    }
}

/// `splice_after` of `t` at `pos` on the elements `s`: the new elements and
/// the cursor's new position.
pub open spec fn splice_after_result<A>(s: Seq<A>, pos: Option<int>, t: Seq<A>) -> (Seq<A>, Option<int>) {
    match pos {
        None => (t + s, None),
        Some(k) => (s.subrange(0, k + 1) + t + s.subrange(k + 1, s.len() as int), Some(k)),
    }
}

impl<T> UnsafeLinkedList<T> {
    /// A cursor on the ghost position of this list.
    pub fn cursor_mut(&mut self) -> (r: CursorMut<'_, T>)
        ensures
            r.wf(),
            r.items() == old(self)@,
            r.position() == None::<int>,
            *final(self) == *final(r.list_ref()),
    {
        proof {
            use_type_invariant(&*self);
        }
        CursorMut { list: self, cur: None, index: None }
    }
}

impl<'a, T> CursorMut<'a, T> {
    /// The borrow of the list that the cursor edits.
    pub closed spec fn list_ref(&self) -> &'a mut UnsafeLinkedList<T> {
        self.list
    }

    /// The elements of the list, as the cursor sees them now.
    pub closed spec fn items(&self) -> Seq<T> {
        (*self.list)@
    }

    /// The index of the current element, or `None` on the ghost position.
    pub closed spec fn position(&self) -> Option<int> {
        match self.index {
            Some(k) => Some(k as int),
            None => None,
        }
    }

    /// The list is well formed and the current handle is the one at `index`.
    pub closed spec fn wf(&self) -> bool {
        &&& self.list.nodes.wf()
        &&& self.cur is None <==> self.index is None
        &&& self.index is Some ==> self.index->0 < self.list.nodes.len && self.list.nodes.handle(
            self.index->0 as int,
        ) == self.cur
    }

    /// Ends the edit and releases the borrow: the list keeps the elements that
    /// the cursor saw last.
    pub fn finish(self)
        ensures
            (*final(self.list_ref()))@ == self.items(),
    {
    }

    /// The index of the current element, or `None` on the ghost position.
    pub fn index(&self) -> (r: Option<usize>)
        requires
            self.wf(),
        ensures
            r is None <==> self.position() is None,
            r is Some ==> r->0 == self.position()->0,
    {
        self.index
    }

    /// Steps toward `last`; from the last element to the ghost position, and
    /// from the ghost position to `first`.
    pub fn move_next(&mut self)
        requires
            old(self).wf(),
        ensures
            final(self).wf(),
            final(self).items() == old(self).items(),
            final(self).position() == next_position(
                old(self).position(),
                old(self).items().len() as int,
            ),
            *final(final(self).list_ref()) == *final(old(self).list_ref()),
    {
        proof {
            self.list.nodes.lemma_ends();
        }
        match self.cur {
            Some(c) => {
                let k = match self.index {
                    Some(k) => k,
                    None => 0,
                };
                proof {
                    self.list.nodes.lemma_at(k as int);
                }
                let nx = self.list.nodes.next[c];
                self.cur = nx;
                match nx {
                    Some(_) => {
                        self.index = Some(k + 1);
                    },
                    None => {
                        self.index = None;
                    },
                }
            },
            None => {
                if self.list.nodes.len > 0 {
                    self.cur = self.list.nodes.first;
                    self.index = Some(0);
                }
            },
        }
    }

    /// Steps toward `first`; from the first element to the ghost position, and
    /// from the ghost position to `last`.
    pub fn move_back(&mut self)
        requires
            old(self).wf(),
        ensures
            final(self).wf(),
            final(self).items() == old(self).items(),
            final(self).position() == prev_position(
                old(self).position(),
                old(self).items().len() as int,
            ),
            *final(final(self).list_ref()) == *final(old(self).list_ref()),
    {
        proof {
            self.list.nodes.lemma_ends();
        }
        match self.cur {
            Some(c) => {
                let k = match self.index {
                    Some(k) => k,
                    None => 0,
                };
                proof {
                    self.list.nodes.lemma_at(k as int);
                }
                let pv = self.list.nodes.prev[c];
                self.cur = pv;
                match pv {
                    Some(_) => {
                        self.index = Some(k - 1);
                    },
                    None => {
                        self.index = None;
                    },
                }
            },
            None => {
                if self.list.nodes.len > 0 {
                    self.cur = self.list.nodes.last;
                    self.index = Some(self.list.nodes.len - 1);
                }
            },
        }
    }

    /// A mutable reference to the element at position `target`, of handle `h`.
    fn value_at(&mut self, h: Option<usize>, target: Ghost<Option<int>>) -> (r: Option<&mut T>)
        requires
            old(self).wf(),
            target@ is Some ==> 0 <= target@->0 < old(self).items().len(),
            h == match target@ {
                Some(j) => old(self).list.nodes.handle(j),
                None => None,
            },
        ensures
            final(self).wf(),
            final(self).position() == old(self).position(),
            target@ is None ==> r is None && final(self).items() == old(self).items(),
            target@ is Some ==> r is Some && *r->0 == old(self).items()[target@->0] && final(self).items() == old(self).items().update(target@->0, *final(r->0)),
            *final(final(self).list_ref()) == *final(old(self).list_ref()),
    {
        proof {
            self.list.nodes.lemma_ends();
        }
        match h {
            Some(s) => {
                let ghost j = target@->0;
                Some(self.list.nodes.value_mut(s, Ghost(j)))
            },
            None => None,
        }
    }

    /// A mutable reference to the current element, or `None` on the ghost position.
    pub fn current(&mut self) -> (r: Option<&mut T>)
        requires
            old(self).wf(),
        ensures
            final(self).wf(),
            final(self).position() == old(self).position(),
            old(self).position() is None ==> r is None && final(self).items() == old(self).items(),
            old(self).position() is Some ==> r is Some && *r->0 == old(self).items()[old(self).position()->0] && final(self).items() == old(self).items().update(
                old(self).position()->0,
                *final(r->0),
            ),
            *final(final(self).list_ref()) == *final(old(self).list_ref()),
    {
        proof {
            self.list.nodes.lemma_ends();
        }
        let h = self.cur;
        self.value_at(h, Ghost(self.position()))
    }

    /// A mutable reference to the element one step toward `last` (`first` from
    /// the ghost position), without moving.
    pub fn peek_next(&mut self) -> (r: Option<&mut T>)
        requires
            old(self).wf(),
        ensures
            ({
                let target = next_position(old(self).position(), old(self).items().len() as int);
                &&& final(self).wf()
                &&& final(self).position() == old(self).position()
                &&& target is None ==> r is None && final(self).items() == old(self).items()
                &&& target is Some ==> r is Some && *r->0 == old(self).items()[target->0] && final(self).items() == old(self).items().update(target->0, *final(r->0))
            }),
            *final(final(self).list_ref()) == *final(old(self).list_ref()),
    {
        proof {
            self.list.nodes.lemma_ends();
        }
        let h = match self.cur {
            Some(c) => {
                proof {
                    self.list.nodes.lemma_at(self.position()->0);
                }
                self.list.nodes.next[c]
            },
            None => self.list.nodes.first,
        };
        self.value_at(h, Ghost(next_position(self.position(), self.items().len() as int)))
    }

    /// A mutable reference to the element one step toward `first` (`last` from
    /// the ghost position), without moving.
    pub fn peek_back(&mut self) -> (r: Option<&mut T>)
        requires
            old(self).wf(),
        ensures
            ({
                let target = prev_position(old(self).position(), old(self).items().len() as int);
                &&& final(self).wf()
                &&& final(self).position() == old(self).position()
                &&& target is None ==> r is None && final(self).items() == old(self).items()
                &&& target is Some ==> r is Some && *r->0 == old(self).items()[target->0] && final(self).items() == old(self).items().update(target->0, *final(r->0))
            }),
            *final(final(self).list_ref()) == *final(old(self).list_ref()),
    {
        proof {
            self.list.nodes.lemma_ends();
        }
        let h = match self.cur {
            Some(c) => {
                proof {
                    self.list.nodes.lemma_at(self.position()->0);
                }
                self.list.nodes.prev[c]
            },
            None => self.list.nodes.last,
        };
        self.value_at(h, Ghost(prev_position(self.position(), self.items().len() as int)))
    }

    /// Detaches everything before the current element into a new list; the
    /// current element becomes the first, at index 0. On the ghost position
    /// the whole list is handed over and the list is left empty.
    pub fn split_before(&mut self) -> (r: UnsafeLinkedList<T>)
        requires
            old(self).wf(),
        ensures
            final(self).wf(),
            (r@, final(self).items(), final(self).position()) == split_before_result(
                old(self).items(),
                old(self).position(),
            ),
            *final(final(self).list_ref()) == *final(old(self).list_ref()),
    {
        proof {
            self.list.nodes.lemma_ends();
        }
        match self.cur {
            Some(_) => {
                let k = match self.index {
                    Some(k) => k,
                    None => 0,
                };
                let mut nodes = self.list.take_nodes();
                let out = nodes.split_off_front(k);
                self.list.nodes = nodes;
                proof {
                    self.list.nodes.lemma_ends();
                }
                self.cur = self.list.nodes.first;
                self.index = Some(0);
                UnsafeLinkedList { nodes: out }
            },
            None => {
                let mut out = UnsafeLinkedList::new();
                std::mem::swap(&mut *self.list, &mut out);
                proof {
                    use_type_invariant(&*self.list);
                }
                out
            },
        }
    }

    /// Detaches everything after the current element into a new list; the
    /// current element becomes the last and keeps its index. On the ghost
    /// position the whole list is handed over and the list is left empty.
    pub fn split_after(&mut self) -> (r: UnsafeLinkedList<T>)
        requires
            old(self).wf(),
        ensures
            final(self).wf(),
            (r@, final(self).items(), final(self).position()) == split_after_result(
                old(self).items(),
                old(self).position(),
            ),
            *final(final(self).list_ref()) == *final(old(self).list_ref()),
    {
        proof {
            self.list.nodes.lemma_ends();
        }
        match self.cur {
            Some(_) => {
                let k = match self.index {
                    Some(k) => k,
                    None => 0,
                };
                let mut nodes = self.list.take_nodes();
                let out = nodes.split_off_back(k + 1);
                self.list.nodes = nodes;
                proof {
                    self.list.nodes.lemma_ends();
                }
                self.cur = self.list.nodes.last;
                UnsafeLinkedList { nodes: out }
            },
            None => {
                let mut out = UnsafeLinkedList::new();
                std::mem::swap(&mut *self.list, &mut out);
                proof {
                    use_type_invariant(&*self.list);
                }
                out
            },
        }
    }

    /// Moves all of `input` in front of the current element (to the end of
    /// the list from the ghost position). The current element keeps its
    /// identity, so its index grows by the number of inserted elements.
    pub fn splice_before(&mut self, input: UnsafeLinkedList<T>)
        requires
            old(self).wf(),
            old(self).items().len() + input@.len() + 1 < usize::MAX,
        ensures
            final(self).wf(),
            (final(self).items(), final(self).position()) == splice_before_result(
                old(self).items(),
                old(self).position(),
                input@,
            ),
            *final(final(self).list_ref()) == *final(old(self).list_ref()),
    {
        proof {
            use_type_invariant(&input);
        }
        let mut input = input.nodes;
        proof {
            self.list.nodes.lemma_ends();
            input.lemma_ends();
        }
        if input.len == 0 {
            proof {
                assert(self.items() + input@ =~= self.items());
                if self.position() is Some {
                    let k = self.position()->0;
                    assert(self.items().subrange(0, k) + input@ + self.items().subrange(
                        k,
                        self.items().len() as int,
                    ) =~= self.items());
                }
            }
            return ;
        }
        match self.cur {
            Some(c) => {
                let k = match self.index {
                    Some(k) => k,
                    None => 0,
                };
                let m = input.len;
                let mut nodes = self.list.take_nodes();
                nodes.insert_all_before(c, Ghost(k as int), &mut input);
                self.list.nodes = nodes;
                self.index = Some(k + m);
            },
            None => {
                if self.list.nodes.len == 0 {
                    let ghost inp = input@;
                    self.list.take_nodes();
                    self.list.nodes = input;
                    assert(old(self).items() + inp =~= self.items());
                } else {
                    let mut nodes = self.list.take_nodes();
                    nodes.append_all(&mut input);
                    self.list.nodes = nodes;
                }
            },
        }
    }

    /// Moves all of `input` behind the current element (to the front of the
    /// list from the ghost position). The current element keeps its index.
    pub fn splice_after(&mut self, input: UnsafeLinkedList<T>)
        requires
            old(self).wf(),
            old(self).items().len() + input@.len() + 1 < usize::MAX,
        ensures
            final(self).wf(),
            (final(self).items(), final(self).position()) == splice_after_result(
                old(self).items(),
                old(self).position(),
                input@,
            ),
            *final(final(self).list_ref()) == *final(old(self).list_ref()),
    {
        proof {
            use_type_invariant(&input);
        }
        let mut input = input.nodes;
        proof {
            self.list.nodes.lemma_ends();
            input.lemma_ends();
        }
        if input.len == 0 {
            proof {
                assert(input@ + self.items() =~= self.items());
                if self.position() is Some {
                    let k = self.position()->0;
                    assert(self.items().subrange(0, k + 1) + input@ + self.items().subrange(
                        k + 1,
                        self.items().len() as int,
                    ) =~= self.items());
                }
            }
            return ;
        }
        match self.cur {
            Some(c) => {
                let k = match self.index {
                    Some(k) => k,
                    None => 0,
                };
                let mut nodes = self.list.take_nodes();
                nodes.insert_all_after(c, Ghost(k as int), &mut input);
                self.list.nodes = nodes;
            },
            None => {
                if self.list.nodes.len == 0 {
                    let ghost inp = input@;
                    self.list.take_nodes();
                    self.list.nodes = input;
                    assert(inp + old(self).items() =~= self.items());
                } else {
                    let mut nodes = self.list.take_nodes();
                    nodes.prepend_all(&mut input);
                    self.list.nodes = nodes;
                }
            },
        }
    }
}

} // verus!
