//! A doubly linked list whose nodes live in an arena addressed by integer
//! handles, with a double-ended iterator family and an editing cursor.
use vstd::prelude::*;
use vstd::std_specs::cmp::PartialEqSpec;
use vstd::std_specs::cmp::PartialOrdSpec;

use crate::arena::NodeArena;

pub mod cursor;
pub mod iter;

verus! {

/// The first element of `s`, if any.
pub open spec fn front_of<A>(s: Seq<A>) -> Option<A> {
    if s.len() == 0 {
        None
    } else {
        Some(s[0])
    }
}

/// The last element of `s`, if any.
pub open spec fn back_of<A>(s: Seq<A>) -> Option<A> {
    if s.len() == 0 {
        None
    } else {
        Some(s.last())
    }
}

/// `s` without its first element; the empty sequence stays empty.
pub open spec fn without_front<A>(s: Seq<A>) -> Seq<A> {
    if s.len() == 0 {
        s
    } else {
        s.subrange(1, s.len() as int)
    }
}

/// `s` without its last element; the empty sequence stays empty.
pub open spec fn without_back<A>(s: Seq<A>) -> Seq<A> {
    if s.len() == 0 {
        s
    } else {
        s.drop_last()
    }
}

/// A doubly linked list with O(1) insertion and removal at both ends, a
/// double-ended iterator family and an editing cursor.
pub struct UnsafeLinkedList<T> {
    pub(crate) nodes: NodeArena<T>,
}

impl<T> View for UnsafeLinkedList<T> {
    type V = Seq<T>;

    /// The elements, from `first` to `last`.
    closed spec fn view(&self) -> Seq<T> {
        self.nodes@
    }
}

impl<T> UnsafeLinkedList<T> {
    #[verifier::type_invariant]
    pub(crate) closed spec fn inv(&self) -> bool {
        self.nodes.wf()
    }

    /// Moves the nodes out, leaving the list empty; the caller puts them back.
    pub(crate) fn take_nodes(&mut self) -> (r: NodeArena<T>)
        ensures
            r.wf(),
            r == old(self).nodes,
            r@ == old(self)@,
            final(self)@ == Seq::<T>::empty(),
    {
        proof {
            use_type_invariant(&*self);
        }
        let mut r = NodeArena::new();
        std::mem::swap(&mut self.nodes, &mut r);
        r
    }

    /// Creates an empty list.
    pub fn new() -> (r: Self)
        ensures
            r@ == Seq::<T>::empty(),
    {
        UnsafeLinkedList { nodes: NodeArena::new() }
    }

    /// The number of elements.
    pub fn len(&self) -> (r: usize)
        ensures
            r == self@.len(),
    {
        proof {
            use_type_invariant(self);
        }
        self.nodes.len()
    }

    /// Whether the list holds no element.
    pub fn is_empty(&self) -> (r: bool)
        ensures
            r == (self@.len() == 0),
    {
        proof {
            use_type_invariant(self);
        }
        self.nodes.is_empty()
    }

    /// Inserts `value` before the first element.
    pub fn push(&mut self, value: T)
        requires
            old(self)@.len() + 1 < usize::MAX,
        ensures
            final(self)@ == seq![value] + old(self)@,
    {
        let mut nodes = self.take_nodes();
        nodes.push(value);
        self.nodes = nodes;
    }

    /// Inserts `value` after the last element.
    pub fn push_back(&mut self, value: T)
        requires
            old(self)@.len() + 1 < usize::MAX,
        ensures
            final(self)@ == old(self)@.push(value),
    {
        let mut nodes = self.take_nodes();
        nodes.push_back(value);
        self.nodes = nodes;
    }

    /// Removes the first element and returns it, or `None` when the list is empty.
    pub fn pop_first(&mut self) -> (r: Option<T>)
        ensures
            r == front_of(old(self)@),
            final(self)@ == without_front(old(self)@),
    {
        let mut nodes = self.take_nodes();
        let r = nodes.pop_first();
        self.nodes = nodes;
        r
    }

    /// Removes the last element and returns it, or `None` when the list is empty.
    pub fn pop_back(&mut self) -> (r: Option<T>)
        ensures
            r == back_of(old(self)@),
            final(self)@ == without_back(old(self)@),
    {
        let mut nodes = self.take_nodes();
        let r = nodes.pop_back();
        self.nodes = nodes;
        r
    }

    /// The first element, or `None` when the list is empty.
    pub fn first(&self) -> (r: Option<&T>)
        ensures
            r is None <==> self@.len() == 0,
            r is Some ==> *r->0 == self@[0],
    {
        proof {
            use_type_invariant(self);
        }
        self.nodes.first()
    }

    /// A mutable reference to the first element, or `None` when the list is empty.
    pub fn first_mut(&mut self) -> (r: Option<&mut T>)
        ensures
            old(self)@.len() == 0 ==> r is None && final(self)@ == old(self)@,
            old(self)@.len() > 0 ==> r is Some && *r->0 == old(self)@[0] && final(self)@ == old(
                self)@.update(0, *final(r->0)),
    {
        proof {
            use_type_invariant(&*self);
        }
        self.nodes.first_mut()
    }

    /// The last element, or `None` when the list is empty.
    pub fn back(&self) -> (r: Option<&T>)
        ensures
            r is None <==> self@.len() == 0,
            r is Some ==> *r->0 == self@.last(),
    {
        proof {
            use_type_invariant(self);
        }
        self.nodes.back()
    }

    /// A mutable reference to the last element, or `None` when the list is empty.
    pub fn back_mut(&mut self) -> (r: Option<&mut T>)
        ensures
            old(self)@.len() == 0 ==> r is None && final(self)@ == old(self)@,
            old(self)@.len() > 0 ==> r is Some && *r->0 == old(self)@.last() && final(self)@
                == old(self)@.update(old(self)@.len() - 1, *final(r->0)),
    {
        proof {
            use_type_invariant(&*self);
        }
        self.nodes.back_mut()
    }

    /// Appends the items of `items`, in order, by repeated `push_back`.
    pub fn extend(&mut self, items: Vec<T>)
        requires
            old(self)@.len() + items@.len() + 1 < usize::MAX,
        ensures
            final(self)@ == old(self)@ + items@,
    {
        let mut items = items;
        let ghost v = items@;
        let mut tail = NodeArena::new();
        while items.len() > 0
            invariant
                tail.wf(),
                items@ + tail@ == v,
                v.len() + 1 < usize::MAX,
            decreases items@.len(),
        {
            proof {
                tail.lemma_ends();
                assert((items@ + tail@).len() == v.len());
            }
            let ghost before = items@;
            match items.pop() {
                Some(x) => {
                    tail.push(x);
                    assert(before =~= items@.push(x));
                    assert(items@ + tail@ =~= v);
                },
                None => {},
            }
        }
        assert(items@ + tail@ =~= tail@);
        let mut nodes = self.take_nodes();
        proof {
            tail.lemma_ends();
            nodes.lemma_ends();
        }
        nodes.append_all(&mut tail);
        self.nodes = nodes;
    }

    /// A list of the items of `items`, in order.
    pub fn from_vec(items: Vec<T>) -> (r: Self)
        requires
            items@.len() + 1 < usize::MAX,
        ensures
            r@ == items@,
    {
        let mut r = UnsafeLinkedList::new();
        r.extend(items);
        assert(Seq::<T>::empty() + items@ =~= items@);
        r
    }

    /// Removes every element, one node at a time from the front.
    pub fn clear(&mut self)
        ensures
            final(self)@ == Seq::<T>::empty(),
    {
        let mut nodes = self.take_nodes();
        nodes.clear();
        self.nodes = nodes;
    }
}

/// Feeds one value to a hasher.
#[verifier::external_body]
fn hash_one<A: core::hash::Hash, H: core::hash::Hasher>(x: &A, state: &mut H) {
    x.hash(state)
}

impl<T: core::hash::Hash> core::hash::Hash for UnsafeLinkedList<T> {
    fn hash<H: core::hash::Hasher>(&self, state: &mut H) {
        let n = self.len();
        hash_one(&n, state);
        let mut it = self.iter();
        while it.len() > 0
            invariant
                it.wf(),
            decreases it@.len(),
        {
            match it.next() {
                Some(x) => hash_one(x, state),
                None => {},
            }
        }
    }
}

/// Element-wise equality of two sequences of equal length.
pub open spec fn items_eq<A: PartialEq>(a: Seq<A>, b: Seq<A>) -> bool {
    &&& a.len() == b.len()
    &&& forall|i: int| 0 <= i < a.len() ==> #[trigger] a[i].eq_spec(&b[i])
}

/// Lexicographic comparison under a partial order on the elements: the first
/// pair that does not compare equal decides, and a proper prefix is less.
pub open spec fn lex_cmp<A: PartialOrd>(a: Seq<A>, b: Seq<A>) -> Option<core::cmp::Ordering>
    decreases a.len(),
{
    if a.len() == 0 {
        if b.len() == 0 {
            Some(core::cmp::Ordering::Equal)
        } else {
            Some(core::cmp::Ordering::Less)
        }
    } else if b.len() == 0 {
        Some(core::cmp::Ordering::Greater)
    } else {
        match a[0].partial_cmp_spec(&b[0]) {
            Some(core::cmp::Ordering::Equal) => lex_cmp(a.drop_first(), b.drop_first()),
            c => c,
        }
    }
}

impl<T> Default for UnsafeLinkedList<T> {
    fn default() -> (r: Self)
        ensures
            r@ == Seq::<T>::empty(),
    {
        UnsafeLinkedList::new()
    }
}

impl<T: Clone> Clone for UnsafeLinkedList<T> {
    /// A list of clones of the elements, in order.
    fn clone(&self) -> (r: Self)
        ensures
            r@.len() == self@.len(),
            forall|i: int| 0 <= i < self@.len() ==> cloned(#[trigger] self@[i], r@[i]),
    {
        let mut out = UnsafeLinkedList::new();
        let mut it = self.iter();
        let ghost n = self@.len();
        proof {
            use_type_invariant(self);
            self.nodes.lemma_ends();
        }
        while it.len() > 0
            invariant
                it.wf(),
                n == self@.len(),
                n < usize::MAX,
                out@.len() + it@.len() == n,
                it@ == self@.subrange(out@.len() as int, n as int),
                forall|i: int| 0 <= i < out@.len() ==> cloned(#[trigger] self@[i], out@[i]),
            decreases it@.len(),
        {
            let ghost j = out@.len() as int;
            match it.next() {
                Some(x) => {
                    assert(*x == self@[j]);
                    let c = x.clone();
                    out.push_back(c);
                    assert(self@.subrange(j + 1, n as int) =~= self@.subrange(j, n as int).drop_first());
                },
                None => {},
            }
        }
        out
    }
}

impl<T: PartialEq> PartialEq for UnsafeLinkedList<T> {
    /// Equal lengths and element-wise equal contents.
    fn eq(&self, other: &Self) -> (r: bool) {
        if self.len() != other.len() {
            return false;
        }
        let ghost n = self@.len() as int;
        let mut a = self.iter();
        let mut b = other.iter();
        while a.len() > 0
            invariant
                a.wf(),
                b.wf(),
                n == self@.len(),
                n == other@.len(),
                a@.len() == b@.len(),
                a@.len() <= n,
                a@ == self@.subrange(n - a@.len(), n),
                b@ == other@.subrange(n - b@.len(), n),
                T::obeys_eq_spec() ==> forall|i: int|
                    0 <= i < n - a@.len() ==> #[trigger] self@[i].eq_spec(&other@[i]),
            decreases a@.len(),
        {
            let ghost j = n - a@.len();
            match (a.next(), b.next()) {
                (Some(x), Some(y)) => {
                    assert(*x == self@[j] && *y == other@[j]);
                    if !x.eq(y) {
                        return false;
                    }
                },
                _ => {},
            }
            assert(self@.subrange(j + 1, n) =~= self@.subrange(j, n).drop_first());
            assert(other@.subrange(j + 1, n) =~= other@.subrange(j, n).drop_first());
        }
        true
    }
}

impl<T: PartialEq> vstd::std_specs::cmp::PartialEqSpecImpl for UnsafeLinkedList<T> {
    open spec fn obeys_eq_spec() -> bool {
        T::obeys_eq_spec()
    }

    open spec fn eq_spec(&self, other: &Self) -> bool {
        items_eq(self@, other@)
    }
}

impl<T: Eq> Eq for UnsafeLinkedList<T> {

}

impl<T: PartialOrd> PartialOrd for UnsafeLinkedList<T> {
    /// Lexicographic comparison of the contents.
    fn partial_cmp(&self, other: &Self) -> (r: Option<core::cmp::Ordering>) {
        let mut a = self.iter();
        let mut b = other.iter();
        loop
            invariant
                a.wf(),
                b.wf(),
                T::obeys_partial_cmp_spec() ==> lex_cmp(a@, b@) == lex_cmp(self@, other@),
            decreases a@.len(),
        {
            let ghost a0 = a@;
            let ghost b0 = b@;
            match (a.next(), b.next()) {
                (None, None) => {
                    return Some(core::cmp::Ordering::Equal);
                },
                (None, Some(_)) => {
                    return Some(core::cmp::Ordering::Less);
                },
                (Some(_), None) => {
                    return Some(core::cmp::Ordering::Greater);
                },
                (Some(x), Some(y)) => {
                    let c = x.partial_cmp(y);
                    match c {
                        Some(core::cmp::Ordering::Equal) => {},
                        _ => {
                            return c;
                        },
                    }
                    assert(a@ =~= a0.drop_first());
                    assert(b@ =~= b0.drop_first());
                },
            }
        }
    }
}

impl<T: PartialOrd> vstd::std_specs::cmp::PartialOrdSpecImpl for UnsafeLinkedList<T> {
    open spec fn obeys_partial_cmp_spec() -> bool {
        T::obeys_partial_cmp_spec()
    }

    open spec fn partial_cmp_spec(&self, other: &Self) -> Option<core::cmp::Ordering> {
        lex_cmp(self@, other@)
    }
}

/// The renderings `parts`, separated by a comma and a space.
pub open spec fn joined(parts: Seq<Seq<char>>) -> Seq<char>
    decreases parts.len(),
{
    if parts.len() == 0 {
        Seq::empty()
    } else if parts.len() == 1 {
        parts[0]
    } else {
        joined(parts.drop_last()) + seq![',', ' '] + parts.last()
    }
}

/// The renderings `parts` as a bracketed list: `[a, b, c]`.
pub open spec fn bracketed(parts: Seq<Seq<char>>) -> Seq<char> {
    seq!['['] + joined(parts) + seq![']']
}

/// Relies on `format!("{:?}", x)`: the `Debug` rendering of one element.
#[verifier::external_body]
fn debug_text<A: core::fmt::Debug>(x: &A) -> String {
    format!("{:?}", x)
}

/// Relies on `String::push_str`: appends `t` to `s`.
#[verifier::external_body]
fn push_text(s: &mut String, t: &str)
    ensures
        final(s)@ == old(s)@ + t@,
{
    s.push_str(t)
}

impl<T: core::fmt::Debug> UnsafeLinkedList<T> {
    /// The list rendered as its elements' own renderings, in order, between
    /// brackets and separated by `, `.
    pub fn debug_string(&self) -> (r: String)
        ensures
            exists|parts: Seq<Seq<char>>| parts.len() == self@.len() && r@ == bracketed(parts),
    {
        let mut out = String::new();
        proof {
            reveal_strlit("[");
            reveal_strlit(", ");
            reveal_strlit("]");
        }
        push_text(&mut out, "[");
        let ghost mut parts: Seq<Seq<char>> = Seq::empty();
        let mut it = self.iter();
        let mut first = true;
        while it.len() > 0
            invariant
                it.wf(),
                first == (parts.len() == 0),
                parts.len() + it@.len() == self@.len(),
                out@ == seq!['['] + joined(parts),
            decreases it@.len(),
        {
            proof {
                reveal_strlit(", ");
            }
            match it.next() {
                Some(x) => {
                    let ghost out0 = out@;
                    if !first {
                        push_text(&mut out, ", ");
                    }
                    let text = debug_text(x);
                    push_text(&mut out, text.as_str());
                    proof {
                        let old_parts = parts;
                        parts = parts.push(text@);
                        assert(parts.drop_last() =~= old_parts);
                        if old_parts.len() == 0 {
                            assert(joined(parts) == text@);
                            assert(out@ == out0 + text@);
                        } else {
                            assert(joined(parts) == joined(old_parts) + seq![',', ' '] + text@);
                            assert(out@ == out0 + seq![',', ' '] + text@);
                        }
                        assert(out@ =~= seq!['['] + joined(parts));
                    }
                    first = false;
                },
                None => {},
            }
        }
        push_text(&mut out, "]");
        out
    }
}

} // verus!
