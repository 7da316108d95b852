//! Laws relating the operations of [`crate::dlist`], stated over the spec
//! functions that the operations' own contracts use.
use vstd::prelude::*;

use crate::dlist::cursor::{splice_after_result, splice_before_result, split_before_result};
use crate::dlist::{back_of, front_of, without_back, without_front};

verus! {

/// The elements handed out by repeated `next` until exhaustion.
pub open spec fn drained_from_front<A>(s: Seq<A>) -> Seq<A>
    decreases s.len(),
{
    if s.len() == 0 {
        Seq::empty()
    } else {
        seq![s[0]] + drained_from_front(without_front(s))
    }
}

/// The elements handed out by repeated `next_back` until exhaustion.
pub open spec fn drained_from_back<A>(s: Seq<A>) -> Seq<A>
    decreases s.len(),
{
    if s.len() == 0 {
        Seq::empty()
    } else {
        seq![s.last()] + drained_from_back(without_back(s))
    }
}

/// Each push adds exactly one element and each pop on a non-empty list removes
/// exactly one, while a pop on an empty list changes nothing: the length is
/// always the number of elements pushed and not yet popped.
pub proof fn lemma_length_counts_pushes_and_pops<A>(s: Seq<A>, x: A)
    ensures
        (seq![x] + s).len() == s.len() + 1,
        s.push(x).len() == s.len() + 1,
        s.len() > 0 ==> without_front(s).len() == s.len() - 1 && front_of(s) is Some,
        s.len() > 0 ==> without_back(s).len() == s.len() - 1 && back_of(s) is Some,
        s.len() == 0 ==> without_front(s) == s && front_of(s) is None,
        s.len() == 0 ==> without_back(s) == s && back_of(s) is None,
{
}

/// Draining from the front hands out the elements in order.
pub proof fn lemma_front_drain_is_forward_order<A>(s: Seq<A>)
    ensures
        drained_from_front(s) == s,
    decreases s.len(),
{
    if s.len() > 0 {
        lemma_front_drain_is_forward_order(without_front(s));
        assert(seq![s[0]] + without_front(s) =~= s);
    }
}

/// Forward iteration followed by reversal equals backward iteration.
pub proof fn lemma_backward_is_reversed_forward<A>(s: Seq<A>)
    ensures
        drained_from_front(s).reverse() == drained_from_back(s),
    decreases s.len(),
{
    lemma_front_drain_is_forward_order(s);
    if s.len() > 0 {
        lemma_backward_is_reversed_forward(without_back(s));
        lemma_front_drain_is_forward_order(without_back(s));
        assert(s.reverse() =~= seq![s.last()] + without_back(s).reverse());
    } else {
        assert(s.reverse() =~= Seq::<A>::empty());
    }
}

/// `pop_first` right after `push(x)` returns `x` and restores the list.
pub proof fn lemma_push_then_pop_front<A>(s: Seq<A>, x: A)
    ensures
        front_of(seq![x] + s) == Some(x),
        without_front(seq![x] + s) == s,
        without_front(seq![x] + s).len() == s.len(),
{
    assert(without_front(seq![x] + s) =~= s);
}

/// `split_before` at any valid cursor position, followed by `splice_before`
/// of the detached prefix at the cursor's new position, gives back the
/// elements and position it started from.
pub proof fn lemma_split_then_splice_before<A>(s: Seq<A>, pos: Option<int>)
    requires
        pos is Some ==> 0 <= pos->0 < s.len(),
    ensures
        ({
            let (prefix, rest, new_pos) = split_before_result(s, pos);
            splice_before_result(rest, new_pos, prefix) == (s, pos)
        }),
{
    match pos {
        None => {
            assert(Seq::<A>::empty() + s =~= s);
        },
        Some(k) => {
            let rest = s.subrange(k, s.len() as int);
            assert(rest.subrange(0, 0) + s.subrange(0, k) + rest.subrange(0, rest.len() as int)
                =~= s);
        },
    }
}

/// Splicing an empty list, before or after, changes neither the elements nor
/// the cursor position.
pub proof fn lemma_splice_empty_is_noop<A>(s: Seq<A>, pos: Option<int>)
    requires
        pos is Some ==> 0 <= pos->0 < s.len(),
    ensures
        splice_before_result(s, pos, Seq::empty()) == (s, pos),
        splice_after_result(s, pos, Seq::empty()) == (s, pos),
{
    assert(s + Seq::<A>::empty() =~= s);
    assert(Seq::<A>::empty() + s =~= s);
    if pos is Some {
        let k = pos->0;
        assert(s.subrange(0, k) + Seq::<A>::empty() + s.subrange(k, s.len() as int) =~= s);
        assert(s.subrange(0, k + 1) + Seq::<A>::empty() + s.subrange(k + 1, s.len() as int) =~= s);
    }
}

} // verus!
