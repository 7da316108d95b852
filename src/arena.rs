//! The node store behind [`crate::dlist::UnsafeLinkedList`].
//!
//! Every node lives in slot `s` of three parallel vectors: its payload, the
//! handle of its predecessor (toward `first`) and the handle of its successor
//! (toward `last`). The store is kept dense: a list of length `n` uses exactly
//! the slots `0 .. n`, and removing a node moves the node of the highest slot
//! into the freed one. The ghost sequence `order` gives the slot of each
//! position, `rank` the position of each slot.
use vstd::prelude::*;

use crate::dlist::{back_of, front_of, without_back, without_front};

verus! {

/// The nodes of one list: payloads, links and end handles, with the ghost
/// order of the slots.
pub(crate) struct NodeArena<T> {
    pub(crate) values: Vec<T>,
    pub(crate) prev: Vec<Option<usize>>,
    pub(crate) next: Vec<Option<usize>>,
    pub(crate) first: Option<usize>,
    pub(crate) last: Option<usize>,
    pub(crate) len: usize,
    pub(crate) order: Ghost<Seq<int>>,
    pub(crate) rank: Ghost<Seq<int>>,
}

/// The handle at position `i` of `order`, or `None` outside `0 .. order.len()`.
pub open spec fn handle_at(order: Seq<int>, i: int) -> Option<usize> {
    if 0 <= i < order.len() {
        Some(order[i] as usize)
    } else {
        None
    }
}

/// `links` with the entry at handle `at` set to `v`; unchanged when `at` is `None`.
spec fn set_link(links: Seq<Option<usize>>, at: Option<usize>, v: Option<usize>) -> Seq<
    Option<usize>,
> {
    match at {
        Some(i) => links.update(i as int, v),
        None => links,
    }
}

/// What `swap_remove(s)` leaves of `x`.
spec fn swap_removed<A>(x: Seq<A>, s: int) -> Seq<A> {
    x.update(s, x.last()).drop_last()
}

/// Position, once position `k` is gone, of the slot `t` whose position was `rank[t]`.
spec fn adj_rank(rank: Seq<int>, k: int, t: int) -> int {
    if rank[t] > k {
        rank[t] - 1
    } else {
        rank[t]
    }
}

/// A link after the node of slot `m` has moved to slot `s`.
spec fn renamed(link: Option<usize>, m: int, s: int) -> Option<usize> {
    match link {
        Some(x) => if x == m {
            Some(s as usize)
        } else {
            Some(x)
        },
        None => None,
    }
}

/// `order` and `rank` are inverse bijections on `0 .. n`, and the links in both
/// directions, with the two end handles, follow `order`.
#[verifier::opaque]
pub(crate) closed spec fn linked(
    order: Seq<int>,
    rank: Seq<int>,
    prev: Seq<Option<usize>>,
    next: Seq<Option<usize>>,
    first: Option<usize>,
    last: Option<usize>,
) -> bool {
    let n = order.len() as int;
    &&& rank.len() == n
    &&& prev.len() == n
    &&& next.len() == n
    &&& forall|i: int| 0 <= i < n ==> 0 <= #[trigger] order[i] < n && rank[order[i]] == i
    &&& forall|t: int| 0 <= t < n ==> 0 <= #[trigger] rank[t] < n && order[rank[t]] == t
    &&& forall|i: int| 0 <= i < n ==> #[trigger] prev[order[i]] == handle_at(order, i - 1)
    &&& forall|i: int| 0 <= i < n ==> #[trigger] next[order[i]] == handle_at(order, i + 1)
    &&& first == handle_at(order, 0)
    &&& last == handle_at(order, n - 1)
}

/// The facts of `linked` at one position.
proof fn lemma_linked_at(
    order: Seq<int>,
    rank: Seq<int>,
    prev: Seq<Option<usize>>,
    next: Seq<Option<usize>>,
    first: Option<usize>,
    last: Option<usize>,
    k: int,
)
    requires
        linked(order, rank, prev, next, first, last),
        0 <= k < order.len(),
    ensures
        0 <= order[k] < order.len(),
        rank[order[k]] == k,
        prev[order[k]] == handle_at(order, k - 1),
        next[order[k]] == handle_at(order, k + 1),
{
    reveal(linked);
}

proof fn lemma_linked_ends(
    order: Seq<int>,
    rank: Seq<int>,
    prev: Seq<Option<usize>>,
    next: Seq<Option<usize>>,
    first: Option<usize>,
    last: Option<usize>,
)
    requires
        linked(order, rank, prev, next, first, last),
    ensures
        first == handle_at(order, 0),
        last == handle_at(order, order.len() - 1),
        rank.len() == order.len(),
        prev.len() == order.len(),
        next.len() == order.len(),
        forall|i: int| 0 <= i < order.len() ==> 0 <= #[trigger] order[i] < order.len(),
{
    reveal(linked);
}

proof fn lemma_linked_empty()
    ensures
        linked(Seq::empty(), Seq::empty(), Seq::empty(), Seq::empty(), None, None),
{
    reveal(linked);
}

/// Linking a new node of slot `n` between positions `k - 1` and `k`.
proof fn lemma_linked_insert(
    order: Seq<int>,
    rank: Seq<int>,
    prev: Seq<Option<usize>>,
    next: Seq<Option<usize>>,
    first: Option<usize>,
    last: Option<usize>,
    k: int,
)
    requires
        linked(order, rank, prev, next, first, last),
        0 <= k <= order.len(),
        order.len() < usize::MAX,
    ensures
        ({
            let n = order.len() as int;
            let p = handle_at(order, k - 1);
            let q = handle_at(order, k);
            let s = Some(n as usize);
            linked(
                order.insert(k, n),
                Seq::new(
                    (n + 1) as nat,
                    |t: int|
                        if t == n {
                            k
                        } else if rank[t] >= k {
                            rank[t] + 1
                        } else {
                            rank[t]
                        },
                ),
                set_link(prev.push(p), q, s),
                set_link(next.push(q), p, s),
                if p is None {
                    s
                } else {
                    first
                },
                if q is None {
                    s
                } else {
                    last
                },
            )
        }),
{
    reveal(linked);
    let n = order.len() as int;
    let p = handle_at(order, k - 1);
    let q = handle_at(order, k);
    let s = Some(n as usize);
    let new_order = order.insert(k, n);
    let new_rank = Seq::new(
        (n + 1) as nat,
        |t: int|
            if t == n {
                k
            } else if rank[t] >= k {
                rank[t] + 1
            } else {
                rank[t]
            },
    );
    let new_prev = set_link(prev.push(p), q, s);
    let new_next = set_link(next.push(q), p, s);
    let new_first = if p is None {
        s
    } else {
        first
    };
    let new_last = if q is None {
        s
    } else {
        last
    };
    assert forall|i: int| 0 <= i < n + 1 implies 0 <= #[trigger] new_order[i] < n + 1
        && new_rank[new_order[i]] == i by {
        if i < k {
            assert(new_order[i] == order[i]);
        } else if i > k {
            assert(new_order[i] == order[i - 1]);
        }
    }
    assert forall|t: int| 0 <= t < n + 1 implies 0 <= #[trigger] new_rank[t] < n + 1
        && new_order[new_rank[t]] == t by {
        if t < n {
            assert(order[rank[t]] == t);
        }
    }
    assert forall|i: int| 0 <= i < n + 1 implies #[trigger] new_prev[new_order[i]]
        == handle_at(new_order, i - 1) by {
        if i < k {
            assert(new_order[i] == order[i]);
            assert(prev[order[i]] == handle_at(order, i - 1));
            if i >= 1 {
                assert(new_order[i - 1] == order[i - 1]);
            }
        } else if i > k {
            assert(new_order[i] == order[i - 1]);
            assert(prev[order[i - 1]] == handle_at(order, i - 2));
            if i > k + 1 {
                assert(new_order[i - 1] == order[i - 2]);
            }
        } else {
            if k >= 1 {
                assert(new_order[k - 1] == order[k - 1]);
            }
        }
    }
    assert forall|i: int| 0 <= i < n + 1 implies #[trigger] new_next[new_order[i]]
        == handle_at(new_order, i + 1) by {
        if i < k {
            assert(new_order[i] == order[i]);
            assert(next[order[i]] == handle_at(order, i + 1));
            if i + 1 < k {
                assert(new_order[i + 1] == order[i + 1]);
            }
        } else if i > k {
            assert(new_order[i] == order[i - 1]);
            assert(next[order[i - 1]] == handle_at(order, i));
            if i + 1 < n + 1 {
                assert(new_order[i + 1] == order[i]);
            }
        } else {
            if k < n {
                assert(new_order[k + 1] == order[k]);
            }
        }
    }
    assert(new_first == handle_at(new_order, 0)) by {
        if k > 0 {
            assert(new_order[0] == order[0]);
        }
    }
    assert(new_last == handle_at(new_order, n)) by {
        if k < n {
            assert(new_order[n] == order[n - 1]);
        }
    }
}

/// The links in both directions, with the end handles, follow `o`.
spec fn chain(
    o: Seq<int>,
    prev: Seq<Option<usize>>,
    next: Seq<Option<usize>>,
    first: Option<usize>,
    last: Option<usize>,
) -> bool {
    &&& forall|i: int| 0 <= i < o.len() ==> #[trigger] prev[o[i]] == handle_at(o, i - 1)
    &&& forall|i: int| 0 <= i < o.len() ==> #[trigger] next[o[i]] == handle_at(o, i + 1)
    &&& first == handle_at(o, 0)
    &&& last == handle_at(o, o.len() - 1)
}

/// `o` (of length `n - 1`) lists each slot of `0 .. n` but `s` once, slot `t`
/// at position `adj_rank(rank, k, t)`.
spec fn bijection_except(o: Seq<int>, rank: Seq<int>, k: int, s: int, n: int) -> bool {
    &&& o.len() == n - 1
    &&& forall|j: int|
        0 <= j < n - 1 ==> 0 <= #[trigger] o[j] < n && o[j] != s && adj_rank(rank, k, o[j]) == j
    &&& forall|t: int|
        0 <= t < n && t != s ==> 0 <= #[trigger] adj_rank(rank, k, t) < n - 1 && o[adj_rank(
            rank,
            k,
            t,
        )] == t
}

/// The links and end handles once the node at position `k` is bypassed.
spec fn links_bypassed(
    order: Seq<int>,
    prev: Seq<Option<usize>>,
    next: Seq<Option<usize>>,
    first: Option<usize>,
    last: Option<usize>,
    k: int,
) -> (Seq<Option<usize>>, Seq<Option<usize>>, Option<usize>, Option<usize>) {
    let p = handle_at(order, k - 1);
    let q = handle_at(order, k + 1);
    (
        set_link(prev, q, p),
        set_link(next, p, q),
        if p is None {
            q
        } else {
            first
        },
        if q is None {
            p
        } else {
            last
        },
    )
}

/// The links and end handles once slot `s` is freed by `swap_remove` and the
/// node that moved into it is relinked.
spec fn links_moved(
    prev: Seq<Option<usize>>,
    next: Seq<Option<usize>>,
    first: Option<usize>,
    last: Option<usize>,
    s: int,
) -> (Seq<Option<usize>>, Seq<Option<usize>>, Option<usize>, Option<usize>) {
    let m = prev.len() - 1;
    let sp = swap_removed(prev, s);
    let sn = swap_removed(next, s);
    if s < m {
        let pp = sp[s];
        let qq = sn[s];
        (
            set_link(sp, qq, Some(s as usize)),
            set_link(sn, pp, Some(s as usize)),
            if pp is None {
                Some(s as usize)
            } else {
                first
            },
            if qq is None {
                Some(s as usize)
            } else {
                last
            },
        )
    } else {
        (sp, sn, first, last)
    }
}

/// Bypassing the node at position `k` leaves a chain over the other positions.
proof fn lemma_bypass(
    order: Seq<int>,
    rank: Seq<int>,
    prev: Seq<Option<usize>>,
    next: Seq<Option<usize>>,
    first: Option<usize>,
    last: Option<usize>,
    k: int,
)
    requires
        linked(order, rank, prev, next, first, last),
        0 <= k < order.len() < usize::MAX,
    ensures
        ({
            let b = links_bypassed(order, prev, next, first, last, k);
            &&& chain(order.remove(k), b.0, b.1, b.2, b.3)
            &&& bijection_except(order.remove(k), rank, k, order[k], order.len() as int)
            &&& b.0.len() == order.len()
            &&& b.1.len() == order.len()
        }),
{
    reveal(linked);
    let n = order.len() as int;
    let p = handle_at(order, k - 1);
    let q = handle_at(order, k + 1);
    let b = links_bypassed(order, prev, next, first, last, k);
    let o1 = order.remove(k);
    assert forall|i: int| 0 <= i < n - 1 implies #[trigger] b.0[o1[i]] == handle_at(o1, i - 1) by {
        if i < k {
            assert(o1[i] == order[i]);
            assert(prev[order[i]] == handle_at(order, i - 1));
            if i >= 1 {
                assert(o1[i - 1] == order[i - 1]);
            }
            if k + 1 < n {
                assert(rank[order[k + 1]] == k + 1);
            }
        } else {
            assert(o1[i] == order[i + 1]);
            assert(prev[order[i + 1]] == handle_at(order, i));
            if i > k {
                assert(o1[i - 1] == order[i]);
            } else if k >= 1 {
                assert(o1[k - 1] == order[k - 1]);
            }
            assert(rank[order[i + 1]] == i + 1);
        }
    }
    assert forall|i: int| 0 <= i < n - 1 implies #[trigger] b.1[o1[i]] == handle_at(o1, i + 1) by {
        if i < k {
            assert(o1[i] == order[i]);
            assert(next[order[i]] == handle_at(order, i + 1));
            if i + 1 < k {
                assert(o1[i + 1] == order[i + 1]);
            } else if k + 1 < n {
                assert(o1[k] == order[k + 1]);
            }
            assert(rank[order[i]] == i);
            if k >= 1 {
                assert(rank[order[k - 1]] == k - 1);
            }
        } else {
            assert(o1[i] == order[i + 1]);
            assert(next[order[i + 1]] == handle_at(order, i + 2));
            if i + 1 < n - 1 {
                assert(o1[i + 1] == order[i + 2]);
            }
            if k >= 1 {
                assert(rank[order[k - 1]] == k - 1);
            }
            assert(rank[order[i + 1]] == i + 1);
        }
    }
    assert(b.2 == handle_at(o1, 0)) by {
        if k > 0 {
            assert(o1[0] == order[0]);
        } else if n > 1 {
            assert(o1[0] == order[1]);
        }
    }
    assert(b.3 == handle_at(o1, n - 2)) by {
        if k < n - 1 {
            assert(o1[n - 2] == order[n - 1]);
        } else if n > 1 {
            assert(o1[n - 2] == order[n - 2]);
        }
    }
    let s = order[k];
    assert forall|j: int| 0 <= j < n - 1 implies 0 <= #[trigger] o1[j] < n && o1[j] != s
        && adj_rank(rank, k, o1[j]) == j by {
        if j < k {
            assert(o1[j] == order[j]);
        } else {
            assert(o1[j] == order[j + 1]);
        }
    }
    assert forall|t: int| 0 <= t < n && t != s implies 0 <= #[trigger] adj_rank(rank, k, t) < n
        - 1 && o1[adj_rank(rank, k, t)] == t by {
        assert(order[rank[t]] == t);
        assert(rank[t] != k);
    }
}

/// Moving the node of the highest slot into the freed slot `s` gives a linked
/// list again, with every handle `m` renamed to `s`.
#[verifier::rlimit(40)]
proof fn lemma_move_last(
    o1: Seq<int>,
    rank: Seq<int>,
    prev: Seq<Option<usize>>,
    next: Seq<Option<usize>>,
    first: Option<usize>,
    last: Option<usize>,
    k: int,
    s: int,
)
    requires
        chain(o1, prev, next, first, last),
        bijection_except(o1, rank, k, s, prev.len() as int),
        prev.len() == next.len(),
        0 <= s < prev.len() < usize::MAX,
    ensures
        ({
            let m = prev.len() - 1;
            let o2 = o1.map_values(|t: int| if t == m { s } else { t });
            let r2 = Seq::new(m as nat, |t: int| adj_rank(rank, k, if t == s { m } else { t }));
            let st = links_moved(prev, next, first, last, s);
            linked(o2, r2, st.0, st.1, st.2, st.3)
        }),
        s < prev.len() - 1 ==> match swap_removed(prev, s)[s] {
            Some(x) => x < prev.len() - 1,
            None => true,
        },
        s < prev.len() - 1 ==> match swap_removed(next, s)[s] {
            Some(x) => x < prev.len() - 1,
            None => true,
        },
{
    reveal(linked);
    let n = prev.len() as int;
    let m = n - 1;
    let o2 = o1.map_values(|t: int| if t == m { s } else { t });
    let r2 = Seq::new(m as nat, |t: int| adj_rank(rank, k, if t == s { m } else { t }));
    let st = links_moved(prev, next, first, last, s);
    let sp = swap_removed(prev, s);
    let sn = swap_removed(next, s);
    let km1 = adj_rank(rank, k, m);
    if s < m {
        assert(o1[km1] == m);
        assert(sp[s] == handle_at(o1, km1 - 1));
        assert(sn[s] == handle_at(o1, km1 + 1));
        if km1 >= 1 {
            assert(o1[km1 - 1] != m);
        }
        if km1 + 1 < n - 1 {
            assert(o1[km1 + 1] != m);
        }
    }
    assert forall|t: int| 0 <= t < n - 1 implies #[trigger] st.0[t] == renamed(
        prev[if t == s { m } else { t }],
        m,
        s,
    ) && st.1[t] == renamed(next[if t == s { m } else { t }], m, s) by {
        let t0 = if t == s {
            m
        } else {
            t
        };
        let j = adj_rank(rank, k, t0);
        assert(o1[j] == t0);
        assert(prev[o1[j]] == handle_at(o1, j - 1));
        assert(next[o1[j]] == handle_at(o1, j + 1));
        if s < m {
            if j >= 1 && o1[j - 1] == m {
                assert(j - 1 == km1);
            }
            if j + 1 < n - 1 && o1[j + 1] == m {
                assert(j + 1 == km1);
            }
        }
    }
    assert(st.2 == renamed(first, m, s) && st.3 == renamed(last, m, s)) by {
        if s < m {
            if n > 1 && o1[0] == m {
                assert(km1 == 0);
            }
            if n > 1 && o1[n - 2] == m {
                assert(km1 == n - 2);
            }
        }
    }
    assert forall|i: int| 0 <= i < n - 1 implies 0 <= #[trigger] o2[i] < n - 1 && r2[o2[i]]
        == i by {
        assert(o1[i] != s);
    }
    assert forall|t: int| 0 <= t < n - 1 implies 0 <= #[trigger] r2[t] < n - 1 && o2[r2[t]]
        == t by {
        let t0 = if t == s {
            m
        } else {
            t
        };
        assert(o1[adj_rank(rank, k, t0)] == t0);
    }
    assert forall|i: int| 0 <= i < n - 1 implies #[trigger] st.0[o2[i]] == handle_at(o2, i - 1)
        by {
        assert(o1[i] != s);
        assert(prev[o1[i]] == handle_at(o1, i - 1));
    }
    assert forall|i: int| 0 <= i < n - 1 implies #[trigger] st.1[o2[i]] == handle_at(o2, i + 1)
        by {
        assert(o1[i] != s);
        assert(next[o1[i]] == handle_at(o1, i + 1));
    }
}

/// The payloads seen through the new order are the old ones without position `k`.
proof fn lemma_values_without<T>(order: Seq<int>, rank: Seq<int>, values: Seq<T>, k: int)
    requires
        bijection_except(order.remove(k), rank, k, order[k], order.len() as int),
        0 <= k < order.len(),
        values.len() == order.len(),
        forall|i: int| 0 <= i < order.len() ==> 0 <= #[trigger] order[i] < order.len(),
    ensures
        ({
            let m = order.len() - 1;
            let s = order[k];
            let o2 = order.remove(k).map_values(|t: int| if t == m { s } else { t });
            Seq::new(o2.len(), |i: int| swap_removed(values, s)[o2[i]]) =~= Seq::new(
                order.len(),
                |i: int| values[order[i]],
            ).remove(k)
        }),
{
    let o1 = order.remove(k);
    let s = order[k];
    let m = order.len() - 1;
    let o2 = o1.map_values(|t: int| if t == m { s } else { t });
    assert forall|i: int| 0 <= i < order.len() - 1 implies #[trigger] swap_removed(values, s)[o2[i]]
        == Seq::new(order.len(), |i: int| values[order[i]]).remove(k)[i] by {
        if i < k {
            assert(o1[i] == order[i]);
        } else {
            assert(o1[i] == order[i + 1]);
        }
        assert(o1[i] != s);
    }
}

proof fn lemma_insert_concat<A>(x: Seq<A>, y: Seq<A>, z: Seq<A>, v: A)
    ensures
        (x + y + z).insert((x.len() + y.len()) as int, v) == x + y.push(v) + z,
        (x + y + z).insert(x.len() as int, v) == x + (seq![v] + y) + z,
{
    assert((x + y + z).insert((x.len() + y.len()) as int, v) =~= x + y.push(v) + z);
    assert((x + y + z).insert(x.len() as int, v) =~= x + (seq![v] + y) + z);
}

impl<T> View for NodeArena<T> {
    type V = Seq<T>;

    /// The elements, from `first` to `last`.
    closed spec fn view(&self) -> Seq<T> {
        Seq::new(self.len as nat, |i: int| self.values@[self.order@[i]])
    }
}

impl<T> NodeArena<T> {
    /// The structural invariant: the payloads, links and end handles form one
    /// chain of `len` nodes in the slots `0 .. len`, in the order given by `order`.
    pub(crate) open spec fn wf(&self) -> bool {
        &&& self.values@.len() == self.len
        &&& self.order@.len() == self.len
        &&& self.len < usize::MAX
        &&& linked(self.order@, self.rank@, self.prev@, self.next@, self.first, self.last)
    }

    /// Creates an empty list.
    pub(crate) fn new() -> (r: Self)
        ensures
            r.wf(),
            r@ == Seq::<T>::empty(),
    {
        proof {
            lemma_linked_empty();
        }
        let r = NodeArena {
            values: Vec::new(),
            prev: Vec::new(),
            next: Vec::new(),
            first: None,
            last: None,
            len: 0,
            order: Ghost(Seq::empty()),
            rank: Ghost(Seq::empty()),
        };
        assert(r@ =~= Seq::<T>::empty());
        r
    }

    /// The number of elements.
    pub(crate) fn len(&self) -> (r: usize)
        requires
            self.wf(),
        ensures
            r == self@.len(),
    {
        self.len
    }

    /// Whether the list holds no element.
    pub(crate) fn is_empty(&self) -> (r: bool)
        requires
            self.wf(),
        ensures
            r == (self@.len() == 0),
    {
        self.len == 0
    }

    /// Handle of the node at position `k`, or `None` outside the list.
    pub(crate) open spec fn handle(&self, k: int) -> Option<usize> {
        handle_at(self.order@, k)
    }

    /// The facts of the invariant at position `k`.
    pub(crate) proof fn lemma_at(&self, k: int)
        requires
            self.wf(),
            0 <= k < self.len,
        ensures
            0 <= self.order@[k] < self.len,
            self.prev@[self.order@[k]] == self.handle(k - 1),
            self.next@[self.order@[k]] == self.handle(k + 1),
            self@[k] == self.values@[self.order@[k]],
            self@.len() == self.len,
    {
        lemma_linked_at(self.order@, self.rank@, self.prev@, self.next@, self.first, self.last, k);
    }

    pub(crate) proof fn lemma_ends(&self)
        requires
            self.wf(),
        ensures
            self.first == self.handle(0),
            self.last == self.handle(self.len - 1),
            self.prev@.len() == self.len,
            self.next@.len() == self.len,
            self@.len() == self.len,
            forall|i: int| 0 <= i < self.len ==> 0 <= #[trigger] self.order@[i] < self.len,
    {
        lemma_linked_ends(self.order@, self.rank@, self.prev@, self.next@, self.first, self.last);
    }

    /// Links a new node holding `value` between the adjacent handles `p` and
    /// `q`, which stand at positions `k - 1` and `k`. The new node takes the
    /// next free slot; no other node changes slot.
    pub(crate) fn link_between(&mut self, value: T, p: Option<usize>, q: Option<usize>, k: Ghost<int>)
        requires
            old(self).wf(),
            0 <= k@ <= old(self)@.len(),
            old(self)@.len() + 1 < usize::MAX,
            p == old(self).handle(k@ - 1),
            q == old(self).handle(k@),
        ensures
            final(self).wf(),
            final(self)@ == old(self)@.insert(k@, value),
            final(self).order@ == old(self).order@.insert(k@, old(self).len as int),
            final(self).len == old(self).len + 1,
    {
        let ghost n = self.len as int;
        proof {
            self.lemma_ends();
            lemma_linked_insert(
                self.order@,
                self.rank@,
                self.prev@,
                self.next@,
                self.first,
                self.last,
                k@,
            );
        }
        let ghost old_order = self.order@;
        let ghost old_rank = self.rank@;
        let s = self.len;
        self.values.push(value);
        self.prev.push(p);
        self.next.push(q);
        match p {
            Some(ps) => {
                self.next.set(ps, Some(s));
            },
            None => {
                self.first = Some(s);
            },
        }
        match q {
            Some(qs) => {
                self.prev.set(qs, Some(s));
            },
            None => {
                self.last = Some(s);
            },
        }
        self.len = s + 1;
        self.order = Ghost(old_order.insert(k@, n));
        self.rank = Ghost(
            Seq::new(
                (n + 1) as nat,
                |t: int|
                    if t == n {
                        k@
                    } else if old_rank[t] >= k@ {
                        old_rank[t] + 1
                    } else {
                        old_rank[t]
                    },
            ),
        );
        assert(self.prev@ =~= set_link(old(self).prev@.push(p), q, Some(s)));
        assert(self.next@ =~= set_link(old(self).next@.push(q), p, Some(s)));
        assert(self@ =~= old(self)@.insert(k@, value)) by {
            lemma_linked_ends(
                old_order,
                old_rank,
                old(self).prev@,
                old(self).next@,
                old(self).first,
                old(self).last,
            );
            assert forall|i: int| 0 <= i < n + 1 implies #[trigger] self@[i] == old(self)@.insert(
                k@,
                value,
            )[i] by {
                if i < k@ {
                    assert(self.order@[i] == old_order[i]);
                } else if i > k@ {
                    assert(self.order@[i] == old_order[i - 1]);
                }
            }
        }
    }

    /// Unlinks the node at position `k`, of slot `s`, and returns its value. The node of the
    /// highest slot then moves into the freed slot.
    pub(crate) fn unlink_at(&mut self, s: usize, k: Ghost<int>) -> (r: T)
        requires
            old(self).wf(),
            0 <= k@ < old(self)@.len(),
            old(self).handle(k@) == Some(s),
        ensures
            final(self).wf(),
            r == old(self)@[k@],
            final(self)@ == old(self)@.remove(k@),
            final(self).len == old(self).len - 1,
    {
        let ghost order = self.order@;
        let ghost rank = self.rank@;
        let ghost n = self.len as int;
        proof {
            self.lemma_at(k@);
            self.lemma_ends();
            lemma_bypass(order, rank, self.prev@, self.next@, self.first, self.last, k@);
        }
        let ghost b = links_bypassed(order, self.prev@, self.next@, self.first, self.last, k@);
        let p = self.prev[s];
        let q = self.next[s];
        match p {
            Some(ps) => {
                self.next.set(ps, q);
            },
            None => {
                self.first = q;
            },
        }
        match q {
            Some(qs) => {
                self.prev.set(qs, p);
            },
            None => {
                self.last = p;
            },
        }
        assert(self.prev@ =~= b.0);
        assert(self.next@ =~= b.1);
        let ghost old_values = self.values@;
        proof {
            lemma_move_last(
                order.remove(k@),
                rank,
                self.prev@,
                self.next@,
                self.first,
                self.last,
                k@,
                s as int,
            );
            lemma_values_without(order, rank, old_values, k@);
        }
        let ghost st = links_moved(self.prev@, self.next@, self.first, self.last, s as int);
        let r = self.values.swap_remove(s);
        self.prev.swap_remove(s);
        self.next.swap_remove(s);
        self.len = self.len - 1;
        if s < self.len {
            // the node of the highest slot now sits in slot s: point its neighbours at it
            let pp = self.prev[s];
            let qq = self.next[s];
            match pp {
                Some(ps) => {
                    self.next.set(ps, Some(s));
                },
                None => {
                    self.first = Some(s);
                },
            }
            match qq {
                Some(qs) => {
                    self.prev.set(qs, Some(s));
                },
                None => {
                    self.last = Some(s);
                },
            }
        }
        let ghost m = n - 1;
        self.order = Ghost(order.remove(k@).map_values(|t: int| if t == m { s as int } else { t }));
        self.rank = Ghost(
            Seq::new(
                m as nat,
                |t: int| adj_rank(rank, k@, if t == s as int { m } else { t }),
            ),
        );
        assert(self.prev@ =~= st.0);
        assert(self.next@ =~= st.1);
        assert(self@ =~= old(self)@.remove(k@));
        r
    }

    /// Inserts `value` before the first element.
    pub(crate) fn push(&mut self, value: T)
        requires
            old(self).wf(),
            old(self)@.len() + 1 < usize::MAX,
        ensures
            final(self).wf(),
            final(self)@ == seq![value] + old(self)@,
    {
        proof {
            self.lemma_ends();
        }
        let q = self.first;
        self.link_between(value, None, q, Ghost(0));
        assert(self@ =~= seq![value] + old(self)@);
    }

    /// Inserts `value` after the last element.
    pub(crate) fn push_back(&mut self, value: T)
        requires
            old(self).wf(),
            old(self)@.len() + 1 < usize::MAX,
        ensures
            final(self).wf(),
            final(self)@ == old(self)@.push(value),
    {
        proof {
            self.lemma_ends();
        }
        let p = self.last;
        let ghost n = self.len as int;
        self.link_between(value, p, None, Ghost(n));
        assert(self@ =~= old(self)@.push(value));
    }

    /// Removes the first element and returns it, or `None` when the list is empty.
    pub(crate) fn pop_first(&mut self) -> (r: Option<T>)
        requires
            old(self).wf(),
        ensures
            final(self).wf(),
            r == front_of(old(self)@),
            final(self)@ == without_front(old(self)@),
    {
        proof {
            self.lemma_ends();
        }
        match self.first {
            Some(s) => {
                let v = self.unlink_at(s, Ghost(0));
                assert(self@ =~= without_front(old(self)@));
                Some(v)
            },
            None => None,
        }
    }

    /// Removes the last element and returns it, or `None` when the list is empty.
    pub(crate) fn pop_back(&mut self) -> (r: Option<T>)
        requires
            old(self).wf(),
        ensures
            final(self).wf(),
            r == back_of(old(self)@),
            final(self)@ == without_back(old(self)@),
    {
        proof {
            self.lemma_ends();
        }
        match self.last {
            Some(s) => {
                let ghost n = self.len as int;
                let v = self.unlink_at(s, Ghost(n - 1));
                assert(self@ =~= without_back(old(self)@));
                Some(v)
            },
            None => None,
        }
    }

    /// The first element, or `None` when the list is empty.
    pub(crate) fn first(&self) -> (r: Option<&T>)
        requires
            self.wf(),
        ensures
            r is None <==> self@.len() == 0,
            r is Some ==> *r->0 == self@[0],
    {
        proof {
            self.lemma_ends();
        }
        match self.first {
            Some(s) => {
                proof {
                    self.lemma_at(0);
                }
                Some(&self.values[s])
            },
            None => None,
        }
    }

    /// The last element, or `None` when the list is empty.
    pub(crate) fn back(&self) -> (r: Option<&T>)
        requires
            self.wf(),
        ensures
            r is None <==> self@.len() == 0,
            r is Some ==> *r->0 == self@.last(),
    {
        proof {
            self.lemma_ends();
        }
        match self.last {
            Some(s) => {
                proof {
                    self.lemma_at(self.len - 1);
                }
                Some(&self.values[s])
            },
            None => None,
        }
    }

    /// A mutable reference to the element at position `k`, of slot `s`.
    pub(crate) fn value_mut(&mut self, s: usize, k: Ghost<int>) -> (r: &mut T)
        requires
            old(self).wf(),
            0 <= k@ < old(self)@.len(),
            old(self).handle(k@) == Some(s),
        ensures
            *r == old(self)@[k@],
            final(self).wf(),
            final(self)@ == old(self)@.update(k@, *final(r)),
            final(self).order@ == old(self).order@,
        no_unwind
    {
        proof {
            self.lemma_at(k@);
            lemma_linked_ends(self.order@, self.rank@, self.prev@, self.next@, self.first, self.last);
            lemma_linked_at(self.order@, self.rank@, self.prev@, self.next@, self.first, self.last, k@);
        }
        let ghost order = self.order@;
        let ghost rank = self.rank@;
        let ghost n = self.len as int;
        let r = &mut self.values[s];
        proof {
            assert forall|i: int| 0 <= i < n implies #[trigger] order[i] != order[k@] || i == k@ by {
                if order[i] == order[k@] {
                    lemma_linked_at(order, rank, old(self).prev@, old(self).next@, old(self).first, old(self).last, i);
                }
            }
        }
        assert(after_borrow(*self)@ =~= old(self)@.update(k@, *final(r)));
        r
    }

    /// A mutable reference to the first element, or `None` when the list is empty.
    pub(crate) fn first_mut(&mut self) -> (r: Option<&mut T>)
        requires
            old(self).wf(),
        ensures
            final(self).wf(),
            old(self)@.len() == 0 ==> r is None && final(self)@ == old(self)@,
            old(self)@.len() > 0 ==> r is Some && *r->0 == old(self)@[0] && final(self)@ == old(self)@.update(0, *final(r->0)),
        no_unwind
    {
        proof {
            self.lemma_ends();
        }
        match self.first {
            Some(s) => Some(self.value_mut(s, Ghost(0))),
            None => None,
        }
    }

    /// A mutable reference to the last element, or `None` when the list is empty.
    pub(crate) fn back_mut(&mut self) -> (r: Option<&mut T>)
        requires
            old(self).wf(),
        ensures
            final(self).wf(),
            old(self)@.len() == 0 ==> r is None && final(self)@ == old(self)@,
            old(self)@.len() > 0 ==> r is Some && *r->0 == old(self)@.last() && final(self)@
                == old(self)@.update(old(self)@.len() - 1, *final(r->0)),
        no_unwind
    {
        proof {
            self.lemma_ends();
        }
        let ghost n = self.len as int;
        match self.last {
            Some(s) => Some(self.value_mut(s, Ghost(n - 1))),
            None => None,
        }
    }

    /// Removes every element, one node at a time from the front.
    pub(crate) fn clear(&mut self)
        requires
            old(self).wf(),
        ensures
            final(self).wf(),
            final(self)@ == Seq::<T>::empty(),
    {
        while self.len > 0
            invariant
                self.wf(),
            decreases self@.len(),
        {
            proof {
                self.lemma_ends();
            }
            self.pop_first();
        }
        proof {
            self.lemma_ends();
        }
        assert(self@ =~= Seq::<T>::empty());
    }

    /// Moves the first `k` elements into a new list, in order.
    pub(crate) fn split_off_front(&mut self, k: usize) -> (r: Self)
        requires
            old(self).wf(),
            k <= old(self)@.len(),
        ensures
            final(self).wf(),
            r.wf(),
            r@ == old(self)@.subrange(0, k as int),
            final(self)@ == old(self)@.subrange(k as int, old(self)@.len() as int),
    {
        let ghost s0 = self@;
        proof {
            self.lemma_ends();
        }
        let mut out = NodeArena::new();
        let mut i: usize = 0;
        while i < k
            invariant
                self.wf(),
                out.wf(),
                i <= k <= s0.len() < usize::MAX,
                out@ == s0.subrange(0, i as int),
                self@ == s0.subrange(i as int, s0.len() as int),
            decreases k - i,
        {
            proof {
                self.lemma_ends();
                out.lemma_ends();
            }
            match self.pop_first() {
                Some(v) => {
                    out.push_back(v);
                },
                None => {},
            }
            i = i + 1;
            assert(out@ =~= s0.subrange(0, i as int));
            assert(self@ =~= s0.subrange(i as int, s0.len() as int));
        }
        out
    }

    /// Moves the elements after the first `k` into a new list, in order.
    pub(crate) fn split_off_back(&mut self, k: usize) -> (r: Self)
        requires
            old(self).wf(),
            k <= old(self)@.len(),
        ensures
            final(self).wf(),
            r.wf(),
            r@ == old(self)@.subrange(k as int, old(self)@.len() as int),
            final(self)@ == old(self)@.subrange(0, k as int),
    {
        let ghost s0 = self@;
        proof {
            self.lemma_ends();
        }
        let mut out = NodeArena::new();
        while self.len > k
            invariant
                self.wf(),
                out.wf(),
                k <= self@.len() <= s0.len() < usize::MAX,
                out@ == s0.subrange(self@.len() as int, s0.len() as int),
                self@ == s0.subrange(0, self@.len() as int),
            decreases self@.len(),
        {
            proof {
                self.lemma_ends();
                out.lemma_ends();
            }
            let ghost j = self@.len();
            match self.pop_back() {
                Some(v) => {
                    out.push(v);
                },
                None => {},
            }
            proof {
                self.lemma_ends();
            }
            assert(out@ =~= s0.subrange(j - 1, s0.len() as int));
            assert(self@ =~= s0.subrange(0, j - 1));
        }
        proof {
            self.lemma_ends();
        }
        out
    }

    /// Moves every element of `input`, in order, to the end of the list.
    pub(crate) fn append_all(&mut self, input: &mut Self)
        requires
            old(self).wf(),
            old(input).wf(),
            old(self)@.len() + old(input)@.len() + 1 < usize::MAX,
        ensures
            final(self).wf(),
            final(input).wf(),
            final(self)@ == old(self)@ + old(input)@,
            final(input)@ == Seq::<T>::empty(),
    {
        let ghost a = self@;
        let ghost b = input@;
        proof {
            input.lemma_ends();
        }
        while input.len > 0
            invariant
                self.wf(),
                input.wf(),
                a.len() + b.len() + 1 < usize::MAX,
                self@ + input@ == a + b,
            decreases input@.len(),
        {
            proof {
                input.lemma_ends();
                self.lemma_ends();
                assert((self@ + input@).len() == (a + b).len());
            }
            let ghost i0 = input@;
            match input.pop_first() {
                Some(v) => {
                    self.push_back(v);
                    assert(i0 =~= seq![v] + input@);
                    assert(self@ + input@ =~= a + b);
                },
                None => {},
            }
            proof {
                input.lemma_ends();
            }
        }
        proof {
            input.lemma_ends();
        }
        assert(input@ =~= Seq::<T>::empty());
        assert(self@ =~= a + b);
    }

    /// Moves every element of `input`, in order, to the front of the list.
    pub(crate) fn prepend_all(&mut self, input: &mut Self)
        requires
            old(self).wf(),
            old(input).wf(),
            old(self)@.len() + old(input)@.len() + 1 < usize::MAX,
        ensures
            final(self).wf(),
            final(input).wf(),
            final(self)@ == old(input)@ + old(self)@,
            final(input)@ == Seq::<T>::empty(),
    {
        let ghost a = self@;
        let ghost b = input@;
        proof {
            input.lemma_ends();
        }
        while input.len > 0
            invariant
                self.wf(),
                input.wf(),
                a.len() + b.len() + 1 < usize::MAX,
                input@ + self@ == b + a,
            decreases input@.len(),
        {
            proof {
                input.lemma_ends();
                self.lemma_ends();
                assert((input@ + self@).len() == (b + a).len());
            }
            let ghost i0 = input@;
            match input.pop_back() {
                Some(v) => {
                    self.push(v);
                    assert(i0 =~= input@.push(v));
                    assert(input@ + self@ =~= b + a);
                },
                None => {},
            }
            proof {
                input.lemma_ends();
            }
        }
        proof {
            input.lemma_ends();
        }
        assert(input@ =~= Seq::<T>::empty());
        assert(self@ =~= b + a);
    }

    /// Moves every element of `input`, in order, in front of the node at
    /// position `k`, whose slot is `c`. That node keeps its slot.
    pub(crate) fn insert_all_before(&mut self, c: usize, k: Ghost<int>, input: &mut Self)
        requires
            old(self).wf(),
            old(input).wf(),
            0 <= k@ < old(self)@.len(),
            old(self).handle(k@) == Some(c),
            old(self)@.len() + old(input)@.len() + 1 < usize::MAX,
        ensures
            final(self).wf(),
            final(input).wf(),
            final(self)@ == old(self)@.subrange(0, k@) + old(input)@ + old(self)@.subrange(
                k@,
                old(self)@.len() as int,
            ),
            final(input)@ == Seq::<T>::empty(),
            final(self).handle(k@ + old(input)@.len()) == Some(c),
    {
        let ghost a = self@;
        let ghost b = input@;
        let ghost n = a.len() as int;
        proof {
            input.lemma_ends();
            self.lemma_ends();
        }
        while input.len > 0
            invariant
                self.wf(),
                input.wf(),
                0 <= k@ < n,
                n == a.len(),
                n + b.len() + 1 < usize::MAX,
                b.subrange(0, b.len() - input@.len()) + input@ == b,
                self@ == a.subrange(0, k@) + b.subrange(0, b.len() - input@.len()) + a.subrange(
                    k@,
                    n,
                ),
                self.handle(k@ + b.len() - input@.len()) == Some(c),
                self@.len() == n + b.len() - input@.len(),
                input@.len() <= b.len(),
            decreases input@.len(),
        {
            proof {
                input.lemma_ends();
                self.lemma_ends();
                assert((b.subrange(0, b.len() - input@.len()) + input@).len() == b.len());
            }
            let ghost done = b.len() - input@.len();
            let ghost i0 = input@;
            match input.pop_first() {
                Some(v) => {
                    proof {
                        self.lemma_at(k@ + done);
                    }
                    let p = self.prev[c];
                    let ghost before = self@;
                    assert(before == a.subrange(0, k@) + b.subrange(0, done) + a.subrange(k@, n));
                    self.link_between(v, p, Some(c), Ghost(k@ + done));
                    assert(self@ == before.insert(k@ + done, v));
                    proof {
                        lemma_insert_concat(a.subrange(0, k@), b.subrange(0, done), a.subrange(k@, n), v);
                        assert(b[done] == v) by {
                            assert(b.subrange(0, done) + i0 == b);
                            assert((b.subrange(0, done) + i0)[done] == i0[0]);
                        }
                        assert(b.subrange(0, done + 1) =~= b.subrange(0, done).push(v));
                        assert(a.subrange(0, k@).len() + b.subrange(0, done).len() == k@ + done);
                        assert(self@ == a.subrange(0, k@) + b.subrange(0, done).push(v) + a.subrange(k@, n));
                        assert(input@ =~= i0.subrange(1, i0.len() as int));
                        assert(b.subrange(0, done + 1) + input@ =~= b) by {
                            assert(b.subrange(0, done) + i0 == b);
                        }
                    }
                },
                None => {},
            }
            proof {
                input.lemma_ends();
            }
        }
        proof {
            input.lemma_ends();
        }
        assert(input@ =~= Seq::<T>::empty());
        assert(b.subrange(0, b.len() as int) =~= b);
    }

    /// Moves every element of `input`, in order, behind the node at position
    /// `k`, whose slot is `c`. That node keeps its slot and its position.
    pub(crate) fn insert_all_after(&mut self, c: usize, k: Ghost<int>, input: &mut Self)
        requires
            old(self).wf(),
            old(input).wf(),
            0 <= k@ < old(self)@.len(),
            old(self).handle(k@) == Some(c),
            old(self)@.len() + old(input)@.len() + 1 < usize::MAX,
        ensures
            final(self).wf(),
            final(input).wf(),
            final(self)@ == old(self)@.subrange(0, k@ + 1) + old(input)@ + old(self)@.subrange(
                k@ + 1,
                old(self)@.len() as int,
            ),
            final(input)@ == Seq::<T>::empty(),
            final(self).handle(k@) == Some(c),
    {
        let ghost a = self@;
        let ghost b = input@;
        let ghost n = a.len() as int;
        proof {
            input.lemma_ends();
            self.lemma_ends();
        }
        while input.len > 0
            invariant
                self.wf(),
                input.wf(),
                0 <= k@ < n,
                n == a.len(),
                n + b.len() + 1 < usize::MAX,
                input@ + b.subrange(input@.len() as int, b.len() as int) == b,
                self@ == a.subrange(0, k@ + 1) + b.subrange(input@.len() as int, b.len() as int)
                    + a.subrange(k@ + 1, n),
                self.handle(k@) == Some(c),
                self@.len() == n + b.len() - input@.len(),
                input@.len() <= b.len(),
            decreases input@.len(),
        {
            proof {
                input.lemma_ends();
                self.lemma_ends();
                assert((input@ + b.subrange(input@.len() as int, b.len() as int)).len() == b.len());
            }
            let ghost rest = input@.len() as int;
            let ghost i0 = input@;
            match input.pop_back() {
                Some(v) => {
                    proof {
                        self.lemma_at(k@);
                    }
                    let q = self.next[c];
                    let ghost before = self@;
                    assert(before == a.subrange(0, k@ + 1) + b.subrange(rest, b.len() as int) + a.subrange(k@ + 1, n));
                    self.link_between(v, Some(c), q, Ghost(k@ + 1));
                    assert(self@ == before.insert(k@ + 1, v));
                    proof {
                        lemma_insert_concat(a.subrange(0, k@ + 1), b.subrange(rest, b.len() as int), a.subrange(k@ + 1, n), v);
                        assert(b[rest - 1] == v) by {
                            assert(i0 + b.subrange(rest, b.len() as int) == b);
                            assert((i0 + b.subrange(rest, b.len() as int))[rest - 1] == i0[rest
                                - 1]);
                        }
                        assert(b.subrange(rest - 1, b.len() as int) =~= seq![v] + b.subrange(
                            rest,
                            b.len() as int,
                        ));
                        assert(a.subrange(0, k@ + 1).len() == k@ + 1);
                        assert(self@ == a.subrange(0, k@ + 1) + (seq![v] + b.subrange(rest, b.len() as int)) + a.subrange(k@ + 1, n));
                        assert(input@ =~= i0.drop_last());
                        assert(input@ + b.subrange(rest - 1, b.len() as int) =~= b) by {
                            assert(i0 + b.subrange(rest, b.len() as int) == b);
                        }
                        lemma_linked_at(
                            self.order@,
                            self.rank@,
                            self.prev@,
                            self.next@,
                            self.first,
                            self.last,
                            k@,
                        );
                    }
                },
                None => {},
            }
            proof {
                input.lemma_ends();
            }
        }
        proof {
            input.lemma_ends();
        }
        assert(input@ =~= Seq::<T>::empty());
        assert(b.subrange(0, b.len() as int) =~= b);
    }
}

} // verus!
