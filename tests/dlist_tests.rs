use linked_list::dlist::UnsafeLinkedList;
use std::collections::hash_map::DefaultHasher;
use std::hash::{Hash, Hasher};

fn generate_test() -> UnsafeLinkedList<i32> {
    list_from(&[0, 1, 2, 3, 4, 5, 6])
}

fn list_from<T: Clone>(data: &[T]) -> UnsafeLinkedList<T> {
    UnsafeLinkedList::from_vec(data.to_vec())
}

fn forward<T: Clone>(list: &UnsafeLinkedList<T>) -> Vec<T> {
    let mut out = Vec::new();
    let mut it = list.iter();
    while let Some(x) = it.next() {
        out.push(x.clone());
    }
    out
}

fn backward<T: Clone>(list: &UnsafeLinkedList<T>) -> Vec<T> {
    let mut out = Vec::new();
    let mut it = list.iter();
    while let Some(x) = it.next_back() {
        out.push(x.clone());
    }
    out
}

fn drain<T>(list: UnsafeLinkedList<T>) -> Vec<T> {
    let mut out = Vec::new();
    let mut it = list.into_iter();
    while let Some(x) = it.next() {
        out.push(x);
    }
    out
}

fn check_links<T: Eq + Clone + std::fmt::Debug>(list: &UnsafeLinkedList<T>) {
    let from_front = forward(list);
    let mut from_back = backward(list);
    from_back.reverse();
    assert_eq!(from_front, from_back);
    assert_eq!(from_front.len(), list.len());
}

fn hash_of<T: Hash>(x: &T) -> u64 {
    let mut h = DefaultHasher::new();
    x.hash(&mut h);
    h.finish()
}

#[test]
fn test_basic_front() {
    let mut list = UnsafeLinkedList::new();

    assert_eq!(list.len(), 0);
    assert_eq!(list.pop_first(), None);
    assert_eq!(list.len(), 0);

    list.push(10);
    assert_eq!(list.len(), 1);
    assert_eq!(list.pop_first(), Some(10));
    assert_eq!(list.len(), 0);
    assert_eq!(list.pop_first(), None);
    assert_eq!(list.len(), 0);

    list.push(10);
    assert_eq!(list.len(), 1);
    list.push(20);
    assert_eq!(list.len(), 2);
    list.push(30);
    assert_eq!(list.len(), 3);
    assert_eq!(list.pop_first(), Some(30));
    assert_eq!(list.len(), 2);
    list.push(40);
    assert_eq!(list.len(), 3);
    assert_eq!(list.pop_first(), Some(40));
    assert_eq!(list.len(), 2);
    assert_eq!(list.pop_first(), Some(20));
    assert_eq!(list.len(), 1);
    assert_eq!(list.pop_first(), Some(10));
    assert_eq!(list.len(), 0);
    assert_eq!(list.pop_first(), None);
    assert_eq!(list.len(), 0);
    assert_eq!(list.pop_first(), None);
    assert_eq!(list.len(), 0);
}

#[test]
fn test_basic() {
    let mut m = UnsafeLinkedList::new();
    assert_eq!(m.pop_first(), None);
    assert_eq!(m.pop_back(), None);
    assert_eq!(m.pop_first(), None);
    m.push(1);
    assert_eq!(m.pop_first(), Some(1));
    m.push_back(2);
    m.push_back(3);
    assert_eq!(m.len(), 2);
    assert_eq!(m.pop_first(), Some(2));
    assert_eq!(m.pop_first(), Some(3));
    assert_eq!(m.len(), 0);
    assert_eq!(m.pop_first(), None);
    m.push_back(1);
    m.push_back(3);
    m.push_back(5);
    m.push_back(7);
    assert_eq!(m.pop_first(), Some(1));

    let mut n = UnsafeLinkedList::new();
    n.push(2);
    n.push(3);
    {
        assert_eq!(n.first().unwrap(), &3);
        let x = n.first_mut().unwrap();
        assert_eq!(*x, 3);
        *x = 0;
    }
    {
        assert_eq!(n.back().unwrap(), &2);
        let y = n.back_mut().unwrap();
        assert_eq!(*y, 2);
        *y = 1;
    }
    assert_eq!(n.pop_first(), Some(0));
    assert_eq!(n.pop_first(), Some(1));
}

#[test]
fn test_iterator() {
    let m = generate_test();
    let mut i: i32 = 0;
    let mut it = m.iter();
    while let Some(elt) = it.next() {
        assert_eq!(i, *elt);
        i += 1;
    }
    let mut n = UnsafeLinkedList::new();
    assert_eq!(n.iter().next(), None);
    n.push(4);
    let mut it = n.iter();
    assert_eq!(it.size_hint(), (1, Some(1)));
    assert_eq!(it.next().unwrap(), &4);
    assert_eq!(it.size_hint(), (0, Some(0)));
    assert_eq!(it.next(), None);
}

#[test]
fn test_iterator_double_end() {
    let mut n = UnsafeLinkedList::new();
    assert_eq!(n.iter().next(), None);
    n.push(4);
    n.push(5);
    n.push(6);
    let mut it = n.iter();
    assert_eq!(it.size_hint(), (3, Some(3)));
    assert_eq!(it.next().unwrap(), &6);
    assert_eq!(it.size_hint(), (2, Some(2)));
    assert_eq!(it.next_back().unwrap(), &4);
    assert_eq!(it.size_hint(), (1, Some(1)));
    assert_eq!(it.next_back().unwrap(), &5);
    assert_eq!(it.next_back(), None);
    assert_eq!(it.next(), None);
}

#[test]
fn test_rev_iter() {
    let m = generate_test();
    let mut i: i32 = 0;
    let mut it = m.iter();
    while let Some(elt) = it.next_back() {
        assert_eq!(6 - i, *elt);
        i += 1;
    }
    let mut n = UnsafeLinkedList::new();
    assert_eq!(n.iter().next_back(), None);
    n.push(4);
    let mut it = n.iter();
    assert_eq!(it.size_hint(), (1, Some(1)));
    assert_eq!(it.next_back().unwrap(), &4);
    assert_eq!(it.size_hint(), (0, Some(0)));
    assert_eq!(it.next_back(), None);
}

#[test]
fn test_mut_iter() {
    let mut m = generate_test();
    let mut len = m.len();
    let mut i: i32 = 0;
    let mut it = m.iter_mut();
    while let Some(elt) = it.next() {
        assert_eq!(i, *elt);
        i += 1;
        len -= 1;
    }
    assert_eq!(len, 0);
    let mut n = UnsafeLinkedList::new();
    assert!(n.iter_mut().next().is_none());
    n.push(4);
    n.push_back(5);
    let mut it = n.iter_mut();
    assert_eq!(it.size_hint(), (2, Some(2)));
    assert!(it.next().is_some());
    assert!(it.next().is_some());
    assert_eq!(it.size_hint(), (0, Some(0)));
    assert!(it.next().is_none());
}

#[test]
fn test_iterator_mut_double_end() {
    let mut n = UnsafeLinkedList::new();
    assert!(n.iter_mut().next_back().is_none());
    n.push(4);
    n.push(5);
    n.push(6);
    let mut it = n.iter_mut();
    assert_eq!(it.size_hint(), (3, Some(3)));
    assert_eq!(*it.next().unwrap(), 6);
    assert_eq!(it.size_hint(), (2, Some(2)));
    assert_eq!(*it.next_back().unwrap(), 4);
    assert_eq!(it.size_hint(), (1, Some(1)));
    assert_eq!(*it.next_back().unwrap(), 5);
    assert!(it.next_back().is_none());
    assert!(it.next().is_none());
}

#[test]
fn test_eq() {
    let mut n: UnsafeLinkedList<u8> = list_from(&[]);
    let mut m = list_from(&[]);
    assert!(n == m);
    n.push(1);
    assert!(n != m);
    m.push_back(1);
    assert!(n == m);

    let n = list_from(&[2, 3, 4]);
    let m = list_from(&[1, 2, 3]);
    assert!(n != m);
}

#[test]
fn test_ord() {
    let n = list_from(&[]);
    let m = list_from(&[1, 2, 3]);
    assert!(n < m);
    assert!(m > n);
    assert!(n <= n);
    assert!(n >= n);
}

#[test]
fn test_ord_nan() {
    let nan = 0.0f64 / 0.0;
    let n = list_from(&[nan]);
    let m = list_from(&[nan]);
    assert!(!(n < m));
    assert!(!(n > m));
    assert!(!(n <= m));
    assert!(!(n >= m));

    let n = list_from(&[nan]);
    let one = list_from(&[1.0f64]);
    assert!(!(n < one));
    assert!(!(n > one));
    assert!(!(n <= one));
    assert!(!(n >= one));

    let u = list_from(&[1.0f64, 2.0, nan]);
    let v = list_from(&[1.0f64, 2.0, 3.0]);
    assert!(!(u < v));
    assert!(!(u > v));
    assert!(!(u <= v));
    assert!(!(u >= v));

    let s = list_from(&[1.0f64, 2.0, 4.0, 2.0]);
    let t = list_from(&[1.0f64, 2.0, 3.0, 2.0]);
    assert!(!(s < t));
    assert!(s > one);
    assert!(!(s <= one));
    assert!(s >= one);
}

#[test]
fn test_hashmap() {
    let list1: UnsafeLinkedList<i32> = UnsafeLinkedList::from_vec((0..10).collect());
    let list2: UnsafeLinkedList<i32> = UnsafeLinkedList::from_vec((1..11).collect());
    let mut map = std::collections::HashMap::new();

    assert_eq!(map.insert(list1.clone(), "list1"), None);
    assert_eq!(map.insert(list2.clone(), "list2"), None);

    assert_eq!(map.len(), 2);

    assert_eq!(map.get(&list1), Some(&"list1"));
    assert_eq!(map.get(&list2), Some(&"list2"));

    assert_eq!(map.remove(&list1), Some("list1"));
    assert_eq!(map.remove(&list2), Some("list2"));

    assert!(map.is_empty());
}

#[test]
fn test_cursor_move_peek() {
    let mut m: UnsafeLinkedList<u32> = UnsafeLinkedList::new();
    m.extend(vec![1, 2, 3, 4, 5, 6]);
    let mut cursor = m.cursor_mut();
    cursor.move_next();
    assert_eq!(cursor.current(), Some(&mut 1));
    assert_eq!(cursor.peek_next(), Some(&mut 2));
    assert_eq!(cursor.peek_back(), None);
    assert_eq!(cursor.index(), Some(0));
    cursor.move_back();
    assert_eq!(cursor.current(), None);
    assert_eq!(cursor.peek_next(), Some(&mut 1));
    assert_eq!(cursor.peek_back(), Some(&mut 6));
    assert_eq!(cursor.index(), None);
    cursor.move_next();
    cursor.move_next();
    assert_eq!(cursor.current(), Some(&mut 2));
    assert_eq!(cursor.peek_next(), Some(&mut 3));
    assert_eq!(cursor.peek_back(), Some(&mut 1));
    assert_eq!(cursor.index(), Some(1));

    let mut cursor = m.cursor_mut();
    cursor.move_back();
    assert_eq!(cursor.current(), Some(&mut 6));
    assert_eq!(cursor.peek_next(), None);
    assert_eq!(cursor.peek_back(), Some(&mut 5));
    assert_eq!(cursor.index(), Some(5));
    cursor.move_next();
    assert_eq!(cursor.current(), None);
    assert_eq!(cursor.peek_next(), Some(&mut 1));
    assert_eq!(cursor.peek_back(), Some(&mut 6));
    assert_eq!(cursor.index(), None);
    cursor.move_back();
    cursor.move_back();
    assert_eq!(cursor.current(), Some(&mut 5));
    assert_eq!(cursor.peek_next(), Some(&mut 6));
    assert_eq!(cursor.peek_back(), Some(&mut 4));
    assert_eq!(cursor.index(), Some(4));
}

#[test]
fn test_cursor_mut_insert() {
    let mut m: UnsafeLinkedList<u32> = UnsafeLinkedList::new();
    m.extend(vec![1, 2, 3, 4, 5, 6]);
    let mut cursor = m.cursor_mut();
    cursor.move_next();
    cursor.splice_before(UnsafeLinkedList::from_vec(vec![7]));
    cursor.splice_after(UnsafeLinkedList::from_vec(vec![8]));
    assert_eq!(forward(&m), &[7, 1, 8, 2, 3, 4, 5, 6]);
    let mut cursor = m.cursor_mut();
    cursor.move_next();
    cursor.move_back();
    cursor.splice_before(UnsafeLinkedList::from_vec(vec![9]));
    cursor.splice_after(UnsafeLinkedList::from_vec(vec![10]));
    check_links(&m);
    assert_eq!(forward(&m), &[10, 7, 1, 8, 2, 3, 4, 5, 6, 9]);

    let mut a: UnsafeLinkedList<u32> = UnsafeLinkedList::new();
    a.extend(vec![1, 8, 2, 3, 4, 5, 6]);
    let mut cursor = a.cursor_mut();
    cursor.move_next();
    let mut p: UnsafeLinkedList<u32> = UnsafeLinkedList::new();
    p.extend(vec![100, 101, 102, 103]);
    let mut q: UnsafeLinkedList<u32> = UnsafeLinkedList::new();
    q.extend(vec![200, 201, 202, 203]);
    cursor.splice_after(p);
    cursor.splice_before(q);
    check_links(&m);
    assert_eq!(
        forward(&a),
        &[200, 201, 202, 203, 1, 100, 101, 102, 103, 8, 2, 3, 4, 5, 6]
    );
    let mut cursor = a.cursor_mut();
    cursor.move_next();
    cursor.move_back();
    let tmp = cursor.split_before();
    assert_eq!(drain(a.clone()), Vec::<u32>::new());
    a = tmp;
    let mut cursor = a.cursor_mut();
    cursor.move_next();
    cursor.move_next();
    cursor.move_next();
    cursor.move_next();
    cursor.move_next();
    cursor.move_next();
    cursor.move_next();
    let tmp = cursor.split_after();
    assert_eq!(drain(tmp), &[102, 103, 8, 2, 3, 4, 5, 6]);
    check_links(&a);
    assert_eq!(forward(&a), &[200, 201, 202, 203, 1, 100, 101]);
}

#[test]
fn length_tracks_pushes_and_pops() {
    let mut l = UnsafeLinkedList::new();
    l.push(1);
    l.push_back(2);
    l.push(0);
    assert_eq!(l.len(), 3);
    assert_eq!(l.pop_back(), Some(2));
    assert_eq!(l.len(), 2);
    assert_eq!(l.pop_first(), Some(0));
    assert_eq!(l.pop_first(), Some(1));
    assert_eq!(l.pop_back(), None);
    assert_eq!(l.len(), 0);
    assert!(l.is_empty());
}

#[test]
fn reversed_forward_equals_backward() {
    let l = list_from(&[3, 1, 4, 1, 5]);
    let mut f = forward(&l);
    f.reverse();
    assert_eq!(f, backward(&l));
    assert_eq!(backward(&l), vec![5, 1, 4, 1, 3]);
    let e: UnsafeLinkedList<i32> = UnsafeLinkedList::new();
    assert_eq!(backward(&e), Vec::<i32>::new());
}

#[test]
fn push_then_pop_front_restores() {
    let mut l = list_from(&[5, 6]);
    l.push(9);
    assert_eq!(l.pop_first(), Some(9));
    assert_eq!(l.len(), 2);
    assert_eq!(forward(&l), vec![5, 6]);
}

#[test]
fn split_before_then_splice_before_is_identity() {
    for k in 0..4 {
        let mut l = list_from(&[1, 2, 3, 4]);
        let mut c = l.cursor_mut();
        for _ in 0..=k {
            c.move_next();
        }
        let prefix = c.split_before();
        assert_eq!(c.index(), Some(0));
        c.splice_before(prefix);
        assert_eq!(c.index(), Some(k));
        assert_eq!(forward(&l), vec![1, 2, 3, 4]);
        check_links(&l);
    }
    let mut l = list_from(&[1, 2, 3]);
    let mut c = l.cursor_mut();
    let all = c.split_before();
    c.splice_before(all);
    assert_eq!(c.index(), None);
    assert_eq!(forward(&l), vec![1, 2, 3]);
}

#[test]
fn splice_of_empty_list_changes_nothing() {
    let mut l = list_from(&[1, 2, 3]);
    let mut c = l.cursor_mut();
    c.move_next();
    c.splice_before(UnsafeLinkedList::new());
    c.splice_after(UnsafeLinkedList::new());
    assert_eq!(c.index(), Some(0));
    c.move_back();
    c.splice_before(UnsafeLinkedList::new());
    assert_eq!(c.index(), None);
    assert_eq!(forward(&l), vec![1, 2, 3]);
    assert_eq!(l.len(), 3);
}

#[test]
fn split_before_at_second_element() {
    let mut l = UnsafeLinkedList::new();
    for v in 1..=6 {
        l.push_back(v);
    }
    assert_eq!(forward(&l), vec![1, 2, 3, 4, 5, 6]);
    let mut c = l.cursor_mut();
    c.move_next();
    c.move_next();
    assert_eq!(c.index(), Some(1));
    assert_eq!(c.current(), Some(&mut 2));
    let front = c.split_before();
    assert_eq!(c.index(), Some(0));
    assert_eq!(c.current(), Some(&mut 2));
    assert_eq!(forward(&front), vec![1]);
    assert_eq!(forward(&l), vec![2, 3, 4, 5, 6]);
    check_links(&l);
    check_links(&front);
}

#[test]
fn split_after_keeps_current_and_index() {
    let mut l = list_from(&[1, 2, 3, 4]);
    let mut c = l.cursor_mut();
    c.move_next();
    c.move_next();
    let back = c.split_after();
    assert_eq!(c.index(), Some(1));
    assert_eq!(c.current(), Some(&mut 2));
    assert_eq!(c.peek_next(), None);
    assert_eq!(forward(&back), vec![3, 4]);
    assert_eq!(forward(&l), vec![1, 2]);
}

#[test]
fn split_at_ghost_hands_over_everything() {
    let mut l = list_from(&[1, 2]);
    let mut c = l.cursor_mut();
    let all = c.split_after();
    assert_eq!(forward(&all), vec![1, 2]);
    assert!(l.is_empty());
}

#[test]
fn splice_into_empty_list_at_ghost() {
    let mut l: UnsafeLinkedList<i32> = UnsafeLinkedList::new();
    let mut c = l.cursor_mut();
    c.splice_after(list_from(&[4, 5]));
    c.move_next();
    assert_eq!(c.current(), Some(&mut 4));
    assert_eq!(forward(&l), vec![4, 5]);
}

#[test]
fn cursor_on_empty_list_stays_ghost() {
    let mut l: UnsafeLinkedList<i32> = UnsafeLinkedList::new();
    let mut c = l.cursor_mut();
    c.move_next();
    assert_eq!(c.index(), None);
    c.move_back();
    assert_eq!(c.index(), None);
    assert_eq!(c.current(), None);
    assert_eq!(c.peek_next(), None);
    assert_eq!(c.peek_back(), None);
}

#[test]
fn cursor_writes_through_current() {
    let mut l = list_from(&[1, 2, 3]);
    let mut c = l.cursor_mut();
    c.move_back();
    if let Some(x) = c.current() {
        *x = 30;
    }
    if let Some(x) = c.peek_back() {
        *x = 20;
    }
    assert_eq!(forward(&l), vec![1, 20, 30]);
}

#[test]
fn equal_lists_hash_alike() {
    let a = list_from(&[1, 2, 3]);
    let mut b = UnsafeLinkedList::new();
    b.push(3);
    b.push(2);
    b.push(1);
    assert!(a == b);
    assert_eq!(hash_of(&a), hash_of(&b));
    let mut c = b.clone();
    c.push_back(4);
    assert!(a != c);
    assert!(a < c);
}

#[test]
fn removal_from_the_middle_of_the_arena_keeps_links() {
    let mut l = UnsafeLinkedList::new();
    for v in 0..8 {
        l.push_back(v);
    }
    assert_eq!(l.pop_first(), Some(0));
    assert_eq!(l.pop_first(), Some(1));
    l.push(10);
    assert_eq!(l.pop_back(), Some(7));
    check_links(&l);
    assert_eq!(forward(&l), vec![10, 2, 3, 4, 5, 6]);
}

#[test]
fn clear_and_default_give_empty_lists() {
    let mut l = list_from(&[1, 2, 3]);
    l.clear();
    assert!(l.is_empty());
    let d: UnsafeLinkedList<i32> = Default::default();
    assert_eq!(d.len(), 0);
    assert!(l == d);
}

#[test]
fn into_iter_from_both_ends() {
    let l = list_from(&[1, 2, 3]);
    let mut it = l.into_iter();
    assert_eq!(it.size_hint(), (3, Some(3)));
    assert_eq!(it.next_back(), Some(3));
    assert_eq!(it.next(), Some(1));
    assert_eq!(it.len(), 1);
    assert_eq!(it.next(), Some(2));
    assert_eq!(it.next(), None);
}

#[test]
fn test_debug() {
    let list: UnsafeLinkedList<i32> = UnsafeLinkedList::from_vec((0..10).collect());
    assert_eq!(list.debug_string(), "[0, 1, 2, 3, 4, 5, 6, 7, 8, 9]");

    let list: UnsafeLinkedList<&str> =
        UnsafeLinkedList::from_vec(vec!["just", "one", "test", "more"]);
    assert_eq!(list.debug_string(), r#"["just", "one", "test", "more"]"#);
}

#[test]
fn debug_string_of_empty_and_single() {
    let e: UnsafeLinkedList<i32> = UnsafeLinkedList::new();
    assert_eq!(e.debug_string(), "[]");
    let one = list_from(&[7]);
    assert_eq!(one.debug_string(), "[7]");
}

#[test]
fn finished_cursor_leaves_its_edits_in_the_list() {
    let mut l = list_from(&[1, 2, 3]);
    let mut c = l.cursor_mut();
    c.move_next();
    c.splice_after(list_from(&[9]));
    c.finish();
    assert_eq!(forward(&l), vec![1, 9, 2, 3]);
    let mut it = l.iter_mut();
    while let Some(x) = it.next() {
        *x += 1;
    }
    it.finish();
    assert_eq!(forward(&l), vec![2, 10, 3, 4]);
}
