use linked_list::deque::Deque;

#[test]
fn safe_deque_basics() {
    let mut list = Deque::new();

    assert_eq!(list.pop_front(), None);

    list.push_front(1);
    list.push_front(2);
    list.push_front(3);

    assert_eq!(list.pop_front(), Some(3));
    assert_eq!(list.pop_front(), Some(2));

    list.push_front(4);
    list.push_front(5);

    assert_eq!(list.pop_front(), Some(5));
    assert_eq!(list.pop_front(), Some(4));

    assert_eq!(list.pop_front(), Some(1));
    assert_eq!(list.pop_front(), None);

    assert_eq!(list.pop_back(), None);

    list.push_back(1);
    list.push_back(2);
    list.push_back(3);

    assert_eq!(list.pop_back(), Some(3));
    assert_eq!(list.pop_back(), Some(2));

    list.push_back(4);
    list.push_back(5);

    assert_eq!(list.pop_back(), Some(5));
    assert_eq!(list.pop_back(), Some(4));

    assert_eq!(list.pop_back(), Some(1));
    assert_eq!(list.pop_back(), None);
}

#[test]
fn safe_deque_peek() {
    let mut list = Deque::new();
    assert!(list.peek_front().is_none());
    assert!(list.peek_back().is_none());
    assert!(list.peek_front_mut().is_none());
    assert!(list.peek_back_mut().is_none());

    list.push_front(1);
    list.push_front(2);
    list.push_front(3);

    assert_eq!(list.peek_front().unwrap(), &3);
    assert_eq!(list.peek_front_mut().unwrap(), &mut 3);
    assert_eq!(list.peek_back().unwrap(), &1);
    assert_eq!(list.peek_back_mut().unwrap(), &mut 1);
}

#[test]
fn deque_peek_mut_writes_through() {
    let mut list = Deque::new();
    list.push_back(1);
    list.push_back(2);
    if let Some(x) = list.peek_back_mut() {
        *x = 7;
    }
    if let Some(x) = list.peek_front_mut() {
        *x = 6;
    }
    assert_eq!(list.pop_front(), Some(6));
    assert_eq!(list.pop_front(), Some(7));
}
