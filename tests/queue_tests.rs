use linked_list::queue::UnsafeQueue;

#[test]
fn unsafe_queue_basics() {
    let mut list = UnsafeQueue::new();

    assert_eq!(list.pop(), None);

    list.push(1);
    list.push(2);
    list.push(3);

    assert_eq!(list.pop(), Some(1));
    assert_eq!(list.pop(), Some(2));

    list.push(4);
    list.push(5);

    assert_eq!(list.pop(), Some(3));
    assert_eq!(list.pop(), Some(4));

    assert_eq!(list.pop(), Some(5));
    assert_eq!(list.pop(), None);

    list.push(6);
    list.push(7);

    assert_eq!(list.pop(), Some(6));
    assert_eq!(list.pop(), Some(7));
    assert_eq!(list.pop(), None);
}

#[test]
fn miri_food() {
    let mut list = UnsafeQueue::new();

    list.push(1);
    list.push(2);
    list.push(3);

    assert_eq!(list.pop(), Some(1));
    list.push(4);
    assert_eq!(list.pop(), Some(2));
    list.push(5);

    assert_eq!(list.peek(), Some(&3));
    list.push(6);
    if let Some(x) = list.peek_mut() {
        *x *= 10;
    }
    assert_eq!(list.peek(), Some(&30));
    assert_eq!(list.pop(), Some(30));

    let mut it = list.iter_mut();
    while let Some(elem) = it.next() {
        *elem *= 100;
    }

    let mut iter = list.iter();
    assert_eq!(iter.next(), Some(&400));
    assert_eq!(iter.next(), Some(&500));
    assert_eq!(iter.next(), Some(&600));
    assert_eq!(iter.next(), None);
    assert_eq!(iter.next(), None);

    assert_eq!(list.pop(), Some(400));
    if let Some(x) = list.peek_mut() {
        *x *= 10;
    }
    assert_eq!(list.peek(), Some(&5000));
    list.push(7);
}

#[test]
fn queue_into_iter_in_arrival_order() {
    let mut q = UnsafeQueue::new();
    q.push(1);
    q.push(2);
    let mut it = q.into_iter();
    assert_eq!(it.next(), Some(1));
    assert_eq!(it.next(), Some(2));
    assert_eq!(it.next(), None);
}
