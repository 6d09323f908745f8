use linked_list::LinkedList;

#[test]
fn iter_yields_forward_order_then_none() {
    let l = LinkedList::from(&[4, 6, 8]);
    let mut it = l.iter();
    assert_eq!(it.next(), Some(4));
    assert_eq!(it.next(), Some(6));
    assert_eq!(it.next(), Some(8));
    assert_eq!(it.next(), None);
    assert_eq!(it.next(), None);
}

#[test]
fn iter_on_empty_list() {
    let l: LinkedList<i32> = LinkedList::new();
    let mut it = l.iter();
    assert_eq!(it.next(), None);
}

#[test]
fn fresh_iter_restarts_from_the_head() {
    let l = LinkedList::from(&[1, 2]);
    let mut first = l.iter();
    assert_eq!(first.next(), Some(1));
    assert_eq!(first.next(), Some(2));
    assert_eq!(first.next(), None);
    let mut second = l.iter();
    assert_eq!(second.next(), Some(1));
}

#[test]
fn iter_mut_yields_a_handle_per_node() {
    let mut l = LinkedList::from(&[10, 20, 30]);
    let mut it = l.iter_mut();
    let mut count = 0;
    while let Some(h) = it.next(&l) {
        let _ = l.read_node(h);
        count += 1;
    }
    assert_eq!(count, 3);
}

#[test]
fn write_through_last_handle_is_visible_to_the_list() {
    let mut l = LinkedList::from(&[4, 6]);
    let mut it = l.iter_mut();
    let mut last = None;
    while let Some(h) = it.next(&l) {
        last = Some(h);
    }
    let h = last.unwrap();
    assert_eq!(l.read_node(h), 6);
    l.write_node(h, 60);
    assert_eq!(l.tail(), Some(60));
    assert_eq!(l.len(), 2);
    let mut values = l.iter();
    assert_eq!(values.next(), Some(4));
    assert_eq!(values.next(), Some(60));
    assert_eq!(values.next(), None);
}

#[test]
fn write_through_handle_keeps_later_handles_valid() {
    let mut l = LinkedList::from(&[1, 2, 3]);
    let mut it = l.iter_mut();
    let first = it.next(&l).unwrap();
    l.write_node(first, 100);
    let second = it.next(&l).unwrap();
    assert_eq!(l.read_node(second), 2);
    l.write_node(second, 200);
    let third = it.next(&l).unwrap();
    assert_eq!(it.next(&l), None);
    l.write_node(third, 300);
    let mut values = l.iter();
    assert_eq!(values.next(), Some(100));
    assert_eq!(values.next(), Some(200));
    assert_eq!(values.next(), Some(300));
    assert_eq!(values.next(), None);
}
