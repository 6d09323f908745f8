use linked_list::Error;
use linked_list::LinkedList;
use linked_list::Node;

#[test]
fn new_is_empty() {
    let l: LinkedList<i32> = LinkedList::new();
    assert_eq!(l.len(), 0);
    assert!(l.is_empty());
    assert_eq!(l.head(), None);
    assert_eq!(l.tail(), None);
}

#[test]
fn node_new_is_unlinked() {
    let n = Node::new(7);
    assert_eq!(n.value, 7);
    assert_eq!(n.next, None);
}

#[test]
fn from_keeps_length_and_order() {
    let v = [1, 2, 5, 1, 3, 9];
    let l = LinkedList::from(&v);
    assert_eq!(l.len(), v.len());
    let mut it = l.iter();
    let mut collected = Vec::new();
    while let Some(x) = it.next() {
        collected.push(x);
    }
    assert_eq!(collected, v.to_vec());
}

#[test]
fn from_empty_slice() {
    let v: [i32; 0] = [];
    let l = LinkedList::from(&v);
    assert_eq!(l.len(), 0);
    assert!(l.is_empty());
}

#[test]
fn push_back_sets_tail_and_grows_len() {
    let mut l = LinkedList::from(&[10, 20]);
    let before = l.len();
    l.push_back(30);
    assert_eq!(l.tail(), Some(30));
    assert_eq!(l.len(), before + 1);

    let mut e: LinkedList<i32> = LinkedList::new();
    e.push_back(8);
    assert_eq!(e.tail(), Some(8));
    assert_eq!(e.head(), Some(8));
    assert_eq!(e.len(), 1);
}

#[test]
fn push_head_sets_head_and_grows_len() {
    let mut l = LinkedList::from(&[10, 20]);
    let before = l.len();
    l.push_head(5);
    assert_eq!(l.head(), Some(5));
    assert_eq!(l.len(), before + 1);

    let mut e: LinkedList<i32> = LinkedList::new();
    e.push_head(8);
    assert_eq!(e.head(), Some(8));
    assert_eq!(e.tail(), Some(8));
    assert_eq!(e.len(), 1);
}

#[test]
fn pop_head_returns_values_in_order() {
    let mut l = LinkedList::from(&[1, 2]);
    assert_eq!(l.pop_head(), Some(1));
    assert_eq!(l.pop_head(), Some(2));
    assert_eq!(l.pop_head(), None);
    assert!(l.is_empty());
    assert_eq!(l.tail(), None);
}

#[test]
fn pop_back_on_empty_list() {
    let mut l: LinkedList<i32> = LinkedList::new();
    assert_eq!(l.pop_back(), None);
    assert_eq!(l.len(), 0);
}

#[test]
fn pop_back_on_single_element_list() {
    let mut l = LinkedList::from(&[5]);
    assert_eq!(l.pop_back(), Some(5));
    assert!(l.is_empty());
    assert_eq!(l.tail(), None);
    assert_eq!(l.head(), None);
}

#[test]
fn pop_back_rebinds_tail() {
    let mut l = LinkedList::from(&[1, 2, 3]);
    assert_eq!(l.pop_back(), Some(3));
    assert_eq!(l.len(), 2);
    assert_eq!(l.tail(), Some(2));
    l.push_back(4);
    assert_eq!(l.tail(), Some(4));
    assert_eq!(l.len(), 3);
}

#[test]
fn clear_twice_yields_the_same_empty_state() {
    let mut l = LinkedList::from(&[1, 2, 3]);
    l.clear();
    assert!(l.is_empty());
    assert_eq!(l.len(), 0);
    assert_eq!(l.head(), None);
    assert_eq!(l.tail(), None);
    l.clear();
    assert!(l.is_empty());
    assert_eq!(l.len(), 0);
    assert_eq!(l.head(), None);
    assert_eq!(l.tail(), None);
}

#[test]
fn insert_then_remove_at_same_index_round_trips() {
    let original = [4, 8, 15, 16];
    for index in 0..=original.len() {
        let mut l = LinkedList::from(&original);
        assert_eq!(l.insert_at(index, 99), Ok(()));
        assert_eq!(l.len(), original.len() + 1);
        assert_eq!(l.remove_at(index), Ok(99));
        assert_eq!(l.len(), original.len());
        let mut it = l.iter();
        let mut collected = Vec::new();
        while let Some(x) = it.next() {
            collected.push(x);
        }
        assert_eq!(collected, original.to_vec());
    }
}

#[test]
fn insert_at_len_appends_and_one_past_fails() {
    let mut l = LinkedList::from(&[1, 2]);
    assert_eq!(l.insert_at(2, 3), Ok(()));
    assert_eq!(l.tail(), Some(3));
    assert_eq!(l.len(), 3);
    assert_eq!(l.insert_at(4, 9), Err(Error::OutOfBounds));
    assert_eq!(l.len(), 3);

    let mut e: LinkedList<i32> = LinkedList::new();
    assert_eq!(e.insert_at(0, 1), Ok(()));
    assert_eq!(e.insert_at(2, 2), Err(Error::OutOfBounds));
}

#[test]
fn remove_at_len_fails() {
    let mut l = LinkedList::from(&[1, 2, 3]);
    assert_eq!(l.remove_at(3), Err(Error::OutOfBounds));
    assert_eq!(l.len(), 3);
    let mut e: LinkedList<i32> = LinkedList::new();
    assert_eq!(e.remove_at(0), Err(Error::OutOfBounds));
}

#[test]
fn remove_at_middle_splices_the_chain() {
    let mut l = LinkedList::from(&[1, 2, 3, 4]);
    assert_eq!(l.remove_at(1), Ok(2));
    assert_eq!(l.len(), 3);
    let mut it = l.iter();
    assert_eq!(it.next(), Some(1));
    assert_eq!(it.next(), Some(3));
    assert_eq!(it.next(), Some(4));
    assert_eq!(it.next(), None);
}

#[test]
fn replace_swaps_value_in_place() {
    let mut l = LinkedList::from(&[1, 2, 3]);
    assert_eq!(l.replace(1, 20), Ok(2));
    assert_eq!(l.len(), 3);
    let mut it = l.iter();
    assert_eq!(it.next(), Some(1));
    assert_eq!(it.next(), Some(20));
    assert_eq!(it.next(), Some(3));
    assert_eq!(it.next(), None);
    assert_eq!(l.replace(3, 9), Err(Error::OutOfBounds));
}

#[test]
fn index_of_finds_first_match() {
    let l = LinkedList::from(&[7, 9, 9, 4]);
    assert_eq!(l.index_of(9), Some(1));
    assert_eq!(l.index_of(7), Some(0));
    assert_eq!(l.index_of(4), Some(3));
    assert_eq!(l.index_of(8), None);
}

#[test]
fn contains_matches_index_of() {
    let l = LinkedList::from(&[7, 9]);
    assert!(l.contains(7));
    assert!(l.contains(9));
    assert!(!l.contains(8));
    let e: LinkedList<i32> = LinkedList::new();
    assert!(!e.contains(7));
}

#[test]
fn scenario_pushes_build_forward_order() {
    let mut l: LinkedList<i32> = LinkedList::new();
    l.push_back(1);
    l.push_back(2);
    l.push_back(3);
    l.push_head(12);
    assert_eq!(l.len(), 4);
    let mut it = l.iter();
    assert_eq!(it.next(), Some(12));
    assert_eq!(it.next(), Some(1));
    assert_eq!(it.next(), Some(2));
    assert_eq!(it.next(), Some(3));
    assert_eq!(it.next(), None);
}

#[test]
fn scenario_remove_at_tail_position() {
    let mut l: LinkedList<i32> = LinkedList::new();
    l.push_back(1);
    l.push_back(2);
    l.push_back(3);
    l.push_head(12);
    assert_eq!(l.remove_at(3), Ok(3));
    assert_eq!(l.len(), 3);
    assert_eq!(l.head(), Some(12));
    assert_eq!(l.tail(), Some(2));
    let mut it = l.iter();
    assert_eq!(it.next(), Some(12));
    assert_eq!(it.next(), Some(1));
    assert_eq!(it.next(), Some(2));
    assert_eq!(it.next(), None);
}
