use doubly_linked_list::list::LinkedList;
use doubly_linked_list::list::ListError;

fn forward_values(list: &LinkedList<i32>) -> Vec<i32> {
    list.iter_forward().iter().map(|r| **r).collect()
}

fn backward_values(list: &LinkedList<i32>) -> Vec<i32> {
    list.iter_backward().iter().map(|r| **r).collect()
}

#[test]
fn length_tracks_successful_insertions_minus_removals() {
    let mut list = LinkedList::new();
    list.push_front(10);
    list.push_back(20);
    list.push_front(5);
    assert_eq!(list.len(), 3);
    assert_eq!(list.pop_front(), Some(5));
    assert_eq!(list.len(), 2);
    assert_eq!(list.pop_back(), Some(20));
    assert_eq!(list.pop_back(), Some(10));
    assert_eq!(list.pop_back(), None);
    // The failed pop removed nothing: three insertions, three removals.
    assert_eq!(list.len(), 0);
}

#[test]
fn forward_reversed_equals_backward() {
    let mut list = LinkedList::new();
    for v in [4, 8, 15, 16, 23, 42] {
        list.push_back(v);
    }
    let mut fwd = forward_values(&list);
    let bwd = backward_values(&list);
    assert_eq!(fwd.len(), list.len());
    assert_eq!(bwd.len(), list.len());
    fwd.reverse();
    assert_eq!(fwd, bwd);
}

#[test]
fn pop_front_until_empty_then_again() {
    let mut list = LinkedList::new();
    list.push_back(1);
    list.push_back(2);
    list.push_back(3);
    let mut successful_pops = 0;
    while list.pop_front().is_some() {
        successful_pops += 1;
    }
    assert_eq!(successful_pops, 3);
    assert!(list.is_empty());
    assert_eq!(list.pop_front(), None);
    assert!(list.is_empty());
}

#[test]
fn both_walks_agree_after_interior_churn() {
    let mut list = LinkedList::new();
    let h1 = list.push_back(1);
    let h3 = list.push_back(3);
    list.insert_after(h1, 2).unwrap();
    let h4 = list.push_back(4);
    list.remove(h3).unwrap();
    list.insert_before(h4, 9).unwrap();
    let fwd = forward_values(&list);
    let mut bwd = backward_values(&list);
    assert_eq!(fwd.len(), list.len());
    assert_eq!(bwd.len(), list.len());
    bwd.reverse();
    assert_eq!(fwd, bwd);
    assert_eq!(fwd, vec![1, 2, 9, 4]);
}

#[test]
fn three_pushes_then_pop_front() {
    let mut list = LinkedList::new();
    list.push_back(1);
    list.push_back(2);
    list.push_back(3);
    assert_eq!(forward_values(&list), vec![1, 2, 3]);
    assert_eq!(list.pop_front(), Some(1));
    assert_eq!(forward_values(&list), vec![2, 3]);
}

#[test]
fn insert_after_then_remove_then_stale_handle() {
    let mut list = LinkedList::new();
    let h1 = list.push_front(1);
    list.insert_after(h1, 2).unwrap();
    assert_eq!(forward_values(&list), vec![1, 2]);
    assert_eq!(list.remove(h1), Ok(1));
    assert_eq!(forward_values(&list), vec![2]);
    assert_eq!(list.remove(h1), Err(ListError::InvalidHandle));
}

#[test]
fn pop_front_on_new_list_is_empty_outcome() {
    let mut list: LinkedList<i32> = LinkedList::new();
    assert_eq!(list.pop_front(), None);
}

#[test]
fn hundred_thousand_nodes_tear_down_cleanly() {
    let mut list = LinkedList::new();
    for v in 0..100_000 {
        list.push_back(v);
    }
    assert_eq!(list.len(), 100_000);
    drop(list);
    let mut refilled = LinkedList::new();
    for v in 0..100_000 {
        refilled.push_front(v);
    }
    assert_eq!(refilled.len(), 100_000);
}
