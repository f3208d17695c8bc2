use doubly_linked_list::list::LinkedList;
use doubly_linked_list::list::ListError;

fn forward_values(list: &LinkedList<i32>) -> Vec<i32> {
    list.iter_forward().iter().map(|r| **r).collect()
}

fn backward_values(list: &LinkedList<i32>) -> Vec<i32> {
    list.iter_backward().iter().map(|r| **r).collect()
}

#[test]
fn new_list_is_empty() {
    let list: LinkedList<i32> = LinkedList::new();
    assert_eq!(list.len(), 0);
    assert!(list.is_empty());
    assert!(list.iter_forward().is_empty());
    assert!(list.iter_backward().is_empty());
}

#[test]
fn default_matches_new() {
    let list: LinkedList<i32> = Default::default();
    assert_eq!(list.len(), 0);
    assert!(list.is_empty());
}

#[test]
fn push_front_orders_from_head() {
    let mut list = LinkedList::new();
    list.push_front(3);
    list.push_front(2);
    list.push_front(1);
    assert_eq!(forward_values(&list), vec![1, 2, 3]);
    assert_eq!(list.len(), 3);
}

#[test]
fn push_back_orders_to_tail() {
    let mut list = LinkedList::new();
    list.push_back(1);
    list.push_back(2);
    list.push_back(3);
    assert_eq!(forward_values(&list), vec![1, 2, 3]);
    assert_eq!(list.len(), 3);
}

#[test]
fn pop_back_returns_tail_values() {
    let mut list = LinkedList::new();
    list.push_back(1);
    list.push_back(2);
    assert_eq!(list.pop_back(), Some(2));
    assert_eq!(list.pop_back(), Some(1));
    assert_eq!(list.pop_back(), None);
}

#[test]
fn insert_before_places_value_ahead_of_node() {
    let mut list = LinkedList::new();
    let h2 = list.push_back(2);
    list.push_back(3);
    let r = list.insert_before(h2, 1);
    assert!(r.is_ok());
    assert_eq!(forward_values(&list), vec![1, 2, 3]);
}

#[test]
fn insert_after_places_value_behind_node() {
    let mut list = LinkedList::new();
    let h1 = list.push_back(1);
    list.push_back(3);
    let r = list.insert_after(h1, 2);
    assert!(r.is_ok());
    assert_eq!(forward_values(&list), vec![1, 2, 3]);
}

#[test]
fn remove_interior_node_relinks_neighbours() {
    let mut list = LinkedList::new();
    list.push_back(1);
    let h2 = list.push_back(2);
    list.push_back(3);
    assert_eq!(list.remove(h2), Ok(2));
    assert_eq!(forward_values(&list), vec![1, 3]);
    assert_eq!(backward_values(&list), vec![3, 1]);
    assert_eq!(list.len(), 2);
}

#[test]
fn stale_handle_is_rejected_everywhere() {
    let mut list = LinkedList::new();
    let h = list.push_back(1);
    assert!(list.is_valid_handle(h));
    assert_eq!(list.remove(h), Ok(1));
    assert!(!list.is_valid_handle(h));
    assert_eq!(list.remove(h), Err(ListError::InvalidHandle));
    assert_eq!(list.insert_after(h, 9), Err(ListError::InvalidHandle));
    assert_eq!(list.insert_before(h, 9), Err(ListError::InvalidHandle));
}

#[test]
fn reused_slot_does_not_revive_old_handle() {
    let mut list = LinkedList::new();
    let h1 = list.push_back(1);
    assert_eq!(list.remove(h1), Ok(1));
    let h2 = list.push_back(2);
    assert!(!list.is_valid_handle(h1));
    assert!(list.is_valid_handle(h2));
    assert_eq!(list.remove(h1), Err(ListError::InvalidHandle));
    assert_eq!(forward_values(&list), vec![2]);
}

#[test]
fn handle_from_pop_victim_goes_stale() {
    let mut list = LinkedList::new();
    let h1 = list.push_back(1);
    let h2 = list.push_back(2);
    assert_eq!(list.pop_front(), Some(1));
    assert!(!list.is_valid_handle(h1));
    assert!(list.is_valid_handle(h2));
    assert_eq!(list.pop_back(), Some(2));
    assert!(!list.is_valid_handle(h2));
}

#[test]
fn mixed_ends_behave_like_a_deque() {
    let mut list = LinkedList::new();
    list.push_back(2);
    list.push_front(1);
    list.push_back(3);
    assert_eq!(forward_values(&list), vec![1, 2, 3]);
    assert_eq!(list.pop_back(), Some(3));
    assert_eq!(list.pop_front(), Some(1));
    assert_eq!(forward_values(&list), vec![2]);
}
