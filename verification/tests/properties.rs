use doublelist::DoubleList;
use doublelist::ListError;

fn forward_values(list: &DoubleList<i32>) -> Vec<i32> {
    let mut out = Vec::new();
    let mut it = list.iter();
    while let Some(x) = it.next() {
        out.push(*x);
    }
    out
}

fn reverse_values(list: &DoubleList<i32>) -> Vec<i32> {
    let mut out = Vec::new();
    let mut it = list.iter_rev();
    while let Some(x) = it.next() {
        out.push(*x);
    }
    out
}

#[test]
fn insert_front_order() {
    let mut list: DoubleList<i32> = DoubleList::new();
    for s in [1, 4, 43, 9, 3, 56, 4] {
        list.insert_front(s);
    }
    assert_eq!(forward_values(&list), vec![4, 56, 3, 9, 43, 4, 1]);
    assert_eq!(reverse_values(&list), vec![1, 4, 43, 9, 3, 56, 4]);
}

#[test]
fn insert_back_order() {
    let mut list: DoubleList<i32> = DoubleList::new();
    for s in [1, 4, 43, 9, 3, 56, 4] {
        list.insert_back(s);
    }
    assert_eq!(forward_values(&list), vec![1, 4, 43, 9, 3, 56, 4]);
    assert_eq!(reverse_values(&list), vec![4, 56, 3, 9, 43, 4, 1]);
}

#[test]
fn delete_removes_first_match() {
    let mut list: DoubleList<i32> = DoubleList::new();
    for s in [1, 4, 43, 4, 5, 7, 9, 10, 11] {
        list.insert_front(s);
    }
    assert!(list.delete(&43).is_ok());
    assert_eq!(forward_values(&list), vec![11, 10, 9, 7, 5, 4, 4, 1]);
}

#[test]
fn delete_miss_leaves_list_unchanged() {
    let mut list: DoubleList<i32> = DoubleList::new();
    for s in [1, 4, 43, 4, 5, 7, 9, 10, 11] {
        list.insert_front(s);
    }
    let before = forward_values(&list);
    let res = list.delete(&1043);
    assert!(matches!(res, Err(ListError::NodeNotFound)));
    assert_eq!(forward_values(&list), before);
    assert_eq!(before.len(), 9);
}

#[test]
fn empty_list_properties() {
    let mut list: DoubleList<i32> = DoubleList::new();
    assert!(list.is_empty());
    assert!(list.iter().next().is_none());
    assert!(list.iter_rev().next().is_none());
    assert!(matches!(list.delete(&7), Err(ListError::NodeNotFound)));
}

#[test]
fn single_element_front() {
    let mut list: DoubleList<i32> = DoubleList::new();
    list.insert_front(5);
    assert!(!list.is_empty());
    assert_eq!(forward_values(&list), vec![5]);
    assert_eq!(reverse_values(&list), vec![5]);
}

#[test]
fn single_element_back() {
    let mut list: DoubleList<i32> = DoubleList::new();
    list.insert_back(8);
    assert!(!list.is_empty());
    assert_eq!(forward_values(&list), vec![8]);
    assert_eq!(reverse_values(&list), vec![8]);
}

#[test]
fn teardown_frees_every_node_once() {
    let mut list: DoubleList<i32> = DoubleList::new();
    for s in [10, 20, 30, 40, 50] {
        list.insert_back(s);
    }
    assert_eq!(list.clear(), 5);
    assert!(list.is_empty());
    assert!(list.iter().next().is_none());
    assert_eq!(list.clear(), 0);
}

#[test]
fn remove_by_index() {
    let mut list: DoubleList<i32> = DoubleList::new();
    for s in [1, 2, 3, 4] {
        list.insert_back(s);
    }
    assert!(list.remove(1));
    assert_eq!(forward_values(&list), vec![1, 3, 4]);
    assert!(list.remove(0));
    assert_eq!(forward_values(&list), vec![3, 4]);
    assert!(!list.remove(-1));
    assert!(!list.remove(2));
    assert_eq!(forward_values(&list), vec![3, 4]);
}

#[test]
fn delete_sole_node_empties_list() {
    let mut list: DoubleList<i32> = DoubleList::new();
    list.insert_front(99);
    assert!(list.delete(&99).is_ok());
    assert!(list.is_empty());
    assert!(matches!(list.delete(&99), Err(ListError::NodeNotFound)));
}

#[test]
fn insert_after_delete_reuses_storage() {
    let mut list: DoubleList<i32> = DoubleList::new();
    for s in [1, 2, 3] {
        list.insert_back(s);
    }
    assert!(list.delete(&2).is_ok());
    list.insert_front(7);
    list.insert_back(9);
    assert_eq!(forward_values(&list), vec![7, 1, 3, 9]);
    assert_eq!(reverse_values(&list), vec![9, 3, 1, 7]);
}

#[test]
fn clear_then_reuse() {
    let mut list: DoubleList<i32> = DoubleList::new();
    for s in [4, 5, 6] {
        list.insert_back(s);
    }
    assert_eq!(list.clear(), 3);
    list.insert_front(1);
    list.insert_back(2);
    assert_eq!(forward_values(&list), vec![1, 2]);
}

#[test]
fn deletes_one_occurrence_per_call() {
    let mut list: DoubleList<i32> = DoubleList::new();
    for s in [4, 4, 4] {
        list.insert_back(s);
    }
    assert!(list.delete(&4).is_ok());
    assert_eq!(forward_values(&list), vec![4, 4]);
    assert!(list.delete(&4).is_ok());
    assert_eq!(forward_values(&list), vec![4]);
    assert!(list.delete(&4).is_ok());
    assert!(list.is_empty());
    assert!(list.delete(&4).is_err());
}

#[test]
fn delete_error_has_message() {
    let mut list: DoubleList<i32> = DoubleList::new();
    let err = list.delete(&1).unwrap_err();
    assert_eq!(err.message(), "Value could not be found in the list");
}

#[test]
fn default_is_empty() {
    let list: DoubleList<i32> = DoubleList::default();
    assert!(list.is_empty());
}
