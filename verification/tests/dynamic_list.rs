use linked_lists::DynamicLinkedList;

fn collect(list: &DynamicLinkedList<i32>) -> Vec<i32> {
    let mut items = Vec::new();
    let mut index = 0;
    while let Some(item) = list.get(index) {
        items.push(item);
        index += 1;
    }
    items
}

fn from_items(items: &[i32]) -> DynamicLinkedList<i32> {
    let mut list = DynamicLinkedList::new();
    for item in items {
        list.insert(*item);
    }
    list
}

#[test]
fn should_insert_and_get() {
    let mut list = DynamicLinkedList::new();
    list.insert(1);
    list.insert(2);
    list.insert(3);
    assert_eq!(list.get(0), Some(1));
    assert_eq!(list.get(1), Some(2));
    assert_eq!(list.get(2), Some(3));
}

#[test]
fn should_insert_at_index() {
    let mut list = DynamicLinkedList::new();
    list.insert(1);
    list.insert(3);
    list.insert_at_index(1, 2);

    assert_eq!(list.get(0), Some(1));
    assert_eq!(list.get(1), Some(2));
    assert_eq!(list.get(2), Some(3));
}

#[test]
fn should_delete_element() {
    let mut list = DynamicLinkedList::new();
    list.insert(1);
    list.insert(2);
    list.insert(3);

    assert!(list.delete_element(2));
    assert_eq!(list.get(0), Some(1));
    assert_eq!(list.get(1), Some(3));
    assert!(!list.delete_element(99));
}

#[test]
fn should_delete_at_index() {
    let mut list = DynamicLinkedList::new();
    list.insert(1);
    list.insert(2);
    list.insert(3);
    assert!(list.delete_at_index(1));
    assert_eq!(list.get(0), Some(1));
    assert_eq!(list.get(1), Some(3));
    assert!(!list.delete_at_index(5));
}

#[test]
fn should_update_element() {
    let mut list = DynamicLinkedList::new();
    list.insert(100);
    list.insert(200);
    assert!(list.update_element(100, 150));
    assert_eq!(list.get(0), Some(150));
    assert!(!list.update_element(999, 111));
}

#[test]
fn should_update_element_at_index() {
    let mut list = DynamicLinkedList::new();
    list.insert(5);
    list.insert(10);
    assert!(list.update_element_at_index(1, 15));
    assert_eq!(list.get(1), Some(15));
    assert!(!list.update_element_at_index(5, 99));
}

#[test]
fn test_find() {
    let mut list = DynamicLinkedList::new();
    list.insert(7);
    list.insert(14);
    list.insert(21);
    assert!(list.find(14));
    assert!(!list.find(100));
}

#[test]
fn new_list_is_empty() {
    let list: DynamicLinkedList<i32> = DynamicLinkedList::new();
    assert_eq!(list.len(), 0);
    assert_eq!(list.get(0), None);
    assert!(!list.find(0));
}

#[test]
fn len_counts_the_reachable_elements() {
    let mut list = DynamicLinkedList::new();
    for expected in 0..20usize {
        assert_eq!(list.len(), expected);
        assert_eq!(collect(&list).len(), expected);
        list.insert(expected as i32);
    }
    assert!(list.delete_at_index(0));
    assert!(list.delete_element(19));
    assert!(!list.delete_element(19));
    list.insert_at_index(50, 7);
    assert_eq!(list.len(), 18);
    assert_eq!(collect(&list).len(), 18);
}

#[test]
fn inserted_value_is_found_at_its_index() {
    let mut list = from_items(&[4, 8]);
    let at = list.len();
    list.insert(15);
    assert_eq!(list.get(at), Some(15));
    list.insert_at_index(1, 16);
    assert_eq!(list.get(1), Some(16));
    assert_eq!(collect(&list), vec![4, 16, 8, 15]);
}

#[test]
fn get_past_the_end_is_absent() {
    let mut list: DynamicLinkedList<i32> = DynamicLinkedList::new();
    assert_eq!(list.get(0), None);
    assert_eq!(list.get(usize::MAX), None);
    list.insert(1);
    list.insert(2);
    assert_eq!(list.get(2), None);
    assert_eq!(list.get(3), None);
}

#[test]
fn failed_delete_changes_nothing() {
    let mut list = from_items(&[1, 2, 3]);
    assert!(!list.delete_element(99));
    assert_eq!(collect(&list), vec![1, 2, 3]);
    assert!(!list.delete_element(99));
    assert_eq!(collect(&list), vec![1, 2, 3]);
    assert_eq!(list.len(), 3);
}

#[test]
fn delete_element_sequence_after_delete() {
    let mut list = from_items(&[1, 2, 3]);
    assert!(list.delete_element(2));
    assert_eq!(collect(&list), vec![1, 3]);
    assert!(!list.delete_element(99));
    assert_eq!(collect(&list), vec![1, 3]);
}

#[test]
fn delete_element_removes_only_the_first_match() {
    let mut list = from_items(&[5, 6, 5, 6]);
    assert!(list.delete_element(6));
    assert_eq!(collect(&list), vec![5, 5, 6]);
    assert!(list.delete_element(5));
    assert_eq!(collect(&list), vec![5, 6]);
}

#[test]
fn delete_head_and_tail() {
    let mut list = from_items(&[1, 2, 3]);
    assert!(list.delete_at_index(0));
    assert_eq!(collect(&list), vec![2, 3]);
    assert!(list.delete_at_index(1));
    assert_eq!(collect(&list), vec![2]);
    assert!(!list.delete_at_index(1));
    assert!(list.delete_at_index(0));
    assert_eq!(collect(&list), Vec::<i32>::new());
    assert!(!list.delete_at_index(0));
    assert_eq!(list.len(), 0);
}

#[test]
fn insert_at_index_edges() {
    let mut list = DynamicLinkedList::new();
    list.insert_at_index(1, 9);
    assert_eq!(list.len(), 0);
    list.insert_at_index(0, 2);
    list.insert_at_index(0, 1);
    list.insert_at_index(2, 3);
    assert_eq!(collect(&list), vec![1, 2, 3]);
    list.insert_at_index(4, 9);
    assert_eq!(collect(&list), vec![1, 2, 3]);
}

#[test]
fn update_element_replaces_only_the_first_match() {
    let mut list = from_items(&[7, 8, 7]);
    assert!(list.update_element(7, 9));
    assert_eq!(collect(&list), vec![9, 8, 7]);
    assert!(!list.update_element(10, 11));
    assert_eq!(collect(&list), vec![9, 8, 7]);
}

#[test]
fn update_at_index_out_of_range_changes_nothing() {
    let mut list = from_items(&[1, 2]);
    assert!(!list.update_element_at_index(2, 5));
    assert_eq!(collect(&list), vec![1, 2]);
    assert!(list.update_element_at_index(0, 5));
    assert_eq!(collect(&list), vec![5, 2]);
}

#[derive(Clone, Debug, PartialEq)]
struct Entry {
    key: u8,
    label: String,
}

fn entry(key: u8, label: &str) -> Entry {
    Entry { key, label: label.to_string() }
}

#[test]
fn holds_elements_that_are_not_copy() {
    let mut list = DynamicLinkedList::new();
    list.insert(entry(1, "one"));
    list.insert(entry(2, "two"));
    list.insert_at_index(0, entry(0, "zero"));
    assert_eq!(list.len(), 3);
    assert_eq!(list.get(0), Some(entry(0, "zero")));
    assert_eq!(list.get(2), Some(entry(2, "two")));
    assert!(list.find(entry(1, "one")));
    assert!(!list.find(entry(1, "uno")));
    assert!(list.update_element(entry(1, "one"), entry(1, "uno")));
    assert_eq!(list.get(1), Some(entry(1, "uno")));
    assert!(list.delete_element(entry(0, "zero")));
    assert_eq!(list.get(0), Some(entry(1, "uno")));
    assert_eq!(list.len(), 2);
}

#[test]
fn long_list_keeps_order() {
    let mut list = DynamicLinkedList::new();
    for item in 0..500 {
        list.insert(item);
    }
    assert_eq!(list.len(), 500);
    for index in 0..500usize {
        assert_eq!(list.get(index), Some(index as i32));
    }
    assert!(list.delete_at_index(499));
    assert!(list.delete_at_index(0));
    assert_eq!(list.get(0), Some(1));
    assert_eq!(list.get(497), Some(498));
    assert_eq!(list.get(498), None);
}

#[derive(Clone, PartialEq)]
struct Plain {
    key: u8,
}

#[test]
fn holds_elements_that_only_compare_and_clone() {
    let mut list = DynamicLinkedList::new();
    list.insert(Plain { key: 1 });
    list.insert(Plain { key: 2 });
    list.insert_at_index(1, Plain { key: 3 });
    assert!(list.len() == 3);
    assert!(list.get(1) == Some(Plain { key: 3 }));
    assert!(list.find(Plain { key: 2 }));
    assert!(list.update_element(Plain { key: 2 }, Plain { key: 4 }));
    assert!(list.get(2) == Some(Plain { key: 4 }));
    assert!(list.delete_element(Plain { key: 1 }));
    assert!(!list.delete_element(Plain { key: 1 }));
    assert!(list.get(0) == Some(Plain { key: 3 }));
    assert!(list.get(2).is_none());
}
