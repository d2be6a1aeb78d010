use linked_lists::static_list::MAX_SIZE;
use linked_lists::StaticLinkedList;

fn collect(list: &StaticLinkedList<String>) -> Vec<String> {
    let mut items = Vec::new();
    let mut index = 0;
    while let Some(item) = list.get(index) {
        items.push(item);
        index += 1;
    }
    items
}

fn numbers(list: &StaticLinkedList<u32>) -> Vec<u32> {
    let mut items = Vec::new();
    let mut index = 0;
    while let Some(item) = list.get(index) {
        items.push(item);
        index += 1;
    }
    items
}

fn full_list() -> StaticLinkedList<u32> {
    let mut list = StaticLinkedList::new();
    for item in 0..MAX_SIZE {
        list.insert(item as u32);
    }
    list
}

#[test]
fn should_static_insert_and_get() {
    let mut list = StaticLinkedList::new();
    list.insert("apple".to_string());
    list.insert("banana".to_string());
    list.insert("cherry".to_string());

    assert_eq!(list.get(0), Some("apple".to_string()));
    assert_eq!(list.get(1), Some("banana".to_string()));
    assert_eq!(list.get(2), Some("cherry".to_string()));
    assert_eq!(list.get(3), None);
}

#[test]
fn should_static_delete_element() {
    let mut list = StaticLinkedList::new();
    list.insert("a".to_string());
    list.insert("b".to_string());
    list.insert("c".to_string());

    assert!(list.delete_element("b".to_string()));
    assert_eq!(list.get(0), Some("a".to_string()));
    assert_eq!(list.get(1), Some("c".to_string()));
    assert!(!list.delete_element("x".to_string()));
}

#[test]
fn test_static_insert_at_index() {
    let mut list = StaticLinkedList::new();
    list.insert("a".to_string());
    list.insert("c".to_string());
    list.insert_at_index(1, "b".to_string());

    assert_eq!(list.get(0), Some("a".to_string()));
    assert_eq!(list.get(1), Some("b".to_string()));
    assert_eq!(list.get(2), Some("c".to_string()));
}

#[test]
fn test_static_delete_at_index() {
    let mut list = StaticLinkedList::new();
    list.insert("first".to_string());
    list.insert("second".to_string());
    list.insert("third".to_string());

    assert!(list.delete_at_index(1));
    assert_eq!(list.get(0), Some("first".to_string()));
    assert_eq!(list.get(1), Some("third".to_string()));
    assert!(!list.delete_at_index(10));
}

#[test]
fn test_static_update_element() {
    let mut list = StaticLinkedList::new();
    list.insert("old".to_string());

    assert!(list.update_element("old".to_string(), "new".to_string()));
    assert_eq!(list.get(0), Some("new".to_string()));
    assert!(!list.update_element("missing".to_string(), "ignored".to_string()));
}

#[test]
fn test_static_update_element_at_index() {
    let mut list = StaticLinkedList::new();
    list.insert("one".to_string());
    list.insert("two".to_string());

    assert!(list.update_element_at_index(1, "updated".to_string()));
    assert_eq!(list.get(1), Some("updated".to_string()));
    assert!(!list.update_element_at_index(5, "fail".to_string()));
}

#[test]
fn static_new_list_is_empty() {
    let list: StaticLinkedList<u32> = StaticLinkedList::new();
    assert_eq!(list.len(), 0);
    for index in 0..=MAX_SIZE {
        assert_eq!(list.get(index), None);
    }
    assert!(!list.find(0));
}

#[test]
fn static_capacity_is_one_hundred() {
    assert_eq!(MAX_SIZE, 100);
}

#[test]
fn static_fills_every_slot_of_a_new_store() {
    let list = full_list();
    assert_eq!(list.len(), MAX_SIZE);
    let expected: Vec<u32> = (0..MAX_SIZE as u32).collect();
    assert_eq!(numbers(&list), expected);
}

#[test]
fn static_full_list_rejects_insert() {
    let mut list = full_list();
    let before = numbers(&list);
    list.insert(1000);
    assert_eq!(list.len(), MAX_SIZE);
    assert_eq!(numbers(&list), before);
    assert_eq!(list.get(MAX_SIZE), None);
    assert!(!list.find(1000));
}

#[test]
fn static_full_list_rejects_insert_at_index() {
    let mut list = full_list();
    let before = numbers(&list);
    list.insert_at_index(0, 1000);
    list.insert_at_index(50, 1000);
    list.insert_at_index(MAX_SIZE, 1000);
    assert_eq!(list.len(), MAX_SIZE);
    assert_eq!(numbers(&list), before);
}

#[test]
fn static_freed_slot_is_reused() {
    let mut list = StaticLinkedList::new();
    list.insert("a".to_string());
    list.insert("b".to_string());
    list.insert("c".to_string());
    assert!(list.delete_at_index(1));
    assert_eq!(collect(&list), vec!["a".to_string(), "c".to_string()]);
    for item in 0..MAX_SIZE - 2 {
        list.insert(item.to_string());
    }
    assert_eq!(list.len(), MAX_SIZE);
    assert_eq!(list.get(MAX_SIZE - 1), Some((MAX_SIZE - 3).to_string()));
    list.insert("overflow".to_string());
    assert_eq!(list.len(), MAX_SIZE);
    assert!(!list.find("overflow".to_string()));
}

#[test]
fn static_full_list_takes_one_more_after_each_delete() {
    let mut list = full_list();
    for round in 0..3 * MAX_SIZE as u32 {
        assert!(list.delete_at_index((round as usize * 7) % MAX_SIZE));
        assert_eq!(list.len(), MAX_SIZE - 1);
        list.insert(5000 + round);
        assert_eq!(list.len(), MAX_SIZE);
        assert_eq!(list.get(MAX_SIZE - 1), Some(5000 + round));
        list.insert(9999);
        assert_eq!(list.len(), MAX_SIZE);
        assert_eq!(list.get(MAX_SIZE - 1), Some(5000 + round));
    }
}

#[test]
fn static_len_counts_the_reachable_elements() {
    let mut list = StaticLinkedList::new();
    for expected in 0..30usize {
        assert_eq!(list.len(), expected);
        assert_eq!(numbers(&list).len(), expected);
        list.insert(expected as u32);
    }
    assert!(list.delete_at_index(0));
    assert!(list.delete_element(29));
    assert!(!list.delete_element(29));
    list.insert_at_index(90, 7);
    assert_eq!(list.len(), 28);
    assert_eq!(numbers(&list).len(), 28);
}

#[test]
fn static_inserted_value_is_found_at_its_index() {
    let mut list = StaticLinkedList::new();
    list.insert(4u32);
    list.insert(8);
    let at = list.len();
    list.insert(15);
    assert_eq!(list.get(at), Some(15));
    list.insert_at_index(1, 16);
    assert_eq!(list.get(1), Some(16));
    assert_eq!(numbers(&list), vec![4, 16, 8, 15]);
}

#[test]
fn static_get_past_the_end_is_absent() {
    let mut list: StaticLinkedList<u32> = StaticLinkedList::new();
    assert_eq!(list.get(0), None);
    assert_eq!(list.get(usize::MAX), None);
    list.insert(1);
    list.insert(2);
    assert_eq!(list.get(2), None);
    assert_eq!(list.get(3), None);
    let full = full_list();
    assert_eq!(full.get(MAX_SIZE), None);
    assert_eq!(full.get(MAX_SIZE + 1), None);
}

#[test]
fn static_failed_delete_changes_nothing() {
    let mut list = StaticLinkedList::new();
    list.insert(1u32);
    list.insert(2);
    list.insert(3);
    assert!(!list.delete_element(99));
    assert_eq!(numbers(&list), vec![1, 2, 3]);
    assert!(!list.delete_element(99));
    assert_eq!(numbers(&list), vec![1, 2, 3]);
    assert_eq!(list.len(), 3);
}

#[test]
fn static_delete_element_removes_only_the_first_match() {
    let mut list = StaticLinkedList::new();
    for item in [5u32, 6, 5, 6] {
        list.insert(item);
    }
    assert!(list.delete_element(6));
    assert_eq!(numbers(&list), vec![5, 5, 6]);
    assert!(list.delete_element(5));
    assert_eq!(numbers(&list), vec![5, 6]);
}

#[test]
fn static_delete_head_and_tail() {
    let mut list = StaticLinkedList::new();
    for item in [1u32, 2, 3] {
        list.insert(item);
    }
    assert!(list.delete_at_index(0));
    assert_eq!(numbers(&list), vec![2, 3]);
    assert!(list.delete_at_index(1));
    assert_eq!(numbers(&list), vec![2]);
    assert!(!list.delete_at_index(1));
    assert!(list.delete_element(2));
    assert_eq!(numbers(&list), Vec::<u32>::new());
    assert!(!list.delete_at_index(0));
    list.insert(4);
    assert_eq!(numbers(&list), vec![4]);
}

#[test]
fn static_insert_at_index_edges() {
    let mut list = StaticLinkedList::new();
    list.insert_at_index(1, 9u32);
    assert_eq!(list.len(), 0);
    list.insert_at_index(0, 2);
    list.insert_at_index(0, 1);
    list.insert_at_index(2, 3);
    assert_eq!(numbers(&list), vec![1, 2, 3]);
    list.insert_at_index(4, 9);
    assert_eq!(numbers(&list), vec![1, 2, 3]);
}

#[test]
fn static_update_element_replaces_only_the_first_match() {
    let mut list = StaticLinkedList::new();
    for item in [7u32, 8, 7] {
        list.insert(item);
    }
    assert!(list.update_element(7, 9));
    assert_eq!(numbers(&list), vec![9, 8, 7]);
    assert!(!list.update_element(10, 11));
    assert_eq!(numbers(&list), vec![9, 8, 7]);
}

#[test]
fn static_update_at_index_out_of_range_changes_nothing() {
    let mut list = StaticLinkedList::new();
    list.insert(1u32);
    list.insert(2);
    assert!(!list.update_element_at_index(2, 5));
    assert_eq!(numbers(&list), vec![1, 2]);
    assert!(list.update_element_at_index(0, 5));
    assert_eq!(numbers(&list), vec![5, 2]);
}

#[test]
fn static_find() {
    let mut list = StaticLinkedList::new();
    list.insert(7u32);
    list.insert(14);
    list.insert(21);
    assert!(list.find(14));
    assert!(list.find(7));
    assert!(list.find(21));
    assert!(!list.find(100));
    assert!(list.delete_element(14));
    assert!(!list.find(14));
}

#[test]
fn static_refused_calls_change_nothing() {
    let mut list = StaticLinkedList::new();
    for item in [1u32, 2, 3] {
        list.insert(item);
    }
    assert!(!list.delete_at_index(3));
    assert!(!list.update_element_at_index(3, 9));
    assert!(!list.delete_element(9));
    assert!(!list.update_element(9, 10));
    list.insert_at_index(4, 9);
    assert_eq!(list.len(), 3);
    assert_eq!(numbers(&list), vec![1, 2, 3]);
    list.insert(4);
    assert_eq!(numbers(&list), vec![1, 2, 3, 4]);
}

#[test]
fn static_delete_frees_exactly_one_slot() {
    let mut list = full_list();
    assert!(list.delete_at_index(0));
    assert!(list.delete_element(50));
    assert_eq!(list.len(), MAX_SIZE - 2);
    list.insert(1000);
    list.insert(1001);
    assert_eq!(list.len(), MAX_SIZE);
    list.insert(1002);
    assert_eq!(list.len(), MAX_SIZE);
    assert_eq!(list.get(0), Some(1));
    assert_eq!(list.get(MAX_SIZE - 2), Some(1000));
    assert_eq!(list.get(MAX_SIZE - 1), Some(1001));
    assert!(!list.find(1002));
    assert!(!list.find(0));
    assert!(!list.find(50));
}
