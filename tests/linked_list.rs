use ds::LinkedList;

#[test]
fn linked_list_test_len() {
    let mut list = LinkedList::new();
    assert_eq!(list.len(), 0);
    list.append(4);
    assert_eq!(list.len(), 1);
    list.append(4);
    assert_eq!(list.len(), 2);
    list.append(4);
    assert_eq!(list.len(), 3);
}

#[test]
fn linked_list_test_get() {
    let mut list = LinkedList::new();
    list.append(4);
    assert_eq!(*list.get(0), 4);
    list.append(5);
    assert_eq!(*list.get(1), 5);
    list.append(6);
    assert_eq!(*list.get(2), 6);
}

#[test]
fn linked_list_test_append() {
    let mut list = LinkedList::new();
    list.append(4);
    assert_eq!(*list.get(0), 4);
}

#[test]
fn linked_list_test_insert_at_head() {
    let mut list = LinkedList::new();
    list.append(2);
    list.append(3);
    list.append(4);
    list.append(5);
    list.insert(1, 0);
    assert_eq!(list.len(), 5);
    assert_eq!(*list.get(0), 1);
    assert_eq!(*list.get(1), 2);
}

#[test]
fn test_insert_between() {
    let mut list = LinkedList::new();
    list.append(2);
    list.append(3);
    list.append(4);
    list.append(5);
    list.insert(10, 2);
    assert_eq!(list.len(), 5);
    assert_eq!(*list.get(1), 3);
    assert_eq!(*list.get(2), 10);
    assert_eq!(*list.get(3), 4);
}

#[test]
fn linked_list_test_insert_at_tail() {
    let mut list = LinkedList::new();
    list.append(2);
    list.append(3);
    list.append(4);
    assert_eq!(list.len(), 3);
    assert_eq!(*list.get(2), 4);
    list.insert(8, list.len());
    assert_eq!(*list.get(3), 8);
}

#[test]
fn linked_list_test_remove_at_head() {
    let mut list = LinkedList::new();
    list.append(1);
    list.append(2);
    assert_eq!(list.len(), 2);
    assert_eq!(list.remove(0), 1);
    assert_eq!(list.len(), 1);
    assert_eq!(list.remove(0), 2);
    assert_eq!(list.len(), 0);
}

#[test]
fn linked_list_test_remove_between() {
    let mut list = LinkedList::new();
    list.append(1);
    list.append(2);
    list.append(3);
    assert_eq!(list.len(), 3);
    assert_eq!(list.remove(1), 2);
    assert_eq!(list.len(), 2);
    assert_eq!(*list.get(0), 1);
    assert_eq!(*list.get(1), 3);
}

#[test]
fn linked_list_test_remove_at_tail() {
    let mut list = LinkedList::new();
    list.append(1);
    list.append(4);
    list.append(5);
    assert_eq!(list.len(), 3);
    assert_eq!(list.remove(2), 5);
    assert_eq!(*list.get(1), 4);
}

#[test]
fn linked_list_insert_far_past_end_appends() {
    let mut list = LinkedList::new();
    list.append(1);
    list.append(2);
    list.insert(3, 1000);
    assert_eq!(list.len(), 3);
    assert_eq!(*list.get(2), 3);
}
