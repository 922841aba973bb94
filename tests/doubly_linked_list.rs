use ds::doubly_linked_list::DoublyLinkedList;
use ds::IndexOutOfRange;
use std::cell::Cell;
use std::rc::Rc;

fn contents(list: &DoublyLinkedList<i32>) -> Vec<i32> {
    let mut out = Vec::new();
    for i in 0..list.len() {
        out.push(*list.get(i).unwrap());
    }
    out
}

#[test]
fn doubly_linked_list_test_append() {
    let mut list = DoublyLinkedList::new();
    list.append(4);
    assert_eq!(*list.get(0).unwrap(), 4);
}

#[test]
fn doubly_linked_list_test_size() {
    let mut list = DoublyLinkedList::new();
    assert_eq!(list.len(), 0);
    list.append(4);
    assert_eq!(list.len(), 1);
    list.append(4);
    assert_eq!(list.len(), 2);
    list.append(4);
    assert_eq!(list.len(), 3);
}

#[test]
fn doubly_linked_list_test_get() {
    let mut list = DoublyLinkedList::new();
    list.append(4);
    assert_eq!(*list.get(0).unwrap(), 4);
    list.append(5);
    assert_eq!(*list.get(1).unwrap(), 5);
    list.append(6);
    assert_eq!(*list.get(2).unwrap(), 6);
}

#[test]
fn doubly_linked_list_test_insert_at_head() {
    let mut list = DoublyLinkedList::new();
    list.append(2);
    list.append(3);
    list.append(4);
    list.append(5);
    list.insert(1, 0);
    assert_eq!(list.len(), 5);
    assert_eq!(*list.get(0).unwrap(), 1);
    assert_eq!(*list.get(1).unwrap(), 2);
}

#[test]
fn doubly_linked_list_test_insert_at_between() {
    let mut list = DoublyLinkedList::new();
    list.append(2);
    list.append(3);
    list.append(4);
    list.append(5);
    list.insert(10, 2);
    assert_eq!(list.len(), 5);
    assert_eq!(*list.get(1).unwrap(), 3);
    assert_eq!(*list.get(2).unwrap(), 10);
    assert_eq!(*list.get(3).unwrap(), 4);
}

#[test]
fn doubly_linked_list_test_insert_at_tail() {
    let mut list = DoublyLinkedList::new();
    list.append(2);
    list.append(3);
    list.append(4);
    list.append(5);
    list.insert(8, 3);
    assert_eq!(list.len(), 5);
    assert_eq!(*list.get(3).unwrap(), 8);
    assert_eq!(*list.get(4).unwrap(), 5);
}

#[test]
fn doubly_linked_list_test_remove_at_head() {
    let mut list = DoublyLinkedList::new();
    list.append(1);
    list.append(2);
    assert_eq!(list.len(), 2);
    assert_eq!(list.remove(0), Ok(1));
    assert_eq!(list.len(), 1);
    assert_eq!(list.remove(0), Ok(2));
    assert_eq!(list.len(), 0);
}

#[test]
fn doubly_linked_list_test_remove_between() {
    let mut list = DoublyLinkedList::new();
    list.append(1);
    list.append(2);
    list.append(3);
    assert_eq!(list.len(), 3);
    assert_eq!(list.remove(1), Ok(2));
    assert_eq!(list.len(), 2);
    assert_eq!(*list.get(0).unwrap(), 1);
    assert_eq!(*list.get(1).unwrap(), 3);
}

#[test]
fn doubly_linked_list_test_remove_at_tail() {
    let mut list = DoublyLinkedList::new();
    list.append(1);
    list.append(4);
    list.append(5);
    assert_eq!(list.len(), 3);
    assert_eq!(list.remove(2), Ok(5));
    assert_eq!(*list.get(1).unwrap(), 4);
}

#[test]
fn get_on_empty_list_is_out_of_range() {
    let list = DoublyLinkedList::<i32>::new();
    assert_eq!(list.get(0), Err(IndexOutOfRange { index: 0, len: 0 }));
}

#[test]
fn remove_on_empty_list_is_out_of_range() {
    let mut list = DoublyLinkedList::<i32>::new();
    assert_eq!(list.remove(0), Err(IndexOutOfRange { index: 0, len: 0 }));
    assert_eq!(list.remove(1), Err(IndexOutOfRange { index: 1, len: 0 }));
    assert_eq!(list.len(), 0);
}

#[test]
fn get_and_remove_at_length_are_out_of_range() {
    let mut list = DoublyLinkedList::new();
    list.append(7);
    list.append(8);
    assert_eq!(list.get(2), Err(IndexOutOfRange { index: 2, len: 2 }));
    assert_eq!(list.remove(2), Err(IndexOutOfRange { index: 2, len: 2 }));
    assert_eq!(contents(&list), vec![7, 8]);
}

#[test]
fn values_round_trip_through_appends() {
    let mut list = DoublyLinkedList::new();
    list.append(1);
    list.append(2);
    list.append(3);
    assert_eq!(*list.get(0).unwrap(), 1);
    assert_eq!(*list.get(1).unwrap(), 2);
    assert_eq!(*list.get(2).unwrap(), 3);
    assert_eq!(list.len(), 3);
}

#[test]
fn remove_head_then_tail() {
    let mut list = DoublyLinkedList::new();
    list.append(1);
    list.append(2);
    list.append(3);
    assert_eq!(list.remove(0), Ok(1));
    assert_eq!(contents(&list), vec![2, 3]);
    assert_eq!(list.remove(1), Ok(3));
    assert_eq!(contents(&list), vec![2]);
    assert_eq!(*list.get(0).unwrap(), 2);
}

#[test]
fn insert_in_the_middle() {
    let mut list = DoublyLinkedList::new();
    for v in [2, 3, 4, 5] {
        list.append(v);
    }
    list.insert(10, 2);
    assert_eq!(contents(&list), vec![2, 3, 10, 4, 5]);
    assert_eq!(list.len(), 5);
}

#[test]
fn insert_past_end_matches_append() {
    for index in [3usize, 4, 100, usize::MAX] {
        let mut a = DoublyLinkedList::new();
        let mut b = DoublyLinkedList::new();
        for v in [1, 2, 3] {
            a.append(v);
            b.append(v);
        }
        a.insert(9, index);
        b.append(9);
        assert_eq!(contents(&a), contents(&b));
        assert_eq!(contents(&a), vec![1, 2, 3, 9]);
    }
}

#[test]
fn insert_into_empty_list_at_any_index() {
    let mut list = DoublyLinkedList::new();
    list.insert(5, 42);
    assert_eq!(contents(&list), vec![5]);
}

#[test]
fn remove_undoes_insert_at_same_index() {
    for index in 0..4usize {
        let mut list = DoublyLinkedList::new();
        for v in [1, 2, 3, 4] {
            list.append(v);
        }
        list.insert(99, index);
        assert_eq!(*list.get(index).unwrap(), 99);
        assert_eq!(list.remove(index), Ok(99));
        assert_eq!(contents(&list), vec![1, 2, 3, 4]);
        assert_eq!(list.len(), 4);
    }
}

#[test]
fn mixed_operations_keep_order_and_length() {
    let mut list = DoublyLinkedList::new();
    let mut model: Vec<i32> = Vec::new();
    let mut seed: u32 = 12345;
    for step in 0..2000 {
        seed = seed.wrapping_mul(1103515245).wrapping_add(12345);
        let r = (seed >> 8) as usize;
        if r % 3 == 0 && !model.is_empty() {
            let index = r % model.len();
            assert_eq!(list.remove(index), Ok(model.remove(index)));
        } else {
            let index = r % (model.len() + 2);
            list.insert(step, index);
            if index < model.len() {
                model.insert(index, step);
            } else {
                model.push(step);
            }
        }
        assert_eq!(list.len(), model.len());
    }
    assert_eq!(contents(&list), model);
}

struct Counted {
    drops: Rc<Cell<usize>>,
}

impl Drop for Counted {
    fn drop(&mut self) {
        self.drops.set(self.drops.get() + 1);
    }
}

#[test]
fn teardown_releases_every_node_once() {
    let drops = Rc::new(Cell::new(0));
    let n = 300_000;
    {
        let mut list = DoublyLinkedList::new();
        for _ in 0..n {
            list.insert(Counted { drops: Rc::clone(&drops) }, 0);
        }
        assert_eq!(drops.get(), 0);
    }
    assert_eq!(drops.get(), n);
}

#[test]
fn remove_releases_exactly_one_node() {
    let drops = Rc::new(Cell::new(0));
    let mut list = DoublyLinkedList::new();
    for _ in 0..5 {
        list.insert(Counted { drops: Rc::clone(&drops) }, 0);
    }
    let removed = list.remove(2).ok().unwrap();
    drop(removed);
    assert_eq!(drops.get(), 1);
    assert_eq!(list.len(), 4);
    drop(list);
    assert_eq!(drops.get(), 5);
}
