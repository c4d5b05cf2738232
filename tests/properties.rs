use indexlist::{Entry, Index, IndexList};

fn forward<T: Copy>(list: &IndexList<T>) -> Vec<T> {
    let mut out = vec![];
    let mut it = list.iter();
    while let Some(x) = it.next() {
        out.push(*x);
    }
    out
}

fn backward<T: Copy>(list: &IndexList<T>) -> Vec<T> {
    let mut out = vec![];
    let mut cur = list.tail_index();
    while let Some(h) = cur {
        out.push(*list.get(h).unwrap());
        cur = list.prev_index(h);
    }
    out
}

#[test]
fn reused_slot_gets_a_later_generation() {
    let mut list = IndexList::new();
    list.push_back(1);
    let two = list.push_back(2);
    list.push_back(3);
    let next = list.next_index(two).unwrap();
    let prev = list.prev_index(two).unwrap();
    assert_eq!(list.remove(two), Some(2));
    let four = list.push_front(4);
    assert_eq!(four.index(), two.index());
    assert!(four.generation() > two.generation());
    assert!(list.get(two).is_none());
    assert!(list.next_index(two).is_none());
    assert!(list.prev_index(two).is_none());
    assert!(list.remove(two).is_none());
    assert_eq!(list.get(four), Some(&4));
    assert_eq!(list.get(next), Some(&3));
    assert_eq!(list.get(prev), Some(&1));
}

#[test]
fn traversals_mirror_each_other() {
    let mut list = IndexList::new();
    let a = list.push_back(1);
    list.push_front(0);
    let c = list.push_back(3);
    list.insert_before(c, 2).unwrap();
    list.insert_after(a, 9).unwrap();
    list.remove(a).unwrap();
    list.push_back(4);
    let f = forward(&list);
    let mut b = backward(&list);
    b.reverse();
    assert_eq!(f, vec![0, 9, 2, 3, 4]);
    assert_eq!(f, b);
    assert_eq!(f.len(), list.len());
}

#[test]
fn boundaries_have_no_outer_neighbour() {
    let mut list: IndexList<i32> = IndexList::new();
    assert!(list.head_index().is_none());
    assert!(list.tail_index().is_none());
    assert_eq!(list.len(), 0);
    list.push_back(1);
    list.push_back(2);
    let head = list.head_index().unwrap();
    let tail = list.tail_index().unwrap();
    assert!(list.prev_index(head).is_none());
    assert!(list.next_index(tail).is_none());
    list.pop_front().unwrap();
    list.pop_front().unwrap();
    assert!(list.head_index().is_none());
    assert!(list.tail_index().is_none());
    assert!(list.head().is_none());
    assert_eq!(list.len(), 0);
}

#[test]
fn second_remove_is_absent() {
    let mut list = IndexList::new();
    let h = list.push_back(7);
    list.push_back(8);
    assert_eq!(list.remove(h), Some(7));
    assert_eq!(list.remove(h), None);
    assert_eq!(forward(&list), vec![8]);
}

#[test]
fn search_finds_first_in_sequence_order() {
    let mut list = IndexList::new();
    let first = list.push_back(9);
    let gap = list.push_back(1);
    let second = list.push_back(9);
    list.remove(first).unwrap();
    list.remove(gap).unwrap();
    let third = list.push_back(9);
    assert_eq!(third.index(), gap.index());
    assert_eq!(list.index_of(&9), Some(second));
    let front = list.push_front(9);
    assert_eq!(front.index(), first.index());
    assert_eq!(list.index_of(&9), Some(front));
}

#[test]
fn scenario_count_and_remove_found() {
    let mut list = IndexList::new();
    list.push_back(5);
    list.push_back(10);
    assert_eq!(list.len(), 2);
    let five = list.index_of(&5).unwrap();
    list.remove(five);
    assert_eq!(list.len(), 1);
    assert_eq!(forward(&list), vec![10]);
}

#[test]
fn scenario_insert_before_and_after() {
    let mut list = IndexList::new();
    let one = list.push_back(1);
    let three = list.push_back(3);
    list.insert_before(three, 2).unwrap();
    assert_eq!(forward(&list), vec![1, 2, 3]);
    list.insert_after(one, 0).unwrap();
    assert_eq!(forward(&list), vec![1, 0, 2, 3]);
}

#[test]
fn scenario_remove_middle_then_reuse() {
    let mut list = IndexList::new();
    list.push_back(5);
    let ten = list.push_back(10);
    list.push_back(15);
    list.remove(ten).unwrap();
    assert_eq!(forward(&list), vec![5, 15]);
    let twenty = list.push_back(20);
    assert_eq!(twenty.index(), ten.index());
    assert_eq!(twenty.generation(), ten.generation() + 1);
    assert!(list.get(ten).is_none());
    assert_eq!(forward(&list), vec![5, 15, 20]);
}

#[test]
fn scenario_contains_after_remove() {
    let mut list = IndexList::new();
    let five = list.push_back(5);
    list.remove(five).unwrap();
    assert!(!list.contains(&5));
    assert!(list.remove(five).is_none());
}

#[test]
fn stale_anchor_changes_nothing() {
    let mut list = IndexList::new();
    let a = list.push_back(1);
    list.push_back(2);
    list.remove(a).unwrap();
    assert_eq!(list.insert_before(a, 7), None);
    assert_eq!(list.insert_after(a, 7), None);
    assert!(list.get_mut(a).is_none());
    assert_eq!(forward(&list), vec![2]);
    assert_eq!(list.next_free(), Some(0));
    assert_eq!(list.generation(), 1);
}

#[test]
fn out_of_range_handle_is_absent() {
    let mut list = IndexList::new();
    list.push_back(1);
    let far = Index::new(5, 0);
    assert!(list.get(far).is_none());
    assert!(list.next_index(far).is_none());
    assert!(list.remove(far).is_none());
    assert_eq!(list.len(), 1);
}

#[test]
fn handles_compare_by_slot_and_generation() {
    let a: Index<u8> = Index::new(1, 2);
    assert_eq!(a, Index::new(1, 2));
    assert_ne!(a, Index::new(1, 3));
    assert_ne!(a, Index::new(2, 2));
    let b = a;
    assert_eq!(a.clone(), b);
}

#[test]
fn free_slots_are_reused_last_in_first_out() {
    let mut list = IndexList::with_capacity(4);
    let a = list.push_back(0);
    let b = list.push_back(1);
    let c = list.push_back(2);
    list.remove(a).unwrap();
    list.remove(c).unwrap();
    assert_eq!(list.next_free(), Some(c.index()));
    let d = list.push_back(3);
    assert_eq!(d.index(), c.index());
    let e = list.push_back(4);
    assert_eq!(e.index(), a.index());
    let f = list.push_back(5);
    assert_eq!(f.index(), 3);
    assert_eq!(list.entries().len(), 4);
    assert_eq!(list.generation(), 2);
    assert_eq!(forward(&list), vec![1, 3, 4, 5]);
    assert_eq!(list.get(b), Some(&1));
}

#[test]
fn consuming_iteration_yields_in_order() {
    let mut list = IndexList::new();
    list.push_front(2);
    list.push_front(1);
    list.push_back(3);
    let mut it = list.iter_own();
    assert_eq!(it.next(), Some(1));
    assert_eq!(it.next(), Some(2));
    assert_eq!(it.next(), Some(3));
    assert_eq!(it.next(), None);
}

#[test]
fn mutable_iteration_visits_each_once() {
    let mut list = IndexList::new();
    list.push_back(1);
    list.push_back(2);
    list.push_back(3);
    let mut it = list.iter_mut();
    while let Some(x) = it.next() {
        *x *= 10;
    }
    assert_eq!(forward(&list), vec![10, 20, 30]);
    *list.head_mut().unwrap() += 1;
    assert_eq!(list.head(), Some(&11));
}

#[test]
fn default_list_is_empty() {
    let list: IndexList<i32> = IndexList::default();
    assert_eq!(list.len(), 0);
    assert!(list.entries().is_empty());
    assert_eq!(list.generation(), 0);
    assert!(matches!(list.next_free(), None));
    let mut list = list;
    assert_eq!(list.pop_front(), None);
    let h = list.push_front(4);
    assert!(matches!(list.entries()[h.index()], Entry::Occupied(_)));
}
