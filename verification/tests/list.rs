use linked_list::{Entry, HandleError, LinkedList};

fn values(list: &LinkedList<i32>) -> Vec<i32> {
    let mut out = Vec::new();
    let mut walk = list.iter();
    loop {
        match walk.next() {
            Some(value) => out.push(*value),
            None => return out,
        }
    }
}

#[test]
fn new_list_is_empty() {
    let list: LinkedList<i32> = LinkedList::new();
    assert!(list.is_empty());
    assert_eq!(values(&list), Vec::<i32>::new());
}

#[test]
fn with_token_list_is_empty() {
    let list: LinkedList<i32> = LinkedList::with_token(7);
    assert!(list.is_empty());
    assert!(list.iter().next().is_none());
}

#[test]
fn iter_yields_pushes_in_order() {
    let mut list = LinkedList::new();
    for v in 0..100 {
        list.push(v);
    }
    assert!(!list.is_empty());
    assert_eq!(values(&list), (0..100).collect::<Vec<i32>>());
}

#[test]
fn iter_is_finished_after_the_tail() {
    let mut list = LinkedList::new();
    list.push(5);
    let mut walk = list.iter();
    assert_eq!(walk.next(), Some(&5));
    assert_eq!(walk.next(), None);
    assert_eq!(walk.next(), None);
}

#[test]
fn get_mut_after_push_sees_the_value() {
    let mut list = LinkedList::new();
    list.push(10);
    let h = list.push(20);
    list.push(30);
    assert_eq!(*list.get_mut(&h).unwrap(), 20);
}

#[test]
fn get_mut_writes_in_place() {
    let mut list = LinkedList::new();
    let a = list.push(1);
    let b = list.push(2);
    let c = list.push(3);
    *list.get_mut(&b).unwrap() = 20;
    assert_eq!(values(&list), vec![1, 20, 3]);
    *list.get_mut(&a).unwrap() += 10;
    *list.get_mut(&c).unwrap() += 30;
    assert_eq!(values(&list), vec![11, 20, 33]);
    assert_eq!(list.remove(b), Ok(20));
}

#[test]
fn remove_returns_the_pushed_value() {
    let mut list = LinkedList::new();
    let a = list.push(String::from("a"));
    let b = list.push(String::from("b"));
    assert_eq!(list.remove(a), Ok(String::from("a")));
    assert_eq!(list.remove(b), Ok(String::from("b")));
    assert!(list.is_empty());
}

#[test]
fn remove_shortens_by_one() {
    let mut list = LinkedList::new();
    let hs: Vec<Entry<i32>> = (0..5).map(|v| list.push(v)).collect();
    assert_eq!(list.remove(hs[2]), Ok(2));
    assert_eq!(values(&list), vec![0, 1, 3, 4]);
}

#[test]
fn remove_interior_head_tail_and_sole() {
    let mut list = LinkedList::new();
    let h1 = list.push(1);
    let h2 = list.push(2);
    let h3 = list.push(3);
    let h4 = list.push(4);
    assert_eq!(list.remove(h2), Ok(2));
    assert_eq!(values(&list), vec![1, 3, 4]);
    assert_eq!(list.remove(h1), Ok(1));
    assert_eq!(values(&list), vec![3, 4]);
    assert_eq!(list.remove(h4), Ok(4));
    assert_eq!(values(&list), vec![3]);
    assert_eq!(list.remove(h3), Ok(3));
    assert!(list.is_empty());
    assert_eq!(values(&list), Vec::<i32>::new());
}

#[test]
fn remove_the_only_element() {
    let mut list = LinkedList::new();
    let h = list.push(42);
    assert_eq!(list.remove(h), Ok(42));
    assert!(list.is_empty());
    assert!(list.iter().next().is_none());
    let again = list.push(43);
    assert_eq!(values(&list), vec![43]);
    assert_eq!(list.remove(again), Ok(43));
    assert!(list.is_empty());
}

#[test]
fn remove_all_in_scrambled_order() {
    let mut list = LinkedList::new();
    let hs: Vec<Entry<i32>> = (0..7).map(|v| list.push(v)).collect();
    for &k in [3usize, 0, 6, 5, 1, 4, 2].iter() {
        assert_eq!(list.remove(hs[k]), Ok(k as i32));
    }
    assert!(list.is_empty());
}

#[test]
fn push_after_remove_appends_at_the_tail() {
    let mut list = LinkedList::new();
    let a = list.push(1);
    let _b = list.push(2);
    let c = list.push(3);
    assert_eq!(list.remove(a), Ok(1));
    assert_eq!(list.remove(c), Ok(3));
    let d = list.push(4);
    let e = list.push(5);
    let f = list.push(6);
    assert_eq!(values(&list), vec![2, 4, 5, 6]);
    assert_eq!(*list.get_mut(&d).unwrap(), 4);
    assert_eq!(*list.get_mut(&e).unwrap(), 5);
    assert_eq!(*list.get_mut(&f).unwrap(), 6);
}

#[test]
fn stale_handle_is_invalid() {
    let mut list = LinkedList::new();
    let a = list.push(1);
    let b = list.push(2);
    assert_eq!(list.remove(a), Ok(1));
    assert_eq!(list.remove(a), Err(HandleError::InvalidHandle));
    assert_eq!(list.get_mut(&a), Err(HandleError::InvalidHandle));
    assert_eq!(values(&list), vec![2]);
    assert_eq!(*list.get_mut(&b).unwrap(), 2);
}

#[test]
fn stale_handle_stays_invalid_when_its_slot_is_used_again() {
    let mut list = LinkedList::new();
    let a = list.push(1);
    assert_eq!(list.remove(a), Ok(1));
    let b = list.push(2);
    assert!(a != b);
    assert_eq!(list.get_mut(&a), Err(HandleError::InvalidHandle));
    assert_eq!(list.remove(a), Err(HandleError::InvalidHandle));
    assert_eq!(values(&list), vec![2]);
    assert_eq!(list.remove(b), Ok(2));
}

#[test]
fn foreign_handle_is_rejected() {
    let mut a = LinkedList::with_token(1);
    let mut b = LinkedList::with_token(2);
    let ha = a.push(10);
    let hb = b.push(20);
    assert_eq!(b.remove(ha), Err(HandleError::ForeignHandle));
    assert_eq!(b.get_mut(&ha), Err(HandleError::ForeignHandle));
    assert_eq!(a.remove(hb), Err(HandleError::ForeignHandle));
    assert_eq!(a.get_mut(&hb), Err(HandleError::ForeignHandle));
    assert_eq!(values(&a), vec![10]);
    assert_eq!(values(&b), vec![20]);
    assert_eq!(a.remove(ha), Ok(10));
    assert_eq!(b.remove(hb), Ok(20));
}

#[test]
fn foreign_handle_is_rejected_by_an_empty_list() {
    let mut a = LinkedList::with_token(1);
    let mut b: LinkedList<i32> = LinkedList::with_token(2);
    let ha = a.push(10);
    assert_eq!(b.remove(ha), Err(HandleError::ForeignHandle));
    assert!(b.is_empty());
    assert_eq!(values(&a), vec![10]);
}

#[test]
fn lists_made_by_new_turn_down_each_other() {
    let mut a = LinkedList::new();
    let mut b = LinkedList::new();
    let ha = a.push(1);
    let hb = b.push(2);
    assert_eq!(b.remove(ha), Err(HandleError::ForeignHandle));
    assert_eq!(a.get_mut(&hb), Err(HandleError::ForeignHandle));
    assert_eq!(values(&a), vec![1]);
    assert_eq!(values(&b), vec![2]);
}

#[test]
fn handles_compare_by_element() {
    let mut list = LinkedList::with_token(3);
    let a = list.push(1);
    let b = list.push(1);
    let copy = a;
    assert!(a == copy);
    assert!(a == a.clone());
    assert!(a != b);
    let mut other = LinkedList::with_token(4);
    let c = other.push(1);
    assert!(a != c);
    assert_eq!(list.remove(copy), Ok(1));
    assert_eq!(list.remove(a), Err(HandleError::InvalidHandle));
}

#[test]
fn errors_say_what_went_wrong() {
    assert_eq!(HandleError::ForeignHandle.message(), "entry belongs to a different LinkedList");
    assert_eq!(HandleError::InvalidHandle.message(), "invalid entry");
}

#[test]
fn get_mut_reaches_head_and_tail() {
    let mut list = LinkedList::new();
    let hs: Vec<Entry<i32>> = (1..=4).map(|v| list.push(v * 10)).collect();
    *list.get_mut(&hs[0]).unwrap() = 11;
    *list.get_mut(&hs[3]).unwrap() = 44;
    assert_eq!(values(&list), vec![11, 20, 30, 44]);
    assert_eq!(list.remove(hs[0]), Ok(11));
    assert_eq!(list.remove(hs[3]), Ok(44));
    assert_eq!(values(&list), vec![20, 30]);
}

#[test]
fn slots_are_used_again_in_any_order() {
    let mut list = LinkedList::new();
    let mut live: Vec<(Entry<u32>, u32)> = Vec::new();
    let mut next = 0u32;
    for round in 0..50usize {
        for _ in 0..3 {
            live.push((list.push(next), next));
            next += 1;
        }
        let (h, v) = live.remove((round * 7) % live.len());
        assert_eq!(list.remove(h), Ok(v));
        assert_eq!(list.remove(h), Err(HandleError::InvalidHandle));
        let mut seen = Vec::new();
        let mut walk = list.iter();
        while let Some(x) = walk.next() {
            seen.push(*x);
        }
        assert_eq!(seen, live.iter().map(|p| p.1).collect::<Vec<u32>>());
    }
    for (h, v) in live {
        assert_eq!(*list.get_mut(&h).unwrap(), v);
        assert_eq!(list.remove(h), Ok(v));
    }
    assert!(list.is_empty());
}

fn sendable<S: Send>(_: &S) {}

fn shareable<S: Sync>(_: &S) {}

#[test]
fn lists_and_handles_may_cross_threads() {
    let mut list = LinkedList::new();
    let h = list.push(1u8);
    sendable(&list);
    shareable(&list);
    sendable(&h);
    shareable(&h);
    assert_eq!(list.remove(h), Ok(1));
}
