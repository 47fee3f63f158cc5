use rustnat::arena::NULL;
use rustnat::ll::{LLIter, LList};

fn collect(l: &LList<u32>) -> Vec<(u32, u64)> {
    let mut out = Vec::new();
    let mut it = LLIter(l, l.head());
    while let Some((v, h)) = it.next() {
        out.push((*v, h));
    }
    out
}

#[test]
fn empty_list_has_null_ends() {
    let l: LList<u32> = LList::new();
    assert_eq!(l.len(), 0);
    assert_eq!(l.head(), NULL);
    assert_eq!(l.tail(), NULL);
    assert!(l.get(NULL).is_none());
    assert!(l.next(NULL).is_none());
}

#[test]
fn push_tail_keeps_order() {
    let mut l = LList::new();
    let a = l.push_tail(1u32);
    let b = l.push_tail(2);
    let c = l.push_tail(3);
    assert_ne!(a, NULL);
    assert!(a != b && b != c && a != c);
    assert_eq!(collect(&l), vec![(1, a), (2, b), (3, c)]);
    assert_eq!(l.head(), a);
    assert_eq!(l.tail(), c);
    assert_eq!(l.next(a), Some(b));
    assert_eq!(l.next(c), Some(NULL));
}

#[test]
fn push_head_and_push_before() {
    let mut l = LList::new();
    let b = l.push_head(2u32);
    let a = l.push_head(1);
    let d = l.push_before(NULL, 4);
    let c = l.push_before(d, 3);
    let z = l.push_before(a, 0);
    assert_eq!(collect(&l), vec![(0, z), (1, a), (2, b), (3, c), (4, d)]);
    assert_eq!(l.len(), 5);
}

#[test]
fn pop_and_remove() {
    let mut l = LList::new();
    let a = l.push_tail(1u32);
    let b = l.push_tail(2);
    let c = l.push_tail(3);
    let d = l.push_tail(4);
    assert_eq!(l.remove(b), Some(2));
    assert_eq!(l.remove(b), None);
    assert!(l.get(b).is_none());
    assert_eq!(collect(&l), vec![(1, a), (3, c), (4, d)]);
    assert_eq!(l.pop_head(), Some(1));
    assert_eq!(l.pop_tail(), Some(4));
    assert_eq!(collect(&l), vec![(3, c)]);
    assert_eq!(l.pop_tail(), Some(3));
    assert_eq!(l.pop_head(), None);
    assert_eq!(l.pop_tail(), None);
    assert_eq!(l.head(), NULL);
    assert_eq!(l.tail(), NULL);
}

#[test]
fn a_removed_handle_is_not_mistaken_for_a_new_item() {
    let mut l = LList::new();
    let a = l.push_tail(1u32);
    assert_eq!(l.remove(a), Some(1));
    let b = l.push_tail(2);
    assert_ne!(a, b);
    assert!(l.get(a).is_none());
    assert_eq!(l.get(b), Some(&2));
}

#[test]
fn move_to_tail_reorders_and_hands_out_the_item() {
    let mut l = LList::new();
    let a = l.push_tail(1u32);
    let b = l.push_tail(2);
    let c = l.push_tail(3);
    *l.move_to_tail_and_get(a) += 10;
    assert_eq!(collect(&l), vec![(2, b), (3, c), (11, a)]);
    *l.move_to_tail_and_get(a) += 10;
    assert_eq!(collect(&l), vec![(2, b), (3, c), (21, a)]);
    *l.move_to_tail_and_get(c) += 10;
    assert_eq!(collect(&l), vec![(2, b), (21, a), (13, c)]);
    assert_eq!(l.head(), b);
    assert_eq!(l.tail(), c);
}

#[test]
fn move_before_covers_every_case() {
    let mut l = LList::new();
    let a = l.push_tail(1u32);
    let b = l.push_tail(2);
    let c = l.push_tail(3);
    let d = l.push_tail(4);
    // before the head
    *l.move_before_and_get(a, c) += 10;
    assert_eq!(collect(&l), vec![(13, c), (1, a), (2, b), (4, d)]);
    assert_eq!(l.head(), c);
    // before itself: stays
    *l.move_before_and_get(b, b) += 10;
    assert_eq!(collect(&l), vec![(13, c), (1, a), (12, b), (4, d)]);
    // before the null handle: to the tail
    *l.move_before_and_get(NULL, c) += 10;
    assert_eq!(collect(&l), vec![(1, a), (12, b), (4, d), (23, c)]);
    assert_eq!(l.tail(), c);
    // the tail into the middle
    *l.move_before_and_get(b, c) += 10;
    assert_eq!(collect(&l), vec![(1, a), (33, c), (12, b), (4, d)]);
    assert_eq!(l.tail(), d);
    // before its own successor: stays
    *l.move_before_and_get(b, c) += 0;
    assert_eq!(collect(&l), vec![(1, a), (33, c), (12, b), (4, d)]);
}

#[test]
fn get2_and_get_mut() {
    let mut l = LList::new();
    let a = l.push_tail(1u32);
    let b = l.push_tail(2);
    assert_eq!(l.get2(a), Some((&1, b)));
    assert_eq!(l.get2(b), Some((&2, NULL)));
    assert!(l.get2(NULL).is_none());
    if let Some(v) = l.get_mut(a) {
        *v = 7;
    }
    assert_eq!(l.get(a), Some(&7));
    assert!(l.get_mut(NULL).is_none());
}

#[test]
fn a_cursor_may_start_anywhere() {
    let mut l = LList::new();
    let _a = l.push_tail(1u32);
    let b = l.push_tail(2);
    let c = l.push_tail(3);
    let mut it = LLIter(&l, b);
    assert_eq!(it.next(), Some((&2, b)));
    assert_eq!(it.next(), Some((&3, c)));
    assert_eq!(it.next(), None);
    assert_eq!(it.next(), None);
}
