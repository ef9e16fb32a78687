use std::cmp::Ordering;

use skiplist::{Node, SkipList, SkipListInner};

fn keys_of(list: &SkipListInner) -> Vec<i32> {
    list.listing().iter().map(|(k, _)| *k).collect()
}

fn max_height_of(list: &SkipListInner) -> usize {
    list.listing().iter().map(|(_, h)| *h).max().unwrap_or(1)
}

#[test]
fn level_zero_stays_sorted() {
    let mut list = SkipListInner::new(7, 8);
    let ops: Vec<(bool, i32)> = vec![
        (true, 5), (true, -3), (true, 40), (true, 5), (false, -3), (true, 12),
        (true, i32::MIN), (true, i32::MAX), (false, 100), (true, 0), (false, 40),
    ];
    for (is_insert, k) in ops {
        if is_insert {
            list.insert(k);
        } else {
            list.erase(k);
        }
        let keys = keys_of(&list);
        for w in keys.windows(2) {
            assert!(w[0] < w[1]);
        }
    }
    assert_eq!(keys_of(&list), vec![i32::MIN, 0, 5, 12, i32::MAX]);
}

#[test]
fn levels_are_nested() {
    let mut list = SkipListInner::new(3, 6);
    for k in 0..200 {
        list.insert(k * 7 % 200);
    }
    for level in 0..6usize {
        let lower = list.level_listing(level);
        let higher = list.level_listing(level + 1);
        for k in &higher {
            assert!(lower.contains(k));
        }
    }
    assert_eq!(list.level_listing(0), (0..200).collect::<Vec<i32>>());
    assert!(list.level_listing(6).is_empty());
    assert!(list.level_listing(100).is_empty());
    assert!(list.level_listing(1).len() < 200);
}

#[test]
fn insert_then_contains_then_erase() {
    let mut list = SkipListInner::new(1, 4);
    assert!(list.insert(42));
    assert!(list.contains(42));
    assert!(list.erase(42));
    assert!(!list.contains(42));
}

#[test]
fn second_insert_is_rejected() {
    let mut list = SkipListInner::new(1, 4);
    assert!(list.insert(9));
    assert_eq!(list.size(), 1);
    assert!(!list.insert(9));
    assert_eq!(list.size(), 1);
    assert_eq!(keys_of(&list), vec![9]);
}

#[test]
fn size_counts_successes() {
    let mut list = SkipListInner::new(11, 5);
    let mut n = 0;
    let mut m = 0;
    for k in 0..50 {
        if list.insert(k % 30) {
            n += 1;
        }
    }
    for k in 10..45 {
        if list.erase(k) {
            m += 1;
        }
    }
    assert_eq!(n, 30);
    assert_eq!(m, 20);
    assert_eq!(list.size(), n - m);
}

#[test]
fn erasing_tallest_lowers_height() {
    let mut list = SkipListInner::new(5, 10);
    for k in 0..300 {
        list.insert(k);
    }
    assert_eq!(list.occupied_height(), max_height_of(&list));
    let top = list.occupied_height();
    assert!(top > 1);
    let tallest: Vec<i32> = list.listing().iter().filter(|(_, h)| *h == top).map(|(k, _)| *k).collect();
    for k in tallest {
        assert!(list.erase(k));
    }
    assert!(list.occupied_height() < top);
    assert_eq!(list.occupied_height(), max_height_of(&list));
}

#[test]
fn erase_everything_resets_height() {
    let mut list = SkipListInner::new(5, 10);
    for k in 0..100 {
        list.insert(k);
    }
    for k in 0..100 {
        assert!(list.erase(k));
    }
    assert!(list.empty());
    assert_eq!(list.occupied_height(), 1);
    assert!(list.listing().is_empty());
}

#[test]
fn interleaved_disjoint_inserts() {
    let mut list = SkipList::new(15445, 14);
    let threads = 10;
    let per = 100;
    let mut ok = 0;
    for j in 0..per {
        for t in 0..threads {
            if list.insert(t * per + j) {
                ok += 1;
            }
        }
    }
    assert_eq!(ok, threads * per);
    assert_eq!(list.size(), (threads * per) as usize);
    for k in 0..threads * per {
        assert!(list.contains(k));
    }
}

#[test]
fn interleaved_disjoint_erases() {
    let mut list = SkipList::new(15445, 14);
    for k in 0..100 {
        list.insert(k);
    }
    let threads = 5;
    let per = 10;
    let mut ok = 0;
    for j in 0..per {
        for t in 0..threads {
            if list.erase(t * per + j) {
                ok += 1;
            }
        }
    }
    assert_eq!(ok, threads * per);
    assert_eq!(list.size(), 100 - (threads * per) as usize);
    for k in 0..100 {
        assert_eq!(list.contains(k), k >= threads * per);
    }
}

#[test]
fn scenario_twenty_keys() {
    let mut list = SkipList::new(15445, 14);
    let keys = [12, 16, 2, 6, 15, 8, 13, 1, 11, 14, 0, 4, 19, 10, 9, 5, 7, 3, 17, 18];
    for k in keys {
        assert!(list.insert(k));
    }
    assert_eq!(list.size(), 20);
    let order: Vec<i32> = list.listing().iter().map(|(k, _)| *k).collect();
    assert_eq!(order, (0..20).collect::<Vec<i32>>());
    for k in keys {
        assert!(list.contains(k));
    }
    for k in [-1, 20, 21, 100, i32::MIN, i32::MAX] {
        assert!(!list.contains(k));
    }
}

#[test]
fn seeded_heights_are_reproducible() {
    let keys = [12, 16, 2, 6, 15, 8, 13, 1, 11, 14, 0, 4, 19, 10, 9, 5, 7, 3, 17, 18];
    let mut a = SkipList::new(15445, 14);
    let mut b = SkipList::new(15445, 14);
    for k in keys {
        a.insert(k);
        b.insert(k);
    }
    assert_eq!(a.listing(), b.listing());
    // MT19937 seeded with the single word 15445 draws these heights for the
    // keys above, listed in key order.
    let heights: Vec<usize> = a.listing().iter().map(|(_, h)| *h).collect();
    assert_eq!(heights, vec![1, 1, 2, 1, 1, 1, 1, 2, 1, 1, 3, 1, 2, 1, 1, 1, 1, 1, 1, 1]);
    assert_eq!(a.occupied_height(), 3);
}

#[test]
fn single_level_list() {
    let mut list = SkipListInner::new(99, 1);
    for k in [3, 1, 2] {
        assert!(list.insert(k));
    }
    assert_eq!(list.listing(), vec![(1, 1), (2, 1), (3, 1)]);
    assert_eq!(list.occupied_height(), 1);
    assert!(list.erase(2));
    assert_eq!(keys_of(&list), vec![1, 3]);
}

#[test]
fn clear_then_reuse() {
    let mut list = SkipListInner::new(2, 6);
    for k in 0..40 {
        list.insert(k);
    }
    list.clear();
    assert!(list.empty());
    assert_eq!(list.occupied_height(), 1);
    assert!(!list.contains(5));
    assert!(list.insert(5));
    assert_eq!(keys_of(&list), vec![5]);
}

#[test]
fn retired_slots_are_reused() {
    let mut list = SkipListInner::new(4, 6);
    for round in 0..5 {
        for k in 0..50 {
            assert!(list.insert(k + round));
        }
        for k in 0..50 {
            assert!(list.erase(k + round));
        }
    }
    assert!(list.empty());
    for k in (0..20).rev() {
        assert!(list.insert(k));
    }
    assert_eq!(keys_of(&list), (0..20).collect::<Vec<i32>>());
}

#[test]
fn node_header_and_links() {
    let mut header = Node::new_header(3);
    assert_eq!(header.height(), 3);
    assert_eq!(header.next(0), None);
    assert_eq!(header.next(5), None);
    assert_eq!(header.key(), None);
    assert_eq!(header.compare_key(1), None);
    header.set_next(2, Some(7));
    assert_eq!(header.next(2), Some(7));
    assert_eq!(header.height(), 3);
    header.clear();
    assert_eq!(header.next(2), None);
    assert_eq!(header.height(), 3);
    assert!(!header.is_nil());
}

#[test]
fn node_entry_grows_and_compares() {
    let mut node = Node::new(10, 3);
    assert_eq!(node.height(), 0);
    assert_eq!(node.key(), Some(10));
    node.set_next(0, Some(4));
    assert_eq!(node.height(), 1);
    node.set_next(2, Some(9));
    assert_eq!(node.height(), 3);
    assert_eq!(node.next(0), Some(4));
    assert_eq!(node.next(1), Some(9));
    assert_eq!(node.next(2), Some(9));
    node.set_next(1, None);
    assert_eq!(node.next(1), None);
    assert_eq!(node.compare_key(11), Some(Ordering::Less));
    assert_eq!(node.compare_key(10), Some(Ordering::Equal));
    assert_eq!(node.compare_key(-5), Some(Ordering::Greater));
    node.clear();
    assert_eq!(node.height(), 0);
    assert_eq!(node.key(), Some(10));
}

#[test]
fn node_retired_slot() {
    let mut nil = Node::Nil;
    assert!(nil.is_nil());
    assert_eq!(nil.height(), 0);
    assert_eq!(nil.next(0), None);
    nil.set_next(0, Some(1));
    assert_eq!(nil.next(0), None);
    assert_eq!(nil.compare_key(0), None);
}
