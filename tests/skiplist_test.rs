use skiplist::SkipList;

const MAX_HEIGHT: usize = 14;
const SEED: u32 = 15445;

fn new_list() -> SkipList {
    SkipList::new(SEED, MAX_HEIGHT)
}

#[test]
fn integrity_check_test() {
    let mut list = new_list();

    let mut keys = vec![12, 16, 2, 6, 15, 8, 13, 1, 11, 14, 0, 4, 19, 10, 9, 5, 7, 3, 17, 18];

    for key in &keys {
        list.insert(*key);
    }

    keys.sort();
    assert_eq!(list.size(), keys.len());

    // The per-entry heights depend on the generator's draws for this seed;
    // `seeded_heights_are_reproducible` pins them. Here every height is
    // checked against the bounds and the links at each level against them.


    let listing = list.listing();
    assert_eq!(listing.len(), keys.len());
    for (pos, (key, height)) in listing.iter().enumerate() {
        assert_eq!(*key, keys[pos]);
        assert!(*height >= 1 && *height <= MAX_HEIGHT);
        assert!(*height <= list.occupied_height());
    }

    // Check the links at each level
    for level in 0..MAX_HEIGHT {
        let expected: Vec<i32> = listing.iter().filter(|(_, h)| *h > level).map(|(k, _)| *k).collect();
        assert_eq!(list.level_listing(level), expected);
    }
}

#[test]
fn insert_contain_test_1() {
    let mut list = new_list();

    assert_eq!(list.size(), 0);
    assert!(list.empty());

    for i in 0..10 {
        assert!(list.insert(i));
    }

    for i in 0..10 {
        assert!(list.contains(i));
    }

    for i in 10..20 {
        assert!(!list.contains(i));
    }

    for i in 0..10 {
        assert!(!list.insert(i));
    }

    assert_eq!(list.size(), 10);

    for i in 10..20 {
        assert!(list.insert(i));
    }

    assert_eq!(list.size(), 20);

    assert!(!list.empty());

    list.clear();

    assert_eq!(list.size(), 0);
    assert!(list.empty());

    for i in 0..30 {
        assert!(!list.contains(i));
    }
}

#[test]
fn insert_contain_test_2() {
    let mut list = new_list();

    assert_eq!(list.size(), 0);
    assert!(list.empty());

    assert!(list.insert(1));
    assert_eq!(list.size(), 1);

    assert!(list.insert(2));
    assert_eq!(list.size(), 2);

    assert!(list.contains(1));
    assert!(list.contains(2));

    assert!(!list.contains(3));
}

#[test]
fn insert_and_erase() {
    let mut list = new_list();

    for i in 0..5 {
        assert!(list.insert(i));
    }

    assert_eq!(list.size(), 5);

    for i in 0..5 {
        assert!(list.contains(i));
        assert!(list.erase(i));

        assert_eq!(list.size(), (5 - i - 1).try_into().unwrap());
    }

    assert!(list.empty());
}

#[test]
fn erase_non_existing_test() {
    let mut list = new_list();

    for i in 0..5 {
        assert!(list.insert(i));
    }

    assert!(!list.erase(10));
    assert_eq!(list.size(), 5);
}
