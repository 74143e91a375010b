//! Tests for the shared, interior-mutable view of the AVL tree.

use indexing::storage::avl::MvccAvl;

#[test]
fn avl_inserted_data_is_gettable() {
    let avl = MvccAvl::new();

    avl.insert("Hello, world!".to_owned(), 20u64);

    assert_eq!(
        avl.snapshot().get(&"Hello, world!".to_owned()).map(|r| *r.value()),
        Some(20)
    );
}

#[test]
fn avl_inserted_bulk_of_data_all_are_accessible() {
    let pairs = [("a", 1u64), ("b", 2), ("c", 3), ("d", 4)];
    let avl = MvccAvl::new();

    pairs.iter().for_each(|&(k, v)| avl.insert(k.to_owned(), v));
    pairs
        .iter()
        .for_each(|&(k, v)| {
            assert_eq!(avl.snapshot().get(&k.to_owned()).map(|r| *r.value()), Some(v))
        });
}

#[test]
fn avl_inserted_bulk_of_data_tree_is_balanced() {
    let pairs = [
        ("a", 1u64),
        ("b", 2),
        ("c", 3),
        ("d", 4),
        ("e", 5),
        ("f", 6),
        ("g", 7),
        ("h", 8),
        ("i", 9),
        ("j", 10),
        ("k", 11),
        ("l", 12),
        ("m", 13),
    ];
    let avl = MvccAvl::new();

    pairs.iter().for_each(|&(k, v)| avl.insert(k.to_owned(), v));

    let snapshot = avl.snapshot().root_node().unwrap();
    assert_eq!(
        snapshot.l.as_ref().map(|l| l.h),
        snapshot.r.as_ref().map(|r| r.h)
    );
}

#[test]
fn avl_inserted_bulk_of_data_deleted_some_remaining_are_accessible_and_balanced() {
    let pairs = [
        ("a", 1u64),
        ("b", 2),
        ("c", 3),
        ("d", 4),
        ("e", 5),
        ("f", 6),
        ("g", 7),
        ("h", 8),
        ("i", 9),
    ];
    let avl = MvccAvl::new();

    pairs.iter().for_each(|&(k, v)| avl.insert(k.to_owned(), v));

    avl.remove(&"b".to_owned());
    avl.remove(&"h".to_owned());
    avl.remove(&"i".to_owned());

    let snapshot = avl.snapshot().root_node().unwrap();
    assert_eq!(
        snapshot.l.as_ref().map(|l| l.h),
        snapshot.r.as_ref().map(|r| r.h)
    );

    pairs
        .iter()
        .filter(|(k, _v)| k != &"b" && k != &"h" && k != &"i")
        .for_each(|&(k, v)| {
            assert_eq!(avl.snapshot().get(&k.to_owned()).map(|r| *r.value()), Some(v))
        });

    assert!(avl.snapshot().get(&"b".to_owned()).is_none());
    assert!(avl.snapshot().get(&"h".to_owned()).is_none());
    assert!(avl.snapshot().get(&"i".to_owned()).is_none());
}

#[test]
fn avl_traverse_in_sorted_order() {
    let pairs_unordered = [("b", 2u64), ("d", 4), ("a", 1), ("c", 3)];
    let expected_order = [("a", 1u64), ("b", 2), ("c", 3), ("d", 4)];
    let avl = MvccAvl::new();

    pairs_unordered
        .iter()
        .for_each(|&(k, v)| avl.insert(k.to_owned(), v));

    let mut actual_order: Vec<(String, u64)> = Vec::new();
    let mut it = avl.snapshot().iter();
    while let Some(p) = it.next() {
        actual_order.push(p);
    }
    let actual_refs: Vec<(&str, u64)> = actual_order.iter().map(|(k, v)| (k.as_str(), *v)).collect();

    assert_eq!(actual_refs.as_slice(), expected_order);
}

#[test]
fn avl_iter_walks_the_tree() {
    let pairs = [("a", 1u64), ("b", 2), ("c", 3), ("d", 4)];
    let avl = MvccAvl::new();

    pairs.iter().for_each(|&(k, v)| avl.insert(k.to_owned(), v));

    let mut count = 0;
    let mut counting = avl.snapshot().iter();
    while let Some(_) = counting.next() {
        count += 1;
    }
    assert_eq!(count, 4);

    let mut iter = avl.snapshot().iter();

    assert_eq!(iter.next(), Some(("a".to_owned(), 1)));
    assert_eq!(iter.next(), Some(("b".to_owned(), 2)));
    assert_eq!(iter.next(), Some(("c".to_owned(), 3)));
    assert_eq!(iter.next(), Some(("d".to_owned(), 4)));
    assert_eq!(iter.next(), None);
}
