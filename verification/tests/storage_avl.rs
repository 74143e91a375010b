//! Tests for the persistent AVL tree.

use indexing::storage::avl::Avl;

fn collect(avl: &Avl<String, u64>) -> Vec<(String, u64)> {
    let mut out = Vec::new();
    let mut it = avl.iter();
    while let Some(p) = it.next() {
        out.push(p);
    }
    out
}

#[test]
fn inserted_data_is_gettable() {
    let avl = Avl::new();
    let avl = avl.insert("Hello, world!".to_owned(), 20u64);

    assert_eq!(avl.get(&"Hello, world!".to_owned()).map(|r| *r.value()), Some(20));
}

#[test]
fn inserted_bulk_of_data_all_are_accessible() {
    let pairs = [("a", 1u64), ("b", 2), ("c", 3), ("d", 4)];
    let avl = pairs
        .iter()
        .fold(Avl::new(), |avl, &(k, v)| avl.insert(k.to_owned(), v));

    pairs
        .iter()
        .for_each(|&(k, v)| assert_eq!(avl.get(&k.to_owned()).map(|r| *r.value()), Some(v)));
}

#[test]
fn inserted_bulk_of_data_tree_is_balanced() {
    let pairs = [
        ("a", 1u64),
        ("b", 2),
        ("c", 3),
        ("d", 4),
        ("e", 5),
        ("f", 6),
        ("g", 7),
        ("h", 8),
        ("i", 9),
        ("j", 10),
        ("k", 11),
        ("l", 12),
        ("m", 13),
    ];
    let avl = pairs
        .iter()
        .fold(Avl::new(), |avl, &(k, v)| avl.insert(k.to_owned(), v));

    let root = avl.root_node().unwrap();
    assert_eq!(root.l.as_ref().map(|l| l.h), root.r.as_ref().map(|r| r.h));
}

#[test]
fn inserted_bulk_of_data_deleted_some_remaining_are_accessible_and_balanced() {
    let pairs = [
        ("a", 1u64),
        ("b", 2),
        ("c", 3),
        ("d", 4),
        ("e", 5),
        ("f", 6),
        ("g", 7),
        ("h", 8),
        ("i", 9),
    ];
    let avl = pairs
        .iter()
        .fold(Avl::new(), |avl, &(k, v)| avl.insert(k.to_owned(), v));

    let avl = avl.remove(&"b".to_owned());
    let avl = avl.remove(&"h".to_owned());
    let avl = avl.remove(&"i".to_owned());

    let root = avl.root_node().unwrap();
    assert_eq!(root.l.as_ref().map(|l| l.h), root.r.as_ref().map(|r| r.h));

    pairs
        .iter()
        .filter(|(k, _v)| k != &"b" && k != &"h" && k != &"i")
        .for_each(|&(k, v)| assert_eq!(avl.get(&k.to_owned()).map(|r| *r.value()), Some(v)));

    assert!(avl.get(&"b".to_owned()).is_none());
    assert!(avl.get(&"h".to_owned()).is_none());
    assert!(avl.get(&"i".to_owned()).is_none());
}

#[test]
fn traverse_in_sorted_order() {
    let pairs_unordered = [("b", 2u64), ("d", 4), ("a", 1), ("c", 3)];
    let expected_order = [("a", 1u64), ("b", 2), ("c", 3), ("d", 4)];
    let avl = pairs_unordered
        .iter()
        .fold(Avl::new(), |avl, &(k, v)| avl.insert(k.to_owned(), v));

    let actual_order = collect(&avl);
    let actual_refs: Vec<(&str, u64)> = actual_order.iter().map(|(k, v)| (k.as_str(), *v)).collect();

    assert_eq!(actual_refs.as_slice(), expected_order);
}

#[test]
fn iter_walks_the_tree() {
    let pairs = [("a", 1u64), ("b", 2), ("c", 3), ("d", 4)];
    let avl = pairs
        .iter()
        .fold(Avl::new(), |avl, &(k, v)| avl.insert(k.to_owned(), v));

    assert_eq!(collect(&avl).len(), 4);

    let mut iter = avl.iter();

    assert_eq!(iter.next(), Some(("a".to_owned(), 1)));
    assert_eq!(iter.next(), Some(("b".to_owned(), 2)));
    assert_eq!(iter.next(), Some(("c".to_owned(), 3)));
    assert_eq!(iter.next(), Some(("d".to_owned(), 4)));
    assert_eq!(iter.next(), None);
}
