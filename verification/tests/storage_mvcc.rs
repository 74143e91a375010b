//! Tests for the interior-mutable shell of the AVL tree.

use indexing::storage::avl::MvccAvl;

#[test]
fn insert_updates_current_tree_snapshot() {
    let avl = MvccAvl::new();

    avl.insert("a".to_owned(), 1u64);

    assert_eq!(avl.snapshot().get(&"a".to_owned()).map(|r| *r.value()), Some(1));
}

#[test]
fn update_updates_current_tree_snapshot() {
    let avl = MvccAvl::new();

    avl.insert("a".to_owned(), 1u64);
    avl.update(&"a".to_owned(), |v: &u64| v + 1);

    assert_eq!(avl.snapshot().get(&"a".to_owned()).map(|r| *r.value()), Some(2));
}

#[test]
fn upsert_updates_current_tree_snapshot() {
    let avl = MvccAvl::new();

    avl.upsert("a".to_owned(), |_: Option<&u64>| 1u64);

    assert_eq!(avl.snapshot().get(&"a".to_owned()).map(|r| *r.value()), Some(1));
}

#[test]
fn remove_updates_current_tree_snapshot() {
    let avl = MvccAvl::new();

    avl.insert("a".to_owned(), 1u64);
    avl.remove(&"a".to_owned());

    assert_eq!(avl.snapshot().get(&"a".to_owned()).map(|r| *r.value()), None);
}
