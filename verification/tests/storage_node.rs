//! Tests for the AVL tree node.

use std::sync::Arc;

use indexing::storage::avl::node::Node;
use indexing::storage::list::List;

#[test]
fn node_rebalance_insert() {
    let node = Node {
        k: 1u64,
        v: 1u64,
        h: 3,
        l: None,
        r: Some(Node {
            k: 2,
            v: 2,
            h: 2,
            l: None,
            r: Some(Node { k: 3, v: 3, h: 1, l: None, r: None }).map(Arc::new),
        })
        .map(Arc::new),
    };

    let balanced = node.rebalance_insert();

    assert_eq!(balanced.h, 2);
    assert_eq!(balanced.k, 2);
    assert_eq!(balanced.l.as_ref().unwrap().k, 1);
    assert_eq!(balanced.r.as_ref().unwrap().k, 3);
}

#[test]
fn avl_node_rebalance_insert() {
    let node = Node {
        k: 1u64,
        v: 1u64,
        h: 3,
        l: None,
        r: Some(Node {
            k: 2,
            v: 2,
            h: 2,
            l: None,
            r: Some(Node { k: 3, v: 3, h: 1, l: None, r: None }).map(Arc::new),
        })
        .map(Arc::new),
    };

    let balanced = node.rebalance_insert();

    assert_eq!(balanced.h, 2);
    assert_eq!(balanced.k, 2);
    assert_eq!(balanced.l.as_ref().unwrap().k, 1);
    assert_eq!(balanced.r.as_ref().unwrap().k, 3);
}

#[test]
fn constructed_list_is_traversable() {
    let lst = List::Cons(
        1u64,
        Arc::new(List::Cons(2, Arc::new(List::Cons(3, Arc::new(List::Null))))),
    );

    let mut iter = lst.iter();

    assert_eq!(iter.next(), Some(&1));
    assert_eq!(iter.next(), Some(&2));
    assert_eq!(iter.next(), Some(&3));
    assert_eq!(iter.next(), None);
}
