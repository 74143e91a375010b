//! Property checks on the tree: balance under churn, snapshot stability,
//! interning identity.

use indexing::intern::InternPool;
use indexing::storage::avl::node::Node;
use indexing::storage::avl::{Avl, MvccAvl};

fn node_shape_ok(n: &Node<String, u64>) -> bool {
    let lh = n.l.as_ref().map(|x| x.h).unwrap_or(0);
    let rh = n.r.as_ref().map(|x| x.h).unwrap_or(0);
    let taller = if lh > rh { lh } else { rh };
    let diff_ok = if lh > rh { lh - rh <= 1 } else { rh - lh <= 1 };
    diff_ok && n.h == taller + 1
        && n.l.as_ref().map(|x| node_shape_ok(x)).unwrap_or(true)
        && n.r.as_ref().map(|x| node_shape_ok(x)).unwrap_or(true)
}

#[test]
fn balance_stress() {
    let mut avl: Avl<String, u64> = Avl::new();
    let mut keys: Vec<String> = Vec::new();
    for b in b'a'..=b'z' {
        keys.push((b as char).to_string());
    }
    for (i, k) in keys.iter().enumerate() {
        avl = avl.insert(k.clone(), i as u64);
    }
    // delete every third key
    let mut kept: Vec<String> = Vec::new();
    for (i, k) in keys.iter().enumerate() {
        if i % 3 == 0 {
            avl = avl.remove(k);
        } else {
            kept.push(k.clone());
        }
    }

    let root = avl.root_node().unwrap();
    assert!(node_shape_ok(&root));

    let mut seen: Vec<String> = Vec::new();
    let mut it = avl.iter();
    while let Some((k, _)) = it.next() {
        seen.push(k);
    }
    assert_eq!(seen, kept);
}

#[test]
fn snapshot_survives_later_mutation() {
    let avl = MvccAvl::new();
    avl.insert("a".to_owned(), 1u64);
    avl.insert("b".to_owned(), 2u64);

    let before = avl.snapshot();

    avl.insert("c".to_owned(), 3u64);
    avl.remove(&"a".to_owned());

    // the snapshot taken before the mutations still reads as it did
    let mut seen: Vec<(String, u64)> = Vec::new();
    let mut it = before.iter();
    while let Some(p) = it.next() {
        seen.push(p);
    }
    assert_eq!(seen, vec![("a".to_owned(), 1), ("b".to_owned(), 2)]);

    let mut now: Vec<(String, u64)> = Vec::new();
    let mut it2 = avl.snapshot().iter();
    while let Some(p) = it2.next() {
        now.push(p);
    }
    assert_eq!(now, vec![("b".to_owned(), 2), ("c".to_owned(), 3)]);
}

#[test]
fn interning_identity() {
    let pool: InternPool<String> = InternPool::new();

    let a = pool.intern(&"x".to_owned());
    let b = pool.intern(&"x".to_owned());
    let c = pool.intern(&"y".to_owned());

    assert!(a == b);
    assert!(!(a == c));
    assert_eq!(a.value(), "x");
    assert_eq!(c.value(), "y");
}
