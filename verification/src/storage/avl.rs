//! Persistent AVL tree.
//!
//! This is a self-balancing search tree which keeps the difference in
//! subtree heights to no more than one, so single-key operations cost
//! `O(log n)`. The tree is immutable: every modifying operation returns a
//! new tree, and the parts that the modification did not touch are shared
//! with the old one through reference counting.
//!
//! The abstract view of a tree is the map from key views to value views
//! that it stores.

pub mod mvcc;
pub mod node;

use std::sync::Arc;

use vstd::prelude::*;

use crate::order::{Duplicable, TotalOrder};
use node::{entry_views, height, Node};

pub use mvcc::MvccAvl;

verus! {

/// Persistent ordered map.
pub struct Avl<K: TotalOrder, V: Duplicable> {
    root: Option<Arc<Node<K, V>>>,
}

impl<K: TotalOrder, V: Duplicable> View for Avl<K, V> {
    type V = Map<K::V, V::V>;

    closed spec fn view(&self) -> Map<K::V, V::V> {
        Node::<K, V>::opt_map(self.root)
    }
}

impl<K: TotalOrder, V: Duplicable> Duplicable for Avl<K, V> {
    fn dup(&self) -> (r: Self)
        ensures
            r == *self,
    {
        proof {
            use_type_invariant(self);
        }
        Self { root: Node::<K, V>::clone_link(&self.root) }
    }
}

impl<K: TotalOrder, V: Duplicable> Avl<K, V> {
    /// Every tree in circulation is a height-balanced search tree whose
    /// height fits the machine; the type invariant guarantees it, so the
    /// property is available on any tree through `use_type_invariant`.
    #[verifier::type_invariant]
    pub closed spec fn wf(self) -> bool {
        Node::<K, V>::opt_wf(self.root) && Node::<K, V>::opt_h(self.root) < usize::MAX
    }

    /// The root of the tree.
    pub closed spec fn spec_root(self) -> Option<Arc<Node<K, V>>> {
        self.root
    }

    /// The height of the tree.
    pub closed spec fn height(self) -> nat {
        Node::<K, V>::opt_h(self.root)
    }

    /// The stored pairs, in ascending key order.
    pub closed spec fn entries(self) -> Seq<(K::V, V::V)> {
        Node::<K, V>::opt_entries(self.root)
    }

    /// The tree is a height-balanced search tree: at every node the two
    /// subtree heights differ by at most one, and the tree stores exactly
    /// the abstract map.
    pub proof fn lemma_shape(self)
        requires
            self.wf(),
        ensures
            Node::<K, V>::opt_wf(self.spec_root()),
            self@ == Node::<K, V>::opt_map(self.spec_root()),
            self.height() == Node::<K, V>::opt_h(self.spec_root()),
    {
    }

    /// Iteration lists exactly the stored map, each key once, in strictly
    /// ascending key order.
    pub proof fn lemma_entries_sorted(self)
        requires
            self.wf(),
        ensures
            forall|i: int|
                0 <= i < self.entries().len() ==> self@.dom().contains(
                    (#[trigger] self.entries()[i]).0,
                ) && self@[self.entries()[i].0] == self.entries()[i].1,
            forall|e: K::V|
                #[trigger] self@.dom().contains(e) ==> exists|i: int|
                    0 <= i < self.entries().len() && (#[trigger] self.entries()[i]).0 == e,
            forall|i: int, j: int|
                #![trigger self.entries()[i], self.entries()[j]]
                0 <= i < j < self.entries().len() ==> K::le(
                    self.entries()[i].0,
                    self.entries()[j].0,
                ) && self.entries()[i].0 != self.entries()[j].0,
            self@.dom().finite(),
            self.entries().len() == self@.dom().len(),
    {
        if let Some(n) = self.root {
            n.lemma_entries();
            n.lemma_entries_len();
            n.lemma_count();
            assert(self.entries() == n.entries());
            assert(self@ == n.as_map());
        } else {
            assert(self@.dom() =~= Set::<K::V>::empty());
        }
    }

    /// Balance: at every node of the tree, the recorded heights of the
    /// two subtrees differ by at most one, and the recorded heights are
    /// the actual subtree heights.
    pub proof fn lemma_balanced(self)
        requires
            self.wf(),
        ensures
            (match self.spec_root() {
                Some(n) => n.balanced() && n.heights_ok(),
                None => true,
            }),
    {
    }

    /// The stored map is finite, and the tree's height is bounded by the
    /// number of stored keys: `2 * height <= len + 2`.
    pub proof fn lemma_height_bound(self)
        requires
            self.wf(),
        ensures
            self@.dom().finite(),
            2 * self.height() <= self@.dom().len() + 2,
    {
        if let Some(n) = self.root {
            n.lemma_count();
            n.lemma_height_bound();
        } else {
            assert(self@.dom() =~= Set::<K::V>::empty());
        }
    }

    /// Create a new, empty tree.
    pub fn new() -> (t: Self)
        ensures
            t@ == Map::<K::V, V::V>::empty(),
            t.height() == 0,
    {
        Self { root: None }
    }

    /// Insert a new key-value pair in the tree.
    ///
    /// If the given key already exists in the tree, its associated value
    /// is replaced with the newly supplied one. A tree whose height has
    /// reached the machine's limit comes back unchanged.
    pub fn insert(&self, k: K, v: V) -> (res: Self)
        ensures
            self.height() + 2 <= usize::MAX ==> res@ == self@.insert(k@, v@),
            self.height() + 2 > usize::MAX ==> res@ == self@,
    {
        proof {
            use_type_invariant(self);
        }
        if height(&self.root) >= usize::MAX - 1 {
            return Self { root: Node::<K, V>::clone_link(&self.root) };
        }
        match &self.root {
            Some(n) => {
                let ghost gv = v;
                let clo = (|prev: Option<&V>| -> (r: V)
                    ensures
                        r == v,
                    { v });
                let ghost gclo = clo;
                let nn = n.upsert(k, clo);
                let res = Self { root: Some(Arc::new(nn)) };
                proof {
                    if self@.dom().contains(k@) {
                        let (pv, nv) = choose|pv: V, nv: V|
                            pv@ == self@[k@] && #[trigger] call_ensures(gclo, (Some(&pv),), nv)
                                && nn.as_map() == self@.insert(k@, nv@);
                        assert(nv == gv);
                    } else {
                        let nv = choose|nv: V|
                            #[trigger] call_ensures(gclo, (None,), nv) && nn.as_map()
                                == self@.insert(k@, nv@);
                        assert(nv == gv);
                    }
                }
                res
            },
            None => {
                let res = Self { root: Some(Arc::new(Node::<K, V>::leaf(k, v))) };
                proof {
                    assert(res@ =~= self@.insert(k@, v@));
                }
                res
            },
        }
    }

    /// Update or insert a key-value pair in the tree.
    ///
    /// If the given key already exists in the tree, its current value is
    /// passed to the provided function, and the returned value becomes the
    /// new value associated with this key. If the given key does not yet
    /// exist in the tree, the function is called with `None` to get an
    /// initial value to associate with this key. A tree whose height has
    /// reached the machine's limit comes back unchanged.
    pub fn upsert<F: FnOnce(Option<&V>) -> V>(&self, k: K, f: F) -> (res: Self)
        requires
            call_requires(f, (None,)),
            forall|pv: V| call_requires(f, (Some(&pv),)),
        ensures
            self.height() + 2 <= usize::MAX ==> {
                &&& res@.dom() == self@.dom().insert(k@)
                &&& (!self@.dom().contains(k@) ==> (exists|nv: V|
                    #[trigger] call_ensures(f, (None,), nv) && res@ == self@.insert(k@, nv@)))
                &&& (self@.dom().contains(k@) ==> (exists|pv: V, nv: V|
                    pv@ == self@[k@] && #[trigger] call_ensures(f, (Some(&pv),), nv) && res@
                        == self@.insert(k@, nv@)))
            },
            self.height() + 2 > usize::MAX ==> res@ == self@,
    {
        proof {
            use_type_invariant(self);
        }
        if height(&self.root) >= usize::MAX - 1 {
            return Self { root: Node::<K, V>::clone_link(&self.root) };
        }
        match &self.root {
            Some(n) => {
                let nn = n.upsert(k, f);
                Self { root: Some(Arc::new(nn)) }
            },
            None => {
                let nv = f(None);
                let res = Self { root: Some(Arc::new(Node::<K, V>::leaf(k, nv))) };
                proof {
                    assert(res@ =~= self@.insert(k@, nv@));
                    assert(res@.dom() =~= self@.dom().insert(k@));
                }
                res
            },
        }
    }

    /// Update the value under an existing key in the tree.
    ///
    /// If the given key exists in the tree, its current value is passed to
    /// the provided function and the returned value becomes the new value
    /// associated with this key. Otherwise, the function is never called
    /// and the unmodified tree is returned.
    pub fn update<F: FnOnce(&V) -> V>(&self, k: &K, f: F) -> (res: Self)
        requires
            forall|pv: V| call_requires(f, (&pv,)),
        ensures
            self@.dom().contains(k@) ==> (exists|pv: V, nv: V|
                pv@ == self@[k@] && #[trigger] call_ensures(f, (&pv,), nv) && res@
                    == self@.insert(k@, nv@)),
            !self@.dom().contains(k@) ==> res@ == self@,
    {
        proof {
            use_type_invariant(self);
        }
        match &self.root {
            Some(n) => {
                let s = n.update(k, f);
                match s {
                    Some(n2) => Self { root: Some(Arc::new(n2)) },
                    None => {
                        proof {
                            assert(false);
                        }
                        Self { root: None }
                    },
                }
            },
            None => Self { root: None },
        }
    }

    /// Remove the key-value pair associated with the given key from the
    /// tree.
    pub fn remove(&self, k: &K) -> (res: Self)
        ensures
            res@ == self@.remove(k@),
    {
        proof {
            use_type_invariant(self);
        }
        match &self.root {
            Some(n) => {
                let s = n.remove(k);
                match s {
                    Some(n2) => Self { root: Some(Arc::new(n2)) },
                    None => Self { root: None },
                }
            },
            None => {
                proof {
                    assert(self@.remove(k@) =~= self@);
                }
                Self { root: None }
            },
        }
    }

    /// Get the value associated with the provided key.
    pub fn get(&self, k: &K) -> (res: Option<ValueRef<K, V>>)
        ensures
            (match res {
                Some(r) => self@.dom().contains(k@) && r@ == self@[k@],
                None => !self@.dom().contains(k@),
            }),
    {
        proof {
            use_type_invariant(self);
        }
        let mut cur: &Option<Arc<Node<K, V>>> = &self.root;
        loop
            invariant
                Node::<K, V>::opt_wf(*cur),
                Node::<K, V>::opt_map(*cur).dom().contains(k@) == self@.dom().contains(k@),
                self@.dom().contains(k@) ==> Node::<K, V>::opt_map(*cur)[k@] == self@[k@],
            decreases Node::<K, V>::opt_h(*cur),
        {
            match cur {
                None => {
                    return None;
                },
                Some(n) => {
                    proof {
                        n.lemma_parts();
                    }
                    match k.compare(&n.k) {
                        crate::order::Cmp::Equal => {
                            return Some(ValueRef { node: Arc::clone(n) });
                        },
                        crate::order::Cmp::Less => {
                            proof {
                                let gn = **n;
                                if Node::<K, V>::opt_map(gn.r).dom().contains(k@) {
                                    K::antisymmetric(k@, gn.k@);
                                }
                            }
                            cur = &n.l;
                        },
                        crate::order::Cmp::Greater => {
                            proof {
                                let gn = **n;
                                if Node::<K, V>::opt_map(gn.l).dom().contains(k@) {
                                    K::antisymmetric(k@, gn.k@);
                                }
                            }
                            cur = &n.r;
                        },
                    }
                },
            }
        }
    }

    /// Get an iterator over the tree elements, in ascending key order.
    pub fn iter(&self) -> (it: Iter<K, V>)
        ensures
            it@ == self.entries(),
    {
        proof {
            use_type_invariant(self);
        }
        let mut items: Vec<(K, V)> = Vec::new();
        match &self.root {
            Some(n) => n.push_entries(&mut items),
            None => (),
        }
        proof {
            assert(entry_views(items@).skip(0) =~= self.entries());
        }
        Iter { items, pos: 0 }
    }

    /// A copy of the root node, for callers that want to inspect the tree
    /// shape. The subtrees of the copy are shared with the tree.
    pub fn root_node(&self) -> (res: Option<Node<K, V>>)
        ensures
            (match res {
                Some(n) => n.wf() && n.as_map() == self@ && n.h as nat == self.height(),
                None => self@ == Map::<K::V, V::V>::empty() && self.height() == 0,
            }),
    {
        proof {
            use_type_invariant(self);
        }
        match &self.root {
            None => None,
            Some(n) => Some(n.clone_node()),
        }
    }
}

/// Reference to a value in the tree.
///
/// The handle keeps the node it points into alive, so it stays valid
/// however the tree is modified afterwards.
pub struct ValueRef<K, V> {
    node: Arc<Node<K, V>>,
}

impl<K: TotalOrder, V: Duplicable> View for ValueRef<K, V> {
    type V = V::V;

    closed spec fn view(&self) -> V::V {
        self.node.v@
    }
}

impl<K: TotalOrder, V: Duplicable> ValueRef<K, V> {
    /// The value this handle points at.
    pub fn value(&self) -> (r: &V)
        ensures
            r@ == self@,
    {
        &self.node.v
    }
}

/// Iterator over the tree's key-value pairs, in ascending key order.
///
/// The iterator holds copies of the pairs of the snapshot it was created
/// from, so it is not affected by later modifications.
pub struct Iter<K: TotalOrder, V: Duplicable> {
    items: Vec<(K, V)>,
    pos: usize,
}

impl<K: TotalOrder, V: Duplicable> View for Iter<K, V> {
    type V = Seq<(K::V, V::V)>;

    closed spec fn view(&self) -> Seq<(K::V, V::V)> {
        entry_views(self.items@).skip(self.pos as int)
    }
}

impl<K: TotalOrder, V: Duplicable> Iter<K, V> {
    #[verifier::type_invariant]
    spec fn inv(self) -> bool {
        self.pos <= self.items@.len()
    }

    /// The next pair, or `None` once the elements are exhausted.
    pub fn next(&mut self) -> (res: Option<(K, V)>)
        ensures
            old(self)@.len() == 0 ==> res is None && final(self)@ == old(self)@,
            old(self)@.len() > 0 ==> (res matches Some(p) && (p.0@, p.1@) == old(self)@[0]
                && final(self)@ == old(self)@.skip(1)),
    {
        proof {
            use_type_invariant(&*self);
        }
        if self.pos < self.items.len() {
            let p = &self.items[self.pos];
            let out = (p.0.dup(), p.1.dup());
            self.pos = self.pos + 1;
            proof {
                assert(entry_views(self.items@).skip(self.pos as int) =~= old(self)@.skip(1));
                assert((out.0@, out.1@) == old(self)@[0]);
            }
            Some(out)
        } else {
            None
        }
    }
}

} // verus!
