//! Mutable shell over the persistent AVL tree.
//!
//! This is a wrapper around [`Avl`] that implements interior mutability
//! through a basic multi-version concurrency control scheme: reads do not
//! block writes, and writers apply changes under a pessimistic write lock.
//!
//! Old versions of the tree obtained through [`MvccAvl::snapshot`] remain
//! valid after an update until the last reference to them is dropped.
//! Writers are serialised, but while a modification is being computed the
//! tree stays available for snapshots; a write lock on the root reference
//! is held only for the brief moment of installing the new root.
//!
//! To read the contents of the tree one first takes a snapshot of it; the
//! snapshot has the access methods, see [`Avl::get`] and [`Avl::iter`].

use vstd::prelude::*;
use vstd::rwlock::RwLock;

use crate::order::{Duplicable, TotalOrder};

use super::Avl;

verus! {

/// Interior-mutable ordered map with snapshot reads.
#[verifier::reject_recursive_types(K)]
#[verifier::reject_recursive_types(V)]
pub struct MvccAvl<K: TotalOrder, V: Duplicable> {
    root: RwLock<Avl<K, V>, spec_fn(Avl<K, V>) -> bool>,
    // This is only to serialise writers.
    write_lock: RwLock<bool, spec_fn(bool) -> bool>,
}

impl<K: TotalOrder, V: Duplicable> MvccAvl<K, V> {
    /// Both locks accept every value of their type: the tree's own type
    /// invariant already says everything that holds of a tree.
    #[verifier::type_invariant]
    spec fn inv(self) -> bool {
        (forall|t: Avl<K, V>| self.root.inv(t)) && (forall|b: bool| self.write_lock.inv(b))
    }

    /// Create a new instance holding an empty tree.
    pub fn new() -> Self {
        Self {
            root: RwLock::new(Avl::<K, V>::new(), Ghost(|t: Avl<K, V>| true)),
            write_lock: RwLock::new(false, Ghost(|b: bool| true)),
        }
    }

    /// Create a snapshot of the current tree: a cheap read of the root
    /// reference. What the snapshot holds depends on which writes have
    /// been installed so far; see [`Avl`] for what each operation does to
    /// the tree it is given.
    pub fn snapshot(&self) -> Avl<K, V> {
        let handle = self.root.acquire_read();
        let t = handle.borrow().dup();
        handle.release_read();
        t
    }

    /// Install a new tree as the current one.
    fn install(&self, t: Avl<K, V>) {
        proof {
            use_type_invariant(self);
        }
        let (_old_root, handle) = self.root.acquire_write();
        handle.release_write(t);
    }

    /// Insert a new key-value pair in the tree.
    ///
    /// If the given key already exists in the tree, its associated value
    /// is replaced with the newly supplied one. The write is serialised
    /// with other writers and applied to the tree current at that point.
    pub fn insert(&self, k: K, v: V) {
        proof {
            use_type_invariant(self);
        }
        let (_, wl) = self.write_lock.acquire_write();
        let cur = self.snapshot();
        let nt = cur.insert(k, v);
        self.install(nt);
        wl.release_write(true);
    }

    /// Update or insert a key-value pair in the tree.
    ///
    /// If the given key already exists in the tree, its current value is
    /// passed to the provided function and the returned value replaces
    /// it; otherwise the function is called with `None` to get an initial
    /// value. The write is serialised with other writers and applied to
    /// the tree current at that point.
    pub fn upsert<F: FnOnce(Option<&V>) -> V>(&self, k: K, f: F)
        requires
            call_requires(f, (None,)),
            forall|pv: V| call_requires(f, (Some(&pv),)),
    {
        proof {
            use_type_invariant(self);
        }
        let (_, wl) = self.write_lock.acquire_write();
        let cur = self.snapshot();
        let nt = cur.upsert(k, f);
        self.install(nt);
        wl.release_write(true);
    }

    /// Update the value under an existing key in the tree.
    ///
    /// If the given key exists in the tree, its current value is passed
    /// to the provided function and the returned value replaces it;
    /// otherwise the tree is left unmodified. The write is serialised
    /// with other writers and applied to the tree current at that point.
    pub fn update<F: FnOnce(&V) -> V>(&self, k: &K, f: F)
        requires
            forall|pv: V| call_requires(f, (&pv,)),
    {
        proof {
            use_type_invariant(self);
        }
        let (_, wl) = self.write_lock.acquire_write();
        let cur = self.snapshot();
        let nt = cur.update(k, f);
        self.install(nt);
        wl.release_write(true);
    }

    /// Remove the key-value pair associated with the given key from the
    /// tree. The write is serialised with other writers and applied to
    /// the tree current at that point.
    pub fn remove(&self, k: &K) {
        proof {
            use_type_invariant(self);
        }
        let (_, wl) = self.write_lock.acquire_write();
        let cur = self.snapshot();
        let nt = cur.remove(k);
        self.install(nt);
        wl.release_write(true);
    }
}

} // verus!
