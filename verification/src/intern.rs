//! Interning of values behind shared handles.
//!
//! A pool hands out shared handles for values, so that a value interned
//! many times is stored once and copied by handle. Handles compare by the
//! content they refer to, so two handles obtained for equal values are
//! equal, and handles for distinct values are not.

use std::sync::Arc;

use vstd::prelude::*;

use crate::order::{Cmp, Duplicable, TotalOrder};
use crate::storage::avl::MvccAvl;
use vstd::std_specs::cmp::PartialEqSpec;

verus! {

/// Interned value pool.
///
/// The pool only grows; entries are never removed. It is safe to intern
/// from several threads: lookups read a snapshot of the pool and writers
/// are serialised.
#[verifier::reject_recursive_types(T)]
pub struct InternPool<T: TotalOrder> {
    values: MvccAvl<T, Arc<T>>,
}

impl<T: TotalOrder> InternPool<T> {
    /// Create a new instance of the pool.
    pub fn new() -> Self {
        Self { values: MvccAvl::new() }
    }

    /// Intern a value.
    ///
    /// The returned handle refers to a value equal to the one supplied;
    /// when the value was interned before, the handle shares the storage
    /// handed out then.
    pub fn intern(&self, value: &T) -> (r: InternRef<T>)
        ensures
            r@ == value@,
    {
        let snap = self.values.snapshot();
        if let Some(found) = snap.get(value) {
            let arc = found.value().dup();
            if matches!((*arc).compare(value), Cmp::Equal) {
                return InternRef(arc);
            }
        }
        let a = Arc::new(value.dup());
        self.values.insert(value.dup(), Arc::clone(&a));
        InternRef(a)
    }
}

/// Reference to an interned value.
///
/// The equality of two interned handles is the equality of the values
/// they refer to.
pub struct InternRef<T: TotalOrder>(Arc<T>);

impl<T: TotalOrder> View for InternRef<T> {
    type V = T::V;

    closed spec fn view(&self) -> T::V {
        self.0@
    }
}

impl<T: TotalOrder> Duplicable for InternRef<T> {
    fn dup(&self) -> (r: Self)
        ensures
            r == *self,
    {
        InternRef(Arc::clone(&self.0))
    }
}

impl<T: TotalOrder> InternRef<T> {
    /// The value this handle refers to.
    pub fn value(&self) -> (r: &T)
        ensures
            r@ == self@,
    {
        &self.0
    }
}

impl<T: TotalOrder> PartialEq for InternRef<T> {
    fn eq(&self, other: &Self) -> (r: bool) {
        matches!((*self.0).compare(&other.0), Cmp::Equal)
    }
}

impl<T: TotalOrder> vstd::std_specs::cmp::PartialEqSpecImpl for InternRef<T> {
    open spec fn obeys_eq_spec() -> bool {
        true
    }

    open spec fn eq_spec(&self, other: &Self) -> bool {
        self@ == other@
    }
}

/// Interning identity: handles obtained for two values compare equal
/// exactly when the values themselves are equal. The premises are what
/// [`InternPool::intern`] ensures of each handle.
pub proof fn lemma_intern_identity<T: TotalOrder>(a: InternRef<T>, b: InternRef<T>, x: T, y: T)
    requires
        a@ == x@,
        b@ == y@,
    ensures
        a.eq_spec(&b) <==> x@ == y@,
{
}

} // verus!
