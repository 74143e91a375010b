//! Immutable singly-linked list.

use std::sync::Arc;

use vstd::prelude::*;

verus! {

/// Immutable singly-linked list.
pub enum List<T> {
    Null,
    Cons(T, Arc<List<T>>),
}

impl<T> List<T> {
    /// The elements of the list, front first.
    pub open spec fn elems(self) -> Seq<T>
        decreases self,
    {
        match self {
            List::Null => Seq::empty(),
            List::Cons(head, tail) => seq![head] + tail.elems(),
        }
    }

    /// Iterate over the elements of the list.
    pub fn iter(&self) -> (it: Iter<'_, T>)
        ensures
            it@ == self.elems(),
    {
        Iter { list: self }
    }
}

/// Iterator over a list's elements.
pub struct Iter<'a, T> {
    list: &'a List<T>,
}

impl<'a, T> View for Iter<'a, T> {
    type V = Seq<T>;

    closed spec fn view(&self) -> Seq<T> {
        self.list.elems()
    }
}

impl<'a, T> Iter<'a, T> {
    /// The next element, or `None` once the elements are exhausted.
    pub fn next(&mut self) -> (res: Option<&'a T>)
        ensures
            old(self)@.len() == 0 ==> res is None && final(self)@ == old(self)@,
            old(self)@.len() > 0 ==> (res matches Some(head) && *head == old(self)@[0]
                && final(self)@ == old(self)@.skip(1)),
    {
        match &*self.list {
            List::Null => None,
            List::Cons(head, tail) => {
                self.list = tail;
                proof {
                    assert(final(self)@ =~= old(self)@.skip(1));
                }
                Some(head)
            },
        }
    }
}

} // verus!
