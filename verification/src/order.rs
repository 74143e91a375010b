//! Orderings and exact duplication for the types stored in the index trees.
//!
//! The ordered containers in [`crate::storage`] are generic over their key
//! and value types. A key carries a decidable total order on its abstract
//! view, and both keys and values can be duplicated without changing their
//! view, since a persistent tree copies the path from the root to the
//! touched node on every update.

use vstd::prelude::*;

verus! {

/// Result of a three-way comparison between two keys.
pub enum Cmp {
    Less,
    Equal,
    Greater,
}

/// A value that can be duplicated exactly: the copy equals the original.
pub trait Duplicable: View + Sized {
    fn dup(&self) -> (r: Self)
        ensures
            r == *self,
    ;
}

/// A key type whose abstract view carries a total order, decidable by an
/// executable three-way comparison.
pub trait TotalOrder: Duplicable {
    /// The order itself, on abstract views.
    spec fn le(a: Self::V, b: Self::V) -> bool;

    proof fn reflexive(x: Self::V)
        ensures
            Self::le(x, x),
    ;

    proof fn transitive(x: Self::V, y: Self::V, z: Self::V)
        requires
            Self::le(x, y),
            Self::le(y, z),
        ensures
            Self::le(x, z),
    ;

    proof fn antisymmetric(x: Self::V, y: Self::V)
        requires
            Self::le(x, y),
            Self::le(y, x),
        ensures
            x == y,
    ;

    proof fn total(x: Self::V, y: Self::V)
        ensures
            Self::le(x, y) || Self::le(y, x),
    ;

    fn compare(&self, other: &Self) -> (c: Cmp)
        ensures
            (match c {
                Cmp::Less => Self::le(self@, other@) && self@ != other@,
                Cmp::Equal => self@ == other@,
                Cmp::Greater => Self::le(other@, self@) && self@ != other@,
            }),
    ;
}

impl Duplicable for u64 {
    fn dup(&self) -> (r: Self)
        ensures
            r == *self,
    {
        *self
    }
}

impl TotalOrder for u64 {
    open spec fn le(a: u64, b: u64) -> bool {
        a <= b
    }

    proof fn reflexive(x: u64) {
    }

    proof fn transitive(x: u64, y: u64, z: u64) {
    }

    proof fn antisymmetric(x: u64, y: u64) {
    }

    proof fn total(x: u64, y: u64) {
    }

    fn compare(&self, other: &Self) -> (c: Cmp) {
        if *self < *other {
            Cmp::Less
        } else if *self == *other {
            Cmp::Equal
        } else {
            Cmp::Greater
        }
    }
}

impl Duplicable for usize {
    fn dup(&self) -> (r: Self)
        ensures
            r == *self,
    {
        *self
    }
}

impl TotalOrder for usize {
    open spec fn le(a: usize, b: usize) -> bool {
        a <= b
    }

    proof fn reflexive(x: usize) {
    }

    proof fn transitive(x: usize, y: usize, z: usize) {
    }

    proof fn antisymmetric(x: usize, y: usize) {
    }

    proof fn total(x: usize, y: usize) {
    }

    fn compare(&self, other: &Self) -> (c: Cmp) {
        if *self < *other {
            Cmp::Less
        } else if *self == *other {
            Cmp::Equal
        } else {
            Cmp::Greater
        }
    }
}

/// Lexicographic order on character sequences, comparing scalar values.
pub open spec fn lex_le(a: Seq<char>, b: Seq<char>) -> bool
    decreases a.len(),
{
    if a.len() == 0 {
        true
    } else if b.len() == 0 {
        false
    } else if a[0] != b[0] {
        (a[0] as u32) < (b[0] as u32)
    } else {
        lex_le(a.skip(1), b.skip(1))
    }
}

proof fn lemma_lex_refl(a: Seq<char>)
    ensures
        lex_le(a, a),
    decreases a.len(),
{
    if a.len() > 0 {
        lemma_lex_refl(a.skip(1));
    }
}

proof fn lemma_lex_total(a: Seq<char>, b: Seq<char>)
    ensures
        lex_le(a, b) || lex_le(b, a),
    decreases a.len(),
{
    if a.len() > 0 && b.len() > 0 {
        if a[0] == b[0] {
            lemma_lex_total(a.skip(1), b.skip(1));
        } else {
            vstd::utf8::char_u32_cast(a[0], a[0] as u32);
            vstd::utf8::char_u32_cast(b[0], b[0] as u32);
            assert((a[0] as u32) != (b[0] as u32));
        }
    }
}

proof fn lemma_lex_antisym(a: Seq<char>, b: Seq<char>)
    requires
        lex_le(a, b),
        lex_le(b, a),
    ensures
        a == b,
    decreases a.len(),
{
    if a.len() == 0 {
        assert(b.len() == 0);
        assert(a =~= b);
    } else {
        assert(b.len() > 0);
        if a[0] != b[0] {
            assert((a[0] as u32) < (b[0] as u32) && (b[0] as u32) < (a[0] as u32));
            assert(false);
        }
        lemma_lex_antisym(a.skip(1), b.skip(1));
        assert(a.skip(1).len() == a.len() - 1);
        assert(b.skip(1).len() == b.len() - 1);
        assert(a =~= b) by {
            assert(a.len() == b.len());
            assert forall|i: int| 0 <= i < a.len() implies a[i] == b[i] by {
                if i > 0 {
                    assert(a.skip(1)[i - 1] == b.skip(1)[i - 1]);
                }
            }
        }
    }
}

proof fn lemma_lex_trans(a: Seq<char>, b: Seq<char>, c: Seq<char>)
    requires
        lex_le(a, b),
        lex_le(b, c),
    ensures
        lex_le(a, c),
    decreases a.len(),
{
    if a.len() == 0 || b.len() == 0 || c.len() == 0 {
    } else if a[0] == b[0] && b[0] == c[0] {
        lemma_lex_trans(a.skip(1), b.skip(1), c.skip(1));
    } else {
        vstd::utf8::char_u32_cast(a[0], a[0] as u32);
        vstd::utf8::char_u32_cast(b[0], b[0] as u32);
        vstd::utf8::char_u32_cast(c[0], c[0] as u32);
        assert((a[0] as u32) <= (b[0] as u32));
        assert((b[0] as u32) <= (c[0] as u32));
        assert((a[0] as u32) < (c[0] as u32) || a[0] == c[0]);
    }
}

/// How two sequences with an equal proper prefix compare: the relation is
/// settled by the first position where they differ, or by one running out.
proof fn lemma_lex_from_prefix(a: Seq<char>, b: Seq<char>, i: int)
    requires
        0 <= i <= a.len(),
        0 <= i <= b.len(),
        forall|j: int| 0 <= j < i ==> a[j] == b[j],
    ensures
        i == a.len() && i == b.len() ==> a == b,
        i == a.len() && i < b.len() ==> lex_le(a, b) && a != b,
        i == b.len() && i < a.len() ==> lex_le(b, a) && a != b,
        i < a.len() && i < b.len() && (a[i] as u32) < (b[i] as u32) ==> lex_le(a, b) && a != b,
        i < a.len() && i < b.len() && (b[i] as u32) < (a[i] as u32) ==> lex_le(b, a) && a != b,
    decreases i,
{
    if i == a.len() && i == b.len() {
        assert(a =~= b);
    } else if i < a.len() && i < b.len() {
        vstd::utf8::char_u32_cast(a[i], a[i] as u32);
        vstd::utf8::char_u32_cast(b[i], b[i] as u32);
    }
    if i == 0 {
        if a.len() == 0 && b.len() > 0 {
            assert(a != b);
        } else if b.len() == 0 && a.len() > 0 {
            assert(a != b);
        }
    } else {
        assert(a.len() > 0 && b.len() > 0 && a[0] == b[0]);
        lemma_lex_from_prefix(a.skip(1), b.skip(1), i - 1);
        assert(forall|j: int| 0 <= j < i - 1 ==> a.skip(1)[j] == b.skip(1)[j]);
        if i < a.len() && i < b.len() {
            assert(a.skip(1)[i - 1] == a[i]);
            assert(b.skip(1)[i - 1] == b[i]);
            if (a[i] as u32) < (b[i] as u32) {
                assert(lex_le(a.skip(1), b.skip(1)) && a.skip(1) != b.skip(1));
                assert(a != b) by {
                    assert(a[i] != b[i]);
                }
            } else if (b[i] as u32) < (a[i] as u32) {
                assert(a != b) by {
                    assert(a[i] != b[i]);
                }
            }
        } else if i == a.len() && i < b.len() {
            assert(a.skip(1).len() == i - 1);
            assert(a != b) by {
                assert(a.len() != b.len());
            }
        } else if i == b.len() && i < a.len() {
            assert(a != b) by {
                assert(a.len() != b.len());
            }
        }
    }
}

impl<T: View> Duplicable for std::sync::Arc<T> {
    fn dup(&self) -> (r: Self)
        ensures
            r == *self,
    {
        std::sync::Arc::clone(self)
    }
}

impl Duplicable for String {
    fn dup(&self) -> (r: Self)
        ensures
            r == *self,
    {
        self.clone()
    }
}

impl TotalOrder for String {
    open spec fn le(a: Seq<char>, b: Seq<char>) -> bool {
        lex_le(a, b)
    }

    proof fn reflexive(x: Seq<char>) {
        lemma_lex_refl(x);
    }

    proof fn transitive(x: Seq<char>, y: Seq<char>, z: Seq<char>) {
        lemma_lex_trans(x, y, z);
    }

    proof fn antisymmetric(x: Seq<char>, y: Seq<char>) {
        lemma_lex_antisym(x, y);
    }

    proof fn total(x: Seq<char>, y: Seq<char>) {
        lemma_lex_total(x, y);
    }

    fn compare(&self, other: &Self) -> (c: Cmp) {
        let a = self.as_str();
        let b = other.as_str();
        let alen = a.unicode_len();
        let blen = b.unicode_len();
        let mut i: usize = 0;
        loop
            invariant
                i <= alen,
                i <= blen,
                alen == a@.len(),
                blen == b@.len(),
                a@ == self@,
                b@ == other@,
                forall|j: int| 0 <= j < i ==> a@[j] == b@[j],
            decreases alen - i,
        {
            proof {
                lemma_lex_from_prefix(a@, b@, i as int);
            }
            if i == alen && i == blen {
                return Cmp::Equal;
            }
            if i == alen {
                return Cmp::Less;
            }
            if i == blen {
                return Cmp::Greater;
            }
            let ca = a.get_char(i);
            let cb = b.get_char(i);
            if (ca as u32) < (cb as u32) {
                return Cmp::Less;
            }
            if (cb as u32) < (ca as u32) {
                return Cmp::Greater;
            }
            proof {
                vstd::utf8::char_u32_cast(ca, ca as u32);
                vstd::utf8::char_u32_cast(cb, cb as u32);
            }
            i = i + 1;
        }
    }
}

} // verus!
