//! Building blocks for the index storage.

pub mod avl;
pub mod avl_storage;
pub mod list;

use vstd::prelude::*;

use crate::intern::InternRef;
use crate::order::Duplicable;
use avl::Avl;

pub use avl::MvccAvl;
pub use avl_storage::AvlStorage;

verus! {

/// Index entry.
///
/// For a given term, a list of index entries records what files contain
/// the term and at what byte offset.
pub struct IndexEntry {
    /// Handle to the interned path of the file the term occurs in.
    pub path: InternRef<String>,
    /// Byte offset of the occurrence in the original file.
    pub offset: u64,
}

impl View for IndexEntry {
    type V = (Seq<char>, u64);

    open spec fn view(&self) -> (Seq<char>, u64) {
        (self.path@, self.offset)
    }
}

impl Duplicable for IndexEntry {
    fn dup(&self) -> (r: Self)
        ensures
            r == *self,
    {
        IndexEntry { path: self.path.dup(), offset: self.offset }
    }
}

/// List of index entries.
///
/// The entries are kept in a balanced tree keyed by a running counter:
/// the tree is used purely as a list, which bounds the recursion depth
/// needed to drop or rebuild the list while keeping appends cheap. The
/// abstract view is the sequence of entry views in insertion order.
pub struct IndexEntryList {
    // A running counter used as the key for the next appended entry.
    key: usize,
    avl: Avl<usize, IndexEntry>,
}

impl View for IndexEntryList {
    type V = Seq<(Seq<char>, u64)>;

    closed spec fn view(&self) -> Seq<(Seq<char>, u64)> {
        Seq::new(self.key as nat, |i: int| self.avl@[i as usize])
    }
}

impl Duplicable for IndexEntryList {
    fn dup(&self) -> (r: Self)
        ensures
            r == *self,
    {
        proof {
            use_type_invariant(self);
        }
        IndexEntryList { key: self.key, avl: self.avl.dup() }
    }
}

/// The set of machine integers below a bound has exactly that many
/// elements.
proof fn lemma_prefix_set_len(k: usize)
    ensures
        Set::new(|i: usize| i < k).finite(),
        Set::new(|i: usize| i < k).len() == k,
    decreases k,
{
    if k == 0 {
        assert(Set::new(|i: usize| i < k) =~= Set::<usize>::empty());
    } else {
        let p = (k - 1) as usize;
        lemma_prefix_set_len(p);
        assert(Set::new(|i: usize| i < k) =~= Set::new(|i: usize| i < p).insert(p));
    }
}

/// In a strictly ascending sequence of machine integers, the element at
/// position `i` is at least `i`.
proof fn lemma_ascending_low(es: Seq<(usize, (Seq<char>, u64))>, i: int)
    requires
        forall|a: int, b: int|
            #![trigger es[a], es[b]]
            0 <= a < b < es.len() ==> es[a].0 <= es[b].0 && es[a].0 != es[b].0,
        0 <= i < es.len(),
    ensures
        es[i].0 >= i,
    decreases i,
{
    if i > 0 {
        lemma_ascending_low(es, i - 1);
    }
}

/// In a strictly ascending sequence of machine integers that are all
/// below the sequence's length, the element at position `i` is at most
/// `i`.
proof fn lemma_ascending_high(es: Seq<(usize, (Seq<char>, u64))>, i: int)
    requires
        forall|a: int, b: int|
            #![trigger es[a], es[b]]
            0 <= a < b < es.len() ==> es[a].0 <= es[b].0 && es[a].0 != es[b].0,
        forall|a: int| 0 <= a < es.len() ==> (#[trigger] es[a]).0 < es.len(),
        0 <= i < es.len(),
    ensures
        es[i].0 <= i,
    decreases es.len() - i,
{
    if i < es.len() - 1 {
        lemma_ascending_high(es, i + 1);
    }
}

/// The subsequence of posting entries that do not lie at the given path.
pub open spec fn without_path(s: Seq<(Seq<char>, u64)>, path: Seq<char>) -> Seq<(Seq<char>, u64)>
    decreases s.len(),
{
    if s.len() == 0 {
        s
    } else if s[0].0 != path {
        seq![s[0]] + without_path(s.skip(1), path)
    } else {
        without_path(s.skip(1), path)
    }
}

impl IndexEntryList {
    /// The tree holds exactly the keys below the running counter.
    #[verifier::type_invariant]
    spec fn inv(self) -> bool {
        forall|i: usize| #[trigger] self.avl@.dom().contains(i) == (i < self.key)
    }

    /// Create an empty list.
    pub fn new() -> (r: Self)
        ensures
            r@ == Seq::<(Seq<char>, u64)>::empty(),
    {
        let r = Self { key: 0, avl: Avl::new() };
        proof {
            assert(r@ =~= Seq::<(Seq<char>, u64)>::empty());
        }
        r
    }

    /// A posting list never holds more entries than the machine can
    /// count.
    pub proof fn lemma_len_bound(&self)
        ensures
            self@.len() <= usize::MAX,
    {
    }

    /// Whether the list holds no entries.
    pub fn is_empty(&self) -> (r: bool)
        ensures
            r == (self@.len() == 0),
    {
        self.key == 0
    }

    /// Append an entry at the end of the list.
    ///
    /// A list already holding the machine's maximum number of entries
    /// comes back unchanged.
    pub fn append(&self, entry: IndexEntry) -> (r: Self)
        ensures
            self@.len() < usize::MAX ==> r@ == self@.push(entry@),
            self@.len() == usize::MAX ==> r@ == self@,
    {
        proof {
            use_type_invariant(self);
        }
        if self.key == usize::MAX {
            return self.dup();
        }
        proof {
            use_type_invariant(&self.avl);
            self.avl.lemma_height_bound();
            lemma_prefix_set_len(self.key);
            assert(self.avl@.dom() =~= Set::new(|i: usize| i < self.key));
            assert(self.avl.height() + 2 <= usize::MAX);
        }
        let navl = self.avl.insert(self.key, entry);
        let r = Self { key: self.key + 1, avl: navl };
        proof {
            assert(r@ =~= self@.push(entry@));
        }
        r
    }

    /// Iterate over the entries, position by position: the iterator hands
    /// out each entry together with its position in the list.
    pub fn iter(&self) -> (it: avl::Iter<usize, IndexEntry>)
        ensures
            it@.len() == self@.len(),
            forall|j: int| 0 <= j < self@.len() ==> #[trigger] it@[j] == (j as usize, self@[j]),
    {
        proof {
            use_type_invariant(self);
            use_type_invariant(&self.avl);
            self.avl.lemma_entries_sorted();
            lemma_prefix_set_len(self.key);
            assert(self.avl@.dom() =~= Set::new(|i: usize| i < self.key));
            let es = self.avl.entries();
            assert(es.len() == self.key);
            assert forall|j: int| 0 <= j < es.len() implies #[trigger] es[j] == (
                j as usize,
                self@[j],
            ) by {
                assert(self.avl@.dom().contains(es[j].0));
                assert(es[j].0 < self.key);
                lemma_ascending_low(es, j);
                lemma_ascending_high(es, j);
                assert(es[j].0 == j);
                assert(es[j].1 == self.avl@[j as usize]);
            }
        }
        self.avl.iter()
    }

    /// The entries whose path is not the given one, in their original
    /// order.
    pub fn remove(&self, path: &InternRef<String>) -> (r: Self)
        ensures
            r@ == without_path(self@, path@),
    {
        proof {
            use_type_invariant(self);
        }
        let mut it = self.iter();
        let mut out = Self::new();
        let ghost n = self@.len() as int;
        let ghost mut i: int = 0;
        proof {
            assert(self@.len() == self.key as nat);
            assert(self@.skip(0) =~= self@);
            assert(out@ + without_path(self@.skip(0), path@) =~= without_path(self@, path@));
        }
        loop
            invariant
                0 <= i <= n,
                n == self@.len(),
                n <= usize::MAX,
                it@.len() == n - i,
                forall|j: int|
                    0 <= j < n - i ==> #[trigger] it@[j] == ((i + j) as usize, self@[i + j]),
                without_path(self@, path@) == out@ + without_path(self@.skip(i), path@),
                out@.len() <= i,
            decreases n - i,
        {
            let ghost pre = it@;
            match it.next() {
                None => {
                    proof {
                        assert(i == n);
                        assert(self@.skip(i).len() == 0);
                        assert(without_path(self@.skip(i), path@) == self@.skip(i));
                        assert(out@ + self@.skip(i) =~= out@);
                    }
                    return out;
                },
                Some(pair) => {
                    let entry = pair.1;
                    proof {
                        assert(pre[0] == (i as usize, self@[i]));
                        assert(entry@ == self@[i]);
                    }
                    let keep = !(entry.path == *path);
                    proof {
                        assert(keep == (self@[i].0 != path@));
                        assert(out@.len() < usize::MAX);
                        let rest = self@.skip(i);
                        assert(rest.len() == n - i);
                        assert(rest[0] == self@[i]);
                        assert(rest.skip(1) =~= self@.skip(i + 1));
                        if keep {
                            assert(without_path(rest, path@) == seq![self@[i]] + without_path(
                                self@.skip(i + 1),
                                path@,
                            ));
                        } else {
                            assert(without_path(rest, path@) == without_path(
                                self@.skip(i + 1),
                                path@,
                            ));
                        }
                    }
                    if keep {
                        out = out.append(entry);
                    }
                    proof {
                        i = i + 1;
                        assert(without_path(self@, path@) =~= out@ + without_path(
                            self@.skip(i),
                            path@,
                        ));
                    }
                },
            }
        }
    }
}

} // verus!
