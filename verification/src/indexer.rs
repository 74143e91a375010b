//! The indexer: building and querying the text index.
//!
//! An indexer owns the posting store, a tokeniser factory and an ordered
//! chain of normalisers. A file is indexed by tokenising its text,
//! running every token through the normalisers in order, and recording
//! the surviving tokens in the store. A query normalises the term the
//! same way and reads the paths recorded for it; queries read a snapshot
//! and never block indexing.

use vstd::prelude::*;

use crate::normalise::{Normaliser, TokenNormaliser};
use crate::order::Duplicable;
use crate::storage::avl::Avl;
use crate::storage::{AvlStorage, IndexEntryList};
use crate::storage::avl_storage::paths_of;
use crate::tokenise::{Token, Tokeniser, TokeniserFactory};

verus! {

/// What an ordered chain of normalisers makes of a token value: the
/// first normaliser that drops the token ends the chain.
pub open spec fn chain_norm(ns: Seq<Normaliser>, value: Seq<char>) -> Option<Seq<char>>
    decreases ns.len(),
{
    if ns.len() == 0 {
        Some(value)
    } else {
        match ns[0].norm_spec(value) {
            None => None,
            Some(v2) => chain_norm(ns.skip(1), v2),
        }
    }
}

/// Indexer builds a text index over the text handed to it, file by file.
///
/// The built index can be queried with a term to obtain the set of files
/// the term was found in. The indexer is thread-safe: queries read
/// snapshots of the store while one writer at a time applies mutations.
pub struct Indexer<F: TokeniserFactory> {
    storage: AvlStorage,
    tokeniser_factory: F,
    token_normalisers: Vec<Normaliser>,
}

impl<F: TokeniserFactory> Indexer<F> {
    /// The configured normaliser chain.
    pub closed spec fn normalisers(self) -> Seq<Normaliser> {
        self.token_normalisers@
    }

    /// Create a new indexer with the provided tokeniser factory and no
    /// normalisers.
    pub fn new(tokeniser_factory: F) -> (r: Self)
        ensures
            r.normalisers() == Seq::<Normaliser>::empty(),
    {
        let r = Self {
            storage: AvlStorage::new(),
            tokeniser_factory,
            token_normalisers: Vec::new(),
        };
        proof {
            assert(r.normalisers() =~= Seq::<Normaliser>::empty());
        }
        r
    }

    /// Add a normaliser at the end of the chain used by this indexer.
    pub fn with_normaliser(self, normaliser: Normaliser) -> (r: Self)
        ensures
            r.normalisers() == self.normalisers().push(normaliser),
    {
        let mut s = self;
        s.token_normalisers.push(normaliser);
        s
    }

    /// Normalise the given token by applying all configured normalisers
    /// in order.
    fn normalise(&self, token: Token) -> (r: Option<Token>)
        ensures
            (match r {
                Some(t) => chain_norm(self.normalisers(), token.value@) == Some(t.value@)
                    && t.offset == token.offset,
                None => chain_norm(self.normalisers(), token.value@) is None,
            }),
    {
        let ghost ns = self.normalisers();
        let n = self.token_normalisers.len();
        let mut cur = token;
        let mut i: usize = 0;
        proof {
            assert(ns.skip(0) =~= ns);
        }
        while i < n
            invariant
                0 <= i <= n,
                n == ns.len(),
                ns == self.normalisers(),
                cur.offset == token.offset,
                chain_norm(ns, token.value@) == chain_norm(ns.skip(i as int), cur.value@),
            decreases n - i,
        {
            let ghost rest = ns.skip(i as int);
            let nm = &self.token_normalisers[i];
            match nm.normalise(cur) {
                None => {
                    proof {
                        assert(rest[0] == ns[i as int]);
                        assert(chain_norm(rest, cur.value@) is None);
                    }
                    return None;
                },
                Some(t2) => {
                    proof {
                        assert(rest[0] == ns[i as int]);
                        assert(rest.skip(1) =~= ns.skip(i as int + 1));
                        assert(chain_norm(rest, cur.value@) == chain_norm(
                            ns.skip(i as int + 1),
                            t2.value@,
                        ));
                    }
                    cur = t2;
                },
            }
            i = i + 1;
        }
        proof {
            assert(ns.skip(n as int).len() == 0);
        }
        Some(cur)
    }

    /// The distinct path strings mentioned by a posting list, in
    /// ascending order.
    pub fn collect_paths(entries: &IndexEntryList) -> (r: Vec<String>)
        ensures
            forall|i: int|
                0 <= i < r@.len() ==> paths_of(entries@).contains((#[trigger] r@[i])@),
            forall|q: Seq<char>|
                #[trigger] paths_of(entries@).contains(q) ==> exists|i: int|
                    0 <= i < r@.len() && (#[trigger] r@[i])@ == q,
            forall|i: int, j: int|
                #![trigger r@[i], r@[j]]
                0 <= i < j < r@.len() ==> crate::order::lex_le(r@[i]@, r@[j]@) && r@[i]@
                    != r@[j]@,
    {
        let mut found: Avl<String, u64> = Avl::new();
        let mut it = entries.iter();
        let ghost n = entries@.len() as int;
        let ghost mut i: int = 0;
        proof {
            entries.lemma_len_bound();
            assert(paths_of(entries@.subrange(0, 0)) =~= Set::<Seq<char>>::empty());
            assert(found@.dom() =~= Set::<Seq<char>>::empty());
        }
        loop
            invariant
                0 <= i <= n,
                n == entries@.len(),
                n <= usize::MAX,
                it@.len() == n - i,
                forall|j: int|
                    0 <= j < n - i ==> #[trigger] it@[j] == ((i + j) as usize, entries@[i + j]),
                found@.dom() == paths_of(entries@.subrange(0, i)),
                found@.dom().finite(),
                found@.dom().len() <= i,
            ensures
                found@.dom() == paths_of(entries@),
                found@.dom().finite(),
            decreases n - i,
        {
            let ghost pre = it@;
            match it.next() {
                None => {
                    proof {
                        assert(i == n);
                        assert(entries@.subrange(0, i) =~= entries@);
                        assert(entries@.subrange(0, i) == entries@);
                    }
                    break ;
                },
                Some(pair) => {
                    let entry = pair.1;
                    proof {
                        assert(pre[0] == (i as usize, entries@[i]));
                        assert(entry@ == entries@[i]);
                        use_type_invariant(&found);
                        found.lemma_height_bound();
                    }
                    let p = entry.path.value().clone();
                    let ghost before = found@;
                    found = found.insert(p, 0);
                    proof {
                        i = i + 1;
                        assert(found@ == before.insert(entry@.0, 0u64));
                        assert(found@.dom() =~= paths_of(entries@.subrange(0, i))) by {
                            assert forall|q: Seq<char>|
                                paths_of(entries@.subrange(0, i)).contains(q) implies
                                found@.dom().contains(q) by {
                                let j = choose|j: int|
                                    0 <= j < i && (#[trigger] entries@.subrange(0, i)[j]).0 == q;
                                if j < i - 1 {
                                    assert(entries@.subrange(0, i - 1)[j] == entries@.subrange(
                                        0,
                                        i,
                                    )[j]);
                                    assert(paths_of(entries@.subrange(0, i - 1)).contains(q));
                                }
                            }
                            assert forall|q: Seq<char>| found@.dom().contains(q) implies
                                paths_of(entries@.subrange(0, i)).contains(q) by {
                                if q != entry@.0 {
                                    let j = choose|j: int|
                                        0 <= j < i - 1 && (#[trigger] entries@.subrange(
                                            0,
                                            i - 1,
                                        )[j]).0 == q;
                                    assert(entries@.subrange(0, i)[j] == entries@.subrange(
                                        0,
                                        i - 1,
                                    )[j]);
                                } else {
                                    assert(entries@.subrange(0, i)[i - 1].0 == q);
                                }
                            }
                        }
                    }
                },
            }
        }
        let ghost fs = found;
        let mut out: Vec<String> = Vec::new();
        let mut it2 = found.iter();
        proof {
            use_type_invariant(&found);
            found.lemma_entries_sorted();
        }
        let ghost es = found.entries();
        let ghost m = es.len() as int;
        let ghost mut k: int = 0;
        loop
            invariant
                0 <= k <= m,
                m == es.len(),
                es == fs.entries(),
                fs@.dom() == paths_of(entries@),
                it2@ == es.skip(k),
                out@.len() == k,
                forall|j: int| 0 <= j < k ==> (#[trigger] out@[j])@ == es[j].0,
                forall|i2: int|
                    0 <= i2 < es.len() ==> fs@.dom().contains((#[trigger] es[i2]).0),
                forall|q: Seq<char>|
                    #[trigger] fs@.dom().contains(q) ==> exists|i2: int|
                        0 <= i2 < es.len() && (#[trigger] es[i2]).0 == q,
                forall|i2: int, j2: int|
                    #![trigger es[i2], es[j2]]
                    0 <= i2 < j2 < es.len() ==> crate::order::lex_le(es[i2].0, es[j2].0)
                        && es[i2].0 != es[j2].0,
            ensures
                out@.len() == m,
                forall|j: int| 0 <= j < m ==> (#[trigger] out@[j])@ == es[j].0,
            decreases m - k,
        {
            match it2.next() {
                None => {
                    proof {
                        assert(es.skip(k).len() == 0);
                        assert(k == m);
                    }
                    break ;
                },
                Some(pair) => {
                    proof {
                        assert(es.skip(k)[0] == es[k]);
                        assert((pair.0@, pair.1@) == es[k]);
                        assert(es.skip(k).skip(1) =~= es.skip(k + 1));
                    }
                    out.push(pair.0);
                    proof {
                        k = k + 1;
                    }
                },
            }
        }
        proof {
            assert forall|q: Seq<char>| #[trigger] paths_of(entries@).contains(q) implies exists|
                i2: int,
            |
                0 <= i2 < out@.len() && (#[trigger] out@[i2])@ == q by {
                let j = choose|j: int| 0 <= j < es.len() && (#[trigger] es[j]).0 == q;
                assert(out@[j]@ == q);
            }
        }
        out
    }

    /// Query the index to find the set of files the given term can be
    /// found in, as a strictly ascending list of distinct paths.
    ///
    /// The term is normalised the same way as the indexed files; if the
    /// normaliser chain drops it, the raw term is looked up instead. The
    /// paths come from a snapshot of the term map taken at the moment of
    /// the call: [`AvlStorage::get_in`] and [`Indexer::collect_paths`]
    /// say exactly what is returned for whatever that snapshot holds.
    pub fn query(&self, term: &str) -> (r: Vec<String>)
        ensures
            forall|i: int, j: int|
                #![trigger r@[i], r@[j]]
                0 <= i < j < r@.len() ==> crate::order::lex_le(r@[i]@, r@[j]@) && r@[i]@
                    != r@[j]@,
    {
        let raw = term.to_owned();
        let word = match self.normalise(Token::new(raw)) {
            Some(t) => t.value,
            None => term.to_owned(),
        };
        match self.storage.get(word.as_str()) {
            Some(vr) => Self::collect_paths(vr.value()),
            None => Vec::new(),
        }
    }

    /// Clear the given path from the index.
    ///
    /// Traverses the index and removes all the postings that refer to the
    /// given path.
    pub fn clear_from_index(&self, path: &str) {
        self.storage.purge(path);
    }

    /// Add a file's text to the index under the given path.
    ///
    /// The text is split by a fresh tokeniser from the configured
    /// factory, every token runs through the normaliser chain, and each
    /// surviving token is recorded in the posting store.
    pub fn index_text(&self, path: &str, text: &str) {
        let mut tokeniser = self.tokeniser_factory.create();
        loop
            decreases (match tokeniser@ {
                None => tokeniser.splits(text@).len() + 1,
                Some(rem) => rem.len(),
            }),
        {
            match tokeniser.read_token(text) {
                None => {
                    return ;
                },
                Some(token) => {
                    if let Some(t) = self.normalise(token) {
                        self.storage.insert(path, t);
                    }
                },
            }
        }
    }

    /// Record already tokenised text in the index under the given path.
    ///
    /// This is the path for tokenisers that live outside the library:
    /// every token runs through the normaliser chain, and each surviving
    /// token is recorded in the posting store.
    pub fn index_tokens(&self, path: &str, tokens: Vec<Token>) {
        let n = tokens.len();
        let mut i: usize = 0;
        let mut tokens = tokens;
        while i < n
            invariant
                0 <= i <= n,
                n == tokens@.len(),
            decreases n - i,
        {
            let token = (&tokens[i]).dup();
            if let Some(t) = self.normalise(token) {
                self.storage.insert(path, t);
            }
            i = i + 1;
        }
    }
}

} // verus!
