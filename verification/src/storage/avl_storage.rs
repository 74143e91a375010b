//! Index storage built from two snapshot cells and an intern pool.
//!
//! The `avl` cell maps each term to the list of postings recorded for it;
//! the `file_words` cell maps each file path to the set of terms known to
//! occur in that file, kept strictly so that purging a path touches only
//! the terms that need it. Paths are interned, so posting lists copy
//! handles instead of path strings.
//!
//! All mutation is meant to be driven by a single writer; concurrent
//! readers take snapshots and never block it. The two cells are not
//! updated atomically together: a reader may observe a term whose list
//! has no postings yet, or no longer, and simply finds no matches there.
//! What one recorded token or one purge does to the term map is stated by
//! [`spec_insert_term`], [`spec_purge_term`] and [`spec_purge_terms`],
//! and proved of the pure functions the cells apply.

use vstd::prelude::*;

use crate::intern::{InternPool, InternRef};
use crate::order::Duplicable;
use crate::tokenise::Token;

use super::avl::{Avl, MvccAvl, ValueRef};
use super::{without_path, IndexEntry, IndexEntryList};

verus! {

/// The abstract state of the term map: each term's postings, as pairs of
/// path and byte offset.
pub open spec fn term_postings(
    terms: Map<Seq<char>, Seq<(Seq<char>, u64)>>,
    word: Seq<char>,
) -> Seq<(Seq<char>, u64)> {
    if terms.dom().contains(word) {
        terms[word]
    } else {
        Seq::empty()
    }
}

/// The set of paths mentioned by a sequence of postings.
pub open spec fn paths_of(entries: Seq<(Seq<char>, u64)>) -> Set<Seq<char>> {
    Set::new(|p: Seq<char>| exists|i: int| 0 <= i < entries.len() && (#[trigger] entries[i]).0 == p)
}

/// The paths a query for `word` finds in the term map.
pub open spec fn spec_get(terms: Map<Seq<char>, Seq<(Seq<char>, u64)>>, word: Seq<char>) -> Set<
    Seq<char>,
> {
    paths_of(term_postings(terms, word))
}

/// The term map after one token of a file is recorded.
pub open spec fn spec_insert_term(
    terms: Map<Seq<char>, Seq<(Seq<char>, u64)>>,
    word: Seq<char>,
    path: Seq<char>,
    off: u64,
) -> Map<Seq<char>, Seq<(Seq<char>, u64)>> {
    terms.insert(word, term_postings(terms, word).push((path, off)))
}

/// The term map after a path's postings are dropped from one term: the
/// term's list loses every posting at the path, and disappears entirely
/// when nothing is left.
pub open spec fn spec_purge_term(
    terms: Map<Seq<char>, Seq<(Seq<char>, u64)>>,
    word: Seq<char>,
    path: Seq<char>,
) -> Map<Seq<char>, Seq<(Seq<char>, u64)>> {
    if terms.dom().contains(word) {
        let filtered = without_path(terms[word], path);
        if filtered.len() == 0 {
            terms.remove(word)
        } else {
            terms.insert(word, filtered)
        }
    } else {
        terms
    }
}

/// The term map after a path's postings are dropped from each of a
/// sequence of terms in turn.
pub open spec fn spec_purge_terms(
    terms: Map<Seq<char>, Seq<(Seq<char>, u64)>>,
    words: Seq<Seq<char>>,
    path: Seq<char>,
) -> Map<Seq<char>, Seq<(Seq<char>, u64)>>
    decreases words.len(),
{
    if words.len() == 0 {
        terms
    } else {
        spec_purge_terms(spec_purge_term(terms, words[0], path), words.skip(1), path)
    }
}

/// A nonempty posting sequence mentions its head's path and whatever its
/// tail mentions.
proof fn lemma_paths_cons(es: Seq<(Seq<char>, u64)>)
    requires
        es.len() > 0,
    ensures
        paths_of(es) == paths_of(es.skip(1)).insert(es[0].0),
{
    assert(paths_of(es) =~= paths_of(es.skip(1)).insert(es[0].0)) by {
        assert forall|q: Seq<char>| paths_of(es).contains(q) implies paths_of(
            es.skip(1),
        ).insert(es[0].0).contains(q) by {
            let i = choose|i: int| 0 <= i < es.len() && (#[trigger] es[i]).0 == q;
            if i > 0 {
                assert(es.skip(1)[i - 1].0 == q);
            }
        }
        assert forall|q: Seq<char>| paths_of(es.skip(1)).insert(es[0].0).contains(q) implies
            paths_of(es).contains(q) by {
            if q == es[0].0 {
                assert(es[0].0 == q);
            } else {
                let i = choose|i: int| 0 <= i < es.skip(1).len() && (#[trigger] es.skip(1)[i]).0
                    == q;
                assert(es[i + 1].0 == q);
            }
        }
    }
}

/// Appending one posting adds its path to the mentioned set.
proof fn lemma_paths_push(es: Seq<(Seq<char>, u64)>, e: (Seq<char>, u64))
    ensures
        paths_of(es.push(e)) == paths_of(es).insert(e.0),
{
    assert(paths_of(es.push(e)) =~= paths_of(es).insert(e.0)) by {
        assert forall|q: Seq<char>| paths_of(es.push(e)).contains(q) implies paths_of(
            es,
        ).insert(e.0).contains(q) by {
            let i = choose|i: int| 0 <= i < es.push(e).len() && (#[trigger] es.push(e)[i]).0 == q;
            if i < es.len() {
                assert(es[i].0 == q);
            }
        }
        assert forall|q: Seq<char>| paths_of(es).insert(e.0).contains(q) implies paths_of(
            es.push(e),
        ).contains(q) by {
            if q == e.0 {
                assert(es.push(e)[es.len() as int].0 == q);
            } else {
                let i = choose|i: int| 0 <= i < es.len() && (#[trigger] es[i]).0 == q;
                assert(es.push(e)[i].0 == q);
            }
        }
    }
}

/// Dropping a path from a posting sequence leaves exactly the other
/// mentioned paths.
pub proof fn lemma_without_path_paths(es: Seq<(Seq<char>, u64)>, path: Seq<char>)
    ensures
        paths_of(without_path(es, path)) == paths_of(es).remove(path),
    decreases es.len(),
{
    if es.len() == 0 {
        assert(paths_of(es) =~= Set::<Seq<char>>::empty());
        assert(paths_of(es).remove(path) =~= paths_of(es));
    } else {
        lemma_without_path_paths(es.skip(1), path);
        lemma_paths_cons(es);
        if es[0].0 != path {
            let tail = without_path(es.skip(1), path);
            assert(without_path(es, path) == seq![es[0]] + tail);
            assert((seq![es[0]] + tail).len() > 0);
            assert((seq![es[0]] + tail)[0] == es[0]);
            assert((seq![es[0]] + tail).skip(1) =~= tail);
            lemma_paths_cons(seq![es[0]] + tail);
            assert(paths_of(without_path(es, path)) =~= paths_of(es).remove(path));
        } else {
            assert(without_path(es, path) == without_path(es.skip(1), path));
            assert(paths_of(without_path(es, path)) =~= paths_of(es).remove(path));
        }
    }
}

/// Recording one token adds exactly its path to the query result for its
/// word, and changes the result for no other word.
pub proof fn lemma_insert_effect(
    terms: Map<Seq<char>, Seq<(Seq<char>, u64)>>,
    word: Seq<char>,
    path: Seq<char>,
    off: u64,
)
    ensures
        spec_get(spec_insert_term(terms, word, path, off), word) == spec_get(
            terms,
            word,
        ).insert(path),
        forall|w: Seq<char>|
            w != word ==> #[trigger] spec_get(spec_insert_term(terms, word, path, off), w)
                == spec_get(terms, w),
{
    lemma_paths_push(term_postings(terms, word), (path, off));
}

/// Dropping a path from one word's postings removes exactly that path
/// from the query result for the word, and changes the result for no
/// other word.
pub proof fn lemma_purge_term_effect(
    terms: Map<Seq<char>, Seq<(Seq<char>, u64)>>,
    word: Seq<char>,
    path: Seq<char>,
)
    ensures
        spec_get(spec_purge_term(terms, word, path), word) == spec_get(terms, word).remove(path),
        forall|w: Seq<char>|
            w != word ==> #[trigger] spec_get(spec_purge_term(terms, word, path), w) == spec_get(
                terms,
                w,
            ),
{
    if terms.dom().contains(word) {
        lemma_without_path_paths(terms[word], path);
        let filtered = without_path(terms[word], path);
        if filtered.len() == 0 {
            assert(paths_of(filtered) =~= Set::<Seq<char>>::empty());
            assert(spec_get(terms.remove(word), word) =~= paths_of(filtered));
        }
    } else {
        assert(spec_get(terms, word) =~= Set::<Seq<char>>::empty());
        assert(spec_get(terms, word).remove(path) =~= spec_get(terms, word));
    }
}

/// What a full purge does: when the purged word sequence covers every
/// word whose postings mention the path, a query for any term afterwards
/// finds exactly the paths it found before, less the purged path. With
/// the inductive step of [`lemma_insert_effect`], this is the content of
/// the index invariant: queries return the paths whose surviving tokens
/// include the term.
pub proof fn lemma_purge_effect(
    terms: Map<Seq<char>, Seq<(Seq<char>, u64)>>,
    words: Seq<Seq<char>>,
    path: Seq<char>,
)
    requires
        forall|w: Seq<char>| #[trigger] spec_get(terms, w).contains(path) ==> words.contains(w),
    ensures
        forall|w: Seq<char>| #[trigger] spec_get(spec_purge_terms(terms, words, path), w)
            == spec_get(terms, w).remove(path),
    decreases words.len(),
{
    if words.len() == 0 {
        assert forall|w: Seq<char>| #[trigger] spec_get(spec_purge_terms(terms, words, path), w)
            == spec_get(terms, w).remove(path) by {
            if spec_get(terms, w).contains(path) {
                assert(words.contains(w));
                assert(false);
            }
            assert(spec_get(terms, w).remove(path) =~= spec_get(terms, w));
        }
    } else {
        let head = words[0];
        let t2 = spec_purge_term(terms, head, path);
        lemma_purge_term_effect(terms, head, path);
        assert forall|w: Seq<char>| #[trigger] spec_get(t2, w).contains(path) implies
            words.skip(1).contains(w) by {
            assert(w != head);
            assert(spec_get(terms, w).contains(path));
            assert(words.contains(w));
            let i = choose|i: int| 0 <= i < words.len() && words[i] == w;
            assert(i > 0);
            assert(words.skip(1)[i - 1] == w);
        }
        lemma_purge_effect(t2, words.skip(1), path);
        assert forall|w: Seq<char>| #[trigger] spec_get(spec_purge_terms(terms, words, path), w)
            == spec_get(terms, w).remove(path) by {
            assert(spec_purge_terms(terms, words, path) == spec_purge_terms(
                t2,
                words.skip(1),
                path,
            ));
            assert(spec_get(spec_purge_terms(t2, words.skip(1), path), w) == spec_get(
                t2,
                w,
            ).remove(path));
            if w == head {
                assert(spec_get(t2, w) == spec_get(terms, w).remove(path));
                assert(spec_get(t2, w).remove(path) =~= spec_get(terms, w).remove(path));
            }
        }
    }
}

/// The term map after every token of a file is recorded in turn; each
/// token is a term paired with its byte offset.
pub open spec fn spec_insert_file(
    terms: Map<Seq<char>, Seq<(Seq<char>, u64)>>,
    tokens: Seq<(Seq<char>, u64)>,
    path: Seq<char>,
) -> Map<Seq<char>, Seq<(Seq<char>, u64)>>
    decreases tokens.len(),
{
    if tokens.len() == 0 {
        terms
    } else {
        spec_insert_file(
            spec_insert_term(terms, tokens[0].0, path, tokens[0].1),
            tokens.skip(1),
            path,
        )
    }
}

/// Recording a file's tokens makes a query find the file's path exactly
/// for the terms among the tokens, and changes no other term's result.
pub proof fn lemma_insert_file_effect(
    terms: Map<Seq<char>, Seq<(Seq<char>, u64)>>,
    tokens: Seq<(Seq<char>, u64)>,
    path: Seq<char>,
)
    ensures
        forall|w: Seq<char>|
            #[trigger] spec_get(spec_insert_file(terms, tokens, path), w) == if (exists|i: int|
                0 <= i < tokens.len() && (#[trigger] tokens[i]).0 == w) {
                spec_get(terms, w).insert(path)
            } else {
                spec_get(terms, w)
            },
    decreases tokens.len(),
{
    if tokens.len() > 0 {
        let head = tokens[0];
        let t1 = spec_insert_term(terms, head.0, path, head.1);
        lemma_insert_effect(terms, head.0, path, head.1);
        lemma_insert_file_effect(t1, tokens.skip(1), path);
        assert(spec_insert_file(terms, tokens, path) == spec_insert_file(
            t1,
            tokens.skip(1),
            path,
        ));
        assert forall|w: Seq<char>|
            #[trigger] spec_get(spec_insert_file(terms, tokens, path), w) == if (exists|i: int|
                0 <= i < tokens.len() && (#[trigger] tokens[i]).0 == w) {
                spec_get(terms, w).insert(path)
            } else {
                spec_get(terms, w)
            } by {
            let tail = tokens.skip(1);
            assert(spec_get(spec_insert_file(t1, tail, path), w) == if (exists|i: int|
                0 <= i < tail.len() && (#[trigger] tail[i]).0 == w) {
                spec_get(t1, w).insert(path)
            } else {
                spec_get(t1, w)
            });
            if exists|i: int| 0 <= i < tail.len() && (#[trigger] tail[i]).0 == w {
                let i = choose|i: int| 0 <= i < tail.len() && (#[trigger] tail[i]).0 == w;
                assert(tokens[i + 1].0 == w);
                if w == head.0 {
                    assert(spec_get(t1, w) == spec_get(terms, w).insert(path));
                    assert(spec_get(terms, w).insert(path).insert(path) =~= spec_get(
                        terms,
                        w,
                    ).insert(path));
                }
            } else if w == head.0 {
                assert(tokens[0].0 == w);
                assert(spec_get(spec_insert_file(terms, tokens, path), w) == spec_get(t1, w));
            } else {
                assert forall|i: int| 0 <= i < tokens.len() implies (#[trigger] tokens[i]).0
                    != w by {
                    if i > 0 {
                        assert(tail[i - 1] == tokens[i]);
                    }
                }
            }
        }
    }
}

/// The full round trip of the index invariant: after a file's tokens are
/// recorded and the file is then purged, a query for a term that had no
/// postings at other paths beforehand finds nothing. The purged word
/// sequence has to cover every term with postings at the path, which is
/// what the per-file word set is maintained for.
pub proof fn lemma_index_then_purge(
    terms: Map<Seq<char>, Seq<(Seq<char>, u64)>>,
    tokens: Seq<(Seq<char>, u64)>,
    path: Seq<char>,
    words: Seq<Seq<char>>,
    term: Seq<char>,
)
    requires
        forall|w: Seq<char>|
            #[trigger] spec_get(spec_insert_file(terms, tokens, path), w).contains(path)
                ==> words.contains(w),
        forall|q: Seq<char>| #[trigger] spec_get(terms, term).contains(q) ==> q == path,
    ensures
        spec_get(
            spec_purge_terms(spec_insert_file(terms, tokens, path), words, path),
            term,
        ) == Set::<Seq<char>>::empty(),
{
    let indexed = spec_insert_file(terms, tokens, path);
    lemma_insert_file_effect(terms, tokens, path);
    assert forall|q: Seq<char>| #[trigger] spec_get(indexed, term).contains(q) implies q
        == path by {
        if spec_get(terms, term).contains(q) {
        } else {
            assert(spec_get(indexed, term) == spec_get(terms, term).insert(path));
        }
    }
    lemma_purge_round_trip(indexed, words, path, term);
}

/// Round trip: after a file is purged, a term that occurred only in that
/// file is found nowhere.
pub proof fn lemma_purge_round_trip(
    terms: Map<Seq<char>, Seq<(Seq<char>, u64)>>,
    words: Seq<Seq<char>>,
    path: Seq<char>,
    term: Seq<char>,
)
    requires
        forall|w: Seq<char>| #[trigger] spec_get(terms, w).contains(path) ==> words.contains(w),
        forall|q: Seq<char>| #[trigger] spec_get(terms, term).contains(q) ==> q == path,
    ensures
        spec_get(spec_purge_terms(terms, words, path), term) == Set::<Seq<char>>::empty(),
{
    lemma_purge_effect(terms, words, path);
    assert(spec_get(spec_purge_terms(terms, words, path), term) =~= Set::<Seq<char>>::empty());
}

/// Purging a path twice reads the same as purging it once: the second
/// pass finds no posting at the path anywhere, so every query result is
/// unchanged. (The running store never replays the purge at all: the
/// file's word set is removed with the first purge, and the second
/// returns before touching the term map.)
pub proof fn lemma_purge_idempotent(
    terms: Map<Seq<char>, Seq<(Seq<char>, u64)>>,
    words: Seq<Seq<char>>,
    path: Seq<char>,
)
    requires
        forall|w: Seq<char>| #[trigger] spec_get(terms, w).contains(path) ==> words.contains(w),
    ensures
        forall|w: Seq<char>|
            #[trigger] spec_get(
                spec_purge_terms(spec_purge_terms(terms, words, path), words, path),
                w,
            ) == spec_get(spec_purge_terms(terms, words, path), w),
{
    let once = spec_purge_terms(terms, words, path);
    lemma_purge_effect(terms, words, path);
    assert forall|w: Seq<char>| #[trigger] spec_get(once, w).contains(path) implies
        words.contains(w) by {
        assert(spec_get(once, w) == spec_get(terms, w).remove(path));
        assert(false);
    }
    lemma_purge_effect(once, words, path);
    assert forall|w: Seq<char>|
        #[trigger] spec_get(spec_purge_terms(once, words, path), w) == spec_get(once, w) by {
        assert(spec_get(spec_purge_terms(once, words, path), w) == spec_get(once, w).remove(path));
        assert(spec_get(once, w) == spec_get(terms, w).remove(path));
        assert(spec_get(once, w).remove(path) =~= spec_get(once, w));
    }
}

/// Index storage that uses the persistent AVL tree as its container.
pub struct AvlStorage {
    intern_pool: InternPool<String>,
    avl: MvccAvl<String, IndexEntryList>,
    file_words: MvccAvl<String, Avl<String, u64>>,
}

/// A term's posting list with one more posting at the end.
fn push_entry(entries: Option<&IndexEntryList>, e: IndexEntry) -> (r: IndexEntryList)
    ensures
        ({
            let old_es = match entries {
                None => Seq::<(Seq<char>, u64)>::empty(),
                Some(l) => l@,
            };
            &&& old_es.len() < usize::MAX ==> r@ == old_es.push(e@)
            &&& old_es.len() == usize::MAX ==> r@ == old_es
        }),
{
    match entries {
        Some(l) => l.append(e),
        None => IndexEntryList::new().append(e),
    }
}

/// A file's word set with one more word.
fn add_word(set: Option<&Avl<String, u64>>, word: String) -> (r: Avl<String, u64>)
    ensures
        ({
            match set {
                None => r@ == Map::<Seq<char>, u64>::empty().insert(word@, 0u64),
                Some(s) => {
                    &&& s.height() + 2 <= usize::MAX ==> r@ == s@.insert(word@, 0u64)
                    &&& s.height() + 2 > usize::MAX ==> r@ == s@
                },
            }
        }),
{
    match set {
        Some(s) => s.insert(word, 0),
        None => Avl::new().insert(word, 0),
    }
}

impl AvlStorage {
    /// Create an empty index storage.
    pub fn new() -> Self {
        Self {
            intern_pool: InternPool::new(),
            avl: MvccAvl::new(),
            file_words: MvccAvl::new(),
        }
    }

    /// Look up the posting list recorded for a term in a snapshot of the
    /// term map.
    pub fn get_in(snap: &Avl<String, IndexEntryList>, word: &str) -> (r: Option<
        ValueRef<String, IndexEntryList>,
    >)
        ensures
            (match r {
                Some(vr) => snap@.dom().contains(word@) && vr@ == snap@[word@],
                None => !snap@.dom().contains(word@),
            }),
    {
        let w = word.to_owned();
        snap.get(&w)
    }

    /// A snapshot of the term map, for readers that traverse it
    /// independently of concurrent mutation.
    pub fn terms_snapshot(&self) -> Avl<String, IndexEntryList> {
        self.avl.snapshot()
    }

    /// Get the list of postings associated with this term (if any), as of
    /// the moment the snapshot inside is taken.
    pub fn get(&self, word: &str) -> Option<ValueRef<String, IndexEntryList>> {
        let snap = self.avl.snapshot();
        Self::get_in(&snap, word)
    }

    /// Insert a token-path association in the index.
    ///
    /// The file's word set learns the token's value, and the term map
    /// gains a posting for the token at the interned path, as
    /// [`spec_insert_term`] describes.
    pub fn insert(&self, path: &str, token: Token) {
        let value = token.value;
        let offset = token.offset;
        let p = path.to_owned();
        let wv = value.dup();
        self.file_words.upsert(
            p.clone(),
            (|set: Option<&Avl<String, u64>>| add_word(set, wv)),
        );
        let ip = self.intern_pool.intern(&p);
        let e = IndexEntry { path: ip, offset };
        self.avl.upsert(value, (|entries: Option<&IndexEntryList>| push_entry(entries, e)));
    }

    /// Purge the given path from the index.
    ///
    /// The path's word set is looked up and removed, and each of its
    /// words is treated as [`spec_purge_term`] describes: its postings at
    /// the path disappear, and the word itself is dropped from the term
    /// map when no posting is left.
    pub fn purge(&self, path: &str) {
        let p = path.to_owned();
        let ip = self.intern_pool.intern(&p);
        let snap = self.file_words.snapshot();
        let words = match snap.get(&p) {
            Some(r) => r.value().dup(),
            None => {
                return ;
            },
        };
        self.file_words.remove(&p);
        let mut it = words.iter();
        loop
            decreases it@.len(),
        {
            match it.next() {
                None => {
                    return ;
                },
                Some(pair) => {
                    let word = pair.0;
                    let ip2 = ip.dup();
                    self.avl.update(
                        &word,
                        (|l: &IndexEntryList| -> (r: IndexEntryList)
                            ensures
                                r@ == without_path(l@, ip2@),
                            { l.remove(&ip2) }),
                    );
                    let tsnap = self.avl.snapshot();
                    let now_empty = match tsnap.get(&word) {
                        Some(r) => r.value().is_empty(),
                        None => false,
                    };
                    if now_empty {
                        self.avl.remove(&word);
                    }
                },
            }
        }
    }
}

} // verus!
