//! End-to-end scenarios over the indexer.

use indexing::indexer::Indexer;
use indexing::normalise::{LowerCase, Normaliser, StopWords, Unicode};
use indexing::tokenise::SpaceTokeniserFactory;

fn basic_indexer() -> Indexer<SpaceTokeniserFactory> {
    Indexer::new(SpaceTokeniserFactory)
        .with_normaliser(Normaliser::Unicode(Unicode::NFC))
        .with_normaliser(Normaliser::LowerCase(LowerCase))
}

#[test]
fn basic_query() {
    let indexer = basic_indexer();
    indexer.index_text("a.txt", "Hello world");

    let hello = indexer.query("Hello");
    assert!(hello.contains(&"a.txt".to_owned()));
    assert_eq!(hello.len(), 1);

    let world = indexer.query("world");
    assert!(world.contains(&"a.txt".to_owned()));
    assert_eq!(world.len(), 1);

    let missing = indexer.query("missing");
    assert_eq!(missing.len(), 0);
}

#[test]
fn stop_words() {
    let indexer = basic_indexer().with_normaliser(Normaliser::StopWords(StopWords::new(&["the"])));
    indexer.index_text("b.txt", "the cat");

    assert_eq!(indexer.query("the").len(), 0);

    let cat = indexer.query("cat");
    assert!(cat.contains(&"b.txt".to_owned()));
    assert_eq!(cat.len(), 1);
}

#[test]
fn reindex_on_write() {
    let indexer = basic_indexer();
    indexer.index_text("c.txt", "alpha");

    // the file is rewritten: a write event purges and re-indexes it
    indexer.clear_from_index("c.txt");
    indexer.index_text("c.txt", "beta");

    assert_eq!(indexer.query("alpha").len(), 0);

    let beta = indexer.query("beta");
    assert!(beta.contains(&"c.txt".to_owned()));
    assert_eq!(beta.len(), 1);
}

#[test]
fn rename() {
    let indexer = basic_indexer();
    indexer.index_text("d.txt", "gamma");

    indexer.clear_from_index("d.txt");
    indexer.index_text("e.txt", "gamma");

    let gamma = indexer.query("gamma");
    assert!(gamma.contains(&"e.txt".to_owned()));
    assert!(!gamma.contains(&"d.txt".to_owned()));
    assert_eq!(gamma.len(), 1);
}

#[test]
fn purge_is_idempotent() {
    let indexer = basic_indexer();
    indexer.index_text("f.txt", "delta");
    indexer.index_text("g.txt", "delta");

    indexer.clear_from_index("f.txt");
    indexer.clear_from_index("f.txt");

    let delta = indexer.query("delta");
    assert!(delta.contains(&"g.txt".to_owned()));
    assert!(!delta.contains(&"f.txt".to_owned()));
    assert_eq!(delta.len(), 1);
}

#[test]
fn round_trip_leaves_nothing() {
    let indexer = basic_indexer();
    indexer.index_text("h.txt", "epsilon zeta");
    indexer.index_text("i.txt", "zeta");

    indexer.clear_from_index("h.txt");

    // epsilon occurred only in the purged file
    assert_eq!(indexer.query("epsilon").len(), 0);
    // zeta survives in the other file only
    let zeta = indexer.query("zeta");
    assert!(zeta.contains(&"i.txt".to_owned()));
    assert_eq!(zeta.len(), 1);
}

#[test]
fn lowercase_normalises_to_common_form() {
    let indexer = basic_indexer();
    indexer.index_text("j.txt", "HELLO");

    let found = indexer.query("hello");
    assert!(found.contains(&"j.txt".to_owned()));
    assert_eq!(found.len(), 1);
}

#[test]
fn unicode_nfc_unifies_composed_and_decomposed() {
    let indexer = basic_indexer();
    // "e" followed by a combining acute accent
    indexer.index_text("k.txt", "caf\u{0065}\u{0301}");

    // the composed form finds the decomposed one
    let found = indexer.query("caf\u{00e9}");
    assert!(found.contains(&"k.txt".to_owned()));
    assert_eq!(found.len(), 1);
}

#[test]
fn unicode_nfd_unifies_composed_and_decomposed() {
    let indexer = Indexer::new(SpaceTokeniserFactory)
        .with_normaliser(Normaliser::Unicode(Unicode::NFD));
    indexer.index_text("l.txt", "caf\u{00e9}");

    let found = indexer.query("caf\u{0065}\u{0301}");
    assert!(found.contains(&"l.txt".to_owned()));
    assert_eq!(found.len(), 1);
}

#[test]
fn unicode_nfkc_folds_compatibility_forms() {
    let indexer = Indexer::new(SpaceTokeniserFactory)
        .with_normaliser(Normaliser::Unicode(Unicode::NFKC));
    // "fi" ligature
    indexer.index_text("m.txt", "\u{fb01}le");

    let found = indexer.query("file");
    assert!(found.contains(&"m.txt".to_owned()));
    assert_eq!(found.len(), 1);
}

#[test]
fn unicode_nfkd_folds_compatibility_forms() {
    let indexer = Indexer::new(SpaceTokeniserFactory)
        .with_normaliser(Normaliser::Unicode(Unicode::NFKD));
    indexer.index_text("n.txt", "\u{fb01}le");

    let found = indexer.query("file");
    assert!(found.contains(&"n.txt".to_owned()));
    assert_eq!(found.len(), 1);
}

#[test]
fn query_returns_distinct_paths() {
    let indexer = basic_indexer();
    indexer.index_text("o.txt", "eta eta eta");

    let eta = indexer.query("eta");
    assert!(eta.contains(&"o.txt".to_owned()));
    assert_eq!(eta.len(), 1);
}
