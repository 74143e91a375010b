//! Tests for the tokeniser and the live-maintenance decisions.

use indexing::live_indexer::{actions_for_event, FileEvent, IndexingAction};
use indexing::tokenise::{RegexTokeniser, SpaceTokeniser, Token, Tokeniser};

#[test]
fn word_tokeniser_splits_by_whitespace() {
    let input = "one\ntwo    three";
    let mut tokeniser = SpaceTokeniser::new();

    let t = tokeniser.read_token(input).unwrap();
    assert_eq!(t.value, "one");
    assert_eq!(t.offset, 0);

    let t = tokeniser.read_token(input).unwrap();
    assert_eq!(t.value, "two");
    assert_eq!(t.offset, 4);

    let t = tokeniser.read_token(input).unwrap();
    assert_eq!(t.value, "three");
    assert_eq!(t.offset, 11);

    assert!(tokeniser.read_token(input).is_none());
}

#[test]
fn word_tokeniser_offsets_count_bytes() {
    // "ñ" takes two bytes, so the second token starts at byte 5
    let input = "a\u{00f1} b";
    let mut tokeniser = SpaceTokeniser::new();

    let t = tokeniser.read_token(input).unwrap();
    assert_eq!(t.value, "a\u{00f1}");
    assert_eq!(t.offset, 0);

    let t = tokeniser.read_token(input).unwrap();
    assert_eq!(t.value, "b");
    assert_eq!(t.offset, 4);

    assert!(tokeniser.read_token(input).is_none());
}

#[test]
fn token_constructors_keep_their_fields() {
    let t = Token::new("word".to_owned());
    assert_eq!(t.value, "word");
    assert_eq!(t.offset, 0);

    let t = Token::with_offset_at("word".to_owned(), 7);
    assert_eq!(t.value, "word");
    assert_eq!(t.offset, 7);
}

fn paths(acts: &[IndexingAction]) -> Vec<(&'static str, String)> {
    acts.iter()
        .map(|a| match a {
            IndexingAction::Add { path } => ("add", path.clone()),
            IndexingAction::AddDir { path } => ("add_dir", path.clone()),
            IndexingAction::Remove { path } => ("remove", path.clone()),
            IndexingAction::RemoveDir { path } => ("remove_dir", path.clone()),
        })
        .collect()
}

#[test]
fn write_event_purges_then_indexes() {
    let acts = actions_for_event(FileEvent::Write("p".to_owned()));
    assert_eq!(
        paths(&acts),
        vec![("remove", "p".to_owned()), ("add", "p".to_owned())]
    );
}

#[test]
fn create_event_indexes() {
    let acts = actions_for_event(FileEvent::Create("p".to_owned()));
    assert_eq!(paths(&acts), vec![("add", "p".to_owned())]);
}

#[test]
fn remove_event_purges() {
    let acts = actions_for_event(FileEvent::Remove("p".to_owned()));
    assert_eq!(paths(&acts), vec![("remove", "p".to_owned())]);
}

#[test]
fn rename_event_purges_old_and_indexes_new() {
    let acts = actions_for_event(FileEvent::Rename("old".to_owned(), "new".to_owned()));
    assert_eq!(
        paths(&acts),
        vec![("remove", "old".to_owned()), ("add", "new".to_owned())]
    );
}

#[test]
fn ignorable_events_queue_nothing() {
    assert!(actions_for_event(FileEvent::Rescan).is_empty());
    assert!(actions_for_event(FileEvent::Chmod("p".to_owned())).is_empty());
    assert!(actions_for_event(FileEvent::NoticeWrite("p".to_owned())).is_empty());
    assert!(actions_for_event(FileEvent::NoticeRemove("p".to_owned())).is_empty());
    assert!(actions_for_event(FileEvent::Failure(None)).is_empty());
}

#[test]
fn regex_tokeniser_splits_by_regex() {
    let input = "one, two\n[] three";
    let mut tokeniser = RegexTokeniser::new(r"\W+").unwrap();

    let t = tokeniser.read_token(input).unwrap();
    assert_eq!(t.value, "one");
    assert_eq!(t.offset, 0);

    let t = tokeniser.read_token(input).unwrap();
    assert_eq!(t.value, "two");
    assert_eq!(t.offset, 5);

    let t = tokeniser.read_token(input).unwrap();
    assert_eq!(t.value, "three");
    assert_eq!(t.offset, 12);

    assert!(tokeniser.read_token(input).is_none());
}
