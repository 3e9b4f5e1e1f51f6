use std::collections::HashSet;

use rofl::sources::{BufferCompletionSource, BufferWordStore};
use rofl::CompletionContext;

fn as_set(words: Vec<String>) -> HashSet<String> {
    words.into_iter().collect()
}

#[test]
fn test_buffer_updater() {
    let mut buffer_store = BufferWordStore::default();

    buffer_store.update(1, vec![String::from("hello"), String::from("world")]);
    buffer_store.update(2, vec![String::from("world")]);

    assert_eq!(HashSet::new(), as_set(buffer_store.get_exact_matches("asdf")));

    let mut hello_match = HashSet::new();
    hello_match.insert(String::from("hello"));
    assert_eq!(hello_match, as_set(buffer_store.get_exact_matches("hel")));
}

#[test]
fn test_removing_line() {
    let mut buffer_store = BufferWordStore::default();

    buffer_store.update(1, vec![String::from("hello"), String::from("world")]);
    buffer_store.update(2, vec![String::from("world")]);
    buffer_store.update(1, vec![String::from("world")]);

    assert_eq!(HashSet::new(), as_set(buffer_store.get_exact_matches("hel")));
}

#[test]
fn test_overwritten_line_drops_word_but_keeps_shared_one() {
    let mut store = BufferWordStore::default();
    store.update(1, vec![String::from("hello"), String::from("world")]);
    store.update(2, vec![String::from("world")]);
    store.update(1, vec![String::from("world")]);

    assert_eq!(HashSet::new(), as_set(store.get_exact_matches("hel")));
    let mut world = HashSet::new();
    world.insert(String::from("world"));
    assert_eq!(world, as_set(store.get_exact_matches("wor")));
}

#[test]
fn test_counts_follow_duplicate_words() {
    let mut store = BufferWordStore::default();
    // the same word twice on one line, once on another
    store.update(1, vec![String::from("dup"), String::from("dup")]);
    store.update(2, vec![String::from("dup")]);
    // dropping the double line must keep the word alive through line 2
    store.update(1, vec![]);
    let mut dup = HashSet::new();
    dup.insert(String::from("dup"));
    assert_eq!(dup, as_set(store.get_exact_matches("du")));
    // dropping the last occurrence removes it
    store.update(2, vec![]);
    assert_eq!(HashSet::new(), as_set(store.get_exact_matches("du")));
}

#[test]
fn test_empty_prefix_returns_every_word() {
    let mut store = BufferWordStore::default();
    store.update(7, vec![String::from("one"), String::from("two")]);
    let all = as_set(store.get_exact_matches(""));
    assert_eq!(all.len(), 2);
    assert!(all.contains("one"));
    assert!(all.contains("two"));
}

#[test]
fn test_buffer_completion_source_roundtrip() {
    let mut source = BufferCompletionSource::new();
    source.record_lines(4, 10, &vec![String::from("alpha beta"), String::from("beta gamma")]);

    let ctx = CompletionContext {
        word: String::from("be"),
        cwd: String::from("."),
        bufnr: 4,
    };
    let completions = source.completions_for(&ctx);
    let words: HashSet<String> = completions.items.into_iter().map(|i| i.word).collect();
    let mut expected = HashSet::new();
    expected.insert(String::from("beta"));
    assert_eq!(expected, words);

    let other = CompletionContext {
        word: String::from("be"),
        cwd: String::from("."),
        bufnr: 99,
    };
    let empty = source.completions_for(&other);
    assert!(empty.items.is_empty());
}
