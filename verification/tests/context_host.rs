use rofl::context::{ArgValue, ContextError};
use rofl::host::{completion_words, entry_texts, find_start, merge_completions};
use rofl::iskeyword::transform;
use rofl::sources::{CompletionItem, Completions, FileCompletionSource};
use rofl::{CompletionContext, Entry, Score, SourceContext};

fn str_arg(s: &str) -> ArgValue {
    ArgValue::Str(String::from(s))
}

#[test]
fn test_completion_context_from_args() {
    let map = vec![
        (str_arg("word"), str_arg("he")),
        (str_arg("cwd"), str_arg("/tmp")),
        (str_arg("bufnr"), ArgValue::Int(3)),
    ];
    let ctx = CompletionContext::from_args(&map).unwrap();
    assert_eq!(ctx.word, "he");
    assert_eq!(ctx.cwd, "/tmp");
    assert_eq!(ctx.bufnr, 3);
}

#[test]
fn test_completion_context_missing_key_fails() {
    let map = vec![(str_arg("word"), str_arg("he"))];
    let err = CompletionContext::from_args(&map).unwrap_err();
    assert_eq!(err, ContextError::MissingContext);
}

#[test]
fn test_completion_context_wrong_shape_fails() {
    let map = vec![
        (str_arg("word"), ArgValue::Int(1)),
        (str_arg("cwd"), str_arg("/tmp")),
        (str_arg("bufnr"), ArgValue::Int(3)),
    ];
    assert_eq!(
        CompletionContext::from_args(&map).unwrap_err(),
        ContextError::MissingContext
    );
}

#[test]
fn test_source_context_flags() {
    let map = vec![
        (str_arg("file"), ArgValue::Bool(true)),
        (str_arg("buffer"), ArgValue::Nil),
    ];
    let sc = SourceContext::from_args(&map).unwrap();
    assert!(sc.file);
    assert!(!sc.buffer);
}

#[test]
fn test_source_context_later_binding_wins() {
    let map = vec![
        (str_arg("buffer"), ArgValue::Bool(true)),
        (str_arg("buffer"), ArgValue::Bool(false)),
    ];
    let sc = SourceContext::from_args(&map).unwrap();
    assert!(!sc.buffer);
}

#[test]
fn test_source_context_non_string_key_fails() {
    let map = vec![(ArgValue::Int(1), ArgValue::Bool(true))];
    assert_eq!(
        SourceContext::from_args(&map).unwrap_err(),
        ContextError::MissingContext
    );
}

#[test]
fn test_find_start_without_matcher() {
    assert_eq!(find_start(&None, "hello", 3), -1);
}

#[test]
fn test_find_start_subtracts_one_for_host_indexing() {
    let matcher = transform("97-122");
    // cursor on the 'o' of "world": the word starts at offset 6
    assert_eq!(find_start(&Some(matcher), "hello world", 7), 5);
}

#[test]
fn test_file_listing_filters_by_tail() {
    let paths = vec![
        String::from("dir/alpha.txt"),
        String::from("dir/beta.rs"),
        String::from("dir/alamo.md"),
    ];
    let tail = Some(String::from("al"));
    let completions = FileCompletionSource::complete_listing(&paths, "dir", &tail);
    let words: Vec<String> = completions.items.into_iter().map(|i| i.word).collect();
    assert_eq!(words, vec!["alpha.txt", "alamo.md"]);
}

#[test]
fn test_target_dir_resolution() {
    let with_parent = CompletionContext {
        word: String::from("src/ma"),
        cwd: String::from("."),
        bufnr: 1,
    };
    assert_eq!(FileCompletionSource::target_dir(&with_parent), "src");

    let bare = CompletionContext {
        word: String::from("README.m"),
        cwd: String::from("."),
        bufnr: 1,
    };
    assert_eq!(FileCompletionSource::target_dir(&bare), ".");
    assert_eq!(
        FileCompletionSource::target_tail(&bare),
        Some(String::from("README.m"))
    );
}

#[test]
fn test_merge_and_serialize() {
    let file = Completions {
        items: vec![CompletionItem {
            word: String::from("a.txt"),
        }],
    };
    let buffer = Completions {
        items: vec![CompletionItem {
            word: String::from("alpha"),
        }],
    };
    let merged = merge_completions(Some(file), Some(buffer));
    let words = completion_words(&merged);
    assert_eq!(words, vec!["a.txt", "alpha"]);

    let none = merge_completions(None, None);
    assert!(completion_words(&none).is_empty());
}

#[test]
fn test_entry_texts_keeps_order() {
    let entries = vec![
        Entry::new(String::from("b"), Score::new(2)),
        Entry::new(String::from("a"), Score::new(1)),
    ];
    let texts = entry_texts(&entries);
    assert_eq!(texts, vec!["b", "a"]);
}
