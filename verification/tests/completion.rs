use rofl::completor::{rank, Completor, SourceImpl};
use rofl::source::{BufferWords, Counter, Static};
use rofl::Entry;
use rofl::Score;

fn static_source(words: &[&str]) -> SourceImpl {
    let owned: Vec<String> = words.iter().map(|w| w.to_string()).collect();
    SourceImpl::StaticList(Static::new(&owned))
}

#[test]
fn test_entry_score_accepts_subsequence() {
    let e = Entry::new(String::from("hello"), Score::new(0));
    let scored = e.score("hl");
    assert!(scored.is_some());
    assert_eq!(scored.unwrap().contents, "hello");
}

#[test]
fn test_entry_score_rejects_non_match() {
    let e = Entry::new(String::from("hello"), Score::new(0));
    assert!(e.score("xyz").is_none());
}

#[test]
fn test_score_multiple_sorts_ascending_and_filters() {
    let entries = vec![
        Entry::new(String::from("help"), Score::new(0)),
        Entry::new(String::from("hel"), Score::new(0)),
        Entry::new(String::from("world"), Score::new(0)),
    ];
    let scored = Entry::score_multiple(entries, "hel");
    assert_eq!(scored.len(), 2);
    assert!(scored[0].score <= scored[1].score);
    for e in &scored {
        assert_ne!(e.contents, "world");
    }
}

#[test]
fn test_rank_is_descending_and_bounded() {
    let entries = vec![
        Entry::new(String::from("alpha"), Score::new(0)),
        Entry::new(String::from("album"), Score::new(0)),
        Entry::new(String::from("algae"), Score::new(0)),
        Entry::new(String::from("alloy"), Score::new(0)),
        Entry::new(String::from("beta"), Score::new(0)),
    ];
    let ranked = rank(entries, "al", 2);
    assert_eq!(ranked.len(), 2);
    assert!(ranked[0].score >= ranked[1].score);
    for e in &ranked {
        assert!(e.contents.starts_with("al"));
    }
}

#[test]
fn test_counter_source_counts_up() {
    let mut counter = Counter(0);
    let first = counter.get();
    assert_eq!(first.len(), 1);
    assert_eq!(first[0].contents, "The counter is 0");
    let second = counter.get();
    assert_eq!(second[0].contents, "The counter is 1");
    assert_eq!(counter.0, 2);
}

#[test]
fn test_counter_text_with_more_digits() {
    let mut counter = Counter(41);
    let produced = counter.get();
    assert_eq!(produced[0].contents, "The counter is 41");
    assert_eq!(counter.0, 42);
}

#[test]
fn test_buffer_words_source_extracts_words() {
    let mut source = BufferWords::new();
    source.update(&vec![String::from("foo bar,  baz"), String::from("qux")]);
    let entries = source.get();
    let words: Vec<String> = entries.into_iter().map(|e| e.contents).collect();
    assert_eq!(words, vec!["foo", "bar", "baz", "qux"]);
}

#[test]
fn test_static_produce_is_idempotent() {
    let owned: Vec<String> = vec![String::from("one"), String::from("two")];
    let source = Static::new(&owned);
    let first = source.get();
    let second = source.get();
    assert_eq!(first, second);
    assert_eq!(first.len(), 2);
}

#[test]
fn test_register_replaces_same_name() {
    let mut completor = Completor::new(5);
    completor.register(String::from("static"), static_source(&["a"]));
    completor.register(String::from("static"), static_source(&["b"]));
    completor.register(String::from("counter"), SourceImpl::Counter(Counter(0)));
    assert_eq!(completor.sources.len(), 2);
}

#[test]
fn test_user_match_accumulates_and_space_clears() {
    let mut completor = Completor::new(5);
    completor.set_boundary_char('a');
    completor.update_user_match();
    completor.set_boundary_char('l');
    completor.update_user_match();
    assert_eq!(completor.user_match, "al");
    completor.set_boundary_char(' ');
    completor.update_user_match();
    assert_eq!(completor.user_match, "");
}

#[test]
fn test_insert_leave_clears_user_match() {
    let mut completor = Completor::new(5);
    completor.set_boundary_char('x');
    completor.update_user_match();
    assert_eq!(completor.user_match, "x");
    completor.insert_leave();
    assert_eq!(completor.user_match, "");
}

#[test]
fn test_cancellation_only_newest_cycle_delivers() {
    let mut completor = Completor::new(5);
    completor.register(String::from("static"), static_source(&["alpha", "beta"]));

    // cycle A starts, but B supersedes it before A's sources finish
    let token_a = completor.begin_cycle();
    let collected_a = completor.produce_all();
    let token_b = completor.begin_cycle();
    let collected_b = completor.produce_all();

    // whatever the interleaving of deliveries, A can never deliver
    assert!(completor.finish_cycle(token_a, collected_a.clone()).is_none());
    let delivered = completor.finish_cycle(token_b, collected_b.clone());
    assert!(delivered.is_some());
    assert!(completor.finish_cycle(token_a, collected_a).is_none());

    // a third cycle supersedes B as well
    let _token_c = completor.begin_cycle();
    assert!(completor.finish_cycle(token_b, collected_b).is_none());
}

#[test]
fn test_end_to_end_static_completion() {
    let mut completor = Completor::new(5);
    completor.register(
        String::from("static"),
        static_source(&["alpha", "album", "beta"]),
    );
    completor.set_boundary_char('a');
    completor.update_user_match();
    completor.set_boundary_char('l');
    completor.update_user_match();

    let entries = completor.complete();
    let words: Vec<&str> = entries.iter().map(|e| e.contents.as_str()).collect();
    assert_eq!(entries.len(), 2);
    assert!(words.contains(&"alpha"));
    assert!(words.contains(&"album"));
    assert!(entries[0].score >= entries[1].score);
}

#[test]
fn test_complete_truncates_to_limit() {
    let mut completor = Completor::new(2);
    completor.register(
        String::from("static"),
        static_source(&["alpha", "album", "algae", "alloy"]),
    );
    completor.set_boundary_char('a');
    completor.update_user_match();
    let entries = completor.complete();
    assert_eq!(entries.len(), 2);
    assert!(entries[0].score >= entries[1].score);
}
