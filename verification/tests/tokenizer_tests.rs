use mini_search_engine::Tokenizer;

#[test]
fn tokenizes_mixed_case_and_punctuation() {
    let t = Tokenizer::new();
    let tokens = t.tokenize("The Rust Programming Language!!");
    assert_eq!(tokens, vec![
        "rust".to_string(),
        "programming".to_string(),
        "language".to_string(),
    ]);
}

#[test]
fn empty_input_gives_no_tokens() {
    let t = Tokenizer::new();
    let tokens = t.tokenize("");
    assert!(tokens.is_empty());
}

#[test]
fn stop_words_and_short_runs_are_dropped() {
    let t = Tokenizer::new();
    assert!(t.tokenize("the a an and or but in on at to").is_empty());
    assert!(t.tokenize("ab cd ef").is_empty());
    assert_eq!(t.tokenize("abc"), vec!["abc".to_string()]);
}

#[test]
fn digits_and_punctuation_separate_runs() {
    let t = Tokenizer::new();
    let tokens = t.tokenize("hello42world foo-bar baz_qux");
    assert_eq!(tokens, vec![
        "hello".to_string(),
        "world".to_string(),
        "foo".to_string(),
        "bar".to_string(),
        "baz".to_string(),
        "qux".to_string(),
    ]);
}

#[test]
fn duplicates_keep_input_order() {
    let t = Tokenizer::new();
    let tokens = t.tokenize("rust code rust code rust");
    assert_eq!(tokens, vec![
        "rust".to_string(),
        "code".to_string(),
        "rust".to_string(),
        "code".to_string(),
        "rust".to_string(),
    ]);
}

#[test]
fn default_tokenizer_matches_new() {
    let t: Tokenizer = Default::default();
    assert_eq!(t.tokenize("Verified Search"), vec![
        "verified".to_string(),
        "search".to_string(),
    ]);
}
