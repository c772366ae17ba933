use mini_search_engine::{Document, InvertedIndex, TfIdfRanker};

fn doc(title: &str, content: &str, path: &str) -> Document {
    Document::new(title.to_string(), content.to_string(), path.to_string())
}

#[test]
fn snippet_starts_ten_words_before_match() {
    let content = "a b c d e f g h i j k rust l m";
    // "rust" is word index 11, so the snippet starts at word 1 and opens
    // with an ellipsis.
    let s = TfIdfRanker::generate_snippet(content, "rust", 150);
    assert_eq!(s, "...b c d e f g h i j k rust l m");
}

#[test]
fn snippet_with_early_match_starts_at_word_zero() {
    let content = "rust is a systems language";
    let s = TfIdfRanker::generate_snippet(content, "rust", 150);
    assert_eq!(s, "rust is a systems language");
}

#[test]
fn snippet_without_match_starts_at_word_zero() {
    let content = "plain words only here";
    let s = TfIdfRanker::generate_snippet(content, "zebra", 150);
    assert_eq!(s, "plain words only here");
}

#[test]
fn snippet_empty_content_is_empty() {
    assert_eq!(TfIdfRanker::generate_snippet("", "rust", 150), "");
}

#[test]
fn snippet_match_is_case_insensitive_substring() {
    let content = "We love RUSTACEANS around";
    let s = TfIdfRanker::generate_snippet(content, "rust", 150);
    assert_eq!(s, "We love RUSTACEANS around");
}

#[test]
fn snippet_respects_length_budget() {
    let content = "alpha beta gamma delta epsilon";
    // budget 12: "alpha" (5), then " beta" would need 5+1+4+1 > 12? The rule
    // counts word length plus one: 5 + 4 + 1 = 10 <= 12, so "alpha beta"
    // (10 chars); "gamma": 10 + 5 + 1 > 12 stops.
    let s = TfIdfRanker::generate_snippet(content, "alpha", 12);
    assert_eq!(s, "alpha beta");
}

#[test]
fn snippet_marks_cut_off_when_budget_is_reached() {
    let content = "abcd efgh ijkl";
    // budget 9: "abcd" (4), then 4 + 4 + 1 = 9 <= 9: "abcd efgh" (9 == budget)
    // -> trailing ellipsis.
    let s = TfIdfRanker::generate_snippet(content, "abcd", 9);
    assert_eq!(s, "abcd efgh...");
}

#[test]
fn rank_documents_limits_and_orders_results() {
    let mut idx = InvertedIndex::new();
    let a = doc("A", "rust rust rust", "a");
    let b = doc("B", "rust rust", "b");
    let c = doc("C", "rust", "c");
    let (aid, bid) = (a.id, b.id);
    idx.add_document(a);
    idx.add_document(b);
    idx.add_document(c);

    let top2 = TfIdfRanker::rank_documents(&idx, "rust", Some(2));
    assert_eq!(top2.len(), 2);
    assert_eq!(top2[0].document.id, aid);
    assert_eq!(top2[1].document.id, bid);
    assert!(top2[0].score > top2[1].score);

    let all = TfIdfRanker::rank_documents(&idx, "rust", None);
    assert_eq!(all.len(), 3);
    assert_eq!(all[0].document.title, "A");
    assert_eq!(all[2].document.title, "C");
}

#[test]
fn rank_documents_builds_snippets_from_content() {
    let mut idx = InvertedIndex::new();
    idx.add_document(doc("Doc", "a b c d e f g h i j k rust l m", "p"));
    let results = TfIdfRanker::rank_documents(&idx, "rust", None);
    assert_eq!(results.len(), 1);
    assert_eq!(results[0].snippet, "...b c d e f g h i j k rust l m");
}

#[test]
fn rank_documents_empty_query_is_empty() {
    let mut idx = InvertedIndex::new();
    idx.add_document(doc("Doc", "rust", "p"));
    assert!(TfIdfRanker::rank_documents(&idx, "", None).is_empty());
    assert!(TfIdfRanker::rank_documents(&idx, "the", None).is_empty());
}
