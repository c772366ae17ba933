use mini_search_engine::{Document, InvertedIndex};

fn doc(title: &str, content: &str, path: &str) -> Document {
    Document::new(title.to_string(), content.to_string(), path.to_string())
}

fn df_of(index: &InvertedIndex, term: &str) -> Option<usize> {
    for (t, plist) in index.index.iter() {
        if t == term {
            return Some(plist.document_frequency);
        }
    }
    None
}

#[test]
fn totals_track_adds_and_removes() {
    let mut idx = InvertedIndex::new();
    assert_eq!(idx.total_documents, 0);

    let a = doc("One", "rust search engine", "a");
    let b = doc("Two", "rust crawler", "b");
    let aid = a.id;
    let bid = b.id;

    idx.add_document(a);
    assert_eq!(idx.total_documents, 1);
    idx.add_document(b);
    assert_eq!(idx.total_documents, 2);

    // document_frequency equals the number of entries in each posting list
    for (_, plist) in idx.index.iter() {
        assert_eq!(plist.document_frequency, plist.term_frequency.len());
    }
    assert_eq!(df_of(&idx, "rust"), Some(2));
    assert_eq!(df_of(&idx, "crawler"), Some(1));

    let removed = idx.remove_document(aid);
    assert!(removed.is_some());
    assert_eq!(removed.unwrap().title, "One");
    assert_eq!(idx.total_documents, 1);
    assert_eq!(df_of(&idx, "rust"), Some(1));
    // "search" and "engine" appeared only in the removed document
    assert_eq!(df_of(&idx, "search"), None);
    assert_eq!(df_of(&idx, "engine"), None);

    let removed = idx.remove_document(bid);
    assert!(removed.is_some());
    assert_eq!(idx.total_documents, 0);
    assert!(idx.index.is_empty());
}

#[test]
fn removing_unknown_id_is_a_no_op() {
    let mut idx = InvertedIndex::new();
    let a = doc("One", "rust search engine", "a");
    idx.add_document(a);

    let before_terms = idx.index.len();
    let r = idx.remove_document(0xdead_beef);
    assert!(r.is_none());
    assert_eq!(idx.total_documents, 1);
    assert_eq!(idx.index.len(), before_terms);
    for (_, plist) in idx.index.iter() {
        assert_eq!(plist.document_frequency, plist.term_frequency.len());
        assert_eq!(plist.document_frequency, 1);
    }
}

#[test]
fn scoring_ranks_higher_frequency_first() {
    let mut idx = InvertedIndex::new();
    let a = doc("A", "rust rust rust", "a");
    let b = doc("B", "rust", "b");
    let aid = a.id;
    let bid = b.id;
    idx.add_document(a);
    idx.add_document(b);

    let results = idx.search("rust");
    assert_eq!(results.len(), 2);
    // Both documents contain "rust", so df == N == 2 and the smoothed idf
    // is exactly one unit (1_000_000 micro). Doc A: (1 + ln 3) * 1;
    // doc B: (1 + ln 1) * 1.
    assert_eq!(results[0], (aid, 2_098_612));
    assert_eq!(results[1], (bid, 1_000_000));
}

#[test]
fn scoring_rare_term_single_document() {
    let mut idx = InvertedIndex::new();
    let a = doc("A", "rust once", "a");
    let b = doc("B", "nothing here", "b");
    let aid = a.id;
    idx.add_document(a);
    idx.add_document(b);

    // df = 1, N = 2: idf = ln(3/2) + 1 ~ 1.405465; tf = 1.
    let results = idx.search("rust");
    assert_eq!(results, vec![(aid, 1_405_465)]);
}

#[test]
fn equal_scores_break_ties_by_ascending_id() {
    let mut idx = InvertedIndex::new();
    let a = doc("A", "same words", "a");
    let b = doc("B", "same words", "b");
    let lo = a.id.min(b.id);
    let hi = a.id.max(b.id);
    idx.add_document(a);
    idx.add_document(b);

    let results = idx.search("same");
    assert_eq!(results.len(), 2);
    assert_eq!(results[0].1, results[1].1);
    assert_eq!(results[0].0, lo);
    assert_eq!(results[1].0, hi);
}

#[test]
fn empty_and_stopword_queries_give_empty_results() {
    let mut idx = InvertedIndex::new();
    idx.add_document(doc("A", "rust search", "a"));

    assert!(idx.search("").is_empty());
    assert!(idx.search("the and or but").is_empty());
    assert!(idx.search("!!!").is_empty());
}

#[test]
fn snapshot_round_trip_preserves_everything() {
    let mut idx = InvertedIndex::new();
    let a = doc("A", "rust rust rust", "path-a");
    let b = doc("B", "rust crawler", "path-b");
    let aid = a.id;
    idx.add_document(a);
    idx.add_document(b);

    let snap = idx.to_snapshot();
    let restored = InvertedIndex::from_snapshot(snap);

    assert_eq!(restored.total_documents, idx.total_documents);
    // same term set
    let mut terms_a: Vec<&String> = idx.index.iter().map(|(t, _)| t).collect();
    let mut terms_b: Vec<&String> = restored.index.iter().map(|(t, _)| t).collect();
    terms_a.sort();
    terms_b.sort();
    assert_eq!(terms_a, terms_b);
    // same posting lists
    for (t, plist) in idx.index.iter() {
        let mut found = false;
        for (t2, plist2) in restored.index.iter() {
            if t2 == t {
                found = true;
                assert_eq!(plist2.document_frequency, plist.document_frequency);
                let mut e1 = plist.term_frequency.clone();
                let mut e2 = plist2.term_frequency.clone();
                e1.sort();
                e2.sort();
                assert_eq!(e1, e2);
            }
        }
        assert!(found, "term missing after round trip");
    }
    // same documents
    let d = restored.get_document(aid).expect("document lost in round trip");
    assert_eq!(d.title, "A");
    assert_eq!(d.content, "rust rust rust");
    assert_eq!(d.path, "path-a");
    // search behaves identically
    assert_eq!(idx.search("rust crawler"), restored.search("rust crawler"));
}

#[test]
fn document_new_derives_word_count_and_text() {
    let d = doc("Title Here", "one two  three\nfour", "p");
    assert_eq!(d.word_count, 4);
    assert_eq!(d.get_text(), "Title Here one two  three\nfour");
}

#[test]
fn document_ids_are_distinct() {
    let a = doc("A", "x", "a");
    let b = doc("B", "x", "b");
    assert_ne!(a.id, b.id);
    assert_ne!(a.id, 0);
}

#[test]
fn title_terms_are_indexed_too() {
    let mut idx = InvertedIndex::new();
    let a = doc("Unusual Heading", "plain body", "a");
    let aid = a.id;
    idx.add_document(a);
    let results = idx.search("unusual");
    assert_eq!(results.len(), 1);
    assert_eq!(results[0].0, aid);
}

#[test]
fn word_count_splits_on_unicode_whitespace() {
    // no-break space and ideographic space separate words too
    let d = doc("T", "one\u{a0}two\u{3000}three", "p");
    assert_eq!(d.word_count, 3);
}
