use mini_search_engine::{Document, FileCrawler, HtmlNode, InvertedIndex, JsonStorage, SearchEngine};
use mini_search_engine::html::extract_text_content;

fn doc(title: &str, content: &str, path: &str) -> Document {
    Document::new(title.to_string(), content.to_string(), path.to_string())
}

#[test]
fn engine_indexes_searches_and_reports_stats() {
    let mut engine = SearchEngine::new();
    assert_eq!(engine.get_stats(), (0, 0));

    let count = engine.add_documents(vec![
        doc("A", "rust rust rust", "a"),
        doc("B", "rust", "b"),
    ]);
    assert_eq!(count, 2);

    let (docs, terms) = engine.get_stats();
    assert_eq!(docs, 2);
    assert_eq!(terms, 1);

    let results = engine.search("rust", Some(10));
    assert_eq!(results.len(), 2);
    assert_eq!(results[0].document.title, "A");
    assert_eq!(results[0].score, 2_098_612);
    assert_eq!(results[1].document.title, "B");
    assert_eq!(results[1].score, 1_000_000);

    assert!(engine.search("", None).is_empty());
}

#[test]
fn engine_clear_resets_everything() {
    let mut engine = SearchEngine::new();
    engine.add_documents(vec![doc("A", "rust", "a")]);
    assert_eq!(engine.get_stats(), (1, 1));
    engine.clear_index();
    assert_eq!(engine.get_stats(), (0, 0));
    assert!(engine.search("rust", None).is_empty());
}

#[test]
fn engine_lists_all_documents() {
    let mut engine = SearchEngine::new();
    engine.add_documents(vec![doc("A", "one", "a"), doc("B", "two", "b")]);
    let all = engine.list_all_documents();
    assert_eq!(all.len(), 2);
    let titles: Vec<&str> = all.iter().map(|d| d.title.as_str()).collect();
    assert_eq!(titles, vec!["A", "B"]);
}

#[test]
fn engine_save_and_load_round_trip() {
    let mut engine = SearchEngine::new();
    engine.add_documents(vec![doc("A", "rust engine", "a"), doc("B", "rust", "b")]);
    let snap = engine.save_index();
    assert_eq!(snap.total_documents, 2);

    let mut other = SearchEngine::new();
    other.load_index(Some(InvertedIndex::from_snapshot(snap)));
    assert_eq!(other.get_stats(), engine.get_stats());
    let a = engine.search("rust engine", None);
    let b = other.search("rust engine", None);
    assert_eq!(a.len(), b.len());
    for (x, y) in a.iter().zip(b.iter()) {
        assert_eq!(x.document.id, y.document.id);
        assert_eq!(x.score, y.score);
        assert_eq!(x.snippet, y.snippet);
    }

    // loading nothing keeps the current index
    other.load_index(None);
    assert_eq!(other.get_stats(), (2, 2));
}

#[test]
fn file_crawler_selects_extensions_and_builds_documents() {
    let c = FileCrawler::new("/tmp/docs".to_string());
    assert_eq!(c.root_path, "/tmp/docs");

    assert!(FileCrawler::is_indexable_extension(Some("txt")));
    assert!(FileCrawler::is_indexable_extension(Some("md")));
    assert!(!FileCrawler::is_indexable_extension(Some("rs")));
    assert!(!FileCrawler::is_indexable_extension(None));

    let d = FileCrawler::document_from_file(
        Some("notes".to_string()),
        "hello world".to_string(),
        "/tmp/docs/notes.txt".to_string(),
    );
    assert_eq!(d.title, "notes");
    assert_eq!(d.content, "hello world");
    assert_eq!(d.path, "/tmp/docs/notes.txt");
    assert_eq!(d.word_count, 2);

    let d = FileCrawler::document_from_file(None, "x".to_string(), "p".to_string());
    assert_eq!(d.title, "Untitled");
}

#[test]
fn json_storage_keeps_its_path() {
    let s = JsonStorage::new("data/index.json".to_string());
    assert_eq!(s.file_path, "data/index.json");
}

fn text(t: &str) -> HtmlNode {
    HtmlNode::Text(t.to_string())
}

fn elem(tag: &str, attrs: Vec<(&str, &str)>, children: Vec<HtmlNode>) -> HtmlNode {
    HtmlNode::Element {
        tag: tag.to_string(),
        attrs: attrs.into_iter().map(|(k, v)| (k.to_string(), v.to_string())).collect(),
        children,
    }
}

#[test]
fn extraction_prefers_main_content_containers() {
    let tree = elem("html", vec![], vec![
        elem("body", vec![], vec![
            elem("nav", vec![], vec![text("Navigation stuff")]),
            elem("main", vec![], vec![text("The real content")]),
            elem("footer", vec![], vec![text("Footer stuff")]),
        ]),
    ]);
    assert_eq!(extract_text_content(&tree), "The real content");
}

#[test]
fn extraction_falls_back_to_body_then_root() {
    let tree = elem("html", vec![], vec![
        elem("body", vec![], vec![text("Body words"), elem("span", vec![], vec![text("inner")])]),
    ]);
    assert_eq!(extract_text_content(&tree), "Body words inner");

    let bare = elem("div", vec![], vec![text("only this")]);
    assert_eq!(extract_text_content(&bare), "only this");
}

#[test]
fn extraction_matches_content_classes_and_ids() {
    let tree = elem("html", vec![], vec![
        elem("body", vec![], vec![
            elem("div", vec![("class", "sidebar content extra")], vec![text("By class")]),
            elem("div", vec![("id", "content")], vec![text("By id")]),
            elem("div", vec![("role", "main")], vec![text("By role")]),
        ]),
    ]);
    assert_eq!(extract_text_content(&tree), "By class By id By role");
}

#[test]
fn extraction_strips_boilerplate_phrases_and_whitespace() {
    let tree = elem("html", vec![], vec![
        elem("body", vec![], vec![text("Skip to main content  Real   words here Menu")]),
    ]);
    assert_eq!(extract_text_content(&tree), "Real words here");
}

#[test]
fn extraction_skips_containers_that_hold_noise_tags() {
    // the matching <main> contains a <script>, so it is rejected and the
    // body fallback applies (which skips the script subtree itself)
    let tree = elem("html", vec![], vec![
        elem("body", vec![], vec![
            elem("main", vec![], vec![
                text("Wanted"),
                elem("script", vec![], vec![text("var x;")]),
            ]),
        ]),
    ]);
    assert_eq!(extract_text_content(&tree), "Wanted");
}
