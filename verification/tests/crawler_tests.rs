use mini_search_engine::{Document, Frontier, HtmlNode, UrlParts, WebCrawler};
use mini_search_engine::web_crawler::{parse_seeds, website_crawler, CrawlConfigError, page_document};

fn doc(title: &str) -> Document {
    Document::new(title.to_string(), "body".to_string(), "origin".to_string())
}

fn text(t: &str) -> HtmlNode {
    HtmlNode::Text(t.to_string())
}

fn elem(tag: &str, attrs: Vec<(&str, &str)>, children: Vec<HtmlNode>) -> HtmlNode {
    HtmlNode::Element {
        tag: tag.to_string(),
        attrs: attrs.into_iter().map(|(k, v)| (k.to_string(), v.to_string())).collect(),
        children,
    }
}

fn start_frontier(crawler: &WebCrawler, seeds: Vec<&str>) -> Frontier {
    let urls: Vec<String> = seeds.into_iter().map(|s| s.to_string()).collect();
    crawler.start_crawl(&urls)
}

#[test]
fn seeds_that_do_not_parse_are_dropped() {
    let parts = parse_seeds(&vec!["http://example.com".to_string(), "not a url".to_string()]);
    assert_eq!(parts.len(), 1);
    // the url crate normalizes the serialization
    assert_eq!(parts[0].url, "http://example.com/");
    assert_eq!(parts[0].domain.as_deref(), Some("example.com"));
    assert_eq!(parts[0].scheme, "http");
}

#[test]
fn domain_scoping_never_hands_out_foreign_urls() {
    let crawler = WebCrawler::new().with_allowed_domains(vec!["example.com".to_string()]);
    let mut f = start_frontier(&crawler, vec!["http://example.com/", "http://other.com/"]);

    let first = f.next_url().expect("allowed seed should come out");
    assert_eq!(first.domain.as_deref(), Some("example.com"));

    // a discovered link to other.com is enqueued but never handed out
    let links = parse_seeds(&vec![
        "http://other.com/page".to_string(),
        "http://example.com/page".to_string(),
    ]);
    f.record_success(doc("root"), links);

    let second = f.next_url().expect("allowed link should come out");
    assert_eq!(second.url, "http://example.com/page");
    assert_eq!(second.domain.as_deref(), Some("example.com"));

    // nothing else is allowed
    assert!(f.next_url().is_none());
}

#[test]
fn crawl_budget_caps_documents_at_max_pages() {
    // a page graph with five reachable pages but a budget of two
    let crawler = WebCrawler::new().with_max_pages(2);
    let mut f = start_frontier(&crawler, vec!["http://site.test/1"]);

    let mut produced = 0;
    let mut next_page = 2;
    while let Some(_target) = f.next_url() {
        let links = parse_seeds(&vec![
            format!("http://site.test/{}", next_page),
            format!("http://site.test/{}", next_page + 1),
        ]);
        next_page += 2;
        f.record_success(doc("page"), links);
        produced += 1;
        assert!(produced <= 2);
    }
    let docs = f.into_documents();
    assert_eq!(docs.len(), 2);
}

#[test]
fn visited_urls_are_never_handed_out_twice() {
    let crawler = WebCrawler::new();
    let mut f = start_frontier(&crawler, vec![
        "http://a.test/",
        "http://a.test/",
        "http://b.test/",
    ]);
    let first = f.next_url().unwrap();
    assert_eq!(first.url, "http://a.test/");
    // the duplicate seed is skipped
    let second = f.next_url().unwrap();
    assert_eq!(second.url, "http://b.test/");
    assert!(f.next_url().is_none());
}

#[test]
fn builder_configuration_is_kept() {
    let c = WebCrawler::new();
    assert_eq!(c.max_pages, 100);
    assert_eq!(c.delay_ms, 1000);
    assert!(c.allowed_domains.is_empty());
    let c = c.with_max_pages(7).with_delay(250).with_allowed_domains(vec!["x.org".to_string()]);
    assert_eq!(c.max_pages, 7);
    assert_eq!(c.delay_ms, 250);
    assert_eq!(c.allowed_domains, vec!["x.org".to_string()]);
}

#[test]
fn website_crawler_reports_configuration_errors() {
    match website_crawler("not a url", None) {
        Err(CrawlConfigError::InvalidUrl) => {},
        other => panic!("expected InvalidUrl, got {:?}", other.map(|c| c.max_pages)),
    }
    match website_crawler("http://127.0.0.1/", None) {
        Err(CrawlConfigError::NoDomain) => {},
        other => panic!("expected NoDomain, got {:?}", other.map(|c| c.max_pages)),
    }
    let c = website_crawler("http://example.com/start", Some(9)).expect("valid base URL");
    assert_eq!(c.max_pages, 9);
    assert_eq!(c.delay_ms, 2000);
    assert_eq!(c.allowed_domains, vec!["example.com".to_string()]);
    let c = website_crawler("http://example.com/start", None).expect("valid base URL");
    assert_eq!(c.max_pages, 50);
}

#[test]
fn page_document_extracts_title_links_and_text() {
    let tree = elem("html", vec![], vec![
        elem("head", vec![], vec![elem("title", vec![], vec![text("My Page")])]),
        elem("body", vec![], vec![
            text("Hello world"),
            elem("a", vec![("href", "/next")], vec![text("next")]),
            elem("a", vec![("href", "ftp://example.com/file")], vec![text("file")]),
            elem("script", vec![], vec![text("var x = 1;")]),
        ]),
    ]);
    let base = UrlParts {
        url: "http://example.com/".to_string(),
        domain: Some("example.com".to_string()),
        scheme: "http".to_string(),
    };
    let (d, links) = page_document(&tree, &base);
    assert_eq!(d.title, "My Page");
    assert_eq!(d.path, "http://example.com/");
    // head and script subtrees carry no readable text; the ftp link's own
    // text is still readable
    assert_eq!(d.content, "Hello world next file");
    // only http/https links survive, resolved against the base
    assert_eq!(links.len(), 1);
    assert_eq!(links[0].url, "http://example.com/next");
}

#[test]
fn page_document_falls_back_to_url_for_missing_title() {
    let tree = elem("html", vec![], vec![elem("body", vec![], vec![text("content words")])]);
    let base = UrlParts {
        url: "http://example.com/x".to_string(),
        domain: Some("example.com".to_string()),
        scheme: "http".to_string(),
    };
    let (d, links) = page_document(&tree, &base);
    assert_eq!(d.title, "http://example.com/x");
    assert_eq!(d.content, "content words");
    assert!(links.is_empty());
}

#[test]
fn frontier_hands_out_urls_in_fifo_order() {
    let crawler = WebCrawler::new();
    let mut f = start_frontier(&crawler, vec![
        "http://a.test/",
        "http://b.test/",
        "http://c.test/",
    ]);
    assert_eq!(f.next_url().unwrap().url, "http://a.test/");
    // links discovered from the first page join the back of the queue
    let links = parse_seeds(&vec!["http://d.test/".to_string()]);
    f.record_success(doc("a"), links);
    assert_eq!(f.next_url().unwrap().url, "http://b.test/");
    assert_eq!(f.next_url().unwrap().url, "http://c.test/");
    assert_eq!(f.next_url().unwrap().url, "http://d.test/");
    assert!(f.next_url().is_none());
}

#[test]
fn skipped_entries_do_not_disturb_queue_order() {
    let crawler = WebCrawler::new().with_allowed_domains(vec!["ok.test".to_string()]);
    let mut f = start_frontier(&crawler, vec![
        "http://no.test/",
        "http://ok.test/1",
        "http://no.test/2",
        "http://ok.test/2",
    ]);
    assert_eq!(f.next_url().unwrap().url, "http://ok.test/1");
    assert_eq!(f.next_url().unwrap().url, "http://ok.test/2");
    assert!(f.next_url().is_none());
}
