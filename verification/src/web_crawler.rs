//! The breadth-first web crawler: a FIFO frontier of discovered URLs, a
//! visited set, domain scoping against an allow-list, and a page budget.
//! Fetching is the caller's job: the frontier hands out the next URL to
//! fetch and takes back the produced document and discovered links.

use vstd::prelude::*;
use crate::document::Document;
use crate::html::{HtmlNode, first_title_node, page_text, hrefs_node, extract_text_content, find_title, collect_hrefs};
use crate::urls::{UrlParts, parts_model, url_parse_spec, url_join_spec, parse_url, join_url, domain_allowed, is_allowed_domain};

verus! {

/// Crawl configuration: page budget, politeness delay, and an optional
/// domain allow-list (empty = unrestricted).
pub struct WebCrawler {
    pub max_pages: usize,
    pub delay_ms: u64,
    pub allowed_domains: Vec<String>,
}

impl WebCrawler {
    pub fn new() -> (r: WebCrawler)
        ensures
            r.max_pages == 100,
            r.delay_ms == 1000,
            r.allowed_domains@.len() == 0,
    {
        WebCrawler { max_pages: 100, delay_ms: 1000, allowed_domains: Vec::new() }
    }

    pub fn with_max_pages(self, max_pages: usize) -> (r: WebCrawler)
        ensures
            r.max_pages == max_pages,
            r.delay_ms == self.delay_ms,
            r.allowed_domains == self.allowed_domains,
    {
        WebCrawler { max_pages, ..self }
    }

    pub fn with_delay(self, delay_ms: u64) -> (r: WebCrawler)
        ensures
            r.max_pages == self.max_pages,
            r.delay_ms == delay_ms,
            r.allowed_domains == self.allowed_domains,
    {
        WebCrawler { delay_ms, ..self }
    }

    pub fn with_allowed_domains(self, domains: Vec<String>) -> (r: WebCrawler)
        ensures
            r.max_pages == self.max_pages,
            r.delay_ms == self.delay_ms,
            r.allowed_domains == domains,
    {
        WebCrawler { allowed_domains: domains, ..self }
    }

    /// A fresh frontier for this configuration, seeded with the given URLs;
    /// seeds that do not parse are silently dropped.
    pub fn start_crawl(&self, start_urls: &Vec<String>) -> (f: Frontier)
        ensures
            f.wf(),
            f.documents@.len() == 0,
            f.pages_crawled == 0,
            f.max_pages == self.max_pages,
            f.allowed_domains@ == self.allowed_domains@,
            f.visited@.len() == 0,
            f.queue@.map_values(|p: UrlParts| parts_model(p)) == parse_seeds_spec(
                start_urls.deep_view(),
            ),
    {
        let mut queue: Vec<UrlParts> = Vec::new();
        let mut i: usize = 0;
        proof {
            assert(queue@.map_values(|p: UrlParts| parts_model(p)) =~= parse_seeds_spec(
                start_urls.deep_view().take(0),
            ));
        }
        while i < start_urls.len()
            invariant
                i <= start_urls@.len(),
                queue@.map_values(|p: UrlParts| parts_model(p)) == parse_seeds_spec(
                    start_urls.deep_view().take(i as int),
                ),
            decreases start_urls@.len() - i,
        {
            proof {
                assert(start_urls@[i as int].deep_view() == start_urls@[i as int]@);
                assert(start_urls.deep_view()[i as int] == start_urls@[i as int]@);
                assert(start_urls.deep_view().take(i + 1 as int).drop_last()
                    =~= start_urls.deep_view().take(i as int));
                assert(start_urls.deep_view().take(i + 1 as int).last()
                    == start_urls.deep_view()[i as int]);
            }
            let ghost pre = queue@;
            match parse_url(start_urls[i].as_str()) {
                Some(p) => {
                    queue.push(p);
                    proof {
                        assert(queue@.map_values(|p: UrlParts| parts_model(p)) =~= pre.map_values(
                            |p: UrlParts| parts_model(p),
                        ).push(parts_model(queue@.last())));
                    }
                },
                None => {},
            }
            proof {
                assert(queue@.map_values(|p: UrlParts| parts_model(p)) =~= parse_seeds_spec(
                    start_urls.deep_view().take(i + 1 as int),
                ));
            }
            i += 1;
        }
        proof {
            assert(start_urls.deep_view().take(start_urls@.len() as int)
                =~= start_urls.deep_view());
        }
        Frontier {
            queue,
            visited: Vec::new(),
            documents: Vec::new(),
            pages_crawled: 0,
            max_pages: self.max_pages,
            allowed_domains: clone_strings(&self.allowed_domains),
        }
    }
}

impl Default for WebCrawler {
    /// The default configuration: 100 pages, one second between requests, no
    /// domain restriction.
    fn default() -> (r: WebCrawler)
        ensures
            r.max_pages == 100,
            r.delay_ms == 1000,
            r.allowed_domains@.len() == 0,
    {
        WebCrawler::new()
    }
}

/// The models of the seed URLs that parse, in order.
pub open spec fn parse_seeds_spec(urls: Seq<Seq<char>>) -> Seq<
    (Seq<char>, Option<Seq<char>>, Seq<char>),
>
    decreases urls.len(),
{
    if urls.len() == 0 {
        Seq::empty()
    } else {
        parse_seeds_spec(urls.drop_last()) + (match url_parse_spec(urls.last()) {
            Some(t) => seq![t],
            None => Seq::empty(),
        })
    }
}

/// A copy of a string list.
fn clone_strings(v: &Vec<String>) -> (r: Vec<String>)
    ensures
        r@ == v@,
{
    let mut r: Vec<String> = Vec::new();
    let mut i: usize = 0;
    while i < v.len()
        invariant
            i <= v@.len(),
            r@ == v@.take(i as int),
        decreases v@.len() - i,
    {
        r.push(v[i].clone());
        proof {
            assert(v@.take(i + 1 as int) =~= v@.take(i as int).push(v@[i as int]));
        }
        i += 1;
    }
    proof {
        assert(v@.take(v@.len() as int) =~= v@);
        assert(r@ =~= v@);
    }
    r
}

/// The crawl frontier: queued URLs, the visited set, the documents produced
/// so far, and the page budget. Scoped to one crawl and discarded after.
pub struct Frontier {
    /// FIFO queue of discovered, not yet attempted URLs.
    pub queue: Vec<UrlParts>,
    /// Normalized URLs already handed out for fetching.
    pub visited: Vec<String>,
    /// Documents produced so far.
    pub documents: Vec<Document>,
    /// Pages successfully crawled so far.
    pub pages_crawled: usize,
    /// Crawl stops once this many pages were produced.
    pub max_pages: usize,
    /// Optional domain allow-list; empty admits everything.
    pub allowed_domains: Vec<String>,
}

impl Frontier {
    /// The crawl budget invariant: one document per crawled page, never more
    /// than the budget.
    pub open spec fn wf(&self) -> bool {
        self.documents@.len() == self.pages_crawled && self.pages_crawled <= self.max_pages
    }

    /// The number of produced documents never exceeds the page budget.
    pub proof fn lemma_budget(&self)
        requires
            self.wf(),
        ensures
            self.documents@.len() <= self.max_pages,
    {
    }

    fn visited_contains(&self, url: &String) -> (r: bool)
        ensures
            r == self.visited.deep_view().contains(url@),
    {
        let mut i: usize = 0;
        while i < self.visited.len()
            invariant
                i <= self.visited@.len(),
                forall|j: int| 0 <= j < i ==> self.visited.deep_view()[j] != url@,
            decreases self.visited@.len() - i,
        {
            proof {
                assert(self.visited@[i as int].deep_view() == self.visited@[i as int]@);
                assert(self.visited.deep_view()[i as int] == self.visited@[i as int]@);
            }
            if self.visited[i] == *url {
                proof {
                    assert(self.visited.deep_view().contains(url@));
                }
                return true;
            }
            i += 1;
        }
        proof {
            if self.visited.deep_view().contains(url@) {
                let j = choose|j: int|
                    0 <= j < self.visited.deep_view().len() && self.visited.deep_view()[j] == url@;
                assert(self.visited.deep_view()[j] != url@);
            }
        }
        false
    }

    /// A queue entry the dequeue loop passes over without fetching: it was
    /// already visited, or its domain is not on the allow-list.
    pub open spec fn skips(&self, p: UrlParts) -> bool {
        self.visited.deep_view().contains(p.url@) || !domain_allowed(
            parts_model(p).1,
            self.allowed_domains.deep_view(),
        )
    }

    /// Hands out the next URL to fetch: pops queued URLs front to back,
    /// skipping those already visited and those whose domain the allow-list
    /// refuses, and marks the returned URL visited. The returned URL is the
    /// first queued one that is not skipped; everything before it is
    /// dropped, everything after it stays queued, in order. Returns nothing
    /// once the budget is spent (queue untouched) or the queue holds only
    /// skipped entries (queue drained). A URL whose domain is not allowed is
    /// never handed out, and no URL is handed out twice.
    pub fn next_url(&mut self) -> (r: Option<UrlParts>)
        requires
            old(self).wf(),
        ensures
            final(self).wf(),
            final(self).documents == old(self).documents,
            final(self).pages_crawled == old(self).pages_crawled,
            final(self).max_pages == old(self).max_pages,
            final(self).allowed_domains == old(self).allowed_domains,
            match r {
                Some(p) => {
                    &&& old(self).pages_crawled < old(self).max_pages
                    &&& domain_allowed(
                        parts_model(p).1,
                        old(self).allowed_domains.deep_view(),
                    )
                    &&& !old(self).visited.deep_view().contains(p.url@)
                    &&& final(self).visited.deep_view() == old(self).visited.deep_view().push(
                        p.url@,
                    )
                    &&& exists|k: int|
                        {
                            &&& 0 <= k < old(self).queue@.len()
                            &&& #[trigger] old(self).queue@[k] == p
                            &&& final(self).queue@ == old(self).queue@.skip(k + 1)
                            &&& forall|j: int| 0 <= j < k ==> old(self).skips(old(self).queue@[j])
                        }
                },
                None => if old(self).pages_crawled >= old(self).max_pages {
                    *final(self) == *old(self)
                } else {
                    &&& final(self).visited == old(self).visited
                    &&& final(self).queue@.len() == 0
                    &&& forall|j: int|
                        0 <= j < old(self).queue@.len() ==> old(self).skips(
                            #[trigger] old(self).queue@[j],
                        )
                },
            },
    {
        if self.pages_crawled >= self.max_pages {
            return None;
        }
        let ghost mut dropped: int = 0;
        proof {
            assert(self.queue@ =~= old(self).queue@.skip(0));
        }
        while self.queue.len() > 0
            invariant
                self.wf(),
                self.documents == old(self).documents,
                self.pages_crawled == old(self).pages_crawled,
                self.max_pages == old(self).max_pages,
                self.allowed_domains == old(self).allowed_domains,
                self.visited == old(self).visited,
                self.pages_crawled < self.max_pages,
                0 <= dropped <= old(self).queue@.len(),
                self.queue@ == old(self).queue@.skip(dropped),
                forall|j: int| 0 <= j < dropped ==> old(self).skips(#[trigger] old(self).queue@[j]),
            decreases self.queue@.len(),
        {
            proof {
                assert(old(self).queue@.skip(dropped)[0] == old(self).queue@[dropped]);
            }
            let p = self.queue.remove(0);
            proof {
                assert(self.queue@ =~= old(self).queue@.skip(dropped + 1));
                assert(p == old(self).queue@[dropped]);
            }
            if self.visited_contains(&p.url) {
                proof {
                    dropped = dropped + 1;
                }
                continue;
            }
            if !is_allowed_domain(&p, &self.allowed_domains) {
                proof {
                    dropped = dropped + 1;
                }
                continue;
            }
            let ghost pre = self.visited.deep_view();
            self.visited.push(p.url.clone());
            proof {
                assert(self.visited.deep_view() =~~= pre.push(p.url@));
                assert(old(self).queue@[dropped] == p);
                assert(final(self).queue@ == old(self).queue@.skip(dropped + 1));
            }
            return Some(p);
        }
        proof {
            assert(dropped == old(self).queue@.len());
        }
        None
    }

    /// Records one fetched page: stores its document, counts it against the
    /// budget, and enqueues exactly the discovered links that were not
    /// visited yet, in order.
    pub fn record_success(&mut self, doc: Document, links: Vec<UrlParts>)
        requires
            old(self).wf(),
            old(self).pages_crawled < old(self).max_pages,
        ensures
            final(self).wf(),
            final(self).documents@ == old(self).documents@.push(doc),
            final(self).pages_crawled == old(self).pages_crawled + 1,
            final(self).visited == old(self).visited,
            final(self).max_pages == old(self).max_pages,
            final(self).allowed_domains == old(self).allowed_domains,
            final(self).queue@ == old(self).queue@ + links@.filter(
                |l: UrlParts| !old(self).visited.deep_view().contains(l.url@),
            ),
    {
        self.documents.push(doc);
        self.pages_crawled += 1;
        let ghost vis = self.visited.deep_view();
        let ghost pred = |l: UrlParts| !vis.contains(l.url@);
        let ghost base = self.queue@;
        let mut links = links;
        let ghost all = links@;
        let mut i: usize = 0;
        proof {
            assert(all.take(0).filter(pred) =~= Seq::<UrlParts>::empty());
            assert(self.queue@ =~= base + all.take(0).filter(pred));
        }
        while i < links.len()
            invariant
                i <= links@.len(),
                all == links@,
                vis == self.visited.deep_view(),
                pred == (|l: UrlParts| !vis.contains(l.url@)),
                self.visited == old(self).visited,
                self.documents@ == old(self).documents@.push(doc),
                self.pages_crawled == old(self).pages_crawled + 1,
                self.max_pages == old(self).max_pages,
                self.allowed_domains == old(self).allowed_domains,
                self.wf(),
                self.queue@ == base + all.take(i as int).filter(pred),
            decreases links@.len() - i,
        {
            proof {
                reveal(Seq::filter);
                assert(all.take(i + 1 as int).drop_last() =~= all.take(i as int));
                assert(all.take(i + 1 as int).last() == all[i as int]);
            }
            let keep = !self.visited_contains(&links[i].url);
            proof {
                assert(keep == pred(all[i as int]));
            }
            if keep {
                let l = links[i].clone();
                proof {
                    assert(l == all[i as int]);
                }
                self.queue.push(l);
                proof {
                    assert(self.queue@ =~= base + all.take(i + 1 as int).filter(pred));
                }
            } else {
                proof {
                    assert(self.queue@ =~= base + all.take(i + 1 as int).filter(pred));
                }
            }
            i += 1;
        }
        proof {
            assert(all.take(links@.len() as int) =~= all);
        }
    }

    /// Whether the crawl is over: the budget is spent or nothing is queued.
    pub fn is_done(&self) -> (r: bool)
        ensures
            r == (self.pages_crawled >= self.max_pages || self.queue@.len() == 0),
    {
        self.pages_crawled >= self.max_pages || self.queue.len() == 0
    }

    /// The documents the crawl produced, in crawl order.
    pub fn into_documents(self) -> (r: Vec<Document>)
        ensures
            r == self.documents,
    {
        self.documents
    }
}

/// The models of the links that resolve against the base and use the http
/// or https scheme, in document order.
pub open spec fn resolve_links_spec(base: Seq<char>, hs: Seq<Seq<char>>) -> Seq<
    (Seq<char>, Option<Seq<char>>, Seq<char>),
>
    decreases hs.len(),
{
    if hs.len() == 0 {
        Seq::empty()
    } else {
        resolve_links_spec(base, hs.drop_last()) + (match url_join_spec(base, hs.last()) {
            Some(t) => if t.2 == "http"@ || t.2 == "https"@ {
                seq![t]
            } else {
                Seq::empty()
            },
            None => Seq::empty(),
        })
    }
}

/// Every anchor's `href` resolved against the page's own URL; only http and
/// https links are kept.
#[verifier::rlimit(60)]
pub fn extract_links(tree: &HtmlNode, base: &UrlParts) -> (r: Vec<UrlParts>)
    ensures
        r@.map_values(|p: UrlParts| parts_model(p)) == resolve_links_spec(
            base.url@,
            hrefs_node(*tree),
        ),
{
    let mut hrefs: Vec<String> = Vec::new();
    collect_hrefs(tree, &mut hrefs);
    proof {
        assert(hrefs.deep_view() =~~= hrefs_node(*tree));
    }
    let ghost hs = hrefs.deep_view();
    let mut r: Vec<UrlParts> = Vec::new();
    let mut i: usize = 0;
    proof {
        assert(r@.map_values(|p: UrlParts| parts_model(p)) =~= resolve_links_spec(
            base.url@,
            hs.take(0),
        ));
    }
    while i < hrefs.len()
        invariant
            i <= hrefs@.len(),
            hs == hrefs.deep_view(),
            r@.map_values(|p: UrlParts| parts_model(p)) == resolve_links_spec(
                base.url@,
                hs.take(i as int),
            ),
        decreases hrefs@.len() - i,
    {
        proof {
            assert(hrefs@[i as int].deep_view() == hrefs@[i as int]@);
            assert(hs[i as int] == hrefs@[i as int]@);
            assert(hs.take(i + 1 as int).drop_last() =~= hs.take(i as int));
            assert(hs.take(i + 1 as int).last() == hs[i as int]);
        }
        let ghost pre = r@;
        match join_url(base.url.as_str(), hrefs[i].as_str()) {
            Some(p) => {
                let http = String::from_str("http");
                let https = String::from_str("https");
                if p.scheme == http || p.scheme == https {
                    proof {
                        assert(parts_model(p).2 == "http"@ || parts_model(p).2 == "https"@);
                    }
                    r.push(p);
                    proof {
                        assert(r@.map_values(|p: UrlParts| parts_model(p)) =~= pre.map_values(
                            |p: UrlParts| parts_model(p),
                        ).push(parts_model(r@.last())));
                    }
                }
            },
            None => {},
        }
        proof {
            assert(r@.map_values(|p: UrlParts| parts_model(p)) =~= resolve_links_spec(
                base.url@,
                hs.take(i + 1 as int),
            ));
        }
        i += 1;
    }
    proof {
        assert(hs.take(hrefs@.len() as int) =~= hs);
    }
    r
}

/// Builds the document for one fetched page and the links it discovers: the
/// title is the page's `title` element, falling back to the URL itself; the
/// content is the extracted readable text; the origin is the page URL.
pub fn page_document(tree: &HtmlNode, page: &UrlParts) -> (r: (Document, Vec<UrlParts>))
    ensures
        r.0@.title == (match first_title_node(*tree) {
            Some(t) => t,
            None => page.url@,
        }),
        r.0@.content == page_text(*tree),
        r.0@.path == page.url@,
        r.1@.map_values(|p: UrlParts| parts_model(p)) == resolve_links_spec(
            page.url@,
            hrefs_node(*tree),
        ),
{
    let title = match find_title(tree) {
        Some(t) => t,
        None => page.url.clone(),
    };
    let content = extract_text_content(tree);
    let links = extract_links(tree, page);
    let doc = Document::new(title, content, page.url.clone());
    (doc, links)
}

/// Why a single-site crawl cannot be configured.
#[derive(PartialEq, Eq, Structural, Clone, Copy, Debug)]
pub enum CrawlConfigError {
    /// The base URL does not parse.
    InvalidUrl,
    /// The base URL has no domain to restrict the crawl to.
    NoDomain,
}

/// The crawler configuration for a whole-site crawl, given the parsed base
/// URL: restricted to the seed's own domain, with a longer politeness
/// delay. A base URL that does not parse, or has no domain, is a hard
/// failure: no sensible fallback exists.
pub fn website_crawler_from(parts: Option<UrlParts>, max_pages: Option<usize>) -> (r: Result<
    WebCrawler,
    CrawlConfigError,
>)
    ensures
        match parts {
            None => r == Result::<WebCrawler, CrawlConfigError>::Err(CrawlConfigError::InvalidUrl),
            Some(p) => match p.domain {
                None => r == Result::<WebCrawler, CrawlConfigError>::Err(
                    CrawlConfigError::NoDomain,
                ),
                Some(d) => {
                    &&& r matches Ok(c)
                    &&& r->Ok_0.max_pages == (match max_pages {
                        Some(m) => m,
                        None => 50,
                    })
                    &&& r->Ok_0.delay_ms == 2000
                    &&& r->Ok_0.allowed_domains.deep_view() == seq![d@]
                },
            },
        },
{
    match parts {
        None => Err(CrawlConfigError::InvalidUrl),
        Some(p) => match p.domain {
            None => Err(CrawlConfigError::NoDomain),
            Some(d) => {
                let mut domains: Vec<String> = Vec::new();
                let ghost dv = d@;
                domains.push(d);
                proof {
                    assert(domains.deep_view() =~~= seq![dv]);
                }
                let mp = match max_pages {
                    Some(m) => m,
                    None => 50,
                };
                Ok(WebCrawler::new().with_max_pages(mp).with_allowed_domains(domains).with_delay(
                    2000,
                ))
            },
        },
    }
}

/// Parses the base URL and configures the whole-site crawl from it.
pub fn website_crawler(base_url: &str, max_pages: Option<usize>) -> (r: Result<
    WebCrawler,
    CrawlConfigError,
>)
    ensures
        match url_parse_spec(base_url@) {
            None => r == Result::<WebCrawler, CrawlConfigError>::Err(CrawlConfigError::InvalidUrl),
            Some(t) => match t.1 {
                None => r == Result::<WebCrawler, CrawlConfigError>::Err(
                    CrawlConfigError::NoDomain,
                ),
                Some(d) => {
                    &&& r matches Ok(c)
                    &&& r->Ok_0.max_pages == (match max_pages {
                        Some(m) => m,
                        None => 50,
                    })
                    &&& r->Ok_0.delay_ms == 2000
                    &&& r->Ok_0.allowed_domains.deep_view() == seq![d]
                },
            },
        },
{
    website_crawler_from(parse_url(base_url), max_pages)
}

/// Parses a list of seed URLs, silently dropping those that do not parse.
pub fn parse_seeds(urls: &Vec<String>) -> (r: Vec<UrlParts>)
    ensures
        r@.map_values(|p: UrlParts| parts_model(p)) == parse_seeds_spec(urls.deep_view()),
{
    let mut r: Vec<UrlParts> = Vec::new();
    let mut i: usize = 0;
    proof {
        assert(r@.map_values(|p: UrlParts| parts_model(p)) =~= parse_seeds_spec(
            urls.deep_view().take(0),
        ));
    }
    while i < urls.len()
        invariant
            i <= urls@.len(),
            r@.map_values(|p: UrlParts| parts_model(p)) == parse_seeds_spec(
                urls.deep_view().take(i as int),
            ),
        decreases urls@.len() - i,
    {
        proof {
            assert(urls@[i as int].deep_view() == urls@[i as int]@);
            assert(urls.deep_view()[i as int] == urls@[i as int]@);
            assert(urls.deep_view().take(i + 1 as int).drop_last() =~= urls.deep_view().take(
                i as int,
            ));
            assert(urls.deep_view().take(i + 1 as int).last() == urls.deep_view()[i as int]);
        }
        let ghost pre = r@;
        match parse_url(urls[i].as_str()) {
            Some(p) => {
                r.push(p);
                proof {
                    assert(r@.map_values(|p: UrlParts| parts_model(p)) =~= pre.map_values(
                        |p: UrlParts| parts_model(p),
                    ).push(parts_model(r@.last())));
                }
            },
            None => {},
        }
        proof {
            assert(r@.map_values(|p: UrlParts| parts_model(p)) =~= parse_seeds_spec(
                urls.deep_view().take(i + 1 as int),
            ));
        }
        i += 1;
    }
    proof {
        assert(urls.deep_view().take(urls@.len() as int) =~= urls.deep_view());
    }
    r
}

} // verus!
