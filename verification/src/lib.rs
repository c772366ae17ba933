//! A small verified search engine core: tokenization, an inverted index with
//! TF-IDF scoring in fixed-point arithmetic, result ranking with snippets,
//! and the breadth-first web-crawl frontier.

pub mod document;
pub mod engine;
pub mod file_crawler;
pub mod fixlog;
pub mod html;
pub mod index;
pub mod kvmap;
pub mod ranking;
pub mod storage;
pub mod text;
pub mod urls;
pub mod web_crawler;
pub mod tokenizer;

pub use document::Document;
pub use engine::SearchEngine;
pub use file_crawler::FileCrawler;
pub use index::IndexSnapshot;
pub use storage::JsonStorage;
pub use html::HtmlNode;
pub use index::{InvertedIndex, PostingList};
pub use ranking::{SearchResult, TfIdfRanker};
pub use urls::UrlParts;
pub use web_crawler::{Frontier, WebCrawler};
pub use tokenizer::Tokenizer;
