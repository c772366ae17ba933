//! The filesystem document source: which files are indexed and how a file
//! becomes a document. Directory walking and file reading are I/O and live
//! with the caller; the decisions live here.

use vstd::prelude::*;
use vstd::string::StringExecFns;
use crate::document::Document;
use crate::text::words_of;

verus! {

/// Crawls a directory subtree for plain-text and markdown files.
pub struct FileCrawler {
    /// The root of the subtree to walk.
    pub root_path: String,
}

impl FileCrawler {
    pub fn new(root_path: String) -> (r: FileCrawler)
        ensures
            r.root_path == root_path,
    {
        FileCrawler { root_path }
    }

    /// Only plain-text and markdown files are indexed.
    pub fn is_indexable_extension(extension: Option<&str>) -> (r: bool)
        ensures
            r == (match extension {
                Some(e) => e@ == "txt"@ || e@ == "md"@,
                None => false,
            }),
    {
        match extension {
            Some(e) => {
                let s = String::from_str(e);
                s == String::from_str("txt") || s == String::from_str("md")
            },
            None => false,
        }
    }

    /// The document for one readable file: the title is the file name
    /// without its extension (or "Untitled"), the content is the file text,
    /// the origin is the path.
    pub fn document_from_file(stem: Option<String>, content: String, path: String) -> (r: Document)
        ensures
            r@.title == (match stem {
                Some(s) => s@,
                None => "Untitled"@,
            }),
            r@.content == content@,
            r@.path == path@,
            r@.word_count == words_of(content@).len(),
    {
        let title = match stem {
            Some(s) => s,
            None => String::from_str("Untitled"),
        };
        Document::new(title, content, path)
    }
}

} // verus!
