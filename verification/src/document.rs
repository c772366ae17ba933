//! Documents: the unit of indexing. A document carries an opaque unique
//! identifier generated at creation, a title, its full text, its origin
//! (file path or URL), and a word count derived once from the content.

use vstd::prelude::*;
use vstd::string::StringExecFns;
use crate::text::{str_chars, split_words, words_of};

verus! {

/// Mathematical model of a document.
pub ghost struct DocModel {
    pub id: u128,
    pub title: Seq<char>,
    pub content: Seq<char>,
    pub path: Seq<char>,
    pub word_count: nat,
}

pub struct Document {
    pub id: u128,
    pub title: String,
    pub content: String,
    pub path: String,
    pub word_count: usize,
}

impl View for Document {
    type V = DocModel;

    open spec fn view(&self) -> DocModel {
        DocModel {
            id: self.id,
            title: self.title@,
            content: self.content@,
            path: self.path@,
            word_count: self.word_count as nat,
        }
    }
}

impl Clone for Document {
    fn clone(&self) -> (r: Document)
        ensures
            r == *self,
    {
        Document {
            id: self.id,
            title: self.title.clone(),
            content: self.content.clone(),
            path: self.path.clone(),
            word_count: self.word_count,
        }
    }
}

/// Relies on `uuid::Uuid::new_v4` (and `Uuid::as_u128`, a plain cast of its
/// 16 bytes): a freshly generated random version-4 UUID. The value is
/// random, so nothing is promised of it.
#[verifier::external_body]
fn fresh_doc_id() -> u128 {
    uuid::Uuid::new_v4().as_u128()
}

impl Document {
    /// A new document with a freshly generated identifier; the word count is
    /// the number of whitespace-delimited words of the content.
    pub fn new(title: String, content: String, path: String) -> (r: Document)
        ensures
            r@.title == title@,
            r@.content == content@,
            r@.path == path@,
            r@.word_count == words_of(content@).len(),
    {
        let chars = str_chars(content.as_str());
        let words = split_words(&chars);
        let word_count = words.len();
        Document { id: fresh_doc_id(), title, content, path, word_count }
    }

    /// The searchable text of the document: title and content joined by one
    /// space.
    pub fn get_text(&self) -> (r: String)
        ensures
            r@ == self@.title + " "@ + self@.content,
    {
        let mut r = self.title.clone();
        r.append(" ");
        r.append(self.content.as_str());
        r
    }
}

} // verus!
