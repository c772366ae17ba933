//! The search engine core: one inverted index and the operations over it.
//! Concurrency guards, crawler I/O and persistence I/O live with the
//! caller; every operation here is a plain function of the engine's state.

use vstd::prelude::*;
use crate::document::{Document, DocModel};
use crate::index::{InvertedIndex, IndexSnapshot, PostingList, matches_query, doc_score_micro, ranked_before};
use crate::kvmap::{kv_map, lemma_kv_dom_len};
use crate::ranking::{SearchResult, TfIdfRanker, snippet_of};
use crate::tokenizer::tokens_of;

verus! {

/// The documents map after indexing each of the given documents in order.
pub open spec fn docs_inserted(m: Map<u128, DocModel>, ds: Seq<Document>) -> Map<u128, DocModel>
    decreases ds.len(),
{
    if ds.len() == 0 {
        m
    } else {
        docs_inserted(m, ds.drop_last()).insert(ds.last().id, ds.last()@)
    }
}

/// A key is in the folded map exactly when it was there before or some
/// document carries it.
proof fn lemma_docs_inserted_contains(m: Map<u128, DocModel>, ds: Seq<Document>, k: u128)
    ensures
        docs_inserted(m, ds).contains_key(k) <==> (m.contains_key(k) || exists|j: int|
            0 <= j < ds.len() && (#[trigger] ds[j]).id == k),
    decreases ds.len(),
{
    if ds.len() > 0 {
        lemma_docs_inserted_contains(m, ds.drop_last(), k);
        if ds.last().id == k {
            assert(ds[ds.len() - 1].id == k);
        } else if exists|j: int| 0 <= j < ds.len() && (#[trigger] ds[j]).id == k {
            let j = choose|j: int| 0 <= j < ds.len() && (#[trigger] ds[j]).id == k;
            if j < ds.len() - 1 {
                assert(ds.drop_last()[j].id == k);
            }
        } else {
            assert(forall|j: int|
                0 <= j < ds.drop_last().len() ==> (#[trigger] ds.drop_last()[j]) == ds[j]);
        }
    }
}

/// Owns one inverted index and answers index, search, stats, clear and
/// snapshot operations over it.
pub struct SearchEngine {
    /// The one shared mutable resource; callers serialize access to it.
    pub index: InvertedIndex,
}

impl SearchEngine {
    pub open spec fn wf(&self) -> bool {
        self.index.wf()
    }

    /// A fresh engine over an empty index.
    pub fn new() -> (r: SearchEngine)
        ensures
            r.wf(),
            r.index@.docs == Map::<u128, DocModel>::empty(),
            r.index@.total == 0,
    {
        SearchEngine { index: InvertedIndex::new() }
    }

    /// Folds a batch of crawled documents into the index and returns how
    /// many were indexed. Ids must be fresh and pairwise distinct; callers
    /// remove a document before re-adding it.
    pub fn add_documents(&mut self, docs: Vec<Document>) -> (count: usize)
        requires
            old(self).wf(),
            forall|i: int, j: int|
                0 <= i < j < docs@.len() ==> (#[trigger] docs@[i]).id != (#[trigger] docs@[j]).id,
            forall|i: int|
                0 <= i < docs@.len() ==> !old(self).index@.docs.contains_key(
                    (#[trigger] docs@[i]).id,
                ),
            old(self).index@.total + docs@.len() <= usize::MAX,
        ensures
            final(self).wf(),
            count == docs@.len(),
            final(self).index@.docs == docs_inserted(old(self).index@.docs, docs@),
            final(self).index@.total == old(self).index@.total + docs@.len(),
    {
        let ghost all = docs@;
        let ghost m0 = old(self).index@.docs;
        let count = docs.len();
        let mut i: usize = 0;
        proof {
            assert(docs_inserted(m0, all.take(0)) =~= m0);
        }
        while i < count
            invariant
                old(self).wf(),
                m0 == old(self).index@.docs,
                all == docs@,
                count == all.len(),
                i <= count,
                old(self).index@.total + all.len() <= usize::MAX,
                forall|x: int, y: int|
                    0 <= x < y < all.len() ==> (#[trigger] all[x]).id != (#[trigger] all[y]).id,
                forall|x: int|
                    0 <= x < all.len() ==> !m0.contains_key((#[trigger] all[x]).id),
                self.wf(),
                self.index@.docs == docs_inserted(m0, all.take(i as int)),
                self.index@.total == old(self).index@.total + i,
            decreases count - i,
        {
            let doc = docs[i].clone();
            proof {
                assert(doc == all[i as int]);
                assert(all.take(i + 1 as int).drop_last() =~= all.take(i as int));
                assert(all.take(i + 1 as int).last() == all[i as int]);
                lemma_docs_inserted_contains(m0, all.take(i as int), doc.id);
                assert(forall|j: int|
                    0 <= j < i ==> (#[trigger] all.take(i as int)[j]) == all[j]);
                assert(!self.index@.docs.contains_key(doc.id));
            }
            self.index.add_document(doc);
            i += 1;
        }
        proof {
            assert(all.take(count as int) =~= all);
        }
        count
    }

    /// Ranked search over the index; never mutates state. An empty query
    /// gives an empty result, never an error.
    pub fn search(&self, query: &str, limit: Option<usize>) -> (r: Vec<SearchResult>)
        requires
            self.wf(),
        ensures
            ({
                let toks = tokens_of(query@);
                let m = self.index@;
                let lim = (match limit {
                    Some(l) => l,
                    None => 10,
                }) as int;
                &&& r@.len() <= lim
                &&& forall|i: int|
                    0 <= i < r@.len() ==> {
                        let d = (#[trigger] r@[i]).document@;
                        &&& matches_query(m, toks, d.id)
                        &&& m.docs.contains_key(d.id)
                        &&& d == m.docs[d.id]
                        &&& r@[i].score as int == doc_score_micro(m, toks, d.id)
                        &&& r@[i].snippet@ == snippet_of(d.content, query@, 150)
                    }
                &&& forall|i: int, j: int|
                    0 <= i < j < r@.len() ==> ranked_before(
                        (r@[i].document@.id, r@[i].score),
                        (r@[j].document@.id, r@[j].score),
                    )
                &&& forall|id: u128|
                    #[trigger] matches_query(m, toks, id) && !(exists|i: int|
                        0 <= i < r@.len() && (#[trigger] r@[i]).document@.id == id) ==> {
                        &&& r@.len() == lim
                        &&& forall|i: int|
                            0 <= i < r@.len() ==> ranked_before(
                                ((#[trigger] r@[i]).document@.id, r@[i].score),
                                (id, doc_score_micro(m, toks, id) as i128),
                            )
                    }
            }),
    {
        TfIdfRanker::rank_documents(&self.index, query, limit)
    }

    /// Replaces the index with an empty one.
    pub fn clear_index(&mut self)
        ensures
            final(self).wf(),
            final(self).index@.docs == Map::<u128, DocModel>::empty(),
            final(self).index@.total == 0,
    {
        self.index = InvertedIndex::new();
    }

    /// (indexed documents, distinct terms).
    pub fn get_stats(&self) -> (r: (usize, usize))
        requires
            self.wf(),
        ensures
            r.0 == self.index@.total,
            r.1 == self.index@.terms.dom().len(),
    {
        proof {
            lemma_kv_dom_len(self.index.term_entries());
        }
        (self.index.total_documents, self.index.index.len())
    }

    /// A snapshot copy of every indexed document, in insertion order.
    pub fn list_all_documents(&self) -> (r: Vec<Document>)
        requires
            self.wf(),
        ensures
            r@.len() == self.index.documents@.len(),
            forall|i: int|
                0 <= i < r@.len() ==> (#[trigger] r@[i])@ == self.index.documents@[i].1@
                    && self.index@.docs.contains_key(self.index.documents@[i].0) && r@[i]@
                    == self.index@.docs[self.index.documents@[i].0],
    {
        let refs = self.index.get_all_documents();
        let mut r: Vec<Document> = Vec::new();
        let mut i: usize = 0;
        while i < refs.len()
            invariant
                self.wf(),
                refs@.len() == self.index.documents@.len(),
                forall|j: int|
                    0 <= j < refs@.len() ==> (#[trigger] refs@[j])@ == self.index.documents@[j].1@
                        && self.index@.docs.contains_key(self.index.documents@[j].0) && refs@[j]@
                        == self.index@.docs[self.index.documents@[j].0],
                i <= refs@.len(),
                r@.len() == i,
                forall|j: int| 0 <= j < i ==> (#[trigger] r@[j])@ == refs@[j]@,
            decreases refs@.len() - i,
        {
            r.push(refs[i].clone());
            i += 1;
        }
        r
    }

    /// Installs a loaded index wholesale; with nothing loaded the current
    /// index is left untouched.
    pub fn load_index(&mut self, loaded: Option<InvertedIndex>)
        requires
            old(self).wf(),
            loaded matches Some(ix) ==> ix.wf(),
        ensures
            final(self).wf(),
            match loaded {
                Some(ix) => final(self).index == ix,
                None => final(self).index == old(self).index,
            },
    {
        match loaded {
            Some(ix) => {
                self.index = ix;
            },
            None => {},
        }
    }

    /// A plain copy of the index for a storage backend to persist.
    pub fn save_index(&self) -> (s: IndexSnapshot)
        requires
            self.wf(),
        ensures
            s.doc_models() == self.index.doc_entries(),
            s.clean(),
            s.total_documents == self.index.total_documents,
            s.index@.map_values(|p: (String, PostingList)| (p.0@, kv_map(p.1.term_frequency@)))
                == self.index.term_entries(),
    {
        self.index.to_snapshot()
    }
}

} // verus!
