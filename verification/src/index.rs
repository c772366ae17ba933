//! The inverted index: a map from term to posting list plus a map from
//! document id to document. The invariant ties the two together exactly: a
//! posting entry `(term, id) -> f` exists precisely when the indexed
//! document `id` contains `term` exactly `f > 0` times.

use vstd::prelude::*;
use vstd::set_lib::lemma_len_subset;
use crate::document::{Document, DocModel};
use crate::kvmap::{kv_map, kv_distinct, lemma_kv_contains, lemma_kv_index, lemma_kv_dom_len, lemma_kv_push, lemma_kv_update, lemma_kv_remove};
use crate::tokenizer::{Tokenizer, tokens_of};
use crate::fixlog::{SCALE, LN_MICRO_MAX, ln_micro, ln_micro_u128, lemma_ln_micro_mono};

verus! {

/// The searchable text of a document: title and content joined by a space.
pub open spec fn doc_text(d: DocModel) -> Seq<char> {
    d.title + " "@ + d.content
}

/// The terms of a document, in order, duplicates preserved.
pub open spec fn doc_terms(d: DocModel) -> Seq<Seq<char>> {
    tokens_of(doc_text(d))
}

/// How often `t` occurs among the document's terms.
pub open spec fn term_count(d: DocModel, t: Seq<char>) -> nat {
    doc_terms(d).filter(|x: Seq<char>| x == t).len()
}

/// Per-term record of which documents contain the term and how often.
pub struct PostingList {
    /// Document id -> term frequency.
    pub term_frequency: Vec<(u128, usize)>,
    /// Number of documents in the record; always equal to the entry count.
    pub document_frequency: usize,
}

impl View for PostingList {
    type V = Map<u128, usize>;

    open spec fn view(&self) -> Map<u128, usize> {
        kv_map(self.term_frequency@)
    }
}

impl PostingList {
    /// Keys are distinct and the frequency counter matches the entry count.
    pub open spec fn wf(&self) -> bool {
        kv_distinct(self.term_frequency@) && self.document_frequency == self.term_frequency@.len()
    }

    pub fn new() -> (r: PostingList)
        ensures
            r.wf(),
            r@ == Map::<u128, usize>::empty(),
            r.document_frequency == 0,
    {
        PostingList { term_frequency: Vec::new(), document_frequency: 0 }
    }

    /// The position of `doc_id` among the entries, if any.
    fn find(&self, doc_id: u128) -> (r: Option<usize>)
        ensures
            match r {
                Some(i) => i < self.term_frequency@.len() && self.term_frequency@[i as int].0
                    == doc_id,
                None => forall|j: int|
                    0 <= j < self.term_frequency@.len() ==> self.term_frequency@[j].0 != doc_id,
            },
    {
        let mut i: usize = 0;
        while i < self.term_frequency.len()
            invariant
                i <= self.term_frequency@.len(),
                forall|j: int| 0 <= j < i ==> self.term_frequency@[j].0 != doc_id,
            decreases self.term_frequency@.len() - i,
        {
            if self.term_frequency[i].0 == doc_id {
                return Some(i);
            }
            i += 1;
        }
        None
    }

    /// Records `doc_id -> frequency`, counting the document once.
    pub fn add_document(&mut self, doc_id: u128, frequency: usize)
        requires
            old(self).wf(),
            old(self).document_frequency < usize::MAX,
        ensures
            final(self).wf(),
            final(self)@ == old(self)@.insert(doc_id, frequency),
            final(self).document_frequency == if old(self)@.contains_key(doc_id) {
                old(self).document_frequency as int
            } else {
                old(self).document_frequency + 1
            },
    {
        proof {
            lemma_kv_contains(self.term_frequency@, doc_id);
        }
        match self.find(doc_id) {
            Some(i) => {
                proof {
                    lemma_kv_update(self.term_frequency@, i as int, doc_id, frequency);
                }
                let _ = self.term_frequency.remove(i);
                proof {
                    lemma_kv_remove(old(self).term_frequency@, i as int);
                }
                self.term_frequency.insert(i, (doc_id, frequency));
                proof {
                    assert(self.term_frequency@ =~= old(self).term_frequency@.update(
                        i as int,
                        (doc_id, frequency),
                    ));
                }
            },
            None => {
                self.term_frequency.push((doc_id, frequency));
                self.document_frequency += 1;
                proof {
                    lemma_kv_push(old(self).term_frequency@, doc_id, frequency);
                }
            },
        }
    }

    /// Forgets `doc_id`, if present.
    pub fn remove_document(&mut self, doc_id: u128)
        requires
            old(self).wf(),
        ensures
            final(self).wf(),
            final(self)@ == old(self)@.remove(doc_id),
            final(self).document_frequency == if old(self)@.contains_key(doc_id) {
                old(self).document_frequency - 1
            } else {
                old(self).document_frequency as int
            },
    {
        proof {
            lemma_kv_contains(self.term_frequency@, doc_id);
        }
        match self.find(doc_id) {
            Some(i) => {
                proof {
                    lemma_kv_remove(self.term_frequency@, i as int);
                }
                let _ = self.term_frequency.remove(i);
                self.document_frequency -= 1;
            },
            None => {
                proof {
                    assert(old(self)@ =~= old(self)@.remove(doc_id));
                }
            },
        }
    }
}

/// Mathematical model of the whole index.
pub ghost struct IndexModel {
    /// term -> (document id -> term frequency)
    pub terms: Map<Seq<char>, Map<u128, usize>>,
    /// document id -> document
    pub docs: Map<u128, DocModel>,
    /// number of indexed documents
    pub total: nat,
}

impl IndexModel {
    /// Every posting entry records a real occurrence count of an indexed
    /// document.
    pub open spec fn entries_sound(self) -> bool {
        forall|t: Seq<char>, id: u128|
            self.terms.contains_key(t) && #[trigger] self.terms[t].contains_key(id) ==> {
                &&& self.docs.contains_key(id)
                &&& self.terms[t][id] as nat == term_count(self.docs[id], t)
                &&& term_count(self.docs[id], t) > 0
            }
    }

    /// Every occurrence of a term in an indexed document has its posting
    /// entry.
    pub open spec fn entries_complete(self) -> bool {
        forall|t: Seq<char>, id: u128|
            self.docs.contains_key(id) && #[trigger] term_count(self.docs[id], t) > 0
                ==> self.terms.contains_key(t) && self.terms[t].contains_key(id)
    }

    /// Empty posting lists are deleted, never kept.
    pub open spec fn postings_nonempty(self) -> bool {
        forall|t: Seq<char>|
            #[trigger] self.terms.contains_key(t) ==> exists|id: u128|
                self.terms[t].contains_key(id)
    }

    /// The index is exactly the one its document map determines.
    pub open spec fn consistent(self) -> bool {
        &&& self.entries_sound()
        &&& self.entries_complete()
        &&& self.postings_nonempty()
        &&& self.docs.dom().finite()
        &&& self.total == self.docs.dom().len()
    }
}

/// Term -> posting list and document id -> document, with a document
/// counter. Association lists keyed by distinct keys stand in for maps, so
/// iteration order is fixed by insertion order.
pub struct InvertedIndex {
    /// term -> posting list
    pub index: Vec<(String, PostingList)>,
    /// document id -> document
    pub documents: Vec<(u128, Document)>,
    /// number of indexed documents
    pub total_documents: usize,
    /// rebuilt fresh on construction and load; pure configuration
    pub tokenizer: Tokenizer,
}

impl View for InvertedIndex {
    type V = IndexModel;

    open spec fn view(&self) -> IndexModel {
        IndexModel {
            terms: kv_map(
                self.index@.map_values(|p: (String, PostingList)| (p.0@, kv_map(p.1.term_frequency@))),
            ),
            docs: kv_map(self.documents@.map_values(|p: (u128, Document)| (p.0, p.1@))),
            total: self.total_documents as nat,
        }
    }
}

impl InvertedIndex {
    /// The term entries with their keys and posting lists as values.
    pub open spec fn term_entries(&self) -> Seq<(Seq<char>, Map<u128, usize>)> {
        self.index@.map_values(|p: (String, PostingList)| (p.0@, kv_map(p.1.term_frequency@)))
    }

    pub open spec fn doc_entries(&self) -> Seq<(u128, DocModel)> {
        self.documents@.map_values(|p: (u128, Document)| (p.0, p.1@))
    }

    /// Structural well-formedness: distinct keys, honest counters, a good
    /// tokenizer, document entries keyed by their document's own id — and a
    /// consistent model.
    pub open spec fn wf(&self) -> bool {
        &&& kv_distinct(self.term_entries())
        &&& kv_distinct(self.doc_entries())
        &&& self.tokenizer.wf()
        &&& self.total_documents == self.documents@.len()
        &&& forall|i: int|
            0 <= i < self.index@.len() ==> (#[trigger] self.index@[i].1).wf()
        &&& forall|i: int|
            0 <= i < self.documents@.len() ==> (#[trigger] self.documents@[i]).0
                == self.documents@[i].1.id
        &&& self@.consistent()
    }

    pub fn new() -> (r: InvertedIndex)
        ensures
            r.wf(),
            r@.terms == Map::<Seq<char>, Map<u128, usize>>::empty(),
            r@.docs == Map::<u128, DocModel>::empty(),
            r@.total == 0,
    {
        let r = InvertedIndex {
            index: Vec::new(),
            documents: Vec::new(),
            total_documents: 0,
            tokenizer: Tokenizer::new(),
        };
        proof {
            assert(r.term_entries() =~= Seq::<(Seq<char>, Map<u128, usize>)>::empty());
            assert(r.doc_entries() =~= Seq::<(u128, DocModel)>::empty());
        }
        r
    }

    /// The invariant the counters obey: `total_documents` is the number of
    /// indexed documents, and every posting list's `document_frequency` is
    /// the number of entries in its frequency record.
    pub proof fn lemma_counts(&self)
        requires
            self.wf(),
        ensures
            self@.total == self@.docs.dom().len(),
            forall|i: int|
                0 <= i < self.index@.len() ==> (#[trigger] self.index@[i].1).document_frequency
                    == kv_map(self.index@[i].1.term_frequency@).dom().len(),
    {
        assert forall|i: int| 0 <= i < self.index@.len() implies (
        #[trigger] self.index@[i].1).document_frequency == kv_map(
            self.index@[i].1.term_frequency@,
        ).dom().len() by {
            lemma_kv_dom_len(self.index@[i].1.term_frequency@);
        }
    }
}

impl Default for InvertedIndex {
    /// An empty index.
    fn default() -> (r: InvertedIndex)
        ensures
            r.wf(),
            r@.terms == Map::<Seq<char>, Map<u128, usize>>::empty(),
            r@.docs == Map::<u128, DocModel>::empty(),
            r@.total == 0,
    {
        InvertedIndex::new()
    }
}

/// Association-list entries keyed by the string views.
pub open spec fn counts_view(s: Seq<(String, usize)>) -> Seq<(Seq<char>, usize)> {
    s.map_values(|p: (String, usize)| (p.0@, p.1))
}

/// How often `t` occurs in a sequence of terms.
pub open spec fn count_in(s: Seq<Seq<char>>, t: Seq<char>) -> nat {
    s.filter(|x: Seq<char>| x == t).len()
}

/// Accumulates, for each distinct term among `tokens`, its number of
/// occurrences.
fn count_terms(tokens: &Vec<String>) -> (r: Vec<(String, usize)>)
    ensures
        kv_distinct(counts_view(r@)),
        forall|t: Seq<char>|
            #[trigger] kv_map(counts_view(r@)).contains_key(t) <==> count_in(
                tokens.deep_view(),
                t,
            ) > 0,
        forall|t: Seq<char>|
            #[trigger] kv_map(counts_view(r@)).contains_key(t) ==> kv_map(counts_view(r@))[t]
                as nat == count_in(tokens.deep_view(), t),
{
    let ghost all = tokens.deep_view();
    let mut r: Vec<(String, usize)> = Vec::new();
    let mut i: usize = 0;
    while i < tokens.len()
        invariant
            i <= tokens.len(),
            all == tokens.deep_view(),
            kv_distinct(counts_view(r@)),
            forall|t: Seq<char>|
                #[trigger] kv_map(counts_view(r@)).contains_key(t) <==> count_in(
                    all.take(i as int),
                    t,
                ) > 0,
            forall|t: Seq<char>|
                #[trigger] kv_map(counts_view(r@)).contains_key(t) ==> kv_map(counts_view(r@))[t]
                    as nat == count_in(all.take(i as int), t),
            forall|j: int| 0 <= j < r@.len() ==> (#[trigger] r@[j]).1 <= i,
        decreases tokens.len() - i,
    {
        let ghost prefix = all.take(i as int);
        let ghost w = all[i as int];
        proof {
            assert(all.take(i + 1 as int).drop_last() =~= prefix);
            assert(all.take(i + 1 as int).last() == w);
            assert forall|t: Seq<char>|
                count_in(all.take(i + 1 as int), t) == count_in(prefix, t) + (if t == w {
                    1nat
                } else {
                    0nat
                }) by {
                reveal(Seq::filter);
            }
        }
        // locate tokens[i] among the accumulated entries
        let mut j: usize = 0;
        let mut found: Option<usize> = None;
        while j < r.len()
            invariant
                j <= r@.len(),
                i < tokens@.len(),
                w == tokens@[i as int]@,
                match found {
                    Some(f) => f < r@.len() && r@[f as int].0@ == w,
                    None => forall|x: int| 0 <= x < j ==> (#[trigger] r@[x]).0@ != w,
                },
            decreases r@.len() - j,
        {
            if found.is_none() && r[j].0 == tokens[i] {
                found = Some(j);
            }
            j += 1;
        }
        let ghost prev = counts_view(r@);
        match found {
            Some(f) => {
                proof {
                    lemma_kv_index(prev, f as int);
                    lemma_kv_remove(prev, f as int);
                }
                let entry = r.remove(f);
                proof {
                    assert(counts_view(r@) =~= prev.remove(f as int));
                }
                let ghost mid = counts_view(r@);
                let key = entry.0;
                let c = entry.1;
                r.push((key, c + 1));
                proof {
                    assert(counts_view(r@) =~= mid.push((w, (c + 1) as usize)));
                    lemma_kv_push(mid, w, (c + 1) as usize);
                    assert(kv_map(counts_view(r@)) =~= kv_map(prev).insert(w, (c + 1) as usize));
                    assert(kv_distinct(counts_view(r@))) by {
                        lemma_kv_contains(mid, w);
                    }
                }
            },
            None => {
                proof {
                    lemma_kv_contains(prev, w);
                    assert(!kv_map(prev).contains_key(w));
                }
                let key = tokens[i].clone();
                r.push((key, 1));
                proof {
                    assert(counts_view(r@) =~= prev.push((w, 1usize)));
                    lemma_kv_push(prev, w, 1usize);
                }
            },
        }
        i += 1;
    }
    proof {
        assert(all.take(tokens@.len() as int) =~= all);
    }
    r
}

/// The terms map after recording, for each count entry, that document
/// `id` contains the entry's term that many times.
pub open spec fn apply_counts(
    terms: Map<Seq<char>, Map<u128, usize>>,
    cs: Seq<(Seq<char>, usize)>,
    id: u128,
) -> Map<Seq<char>, Map<u128, usize>>
    decreases cs.len(),
{
    if cs.len() == 0 {
        terms
    } else {
        let m = apply_counts(terms, cs.drop_last(), id);
        let t = cs.last().0;
        m.insert(t, (if m.contains_key(t) {
            m[t]
        } else {
            Map::<u128, usize>::empty()
        }).insert(id, cs.last().1))
    }
}

/// A term that no count entry names is untouched by `apply_counts`.
proof fn lemma_apply_counts_other(
    terms: Map<Seq<char>, Map<u128, usize>>,
    cs: Seq<(Seq<char>, usize)>,
    id: u128,
    t: Seq<char>,
)
    requires
        forall|j: int| 0 <= j < cs.len() ==> (#[trigger] cs[j]).0 != t,
    ensures
        apply_counts(terms, cs, id).contains_key(t) == terms.contains_key(t),
        terms.contains_key(t) ==> apply_counts(terms, cs, id)[t] == terms[t],
    decreases cs.len(),
{
    if cs.len() > 0 {
        assert(forall|j: int|
            0 <= j < cs.drop_last().len() ==> (#[trigger] cs.drop_last()[j]) == cs[j]);
        lemma_apply_counts_other(terms, cs.drop_last(), id, t);
        assert(cs.last().0 != t);
    }
}

/// A term named by exactly one count entry gets that entry folded in.
proof fn lemma_apply_counts_lookup(
    terms: Map<Seq<char>, Map<u128, usize>>,
    cs: Seq<(Seq<char>, usize)>,
    id: u128,
    j: int,
)
    requires
        kv_distinct(cs),
        0 <= j < cs.len(),
    ensures
        apply_counts(terms, cs, id).contains_key(cs[j].0),
        apply_counts(terms, cs, id)[cs[j].0] == (if terms.contains_key(cs[j].0) {
            terms[cs[j].0]
        } else {
            Map::<u128, usize>::empty()
        }).insert(id, cs[j].1),
    decreases cs.len(),
{
    let t = cs[j].0;
    if j == cs.len() - 1 {
        assert(forall|x: int|
            0 <= x < cs.drop_last().len() ==> (#[trigger] cs.drop_last()[x]) == cs[x]);
        assert(forall|x: int| 0 <= x < cs.drop_last().len() ==> (#[trigger] cs.drop_last()[x]).0 != t);
        lemma_apply_counts_other(terms, cs.drop_last(), id, t);
    } else {
        assert(cs.drop_last()[j] == cs[j]);
        lemma_apply_counts_lookup(terms, cs.drop_last(), id, j);
        assert(cs.last().0 != t);
    }
}

impl InvertedIndex {
    /// The position of `term` among the index entries, if any.
    fn find_term(&self, term: &String) -> (r: Option<usize>)
        ensures
            match r {
                Some(i) => i < self.index@.len() && self.index@[i as int].0@ == term@,
                None => forall|j: int|
                    0 <= j < self.index@.len() ==> (#[trigger] self.index@[j]).0@ != term@,
            },
    {
        let mut i: usize = 0;
        while i < self.index.len()
            invariant
                i <= self.index@.len(),
                forall|j: int| 0 <= j < i ==> (#[trigger] self.index@[j]).0@ != term@,
            decreases self.index@.len() - i,
        {
            if self.index[i].0 == *term {
                return Some(i);
            }
            i += 1;
        }
        None
    }

    /// Indexes one document: tokenizes its text, records each distinct
    /// term's occurrence count in that term's posting list, and stores the
    /// document. The id must be fresh; callers remove a document before
    /// re-adding it.
    pub fn add_document(&mut self, document: Document)
        requires
            old(self).wf(),
            !old(self)@.docs.contains_key(document.id),
            old(self).total_documents < usize::MAX,
        ensures
            final(self).wf(),
            final(self)@.docs == old(self)@.docs.insert(document.id, document@),
            final(self)@.total == old(self)@.total + 1,
    {
        let doc_id = document.id;
        let text = document.get_text();
        let tokens = self.tokenizer.tokenize(text.as_str());
        proof {
            assert(tokens.deep_view() == doc_terms(document@));
        }
        let counts = count_terms(&tokens);
        let ghost cs = counts_view(counts@);
        let ghost cm = kv_map(cs);
        let ghost old_terms = old(self)@.terms;
        let ghost old_docs = old(self)@.docs;

        // store the document and count it
        proof {
            lemma_kv_contains(self.doc_entries(), doc_id);
        }
        self.documents.push((doc_id, document));
        self.total_documents += 1;
        proof {
            assert(self.doc_entries() =~= old(self).doc_entries().push((doc_id, document@)));
            lemma_kv_push(old(self).doc_entries(), doc_id, document@);
            lemma_kv_dom_len(self.doc_entries());
        }
        let ghost new_docs = old_docs.insert(doc_id, document@);
        let ghost docs_frozen = self.documents@;

        // fold the counts into the posting lists
        let mut i: usize = 0;
        while i < counts.len()
            invariant
                i <= counts@.len(),
                old(self).wf(),
                old_terms == old(self)@.terms,
                old_docs == old(self)@.docs,
                old(self).total_documents < usize::MAX,
                new_docs == old_docs.insert(doc_id, document@),
                cs == counts_view(counts@),
                cm == kv_map(cs),
                kv_distinct(cs),
                // the document side is already in place and stays put
                self.documents@ == docs_frozen,
                self@.docs == new_docs,
                kv_distinct(self.doc_entries()),
                self.total_documents == old(self).total_documents + 1,
                self@.total == new_docs.dom().len(),
                new_docs.dom().finite(),
                forall|x: int|
                    0 <= x < self.documents@.len() ==> (#[trigger] self.documents@[x]).0
                        == self.documents@[x].1.id,
                self.tokenizer.wf(),
                // structural facts on the term side
                kv_distinct(self.term_entries()),
                forall|x: int| 0 <= x < self.index@.len() ==> (#[trigger] self.index@[x].1).wf(),
                // the processed prefix has been folded in
                self@.terms == apply_counts(old_terms, cs.take(i as int), doc_id),
            decreases counts@.len() - i,
        {
            let ghost t = cs[i as int].0;
            let freq = counts[i].1;
            proof {
                lemma_kv_index(cs, i as int);
                // no earlier count entry names t
                assert(forall|j: int| 0 <= j < i ==> (#[trigger] cs.take(i as int)[j]) == cs[j]);
                assert(forall|j: int| 0 <= j < i ==> (#[trigger] cs.take(i as int)[j]).0 != t);
                lemma_apply_counts_other(old_terms, cs.take(i as int), doc_id, t);
                assert(cs.take(i + 1 as int).drop_last() =~= cs.take(i as int));
            }
            let term = &counts[i].0;
            assert(term@ == t);
            let ghost prev_entries = self.term_entries();
            let ghost prev_terms = self@.terms;
            match self.find_term(term) {
                Some(j) => {
                    proof {
                        lemma_kv_index(prev_entries, j as int);
                        lemma_kv_remove(prev_entries, j as int);
                        assert(prev_terms.contains_key(t));
                        assert(prev_terms[t] == old_terms[t]);
                    }
                    let mut entry = self.index.remove(j);
                    proof {
                        assert(self.term_entries() =~= prev_entries.remove(j as int));
                    }
                    let ghost mid_entries = self.term_entries();
                    proof {
                        // document_frequency == number of ids <= old total
                        lemma_kv_dom_len(entry.1.term_frequency@);
                        assert(kv_map(entry.1.term_frequency@) == old_terms[t]);
                        assert(old_terms[t].dom() <= old_docs.dom()) by {
                            assert forall|id: u128| old_terms[t].dom().contains(id) implies
                                old_docs.dom().contains(id) by {
                                assert(old_terms.contains_key(t) && old_terms[t].contains_key(id));
                            }
                        }
                        lemma_kv_dom_len(old(self).doc_entries());
                        lemma_len_subset(old_terms[t].dom(), old_docs.dom());
                        assert(entry.1.document_frequency < usize::MAX);
                    }
                    entry.1.add_document(doc_id, freq);
                    self.index.push(entry);
                    proof {
                        assert(self.term_entries() =~= mid_entries.push(
                            (t, old_terms[t].insert(doc_id, freq)),
                        ));
                        lemma_kv_push(mid_entries, t, old_terms[t].insert(doc_id, freq));
                        lemma_kv_contains(mid_entries, t);
                        assert(self@.terms =~= prev_terms.insert(
                            t,
                            old_terms[t].insert(doc_id, freq),
                        ));
                        assert(self@.terms =~= apply_counts(old_terms, cs.take(i + 1 as int), doc_id));
                    }
                },
                None => {
                    proof {
                        lemma_kv_contains(prev_entries, t);
                        assert(!prev_terms.contains_key(t));
                        assert(!old_terms.contains_key(t));
                    }
                    let mut plist = PostingList::new();
                    plist.add_document(doc_id, freq);
                    let key = term.clone();
                    self.index.push((key, plist));
                    proof {
                        assert(self.term_entries() =~= prev_entries.push(
                            (t, Map::<u128, usize>::empty().insert(doc_id, freq)),
                        ));
                        lemma_kv_push(prev_entries, t, Map::<u128, usize>::empty().insert(doc_id, freq));
                        assert(self@.terms =~= prev_terms.insert(
                            t,
                            Map::<u128, usize>::empty().insert(doc_id, freq),
                        ));
                        assert(self@.terms =~= apply_counts(old_terms, cs.take(i + 1 as int), doc_id));
                    }
                },
            }
            i += 1;
        }
        proof {
            assert(cs.take(counts@.len() as int) =~= cs);
            let m = self@;
            // a term is a count key exactly when the document contains it
            assert forall|t: Seq<char>| cm.contains_key(t) == (term_count(document@, t) > 0) by {}
            assert(m.entries_sound()) by {
                assert forall|t: Seq<char>, id: u128|
                    m.terms.contains_key(t) && #[trigger] m.terms[t].contains_key(id) implies {
                    &&& m.docs.contains_key(id)
                    &&& m.terms[t][id] as nat == term_count(m.docs[id], t)
                    &&& term_count(m.docs[id], t) > 0
                } by {
                    lemma_kv_contains(cs, t);
                    if exists|j: int| 0 <= j < cs.len() && cs[j].0 == t {
                        let j = choose|j: int| 0 <= j < cs.len() && cs[j].0 == t;
                        lemma_apply_counts_lookup(old_terms, cs, doc_id, j);
                        lemma_kv_index(cs, j);
                        assert(cm.contains_key(t) && cm[t] == cs[j].1);
                        if id == doc_id {
                            assert(m.terms[t][id] == cs[j].1);
                            assert(cm[t] as nat == term_count(document@, t));
                        } else {
                            assert(old_terms.contains_key(t) && old_terms[t].contains_key(id));
                            assert(old_docs.contains_key(id));
                            assert(m.docs[id] == old_docs[id]);
                        }
                    } else {
                        lemma_apply_counts_other(old_terms, cs, doc_id, t);
                        assert(old_terms.contains_key(t) && old_terms[t].contains_key(id));
                        assert(old_docs.contains_key(id));
                        assert(id != doc_id);
                        assert(m.docs[id] == old_docs[id]);
                    }
                }
            }
            assert(m.entries_complete()) by {
                assert forall|t: Seq<char>, id: u128|
                    m.docs.contains_key(id) && #[trigger] term_count(m.docs[id], t) > 0 implies
                    m.terms.contains_key(t) && m.terms[t].contains_key(id) by {
                    lemma_kv_contains(cs, t);
                    if id == doc_id {
                        assert(term_count(document@, t) > 0);
                        assert(cm.contains_key(t));
                        let j = choose|j: int| 0 <= j < cs.len() && cs[j].0 == t;
                        lemma_apply_counts_lookup(old_terms, cs, doc_id, j);
                    } else {
                        assert(old_docs.contains_key(id) && term_count(old_docs[id], t) > 0);
                        assert(old_terms.contains_key(t) && old_terms[t].contains_key(id));
                        if exists|j: int| 0 <= j < cs.len() && cs[j].0 == t {
                            let j = choose|j: int| 0 <= j < cs.len() && cs[j].0 == t;
                            lemma_apply_counts_lookup(old_terms, cs, doc_id, j);
                        } else {
                            lemma_apply_counts_other(old_terms, cs, doc_id, t);
                        }
                    }
                }
            }
            assert(m.postings_nonempty()) by {
                assert forall|t: Seq<char>| #[trigger] m.terms.contains_key(t) implies exists|id: u128|
                    m.terms[t].contains_key(id) by {
                    lemma_kv_contains(cs, t);
                    if exists|j: int| 0 <= j < cs.len() && cs[j].0 == t {
                        let j = choose|j: int| 0 <= j < cs.len() && cs[j].0 == t;
                        lemma_apply_counts_lookup(old_terms, cs, doc_id, j);
                        assert(m.terms[t].contains_key(doc_id));
                    } else {
                        lemma_apply_counts_other(old_terms, cs, doc_id, t);
                        assert(old_terms.contains_key(t));
                        let id = choose|id: u128| old_terms[t].contains_key(id);
                        assert(m.terms[t].contains_key(id));
                    }
                }
            }
        }
    }
}


/// The terms map after removing document `id` from each posting list named
/// by a count entry, deleting posting lists that become empty.
pub open spec fn strip_counts(
    terms: Map<Seq<char>, Map<u128, usize>>,
    cs: Seq<(Seq<char>, usize)>,
    id: u128,
) -> Map<Seq<char>, Map<u128, usize>>
    decreases cs.len(),
{
    if cs.len() == 0 {
        terms
    } else {
        let m = strip_counts(terms, cs.drop_last(), id);
        let t = cs.last().0;
        if m.contains_key(t) {
            let p = m[t].remove(id);
            if p == Map::<u128, usize>::empty() {
                m.remove(t)
            } else {
                m.insert(t, p)
            }
        } else {
            m
        }
    }
}

/// A term that no count entry names is untouched by `strip_counts`.
proof fn lemma_strip_counts_other(
    terms: Map<Seq<char>, Map<u128, usize>>,
    cs: Seq<(Seq<char>, usize)>,
    id: u128,
    t: Seq<char>,
)
    requires
        forall|j: int| 0 <= j < cs.len() ==> (#[trigger] cs[j]).0 != t,
    ensures
        strip_counts(terms, cs, id).contains_key(t) == terms.contains_key(t),
        terms.contains_key(t) ==> strip_counts(terms, cs, id)[t] == terms[t],
    decreases cs.len(),
{
    if cs.len() > 0 {
        assert(forall|j: int|
            0 <= j < cs.drop_last().len() ==> (#[trigger] cs.drop_last()[j]) == cs[j]);
        lemma_strip_counts_other(terms, cs.drop_last(), id, t);
        assert(cs.last().0 != t);
    }
}

/// A term named by exactly one count entry has the document stripped from
/// its posting list, the list deleted when that empties it.
proof fn lemma_strip_counts_lookup(
    terms: Map<Seq<char>, Map<u128, usize>>,
    cs: Seq<(Seq<char>, usize)>,
    id: u128,
    j: int,
)
    requires
        kv_distinct(cs),
        0 <= j < cs.len(),
        terms.contains_key(cs[j].0),
    ensures
        ({
            let p = terms[cs[j].0].remove(id);
            if p == Map::<u128, usize>::empty() {
                !strip_counts(terms, cs, id).contains_key(cs[j].0)
            } else {
                strip_counts(terms, cs, id).contains_key(cs[j].0) && strip_counts(terms, cs, id)[cs[j].0]
                    == p
            }
        }),
    decreases cs.len(),
{
    let t = cs[j].0;
    if j == cs.len() - 1 {
        assert(forall|x: int|
            0 <= x < cs.drop_last().len() ==> (#[trigger] cs.drop_last()[x]) == cs[x]);
        assert(forall|x: int| 0 <= x < cs.drop_last().len() ==> (#[trigger] cs.drop_last()[x]).0 != t);
        lemma_strip_counts_other(terms, cs.drop_last(), id, t);
    } else {
        assert(cs.drop_last()[j] == cs[j]);
        lemma_strip_counts_lookup(terms, cs.drop_last(), id, j);
        assert(cs.last().0 != t);
    }
}

impl InvertedIndex {
    /// The position of `doc_id` among the stored documents, if any.
    fn find_doc(&self, doc_id: u128) -> (r: Option<usize>)
        ensures
            match r {
                Some(i) => i < self.documents@.len() && self.documents@[i as int].0 == doc_id,
                None => forall|j: int|
                    0 <= j < self.documents@.len() ==> (#[trigger] self.documents@[j]).0 != doc_id,
            },
    {
        let mut i: usize = 0;
        while i < self.documents.len()
            invariant
                i <= self.documents@.len(),
                forall|j: int| 0 <= j < i ==> (#[trigger] self.documents@[j]).0 != doc_id,
            decreases self.documents@.len() - i,
        {
            if self.documents[i].0 == doc_id {
                return Some(i);
            }
            i += 1;
        }
        None
    }

    /// Unindexes a document: removes its id from the posting list of each of
    /// its terms, deletes posting lists that become empty, and hands the
    /// document back. Removing an unknown id is a no-op, not an error.
    pub fn remove_document(&mut self, doc_id: u128) -> (r: Option<Document>)
        requires
            old(self).wf(),
        ensures
            final(self).wf(),
            old(self)@.docs.contains_key(doc_id) ==> {
                &&& r matches Some(d) && d@ == old(self)@.docs[doc_id]
                &&& final(self)@.docs == old(self)@.docs.remove(doc_id)
                &&& final(self)@.total == old(self)@.total - 1
            },
            !old(self)@.docs.contains_key(doc_id) ==> r is None && final(self)@ == old(self)@,
    {
        proof {
            lemma_kv_contains(self.doc_entries(), doc_id);
        }
        let di = match self.find_doc(doc_id) {
            None => {
                return None;
            },
            Some(di) => di,
        };
        let ghost old_terms = old(self)@.terms;
        let ghost old_docs = old(self)@.docs;
        proof {
            lemma_kv_index(self.doc_entries(), di as int);
            lemma_kv_remove(self.doc_entries(), di as int);
        }
        let entry = self.documents.remove(di);
        let document = entry.1;
        self.total_documents -= 1;
        proof {
            assert(self.doc_entries() =~= old(self).doc_entries().remove(di as int));
            lemma_kv_dom_len(self.doc_entries());
            assert(document@ == old_docs[doc_id]);
        }
        let ghost new_docs = old_docs.remove(doc_id);
        let ghost docs_frozen = self.documents@;

        let text = document.get_text();
        let tokens = self.tokenizer.tokenize(text.as_str());
        proof {
            assert(tokens.deep_view() == doc_terms(document@));
        }
        let counts = count_terms(&tokens);
        let ghost cs = counts_view(counts@);
        let ghost cm = kv_map(cs);

        // every kept posting list is non-empty
        proof {
            assert forall|x: int| 0 <= x < self.index@.len() implies (
            #[trigger] self.index@[x].1).term_frequency@.len() > 0 by {
                lemma_kv_index(self.term_entries(), x);
                let t = self.term_entries()[x].0;
                assert(old(self)@.terms.contains_key(t));
                let id = choose|id: u128| old(self)@.terms[t].contains_key(id);
                lemma_kv_contains(self.index@[x].1.term_frequency@, id);
            }
        }

        let mut i: usize = 0;
        while i < counts.len()
            invariant
                i <= counts@.len(),
                old(self).wf(),
                old_terms == old(self)@.terms,
                old_docs == old(self)@.docs,
                old_docs.contains_key(doc_id),
                document@ == old_docs[doc_id],
                new_docs == old_docs.remove(doc_id),
                cs == counts_view(counts@),
                cm == kv_map(cs),
                kv_distinct(cs),
                forall|u: Seq<char>| #[trigger] cm.contains_key(u) <==> term_count(document@, u) > 0,
                forall|u: Seq<char>|
                    #[trigger] cm.contains_key(u) ==> cm[u] as nat == term_count(document@, u),
                self.documents@ == docs_frozen,
                self@.docs == new_docs,
                kv_distinct(self.doc_entries()),
                self.total_documents == old(self).total_documents - 1,
                self@.total == new_docs.dom().len(),
                new_docs.dom().finite(),
                forall|x: int|
                    0 <= x < self.documents@.len() ==> (#[trigger] self.documents@[x]).0
                        == self.documents@[x].1.id,
                self.tokenizer.wf(),
                kv_distinct(self.term_entries()),
                forall|x: int| 0 <= x < self.index@.len() ==> (#[trigger] self.index@[x].1).wf(),
                forall|x: int|
                    0 <= x < self.index@.len() ==> (#[trigger] self.index@[x].1).term_frequency@.len()
                        > 0,
                self@.terms == strip_counts(old_terms, cs.take(i as int), doc_id),
            decreases counts@.len() - i,
        {
            let ghost t = cs[i as int].0;
            proof {
                lemma_kv_index(cs, i as int);
                assert(forall|j: int| 0 <= j < i ==> (#[trigger] cs.take(i as int)[j]) == cs[j]);
                assert(forall|j: int| 0 <= j < i ==> (#[trigger] cs.take(i as int)[j]).0 != t);
                lemma_strip_counts_other(old_terms, cs.take(i as int), doc_id, t);
                assert(cs.take(i + 1 as int).drop_last() =~= cs.take(i as int));
                // the old index has a posting for t that names this document
                assert(cm.contains_key(t) && cm[t] as nat == term_count(document@, t));
                assert(term_count(old_docs[doc_id], t) > 0);
                assert(old_terms.contains_key(t) && old_terms[t].contains_key(doc_id));
            }
            let term = &counts[i].0;
            assert(term@ == t);
            let ghost prev_entries = self.term_entries();
            let ghost prev_terms = self@.terms;
            match self.find_term(term) {
                Some(j) => {
                    proof {
                        lemma_kv_index(prev_entries, j as int);
                        lemma_kv_remove(prev_entries, j as int);
                        assert(prev_terms.contains_key(t));
                        assert(prev_terms[t] == old_terms[t]);
                    }
                    let mut entry = self.index.remove(j);
                    proof {
                        assert(self.term_entries() =~= prev_entries.remove(j as int));
                    }
                    let ghost mid_entries = self.term_entries();
                    entry.1.remove_document(doc_id);
                    let ghost p = old_terms[t].remove(doc_id);
                    if entry.1.document_frequency == 0 {
                        proof {
                            assert(entry.1.term_frequency@.len() == 0);
                            assert(entry.1.term_frequency@ =~= Seq::<(u128, usize)>::empty());
                            assert(p =~= Map::<u128, usize>::empty());
                            lemma_kv_contains(mid_entries, t);
                            assert(self@.terms =~= prev_terms.remove(t));
                            assert(self@.terms =~= strip_counts(old_terms, cs.take(i + 1 as int), doc_id));
                        }
                    } else {
                        proof {
                            assert(entry.1.term_frequency@.len() > 0);
                            lemma_kv_index(entry.1.term_frequency@, 0);
                            assert(p.contains_key(entry.1.term_frequency@[0].0));
                            assert(p != Map::<u128, usize>::empty());
                        }
                        self.index.push(entry);
                        proof {
                            assert(self.term_entries() =~= mid_entries.push((t, p)));
                            lemma_kv_push(mid_entries, t, p);
                            lemma_kv_contains(mid_entries, t);
                            assert(self@.terms =~= prev_terms.insert(t, p));
                            assert(self@.terms =~= strip_counts(old_terms, cs.take(i + 1 as int), doc_id));
                        }
                    }
                },
                None => {
                    proof {
                        lemma_kv_contains(prev_entries, t);
                        assert(!prev_terms.contains_key(t));
                        assert(false);
                    }
                },
            }
            i += 1;
        }
        proof {
            assert(cs.take(counts@.len() as int) =~= cs);
            let m = self@;
            assert(m.entries_sound()) by {
                assert forall|t: Seq<char>, id: u128|
                    m.terms.contains_key(t) && #[trigger] m.terms[t].contains_key(id) implies {
                    &&& m.docs.contains_key(id)
                    &&& m.terms[t][id] as nat == term_count(m.docs[id], t)
                    &&& term_count(m.docs[id], t) > 0
                } by {
                    lemma_kv_contains(cs, t);
                    if exists|j: int| 0 <= j < cs.len() && cs[j].0 == t {
                        let j = choose|j: int| 0 <= j < cs.len() && cs[j].0 == t;
                        lemma_kv_index(cs, j);
                        assert(cm.contains_key(t));
                        assert(term_count(old_docs[doc_id], t) > 0);
                        assert(old_terms.contains_key(t));
                        lemma_strip_counts_lookup(old_terms, cs, doc_id, j);
                        assert(m.terms[t] == old_terms[t].remove(doc_id));
                        assert(old_terms[t].contains_key(id) && id != doc_id);
                        assert(old_docs.contains_key(id));
                    } else {
                        lemma_strip_counts_other(old_terms, cs, doc_id, t);
                        assert(old_terms.contains_key(t) && old_terms[t].contains_key(id));
                        assert(old_docs.contains_key(id));
                        // the stripped document did not contain this term
                        assert(!cm.contains_key(t));
                        assert(term_count(old_docs[doc_id], t) == 0);
                        assert(id != doc_id);
                    }
                }
            }
            assert(m.entries_complete()) by {
                assert forall|t: Seq<char>, id: u128|
                    m.docs.contains_key(id) && #[trigger] term_count(m.docs[id], t) > 0 implies
                    m.terms.contains_key(t) && m.terms[t].contains_key(id) by {
                    assert(id != doc_id);
                    assert(old_docs.contains_key(id) && term_count(old_docs[id], t) > 0);
                    assert(old_terms.contains_key(t) && old_terms[t].contains_key(id));
                    lemma_kv_contains(cs, t);
                    if exists|j: int| 0 <= j < cs.len() && cs[j].0 == t {
                        let j = choose|j: int| 0 <= j < cs.len() && cs[j].0 == t;
                        lemma_strip_counts_lookup(old_terms, cs, doc_id, j);
                        let p = old_terms[t].remove(doc_id);
                        assert(p.contains_key(id));
                        assert(p != Map::<u128, usize>::empty());
                    } else {
                        lemma_strip_counts_other(old_terms, cs, doc_id, t);
                    }
                }
            }
            assert(m.postings_nonempty()) by {
                assert forall|t: Seq<char>| #[trigger] m.terms.contains_key(t) implies exists|id: u128|
                    m.terms[t].contains_key(id) by {
                    lemma_kv_contains(self.term_entries(), t);
                    let x = choose|x: int|
                        0 <= x < self.term_entries().len() && self.term_entries()[x].0 == t;
                    lemma_kv_index(self.term_entries(), x);
                    lemma_kv_index(self.index@[x].1.term_frequency@, 0);
                    assert(m.terms[t].contains_key(self.index@[x].1.term_frequency@[0].0));
                }
            }
        }
        Some(document)
    }

    /// The stored document with this id, if any.
    pub fn get_document(&self, doc_id: u128) -> (r: Option<&Document>)
        requires
            self.wf(),
        ensures
            match r {
                Some(d) => self@.docs.contains_key(doc_id) && d@ == self@.docs[doc_id] && d@.id
                    == doc_id,
                None => !self@.docs.contains_key(doc_id),
            },
    {
        proof {
            lemma_kv_contains(self.doc_entries(), doc_id);
        }
        match self.find_doc(doc_id) {
            Some(i) => {
                proof {
                    lemma_kv_index(self.doc_entries(), i as int);
                }
                Some(&self.documents[i].1)
            },
            None => None,
        }
    }

    /// Every stored document, in insertion order.
    pub fn get_all_documents(&self) -> (r: Vec<&Document>)
        requires
            self.wf(),
        ensures
            r@.len() == self.documents@.len(),
            forall|i: int|
                0 <= i < r@.len() ==> r@[i]@ == (#[trigger] self.documents@[i]).1@,
            forall|i: int|
                0 <= i < r@.len() ==> self@.docs.contains_key((#[trigger] self.documents@[i]).0)
                    && r@[i]@ == self@.docs[self.documents@[i].0],
    {
        let mut r: Vec<&Document> = Vec::new();
        let mut i: usize = 0;
        while i < self.documents.len()
            invariant
                self.wf(),
                i <= self.documents@.len(),
                r@.len() == i,
                forall|j: int|
                    0 <= j < i ==> r@[j]@ == (#[trigger] self.documents@[j]).1@,
                forall|j: int|
                    0 <= j < i ==> self@.docs.contains_key((#[trigger] self.documents@[j]).0)
                        && r@[j]@ == self@.docs[self.documents@[j].0],
            decreases self.documents@.len() - i,
        {
            proof {
                assert(self.doc_entries()[i as int] == (
                    self.documents@[i as int].0,
                    self.documents@[i as int].1@,
                ));
                lemma_kv_index(self.doc_entries(), i as int);
            }
            r.push(&self.documents[i].1);
            proof {
                assert(r@[i as int]@ == self.documents@[i as int].1@);
                assert(self@.docs.contains_key(self.documents@[i as int].0));
                assert(self@.docs[self.documents@[i as int].0] == self.documents@[i as int].1@);
            }
            i += 1;
        }
        r
    }
}

/// Largest value one term can contribute to a score, in micro-units.
pub const TERM_SCORE_MAX: u64 = 0x8_0000_0000;

/// 1 + ln(tf), in micro-units.
pub open spec fn tf_weight_micro(tf: nat) -> nat {
    SCALE as nat + ln_micro(tf)
}

/// ln((total + 1) / (df + 1)) + 1, in micro-units: the smoothed inverse
/// document frequency, at least one whole unit whenever df <= total.
pub open spec fn idf_weight_micro(total: nat, df: nat) -> int {
    SCALE as int + ln_micro(total + 1) - ln_micro(df + 1)
}

/// The score one term contributes to one document.
pub open spec fn term_score_micro(tf: nat, df: nat, total: nat) -> int {
    (tf_weight_micro(tf) * idf_weight_micro(total, df)) / (SCALE as int)
}

/// What the posting for `t` contributes to the score of document `id`.
pub open spec fn token_score(m: IndexModel, t: Seq<char>, id: u128) -> int {
    if m.terms.contains_key(t) && m.terms[t].contains_key(id) {
        term_score_micro(m.terms[t][id] as nat, m.terms[t].dom().len(), m.total)
    } else {
        0
    }
}

/// A document's score for a token sequence: the sum of the contributions of
/// every token occurrence.
pub open spec fn doc_score_micro(m: IndexModel, toks: Seq<Seq<char>>, id: u128) -> int
    decreases toks.len(),
{
    if toks.len() == 0 {
        0
    } else {
        doc_score_micro(m, toks.drop_last(), id) + token_score(m, toks.last(), id)
    }
}

/// A document matches when some query token has a posting entry for it.
pub open spec fn matches_query(m: IndexModel, toks: Seq<Seq<char>>, id: u128) -> bool {
    exists|i: int|
        0 <= i < toks.len() && m.terms.contains_key(#[trigger] toks[i])
            && m.terms[toks[i]].contains_key(id)
}

/// The smoothed inverse document frequency is at least one whole unit: even
/// ubiquitous terms contribute positive weight.
pub proof fn lemma_idf_bounds(total: nat, df: nat)
    requires
        1 <= df <= total,
    ensures
        idf_weight_micro(total, df) >= SCALE as int,
{
    lemma_ln_micro_mono(df + 1, total + 1);
}

/// With the same document frequency and corpus size, a higher term
/// frequency never scores lower: more occurrences rank a document at least
/// as high. The ordering is not strict: the fixed-point logarithm can round
/// two large neighbouring frequencies to the same value (floating point
/// does the same, only later), and equal scores are then ordered by
/// ascending document id.
pub proof fn lemma_term_score_monotone(tf1: nat, tf2: nat, df: nat, total: nat)
    requires
        1 <= tf1 <= tf2,
        1 <= df <= total,
    ensures
        term_score_micro(tf1, df, total) <= term_score_micro(tf2, df, total),
{
    lemma_ln_micro_mono(tf1, tf2);
    lemma_idf_bounds(total, df);
    vstd::arithmetic::mul::lemma_mul_inequality(
        tf_weight_micro(tf1) as int,
        tf_weight_micro(tf2) as int,
        idf_weight_micro(total, df),
    );
    vstd::arithmetic::div_mod::lemma_div_is_ordered(
        (tf_weight_micro(tf1) as int) * idf_weight_micro(total, df),
        (tf_weight_micro(tf2) as int) * idf_weight_micro(total, df),
        SCALE as int,
    );
}

/// Result order: higher score first, ties broken by ascending document id.
pub open spec fn ranked_before(a: (u128, i128), b: (u128, i128)) -> bool {
    a.1 > b.1 || (a.1 == b.1 && a.0 < b.0)
}

/// A token either extends a document's match set and score or leaves them
/// alone, depending on its posting.
proof fn lemma_matches_step(m: IndexModel, toks: Seq<Seq<char>>, i: int, id: u128)
    requires
        0 <= i < toks.len(),
    ensures
        matches_query(m, toks.take(i + 1), id) <==> (matches_query(m, toks.take(i), id) || (
        m.terms.contains_key(toks[i]) && m.terms[toks[i]].contains_key(id))),
{
    let a = toks.take(i);
    let b = toks.take(i + 1);
    assert(forall|x: int| 0 <= x < i ==> a[x] == toks[x] && b[x] == toks[x]);
    assert(b[i] == toks[i]);
    if matches_query(m, b, id) {
        let x = choose|x: int|
            0 <= x < b.len() && m.terms.contains_key(#[trigger] b[x]) && m.terms[b[x]].contains_key(
                id,
            );
        if x < i {
            assert(m.terms.contains_key(a[x]) && m.terms[a[x]].contains_key(id));
        }
    }
    if matches_query(m, a, id) {
        let x = choose|x: int|
            0 <= x < a.len() && m.terms.contains_key(#[trigger] a[x]) && m.terms[a[x]].contains_key(
                id,
            );
        assert(m.terms.contains_key(b[x]) && m.terms[b[x]].contains_key(id));
    }
    if m.terms.contains_key(toks[i]) && m.terms[toks[i]].contains_key(id) {
        assert(m.terms.contains_key(b[i]) && m.terms[b[i]].contains_key(id));
    }
}

/// Whether one of the first `n` posting entries names document `id`.
pub open spec fn posting_prefix_has(pseq: Seq<(u128, usize)>, n: int, id: u128) -> bool {
    exists|x: int| 0 <= x < n && pseq[x].0 == id
}

/// The score one term contributes: (1 + ln tf) * (ln((N+1)/(df+1)) + 1),
/// in micro-units, rounded down.
fn term_score_u64(tf: usize, df: usize, total: usize) -> (r: u64)
    requires
        1 <= tf,
        1 <= df <= total,
    ensures
        r as int == term_score_micro(tf as nat, df as nat, total as nat),
        r <= TERM_SCORE_MAX,
{
    let tfl = ln_micro_u128(tf as u128);
    let la = ln_micro_u128((total as u128) + 1);
    let lb = ln_micro_u128((df as u128) + 1);
    proof {
        lemma_ln_micro_mono((df as nat) + 1, (total as nat) + 1);
    }
    let tfw: u64 = SCALE + tfl;
    let idf: u64 = SCALE + la - lb;
    proof {
        assert(tfw as int == tf_weight_micro(tf as nat));
        assert(idf as int == idf_weight_micro(total as nat, df as nat));
        assert(tfw <= 89722816 && idf <= 89722816);
        assert((tfw as int) * (idf as int) <= 89722816 * 89722816) by {
            vstd::arithmetic::mul::lemma_mul_inequality(tfw as int, 89722816, idf as int);
            vstd::arithmetic::mul::lemma_mul_inequality(idf as int, 89722816, 89722816);
            vstd::arithmetic::mul::lemma_mul_is_commutative(tfw as int, idf as int);
        }
        assert((tfw as int) * (idf as int) >= 0) by {
            vstd::arithmetic::mul::lemma_mul_nonnegative(tfw as int, idf as int);
        }
    }
    let prod: u128 = (tfw as u128) * (idf as u128);
    let r: u64 = (prod / (SCALE as u128)) as u64;
    proof {
        vstd::arithmetic::div_mod::lemma_div_is_ordered(
            prod as int,
            (89722816 * 89722816) as int,
            SCALE as int,
        );
    }
    r
}

/// Sorts search results: higher score first, equal scores by ascending id.
/// Keeps exactly the given entries.
fn sort_results(v: Vec<(u128, i128)>) -> (r: Vec<(u128, i128)>)
    requires
        kv_distinct(v@),
    ensures
        r@.len() == v@.len(),
        forall|i: int| 0 <= i < r@.len() ==> v@.contains(#[trigger] r@[i]),
        forall|j: int| 0 <= j < v@.len() ==> r@.contains(#[trigger] v@[j]),
        forall|i: int, j: int| 0 <= i < j < r@.len() ==> ranked_before(r@[i], r@[j]),
{
    let mut r: Vec<(u128, i128)> = Vec::new();
    let mut i: usize = 0;
    while i < v.len()
        invariant
            kv_distinct(v@),
            i <= v@.len(),
            r@.len() == i,
            forall|x: int|
                0 <= x < r@.len() ==> exists|y: int| 0 <= y < i && v@[y] == #[trigger] r@[x],
            forall|y: int| 0 <= y < i ==> r@.contains(#[trigger] v@[y]),
            forall|x: int, y: int| 0 <= x < y < r@.len() ==> ranked_before(r@[x], r@[y]),
        decreases v@.len() - i,
    {
        let x = v[i];
        // x's id is fresh among r's entries
        proof {
            assert forall|k: int| 0 <= k < r@.len() implies r@[k].0 != x.0 by {
                let y = choose|y: int| 0 <= y < i && v@[y] == r@[k];
                assert(v@[y].0 != v@[i as int].0);
            }
        }
        let mut p: usize = 0;
        while p < r.len() && (r[p].1 > x.1 || (r[p].1 == x.1 && r[p].0 < x.0))
            invariant
                p <= r@.len(),
                forall|k: int| 0 <= k < p ==> ranked_before(#[trigger] r@[k], x),
            decreases r@.len() - p,
        {
            p += 1;
        }
        let ghost prev = r@;
        r.insert(p, x);
        proof {
            assert(r@ == prev.insert(p as int, x));
            assert(forall|k: int| 0 <= k < p ==> r@[k] == prev[k]);
            assert(r@[p as int] == x);
            assert(forall|k: int| p < k < r@.len() ==> r@[k] == prev[k - 1]);
            // x goes before everything from position p on
            if (p as int) < prev.len() {
                assert(prev[p as int].0 != x.0);
                assert(ranked_before(x, prev[p as int]));
                assert forall|k: int| p <= k < prev.len() implies ranked_before(
                    x,
                    #[trigger] prev[k],
                ) by {
                    if k > p {
                        assert(ranked_before(prev[p as int], prev[k]));
                    }
                }
            }
            // old elements keep their witnesses; v[i] sits at p
            assert forall|y: int| 0 <= y < i + 1 implies r@.contains(#[trigger] v@[y]) by {
                if y == i {
                    assert(r@[p as int] == v@[y]);
                } else {
                    let k = choose|k: int| 0 <= k < prev.len() && prev[k] == v@[y];
                    if k < p {
                        assert(r@[k] == v@[y]);
                    } else {
                        assert(r@[k + 1] == v@[y]);
                    }
                }
            }
            assert forall|k: int| 0 <= k < r@.len() implies exists|y: int|
                0 <= y < i + 1 && v@[y] == #[trigger] r@[k] by {
                if k < p {
                    let y = choose|y: int| 0 <= y < i && v@[y] == prev[k];
                    assert(v@[y] == r@[k]);
                } else if k == p {
                    assert(v@[i as int] == r@[k]);
                } else {
                    let y = choose|y: int| 0 <= y < i && v@[y] == prev[k - 1];
                    assert(v@[y] == r@[k]);
                }
            }
        }
        i += 1;
    }
    r
}

impl InvertedIndex {
    /// Scores every document that matches at least one query token, and
    /// returns `(document id, score)` pairs in descending score order, ties
    /// broken by ascending id. Scores are in micro-units. An empty or
    /// all-stop-word query gives an empty result, never an error.
    pub fn search(&self, query: &str) -> (r: Vec<(u128, i128)>)
        requires
            self.wf(),
        ensures
            ({
                let toks = tokens_of(query@);
                let m = self@;
                &&& forall|i: int|
                    0 <= i < r@.len() ==> matches_query(m, toks, (#[trigger] r@[i]).0) && r@[i].1
                        as int == doc_score_micro(m, toks, r@[i].0)
                &&& forall|id: u128|
                    #[trigger] matches_query(m, toks, id) ==> exists|i: int|
                        0 <= i < r@.len() && r@[i].0 == id
                &&& forall|i: int, j: int|
                    0 <= i < j < r@.len() ==> ranked_before(r@[i], r@[j])
                &&& toks.len() == 0 ==> r@.len() == 0
            }),
    {
        let tokens = self.tokenizer.tokenize(query);
        let ghost toks = tokens.deep_view();
        let ghost m = self@;
        let mut acc: Vec<(u128, i128)> = Vec::new();
        let mut ti: usize = 0;
        while ti < tokens.len()
            invariant
                self.wf(),
                m == self@,
                toks == tokens.deep_view(),
                toks == tokens_of(query@),
                ti <= tokens@.len(),
                tokens@.len() == toks.len(),
                kv_distinct(acc@),
                forall|id: u128|
                    #[trigger] kv_map(acc@).contains_key(id) <==> matches_query(
                        m,
                        toks.take(ti as int),
                        id,
                    ),
                forall|id: u128|
                    #[trigger] kv_map(acc@).contains_key(id) ==> kv_map(acc@)[id] as int
                        == doc_score_micro(m, toks.take(ti as int), id),
                forall|x: int|
                    0 <= x < acc@.len() ==> 0 <= (#[trigger] acc@[x]).1 <= (ti as int) * (
                    TERM_SCORE_MAX as int),
            decreases tokens@.len() - ti,
        {
            let ghost tv = toks[ti as int];
            proof {
                assert(toks.take(ti + 1 as int).drop_last() =~= toks.take(ti as int));
                assert(toks.take(ti + 1 as int).last() == tv);
                vstd::arithmetic::mul::lemma_mul_inequality(
                    ti as int,
                    ti + 1 as int,
                    TERM_SCORE_MAX as int,
                );
            }
            let t = &tokens[ti];
            assert(t@ == tv);
            match self.find_term(t) {
                None => {
                    proof {
                        lemma_kv_contains(self.term_entries(), tv);
                        assert(!m.terms.contains_key(tv));
                        assert forall|id: u128| #[trigger] kv_map(acc@).contains_key(id)
                            <==> matches_query(m, toks.take(ti + 1 as int), id) by {
                            lemma_matches_step(m, toks, ti as int, id);
                        }
                        assert forall|id: u128| #[trigger] kv_map(acc@).contains_key(id) implies
                            kv_map(acc@)[id] as int == doc_score_micro(
                            m,
                            toks.take(ti + 1 as int),
                            id,
                        ) by {
                            assert(token_score(m, tv, id) == 0);
                        }
                    }
                },
                Some(j) => {
                    proof {
                        lemma_kv_index(self.term_entries(), j as int);
                        assert(m.terms.contains_key(tv));
                        assert(kv_map(self.index@[j as int].1.term_frequency@) == m.terms[tv]);
                    }
                    let total = self.total_documents;
                    let df = self.index[j].1.document_frequency;
                    let ghost p = m.terms[tv];
                    let ghost pseq = self.index@[j as int].1.term_frequency@;
                    proof {
                        lemma_kv_dom_len(pseq);
                        assert(df == p.dom().len());
                        // the posting is non-empty and its ids are indexed
                        let w = choose|id: u128| p.contains_key(id);
                        lemma_kv_contains(pseq, w);
                        assert(df >= 1);
                        assert(p.dom() <= m.docs.dom()) by {
                            assert forall|id: u128| p.dom().contains(id) implies
                                m.docs.dom().contains(id) by {
                                assert(m.terms[tv].contains_key(id));
                            }
                        }
                        lemma_kv_dom_len(self.doc_entries());
                        lemma_len_subset(p.dom(), m.docs.dom());
                        assert(df <= total);
                    }
                    let mut pi: usize = 0;
                    let plen = self.index[j].1.term_frequency.len();
                    while pi < plen
                        invariant
                            self.wf(),
                            m == self@,
                            toks == tokens.deep_view(),
                            ti < toks.len(),
                            tv == toks[ti as int],
                            j < self.index@.len(),
                            pseq == self.index@[j as int].1.term_frequency@,
                            plen == pseq.len(),
                            pi <= plen,
                            p == m.terms[tv],
                            p == kv_map(pseq),
                            m.terms.contains_key(tv),
                            kv_distinct(pseq),
                            df == self.index@[j as int].1.document_frequency,
                            1 <= df <= total,
                            df == p.dom().len(),
                            total == self.total_documents,
                            kv_distinct(acc@),
                            forall|id: u128|
                                #[trigger] kv_map(acc@).contains_key(id) <==> (matches_query(
                                    m,
                                    toks.take(ti as int),
                                    id,
                                ) || posting_prefix_has(pseq, pi as int, id)),
                            forall|id: u128|
                                #[trigger] kv_map(acc@).contains_key(id) ==> kv_map(acc@)[id] as int
                                    == doc_score_micro(m, toks.take(ti as int), id) + (
                                if posting_prefix_has(pseq, pi as int, id) {
                                    token_score(m, tv, id)
                                } else {
                                    0
                                }),
                            forall|x: int| 0 <= x < acc@.len() ==> 0 <= (#[trigger] acc@[x]).1,
                            forall|x: int|
                                0 <= x < acc@.len() && !posting_prefix_has(
                                    pseq,
                                    pi as int,
                                    (#[trigger] acc@[x]).0,
                                ) ==> acc@[x].1 <= (ti as int) * (TERM_SCORE_MAX as int),
                            forall|x: int|
                                0 <= x < acc@.len() && posting_prefix_has(
                                    pseq,
                                    pi as int,
                                    (#[trigger] acc@[x]).0,
                                ) ==> acc@[x].1 <= (ti as int) * (TERM_SCORE_MAX as int) + (
                                TERM_SCORE_MAX as int),
                        decreases plen - pi,
                    {
                        let entry = self.index[j].1.term_frequency[pi];
                        let id2 = entry.0;
                        let tf2 = entry.1;
                        proof {
                            lemma_kv_index(pseq, pi as int);
                            assert(p.contains_key(id2) && p[id2] == tf2);
                            assert(m.terms[tv].contains_key(id2));
                            assert(m.terms[tv][id2] as nat == term_count(m.docs[id2], tv));
                            assert(tf2 >= 1);
                        }
                        let score = term_score_u64(tf2, df, total);
                        proof {
                            assert(score as int == token_score(m, tv, id2));
                            assert(score >= 0);
                        }
                        // upsert into the accumulator
                        let mut f: usize = 0;
                        let mut found: Option<usize> = None;
                        while f < acc.len()
                            invariant
                                f <= acc@.len(),
                                match found {
                                    Some(g) => g < acc@.len() && acc@[g as int].0 == id2,
                                    None => forall|x: int|
                                        0 <= x < f ==> (#[trigger] acc@[x]).0 != id2,
                                },
                            decreases acc@.len() - f,
                        {
                            if found.is_none() && acc[f].0 == id2 {
                                found = Some(f);
                            }
                            f += 1;
                        }
                        let ghost prev_acc = acc@;
                        match found {
                            Some(g) => {
                                proof {
                                    lemma_kv_index(prev_acc, g as int);
                                    lemma_kv_remove(prev_acc, g as int);
                                    // the old entry does not yet include this posting
                                    assert(kv_map(prev_acc).contains_key(id2));
                                    assert(!posting_prefix_has(pseq, pi as int, id2));
                                    vstd::arithmetic::mul::lemma_mul_inequality(
                                        ti as int,
                                        0xffff_ffff_ffff_ffff,
                                        TERM_SCORE_MAX as int,
                                    );
                                }
                                let old_entry = acc.remove(g);
                                proof {
                                    assert(acc@ =~= prev_acc.remove(g as int));
                                }
                                let ghost mid_acc = acc@;
                                let new_score: i128 = old_entry.1 + score as i128;
                                acc.push((id2, new_score));
                                proof {
                                    assert(acc@ =~= mid_acc.push((id2, new_score)));
                                    lemma_kv_push(mid_acc, id2, new_score);
                                    lemma_kv_contains(mid_acc, id2);
                                    assert(kv_map(acc@) =~= kv_map(prev_acc).insert(
                                        id2,
                                        new_score,
                                    ));
                                }
                            },
                            None => {
                                proof {
                                    lemma_kv_contains(prev_acc, id2);
                                    assert(!kv_map(prev_acc).contains_key(id2));
                                    assert(!matches_query(m, toks.take(ti as int), id2));
                                    assert(doc_score_micro(m, toks.take(ti as int), id2) == 0) by {
                                        lemma_doc_score_unmatched(m, toks.take(ti as int), id2);
                                    }
                                }
                                acc.push((id2, score as i128));
                                proof {
                                    assert(acc@ =~= prev_acc.push((id2, score as i128)));
                                    lemma_kv_push(prev_acc, id2, score as i128);
                                }
                            },
                        }
                        proof {
                            assert forall|id: u128|
                                #[trigger] posting_prefix_has(pseq, pi + 1 as int, id) <==> (
                                posting_prefix_has(pseq, pi as int, id) || id == id2) by {
                                if posting_prefix_has(pseq, pi + 1 as int, id) {
                                    let x = choose|x: int| 0 <= x < pi + 1 && pseq[x].0 == id;
                                    if x < pi {
                                        assert(posting_prefix_has(pseq, pi as int, id));
                                    }
                                }
                                if id == id2 {
                                    assert(pseq[pi as int].0 == id);
                                }
                            }
                        }
                        pi += 1;
                    }
                    proof {
                        // the whole posting was folded in
                        assert forall|id: u128| #[trigger] posting_prefix_has(
                            pseq,
                            plen as int,
                            id,
                        ) <==> p.contains_key(id) by {
                            lemma_kv_contains(pseq, id);
                        }
                        assert forall|id: u128| #[trigger] kv_map(acc@).contains_key(id)
                            <==> matches_query(m, toks.take(ti + 1 as int), id) by {
                            lemma_matches_step(m, toks, ti as int, id);
                        }
                        assert forall|id: u128| #[trigger] kv_map(acc@).contains_key(id) implies
                            kv_map(acc@)[id] as int == doc_score_micro(
                            m,
                            toks.take(ti + 1 as int),
                            id,
                        ) by {
                            if p.contains_key(id) {
                                assert(token_score(m, tv, id) == term_score_micro(
                                    p[id] as nat,
                                    p.dom().len(),
                                    m.total,
                                ));
                            } else {
                                assert(token_score(m, tv, id) == 0);
                            }
                        }
                    }
                },
            }
            proof {
                vstd::arithmetic::mul::lemma_mul_is_distributive_add_other_way(
                    TERM_SCORE_MAX as int,
                    ti as int,
                    1,
                );
                assert((ti + 1) * (TERM_SCORE_MAX as int) == (ti as int) * (TERM_SCORE_MAX as int)
                    + TERM_SCORE_MAX);
            }
            ti += 1;
        }
        proof {
            assert(toks.take(tokens@.len() as int) =~= toks);
        }
        let r = sort_results(acc);
        proof {
            assert forall|i: int| 0 <= i < r@.len() implies matches_query(
                m,
                toks,
                (#[trigger] r@[i]).0,
            ) && r@[i].1 as int == doc_score_micro(m, toks, r@[i].0) by {
                assert(acc@.contains(r@[i]));
                let y = choose|y: int| 0 <= y < acc@.len() && acc@[y] == r@[i];
                lemma_kv_index(acc@, y);
            }
            assert forall|id: u128| #[trigger] matches_query(m, toks, id) implies exists|i: int|
                0 <= i < r@.len() && r@[i].0 == id by {
                assert(kv_map(acc@).contains_key(id));
                lemma_kv_contains(acc@, id);
                let y = choose|y: int| 0 <= y < acc@.len() && acc@[y].0 == id;
                assert(r@.contains(acc@[y]));
                let i = choose|i: int| 0 <= i < r@.len() && r@[i] == acc@[y];
                assert(r@[i].0 == id);
            }
            if toks.len() == 0 {
                assert forall|i: int| 0 <= i < r@.len() implies (#[trigger] r@[i]).0
                    != r@[i].0 by {
                    assert(matches_query(m, toks, r@[i].0));
                }
                assert(r@.len() == 0);
            }
        }
        r
    }
}

/// A document no token of the sequence names scores zero.
proof fn lemma_doc_score_unmatched(m: IndexModel, toks: Seq<Seq<char>>, id: u128)
    requires
        !matches_query(m, toks, id),
    ensures
        doc_score_micro(m, toks, id) == 0,
    decreases toks.len(),
{
    if toks.len() > 0 {
        assert(!matches_query(m, toks.drop_last(), id)) by {
            if matches_query(m, toks.drop_last(), id) {
                let x = choose|x: int|
                    0 <= x < toks.drop_last().len() && m.terms.contains_key(
                        #[trigger] toks.drop_last()[x],
                    ) && m.terms[toks.drop_last()[x]].contains_key(id);
                assert(toks[x] == toks.drop_last()[x]);
                assert(m.terms.contains_key(toks[x]) && m.terms[toks[x]].contains_key(id));
            }
        }
        lemma_doc_score_unmatched(m, toks.drop_last(), id);
        assert(token_score(m, toks.last(), id) == 0) by {
            if m.terms.contains_key(toks.last()) && m.terms[toks.last()].contains_key(id) {
                assert(toks[toks.len() - 1] == toks.last());
                assert(matches_query(m, toks, id));
            }
        }
    }
}

/// The plain persisted form of the index: the posting lists, the documents,
/// and the counter. The tokenizer is pure configuration and is rebuilt
/// fresh on load rather than stored.
pub struct IndexSnapshot {
    /// term -> posting list
    pub index: Vec<(String, PostingList)>,
    /// document id -> document
    pub documents: Vec<(u128, Document)>,
    /// number of indexed documents
    pub total_documents: usize,
}

impl IndexSnapshot {
    /// The document entries with their models.
    pub open spec fn doc_models(&self) -> Seq<(u128, DocModel)> {
        self.documents@.map_values(|p: (u128, Document)| (p.0, p.1@))
    }

    /// A snapshot as `to_snapshot` writes it: distinct document keys, each
    /// the id of its own document.
    pub open spec fn clean(&self) -> bool {
        &&& kv_distinct(self.doc_models())
        &&& forall|i: int|
            0 <= i < self.documents@.len() ==> (#[trigger] self.documents@[i]).0
                == self.documents@[i].1.id
    }
}

impl InvertedIndex {
    /// A plain copy of the index for a storage backend to persist.
    pub fn to_snapshot(&self) -> (s: IndexSnapshot)
        requires
            self.wf(),
        ensures
            s.doc_models() == self.doc_entries(),
            s.clean(),
            s.total_documents == self.total_documents,
            s.index@.map_values(|p: (String, PostingList)| (p.0@, kv_map(p.1.term_frequency@)))
                == self.term_entries(),
    {
        let mut index: Vec<(String, PostingList)> = Vec::new();
        let mut i: usize = 0;
        while i < self.index.len()
            invariant
                i <= self.index@.len(),
                index@.map_values(
                    |p: (String, PostingList)| (p.0@, kv_map(p.1.term_frequency@)),
                ) == self.term_entries().take(i as int),
            decreases self.index@.len() - i,
        {
            let entry = &self.index[i];
            let mut freqs: Vec<(u128, usize)> = Vec::new();
            let mut j: usize = 0;
            while j < entry.1.term_frequency.len()
                invariant
                    j <= entry.1.term_frequency@.len(),
                    freqs@ == entry.1.term_frequency@.take(j as int),
                decreases entry.1.term_frequency@.len() - j,
            {
                freqs.push(entry.1.term_frequency[j]);
                proof {
                    assert(entry.1.term_frequency@.take(j + 1 as int)
                        =~= entry.1.term_frequency@.take(j as int).push(
                        entry.1.term_frequency@[j as int],
                    ));
                }
                j += 1;
            }
            proof {
                assert(entry.1.term_frequency@.take(entry.1.term_frequency@.len() as int)
                    =~= entry.1.term_frequency@);
            }
            let plist = PostingList {
                term_frequency: freqs,
                document_frequency: entry.1.document_frequency,
            };
            let key = entry.0.clone();
            let ghost pre = index@;
            index.push((key, plist));
            proof {
                assert(self.term_entries().take(i + 1 as int) =~= self.term_entries().take(
                    i as int,
                ).push(self.term_entries()[i as int]));
                assert(index@.map_values(
                    |p: (String, PostingList)| (p.0@, kv_map(p.1.term_frequency@)),
                ) =~~= self.term_entries().take(i + 1 as int));
            }
            i += 1;
        }
        proof {
            assert(self.term_entries().take(self.index@.len() as int) =~= self.term_entries());
        }
        let mut documents: Vec<(u128, Document)> = Vec::new();
        let mut i: usize = 0;
        while i < self.documents.len()
            invariant
                self.wf(),
                i <= self.documents@.len(),
                documents@.map_values(|p: (u128, Document)| (p.0, p.1@)) == self.doc_entries().take(
                    i as int,
                ),
                forall|x: int|
                    0 <= x < documents@.len() ==> (#[trigger] documents@[x]).0
                        == documents@[x].1.id,
            decreases self.documents@.len() - i,
        {
            let entry = &self.documents[i];
            let id = entry.0;
            let doc = entry.1.clone();
            let ghost pre = documents@;
            documents.push((id, doc));
            proof {
                assert(self.doc_entries().take(i + 1 as int) =~= self.doc_entries().take(
                    i as int,
                ).push(self.doc_entries()[i as int]));
                assert(documents@.map_values(|p: (u128, Document)| (p.0, p.1@))
                    =~~= self.doc_entries().take(i + 1 as int));
            }
            i += 1;
        }
        proof {
            assert(self.doc_entries().take(self.documents@.len() as int) =~= self.doc_entries());
        }
        let s = IndexSnapshot { index, documents, total_documents: self.total_documents };
        proof {
            assert(kv_distinct(s.doc_models()));
        }
        s
    }

    /// Rebuilds a consistent index from a loaded snapshot: a fresh tokenizer
    /// is constructed, and every document is re-indexed from its own text,
    /// so the posting lists are exactly the ones the documents determine.
    /// A corrupt snapshot (repeated or mismatched ids) keeps the first
    /// document per id rather than failing.
    pub fn from_snapshot(s: IndexSnapshot) -> (r: InvertedIndex)
        ensures
            r.wf(),
            s.clean() ==> {
                &&& r@.docs == kv_map(s.doc_models())
                &&& r@.total == s.documents@.len()
            },
    {
        let ghost models = s.doc_models();
        let ghost clean = s.clean();
        let mut r = InvertedIndex::new();
        let mut docs = s.documents;
        let ghost all = docs@;
        let mut i: usize = 0;
        proof {
            assert(kv_map(all.map_values(|p: (u128, Document)| (p.0, p.1@)).take(0))
                =~= Map::<u128, DocModel>::empty());
        }
        while i < docs.len()
            invariant
                i <= docs@.len(),
                all == docs@,
                models == all.map_values(|p: (u128, Document)| (p.0, p.1@)),
                clean == (kv_distinct(models) && forall|x: int|
                    0 <= x < all.len() ==> (#[trigger] all[x]).0 == all[x].1.id),
                r.wf(),
                r@.total <= i,
                clean ==> r@.docs == kv_map(models.take(i as int)) && r@.total == i,
            decreases docs@.len() - i,
        {
            let doc = docs[i].1.clone();
            let ghost key = all[i as int].0;
            let present = r.get_document(doc.id).is_some();
            proof {
                if clean {
                    assert(models.take(i + 1 as int).drop_last() =~= models.take(i as int));
                    assert(models.take(i + 1 as int).last() == models[i as int]);
                    assert(models[i as int] == (key, all[i as int].1@));
                    assert(doc.id == key);
                    // the id is fresh: keys are distinct
                    lemma_kv_contains(models.take(i as int), key);
                    assert(forall|j: int|
                        0 <= j < i ==> (#[trigger] models.take(i as int)[j]) == models[j]);
                    assert(!kv_map(models.take(i as int)).contains_key(key));
                    assert(!present);
                }
            }
            if !present {
                r.add_document(doc);
                proof {
                    if clean {
                        lemma_kv_push(models.take(i as int), key, all[i as int].1@);
                        assert(models.take(i as int).push(models[i as int]) =~= models.take(
                            i + 1 as int,
                        ));
                    }
                }
            }
            i += 1;
        }
        proof {
            assert(models.take(docs@.len() as int) =~= models);
        }
        r
    }
}

/// A consistent index is determined by its documents: two consistent
/// indexes over the same document map have the same terms, posting lists
/// and total. Saving and loading preserves the documents, so it preserves
/// everything.
pub proof fn lemma_index_determined(a: IndexModel, b: IndexModel)
    requires
        a.consistent(),
        b.consistent(),
        a.docs == b.docs,
    ensures
        a.terms == b.terms,
        a.total == b.total,
{
    assert forall|t: Seq<char>| #[trigger] a.terms.contains_key(t) implies b.terms.contains_key(t)
        && a.terms[t] == b.terms[t] by {
        let id0 = choose|id: u128| a.terms[t].contains_key(id);
        assert(a.terms[t].contains_key(id0));
        assert(term_count(a.docs[id0], t) > 0);
        assert(b.terms.contains_key(t));
        assert forall|id: u128| #[trigger] a.terms[t].contains_key(id) implies
            b.terms[t].contains_key(id) && a.terms[t][id] == b.terms[t][id] by {
            assert(term_count(a.docs[id], t) > 0);
        }
        assert forall|id: u128| #[trigger] b.terms[t].contains_key(id) implies
            a.terms[t].contains_key(id) by {
            assert(term_count(b.docs[id], t) > 0);
        }
        assert(a.terms[t] =~= b.terms[t]);
    }
    assert forall|t: Seq<char>| #[trigger] b.terms.contains_key(t) implies a.terms.contains_key(
        t,
    ) by {
        let id0 = choose|id: u128| b.terms[t].contains_key(id);
        assert(b.terms[t].contains_key(id0));
        assert(term_count(b.docs[id0], t) > 0);
    }
    assert(a.terms =~~= b.terms);
}

} // verus!
