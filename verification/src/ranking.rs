//! Turns raw index scores into ordered, snippeted results. The snippet is a
//! run of words around the first word that contains a query word, under a
//! length budget, with ellipses marking a late start or a cut-off end.

use vstd::prelude::*;
use vstd::string::StringExecFns;
use crate::document::Document;
use crate::index::{InvertedIndex, matches_query, doc_score_micro, ranked_before};
use crate::text::{str_chars, split_words, string_from_chars, lower_chars, lower_seq, words_of, has_substr, contains_chars};
use crate::tokenizer::tokens_of;

verus! {

/// A word matches when its lower-cased form contains some lower-cased query
/// word as a substring.
pub open spec fn word_matches(w: Seq<char>, qwords: Seq<Seq<char>>) -> bool {
    exists|q: int| 0 <= q < qwords.len() && has_substr(lower_seq(w), lower_seq(#[trigger] qwords[q]))
}

/// `i` is the first word that matches the query.
pub open spec fn is_first_match(words: Seq<Seq<char>>, qwords: Seq<Seq<char>>, i: int) -> bool {
    &&& 0 <= i < words.len()
    &&& word_matches(words[i], qwords)
    &&& forall|j: int| 0 <= j < i ==> !word_matches(#[trigger] words[j], qwords)
}

/// Where the snippet starts: ten words before the first match (clamped to
/// the first word), or the first word when nothing matches.
pub open spec fn snippet_start(words: Seq<Seq<char>>, qwords: Seq<Seq<char>>) -> int {
    if exists|i: int| is_first_match(words, qwords, i) {
        let i = choose|i: int| is_first_match(words, qwords, i);
        if i > 10 {
            i - 10
        } else {
            0
        }
    } else {
        0
    }
}

/// Accumulates words from `i` on, separated by single spaces, stopping
/// before a word that would push the length past the budget. Returns the
/// text and its final length.
pub open spec fn accum_words(
    words: Seq<Seq<char>>,
    i: int,
    len: nat,
    snip: Seq<char>,
    maxlen: nat,
) -> (Seq<char>, nat)
    decreases words.len() - i,
{
    if i < 0 || i >= words.len() {
        (snip, len)
    } else {
        let w = words[i];
        if len + w.len() + 1 > maxlen {
            (snip, len)
        } else if snip.len() > 0 {
            accum_words(words, i + 1, len + 1 + w.len(), snip + seq![' '] + w, maxlen)
        } else {
            accum_words(words, i + 1, len + w.len(), snip + w, maxlen)
        }
    }
}

/// The snippet for a document's content under a query: starts ten words
/// before the first matching word, keeps whole words within the length
/// budget, and marks a late start or an early cut with an ellipsis.
pub open spec fn snippet_of(content: Seq<char>, query: Seq<char>, maxlen: nat) -> Seq<char> {
    let words = words_of(content);
    if words.len() == 0 {
        Seq::empty()
    } else {
        let qwords = words_of(query);
        let start = snippet_start(words, qwords);
        let (snip, len) = accum_words(words, start, 0, Seq::empty(), maxlen);
        let opened = if start > 0 {
            "..."@ + snip
        } else {
            snip
        };
        if len >= maxlen {
            opened + "..."@
        } else {
            opened
        }
    }
}

/// Whether `w` contains some query word, case-insensitively.
fn word_matches_exec(w: &Vec<char>, qwords: &Vec<Vec<char>>) -> (r: bool)
    ensures
        r == word_matches(w@, qwords.deep_view()),
{
    let lw = lower_chars(w);
    let mut q: usize = 0;
    while q < qwords.len()
        invariant
            q <= qwords@.len(),
            lw@ == lower_seq(w@),
            forall|x: int|
                0 <= x < q ==> !has_substr(lower_seq(w@), lower_seq(#[trigger] qwords.deep_view()[x])),
        decreases qwords@.len() - q,
    {
        proof {
            assert(qwords@[q as int].deep_view() =~= qwords@[q as int]@);
            assert(qwords.deep_view()[q as int] == qwords@[q as int]@);
        }
        let lq = lower_chars(&qwords[q]);
        if contains_chars(&lw, &lq) {
            proof {
                assert(has_substr(lower_seq(w@), lower_seq(qwords.deep_view()[q as int])));
            }
            return true;
        }
        q += 1;
    }
    false
}

/// One ranked result: a snapshot of the document, its score in micro-units,
/// and a text snippet around the first query match.
pub struct SearchResult {
    pub document: Document,
    pub score: i128,
    pub snippet: String,
}

/// The ranking stage over an inverted index.
pub struct TfIdfRanker;

impl TfIdfRanker {
    /// The snippet for `content` under `query` with the given character
    /// budget: starts ten words before the first matching word, prefixed
    /// with "..." when that is not the first word, suffixed with "..." when
    /// the budget was reached. Empty content gives an empty snippet.
    pub fn generate_snippet(content: &str, query: &str, max_length: usize) -> (r: String)
        ensures
            r@ == snippet_of(content@, query@, max_length as nat),
    {
        let cchars = str_chars(content);
        let words = split_words(&cchars);
        let ghost wordsd = words.deep_view();
        if words.len() == 0 {
            return String::new();
        }
        let qchars = str_chars(query);
        let qwords = split_words(&qchars);
        let ghost qwordsd = qwords.deep_view();

        // find the first word that matches the query
        let mut start: usize = 0;
        let mut i: usize = 0;
        let mut found = false;
        while i < words.len() && !found
            invariant
                wordsd == words.deep_view(),
                qwordsd == qwords.deep_view(),
                i <= wordsd.len(),
                !found ==> forall|j: int| 0 <= j < i ==> !word_matches(#[trigger] wordsd[j], qwordsd),
                !found ==> start == 0,
                found ==> is_first_match(wordsd, qwordsd, i as int) && start == (if i > 10 {
                    i - 10
                } else {
                    0
                }),
            decreases wordsd.len() - i, (if found {
                0int
            } else {
                1int
            }),
        {
            proof {
                assert(words@[i as int].deep_view() =~= words@[i as int]@);
                assert(wordsd[i as int] == words@[i as int]@);
            }
            if word_matches_exec(&words[i], &qwords) {
                if i > 10 {
                    start = i - 10;
                } else {
                    start = 0;
                }
                found = true;
            } else {
                i += 1;
            }
        }
        proof {
            if found {
                assert(exists|x: int| is_first_match(wordsd, qwordsd, x));
                let x = choose|x: int| is_first_match(wordsd, qwordsd, x);
                if x < i {
                    assert(!word_matches(wordsd[x], qwordsd));
                } else if x > i {
                    assert(!word_matches(wordsd[i as int], qwordsd));
                }
                assert(x == i as int);
                assert(snippet_start(wordsd, qwordsd) == start as int);
            } else {
                assert(forall|j: int| 0 <= j < wordsd.len() ==> !word_matches(#[trigger] wordsd[j], qwordsd));
                if exists|x: int| is_first_match(wordsd, qwordsd, x) {
                    let x = choose|x: int| is_first_match(wordsd, qwordsd, x);
                    assert(!word_matches(wordsd[x], qwordsd));
                }
                assert(snippet_start(wordsd, qwordsd) == 0);
            }
        }

        // accumulate words under the budget
        let mut snip: Vec<char> = Vec::new();
        let mut length: usize = 0;
        let mut j: usize = start;
        let ghost target = accum_words(wordsd, start as int, 0, Seq::empty(), max_length as nat);
        proof {
            assert(snip@ =~= Seq::<char>::empty());
        }
        while j < words.len() && (length as u128) + (words[j].len() as u128) + 1
            <= (max_length as u128)
            invariant
                wordsd == words.deep_view(),
                start <= wordsd.len(),
                start <= j <= wordsd.len(),
                length == snip@.len(),
                target == accum_words(wordsd, j as int, length as nat, snip@, max_length as nat),
            decreases wordsd.len() - j,
        {
            let w = &words[j];
            proof {
                assert(words@[j as int].deep_view() =~= words@[j as int]@);
                assert(wordsd[j as int] == w@);
            }
            let ghost pre = snip@;
            let ghost prelen = length as nat;
            if snip.len() > 0 {
                snip.push(' ');
                let ghost snip_sp = snip@;
                let mut k: usize = 0;
                while k < w.len()
                    invariant
                        k <= w@.len(),
                        snip@ == snip_sp + w@.take(k as int),
                    decreases w@.len() - k,
                {
                    snip.push(w[k]);
                    proof {
                        assert(w@.take(k + 1 as int) =~= w@.take(k as int).push(w@[k as int]));
                        assert(snip@ =~= snip_sp + w@.take(k + 1 as int));
                    }
                    k += 1;
                }
                proof {
                    assert(w@.take(w@.len() as int) =~= w@);
                    assert(snip_sp =~= pre.push(' '));
                    assert(snip@ =~= pre + seq![' '] + w@);
                }
                length = length + 1 + w.len();
                proof {
                    assert(accum_words(wordsd, j as int, prelen, pre, max_length as nat)
                        == accum_words(
                        wordsd,
                        j + 1 as int,
                        length as nat,
                        snip@,
                        max_length as nat,
                    ));
                }
            } else {
                let mut k: usize = 0;
                while k < w.len()
                    invariant
                        pre =~= Seq::<char>::empty(),
                        k <= w@.len(),
                        snip@ == pre + w@.take(k as int),
                    decreases w@.len() - k,
                {
                    snip.push(w[k]);
                    proof {
                        assert(w@.take(k + 1 as int) =~= w@.take(k as int).push(w@[k as int]));
                        assert(snip@ =~= pre + w@.take(k + 1 as int));
                    }
                    k += 1;
                }
                proof {
                    assert(w@.take(w@.len() as int) =~= w@);
                    assert(snip@ =~= pre + w@);
                }
                length = length + w.len();
                proof {
                    assert(accum_words(wordsd, j as int, prelen, pre, max_length as nat)
                        == accum_words(
                        wordsd,
                        j + 1 as int,
                        length as nat,
                        snip@,
                        max_length as nat,
                    ));
                }
            }
            j += 1;
        }
        proof {
            // the loop stopped exactly where the spec accumulator stops
            assert(target == (snip@, length as nat));
        }

        let mut r = String::new();
        if start > 0 {
            r.append("...");
            proof {
                reveal_strlit("...");
            }
        }
        let body = string_from_chars(&snip);
        r.append(body.as_str());
        if length >= max_length {
            r.append("...");
            proof {
                reveal_strlit("...");
            }
        }
        proof {
            if start > 0 {
                assert(r@ =~= ("..."@ + snip@) + (if length >= max_length { "..."@ } else { Seq::<char>::empty() }));
            }
            assert(r@ =~= snippet_of(content@, query@, max_length as nat));
        }
        r
    }

    /// Ranks the matching documents of the index for a query: at most
    /// `limit` results (ten when unspecified), best first, each with a
    /// snapshot of its document, its score and a snippet.
    pub fn rank_documents(index: &InvertedIndex, query: &str, limit: Option<usize>) -> (r: Vec<
        SearchResult,
    >)
        requires
            index.wf(),
        ensures
            ({
                let toks = tokens_of(query@);
                let m = index@;
                let lim = (match limit {
                    Some(l) => l,
                    None => 10,
                }) as int;
                &&& r@.len() <= lim
                &&& forall|i: int|
                    0 <= i < r@.len() ==> {
                        let d = (#[trigger] r@[i]).document@;
                        &&& matches_query(m, toks, d.id)
                        &&& m.docs.contains_key(d.id)
                        &&& d == m.docs[d.id]
                        &&& r@[i].score as int == doc_score_micro(m, toks, d.id)
                        &&& r@[i].snippet@ == snippet_of(d.content, query@, 150)
                    }
                &&& forall|i: int, j: int|
                    0 <= i < j < r@.len() ==> ranked_before(
                        (r@[i].document@.id, r@[i].score),
                        (r@[j].document@.id, r@[j].score),
                    )
                &&& forall|id: u128|
                    #[trigger] matches_query(m, toks, id) && !(exists|i: int|
                        0 <= i < r@.len() && (#[trigger] r@[i]).document@.id == id) ==> {
                        &&& r@.len() == lim
                        &&& forall|i: int|
                            0 <= i < r@.len() ==> ranked_before(
                                ((#[trigger] r@[i]).document@.id, r@[i].score),
                                (id, doc_score_micro(m, toks, id) as i128),
                            )
                    }
            }),
    {
        let scored = index.search(query);
        let lim: usize = match limit {
            Some(l) => l,
            None => 10,
        };
        let ghost m = index@;
        let ghost toks = tokens_of(query@);
        let mut r: Vec<SearchResult> = Vec::new();
        let mut i: usize = 0;
        while i < scored.len() && r.len() < lim
            invariant
                index.wf(),
                m == index@,
                toks == tokens_of(query@),
                i <= scored@.len(),
                r@.len() == (if i <= lim {
                    i as int
                } else {
                    lim as int
                }),
                forall|k: int|
                    0 <= k < scored@.len() ==> matches_query(m, toks, (#[trigger] scored@[k]).0)
                        && scored@[k].1 as int == doc_score_micro(m, toks, scored@[k].0),
                forall|k: int, l: int|
                    0 <= k < l < scored@.len() ==> ranked_before(scored@[k], scored@[l]),
                forall|k: int|
                    0 <= k < r@.len() ==> {
                        let d = (#[trigger] r@[k]).document@;
                        &&& d.id == scored@[k].0
                        &&& r@[k].score == scored@[k].1
                        &&& m.docs.contains_key(d.id)
                        &&& d == m.docs[d.id]
                        &&& r@[k].snippet@ == snippet_of(d.content, query@, 150)
                    },
            decreases scored@.len() - i,
        {
            let doc_id = scored[i].0;
            let score = scored[i].1;
            match index.get_document(doc_id) {
                Some(doc) => {
                    proof {
                        assert(doc@ == m.docs[doc_id] && doc@.id == doc_id);
                        assert(matches_query(m, toks, doc_id));
                    }
                    let snippet = Self::generate_snippet(doc.content.as_str(), query, 150);
                    let document = doc.clone();
                    r.push(SearchResult { document, score, snippet });
                },
                None => {
                    proof {
                        // a scored document is always indexed
                        assert(matches_query(m, toks, doc_id));
                        let x = choose|x: int|
                            0 <= x < toks.len() && m.terms.contains_key(#[trigger] toks[x])
                                && m.terms[toks[x]].contains_key(doc_id);
                        assert(m.docs.contains_key(doc_id));
                        assert(false);
                    }
                },
            }
            i += 1;
        }
        proof {
            assert forall|id: u128|
                #[trigger] matches_query(m, toks, id) && !(exists|k: int|
                    0 <= k < r@.len() && (#[trigger] r@[k]).document@.id == id) implies {
                &&& r@.len() == lim as int
                &&& forall|k: int|
                    0 <= k < r@.len() ==> ranked_before(
                        ((#[trigger] r@[k]).document@.id, r@[k].score),
                        (id, doc_score_micro(m, toks, id) as i128),
                    )
            } by {
                assert(exists|si: int| 0 <= si < scored@.len() && (#[trigger] scored@[si]).0 == id);
                let si = choose|si: int| 0 <= si < scored@.len() && (#[trigger] scored@[si]).0 == id;
                assert forall|k: int| 0 <= k < r@.len() implies (#[trigger] scored@[k]).0 != id by {
                    assert(r@[k].document@.id == scored@[k].0);
                }
                assert(si >= r@.len());
                assert(r@.len() == lim as int);
                assert forall|k: int| 0 <= k < r@.len() implies ranked_before(
                    ((#[trigger] r@[k]).document@.id, r@[k].score),
                    (id, doc_score_micro(m, toks, id) as i128),
                ) by {
                    assert(ranked_before(scored@[k], scored@[si]));
                    assert(scored@[si].1 as int == doc_score_micro(m, toks, id));
                }
            }
        }
        r
    }
}

} // verus!
