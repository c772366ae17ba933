//! Normalizes raw text into index terms: lower-case the input, take the
//! maximal alphabetic runs, and keep a run only when it is longer than two
//! characters and is not a stop word.

use vstd::prelude::*;
use vstd::string::StringExecFns;
use crate::text::{lower_chars, lower_seq, runs, spec_is_lower_alpha, is_lower_alpha, str_chars, string_from_chars};
use crate::text::lemma_runs_push;

verus! {

/// The fixed stop-word list: common English function words that are never
/// indexed.
pub open spec fn spec_stop_words() -> Seq<Seq<char>> {
    seq![
        "the"@, "a"@, "an"@, "and"@, "or"@, "but"@, "in"@, "on"@, "at"@, "to"@,
        "for"@, "of"@, "with"@, "by"@, "is"@, "are"@, "was"@, "were"@, "be"@,
        "been"@, "have"@, "has"@, "had"@, "do"@, "does"@, "did"@, "will"@,
        "would"@, "could"@, "should"@, "this"@, "that"@, "these"@, "those"@,
        "i"@, "you"@, "he"@, "she"@, "it"@, "we"@, "they"@, "me"@, "him"@,
        "her"@, "us"@, "them"@, "my"@, "your"@, "his"@, "her"@, "its"@, "our"@,
        "their"@,
    ]
}

pub open spec fn is_stop_word(t: Seq<char>) -> bool {
    spec_stop_words().contains(t)
}

/// A term survives tokenization when it is longer than two characters and is
/// not a stop word.
pub open spec fn keep_token(t: Seq<char>) -> bool {
    t.len() > 2 && !is_stop_word(t)
}

/// The terms of a text: lower-case it, split it into maximal alphabetic
/// runs, and keep the runs that `keep_token` accepts, in input order and
/// with duplicates preserved.
pub open spec fn tokens_of(s: Seq<char>) -> Seq<Seq<char>> {
    runs(lower_seq(s), |c: char| spec_is_lower_alpha(c)).filter(|t: Seq<char>| keep_token(t))
}

/// Splits into maximal runs of lower-case ASCII letters.
fn split_alpha_runs(v: &Vec<char>) -> (r: Vec<Vec<char>>)
    ensures
        r.deep_view() == runs(v@, |c: char| spec_is_lower_alpha(c)),
{
    let keep = Ghost(|c: char| spec_is_lower_alpha(c));
    let mut out: Vec<Vec<char>> = Vec::new();
    let mut cur: Vec<char> = Vec::new();
    let mut i: usize = 0;
    while i < v.len()
        invariant
            i <= v.len(),
            keep@ == (|c: char| spec_is_lower_alpha(c)),
            cur.len() > 0 ==> i > 0 && spec_is_lower_alpha(v@[i - 1]),
            cur.len() == 0 ==> i == 0 || !spec_is_lower_alpha(v@[i - 1]),
            cur.len() == 0 ==> out.deep_view() == runs(v@.take(i as int), keep@),
            cur.len() > 0 ==> out.deep_view().push(cur@) == runs(v@.take(i as int), keep@),
        decreases v.len() - i,
    {
        let c = v[i];
        proof {
            lemma_runs_push(v@.take(i as int), v@[i as int], keep@);
            assert(v@.take(i + 1 as int) =~= v@.take(i as int).push(v@[i as int]));
            if i > 0 {
                assert(v@.take(i as int)[i - 1] == v@[i - 1]);
            }
        }
        if is_lower_alpha(c) {
            let ghost prev = runs(v@.take(i as int), keep@);
            let ghost old_cur = cur@;
            cur.push(c);
            proof {
                if old_cur.len() == 0 {
                    assert(cur@ =~= seq![v@[i as int]]);
                    assert(out.deep_view().push(cur@) =~~= prev.push(seq![v@[i as int]]));
                } else {
                    assert(prev.len() > 0 && prev.last() == old_cur);
                    assert(out.deep_view().push(cur@) =~~= prev.update(
                        prev.len() - 1,
                        prev.last().push(v@[i as int]),
                    ));
                }
            }
        } else {
            if cur.len() > 0 {
                let ghost prev_out = out.deep_view();
                let ghost done = cur@;
                out.push(cur);
                cur = Vec::new();
                assert(out.deep_view() =~~= prev_out.push(done));
                assert(out.deep_view() =~~= runs(v@.take(i + 1 as int), keep@));
            }
        }
        i += 1;
    }
    assert(v@.take(v.len() as int) =~= v@);
    if cur.len() > 0 {
        let ghost prev_out = out.deep_view();
        let ghost done = cur@;
        out.push(cur);
        assert(out.deep_view() =~~= prev_out.push(done));
    }
    assert(out.deep_view() =~~= runs(v@, keep@));
    out
}

/// Turns text into index terms. The stop-word list and the character
/// classes are fixed configuration, so two tokenizers always agree.
pub struct Tokenizer {
    stop_words: Vec<String>,
}

impl Tokenizer {
    /// The tokenizer's word list matches the fixed stop-word set.
    pub closed spec fn wf(&self) -> bool {
        self.stop_words.deep_view() == spec_stop_words()
    }

    pub fn new() -> (r: Tokenizer)
        ensures
            r.wf(),
    {
        let mut v: Vec<String> = Vec::new();
        v.push(String::from_str("the"));
        v.push(String::from_str("a"));
        v.push(String::from_str("an"));
        v.push(String::from_str("and"));
        v.push(String::from_str("or"));
        v.push(String::from_str("but"));
        v.push(String::from_str("in"));
        v.push(String::from_str("on"));
        v.push(String::from_str("at"));
        v.push(String::from_str("to"));
        v.push(String::from_str("for"));
        v.push(String::from_str("of"));
        v.push(String::from_str("with"));
        v.push(String::from_str("by"));
        v.push(String::from_str("is"));
        v.push(String::from_str("are"));
        v.push(String::from_str("was"));
        v.push(String::from_str("were"));
        v.push(String::from_str("be"));
        v.push(String::from_str("been"));
        v.push(String::from_str("have"));
        v.push(String::from_str("has"));
        v.push(String::from_str("had"));
        v.push(String::from_str("do"));
        v.push(String::from_str("does"));
        v.push(String::from_str("did"));
        v.push(String::from_str("will"));
        v.push(String::from_str("would"));
        v.push(String::from_str("could"));
        v.push(String::from_str("should"));
        v.push(String::from_str("this"));
        v.push(String::from_str("that"));
        v.push(String::from_str("these"));
        v.push(String::from_str("those"));
        v.push(String::from_str("i"));
        v.push(String::from_str("you"));
        v.push(String::from_str("he"));
        v.push(String::from_str("she"));
        v.push(String::from_str("it"));
        v.push(String::from_str("we"));
        v.push(String::from_str("they"));
        v.push(String::from_str("me"));
        v.push(String::from_str("him"));
        v.push(String::from_str("her"));
        v.push(String::from_str("us"));
        v.push(String::from_str("them"));
        v.push(String::from_str("my"));
        v.push(String::from_str("your"));
        v.push(String::from_str("his"));
        v.push(String::from_str("her"));
        v.push(String::from_str("its"));
        v.push(String::from_str("our"));
        v.push(String::from_str("their"));
        assert(v.deep_view() =~~= spec_stop_words());
        Tokenizer { stop_words: v }
    }

    /// Membership in the stop-word set.
    fn is_stop(&self, w: &String) -> (r: bool)
        requires
            self.wf(),
        ensures
            r == is_stop_word(w@),
    {
        let mut i: usize = 0;
        while i < self.stop_words.len()
            invariant
                self.wf(),
                i <= self.stop_words.len(),
                forall|j: int| 0 <= j < i ==> self.stop_words@[j]@ != w@,
            decreases self.stop_words.len() - i,
        {
            if *w == self.stop_words[i] {
                assert(spec_stop_words()[i as int] == w@);
                return true;
            }
            i += 1;
        }
        assert(forall|j: int|
            0 <= j < spec_stop_words().len() ==> spec_stop_words()[j] == self.stop_words@[j]@);
        false
    }

    /// The terms of `text`, in input order, duplicates preserved. Empty
    /// input gives an empty sequence.
    pub fn tokenize(&self, text: &str) -> (r: Vec<String>)
        requires
            self.wf(),
        ensures
            r.deep_view() == tokens_of(text@),
    {
        let chars = str_chars(text);
        let lowered = lower_chars(&chars);
        let parts = split_alpha_runs(&lowered);
        let ghost all = parts.deep_view();
        let ghost pred = |t: Seq<char>| keep_token(t);
        let mut out: Vec<String> = Vec::new();
        let mut i: usize = 0;
        while i < parts.len()
            invariant
                self.wf(),
                i <= parts.len(),
                all == parts.deep_view(),
                pred == (|t: Seq<char>| keep_token(t)),
                out.deep_view() == all.take(i as int).filter(pred),
            decreases parts.len() - i,
        {
            let ghost prefix = all.take(i as int);
            let word = string_from_chars(&parts[i]);
            assert(word@ == all[i as int]);
            let keep_it = word.as_str().unicode_len() > 2 && !self.is_stop(&word);
            proof {
                reveal(Seq::filter);
                assert(all.take(i + 1 as int).drop_last() =~= prefix);
                assert(all.take(i + 1 as int).last() == all[i as int]);
                assert(keep_it == keep_token(all[i as int]));
                if keep_it {
                    assert(all.take(i + 1 as int).filter(pred) == prefix.filter(pred).push(
                        all[i as int],
                    ));
                } else {
                    assert(all.take(i + 1 as int).filter(pred) == prefix.filter(pred));
                }
            }
            if keep_it {
                let ghost prev_out = out.deep_view();
                out.push(word);
                assert(out.deep_view() =~~= prev_out.push(all[i as int]));
            }
            i += 1;
        }
        assert(all.take(parts.len() as int) =~= all);
        out
    }
}

impl Default for Tokenizer {
    /// A fresh tokenizer with the fixed stop-word set.
    fn default() -> (r: Tokenizer)
        ensures
            r.wf(),
    {
        Tokenizer::new()
    }
}

} // verus!
