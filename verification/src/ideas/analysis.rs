//! Lexical analysis, version 1: `tfidf/v1`, as far as it is counting.
//!
//! Text is split into the terms the analyzer counts: lowercased words, which
//! are runs of alphanumeric characters, then the bigrams of adjacent words. A
//! corpus is one owner's captures and their counted terms. The weighting and
//! similarity built on top of the counts are floating point and are not here.
use vstd::prelude::*;

use crate::ideas::ids::{CaptureId, IdeaId};
use crate::text::{
    alphanumeric, chars_of, is_alphanumeric, lowercased, pieces, push_char, push_chars, same_text,
    seq_lt, seq_lt_irreflexive, seq_lt_total, seq_lt_transitive, split_marked, string_of,
    to_lowercase,
};

verus! {

/// The name this analyzer answers to.
pub const ANALYZER: &'static str = "tfidf/v1";

/// How many candidates one request may return.
pub const MAX_CANDIDATES: usize = 3;

/// How many shared signals accompany one candidate.
pub const MAX_SIGNALS: usize = 5;

/// What joins the two halves of a bigram: a space, which no word can contain.
pub const BIGRAM: char = ' ';

/// Which characters of a text separate words: all but the alphanumeric ones.
pub open spec fn separators(text: Seq<char>) -> Seq<bool> {
    text.map_values(|c: char| !alphanumeric(c))
}

/// Each flag turned over.
pub open spec fn negated(flags: Seq<bool>) -> Seq<bool> {
    flags.map_values(|f: bool| !f)
}

/// The lowercased words of a text: its maximal runs of alphanumeric characters.
///
/// Lowercasing happens to the whole string before splitting, because Unicode
/// lowercasing can turn one character into several.
pub open spec fn words_of(text: Seq<char>) -> Seq<Seq<char>> {
    pieces(lowercased(text), separators(lowercased(text)))
}

/// Two adjacent words as one term.
pub open spec fn bigram(first: Seq<char>, second: Seq<char>) -> Seq<char> {
    first + seq![' '] + second
}

/// The bigrams of adjacent words, in order.
pub open spec fn bigrams_of(words: Seq<Seq<char>>) -> Seq<Seq<char>> {
    if words.len() < 2 {
        seq![]
    } else {
        Seq::new((words.len() - 1) as nat, |i: int| bigram(words[i], words[i + 1]))
    }
}

/// The words of lowered text whose alphanumeric characters are the flagged
/// ones: its maximal runs of flagged characters.
pub open spec fn flagged_words(lowered: Seq<char>, alphanumerics: Seq<bool>) -> Seq<Seq<char>> {
    pieces(lowered, negated(alphanumerics))
}

/// Every term of lowered text whose alphanumeric characters are the flagged
/// ones: its words, then the bigrams of adjacent words.
pub open spec fn flagged_terms(lowered: Seq<char>, alphanumerics: Seq<bool>) -> Seq<Seq<char>> {
    flagged_words(lowered, alphanumerics) + bigrams_of(flagged_words(lowered, alphanumerics))
}

/// Every term of a text: its words, then the bigrams of adjacent words.
pub open spec fn terms_of(text: Seq<char>) -> Seq<Seq<char>> {
    words_of(text) + bigrams_of(words_of(text))
}

/// How many times `term` appears in `terms`.
pub open spec fn occurrences(terms: Seq<Seq<char>>, term: Seq<char>) -> nat
    decreases terms.len(),
{
    if terms.len() == 0 {
        0
    } else {
        occurrences(terms.drop_last(), term) + if terms.last() == term {
            1nat
        } else {
            0nat
        }
    }
}

/// Splits text into the terms this analyzer counts: unigrams, then the
/// bigrams of adjacent words.
pub fn terms(text: &str) -> (out: Vec<String>)
    ensures
        out@.map_values(|t: String| t@) == terms_of(text@),
{
    let lowered = to_lowercase(text);
    let cs = chars_of(lowered.as_str());
    let mut alphanumerics: Vec<bool> = Vec::new();
    let mut i: usize = 0;
    while i < cs.len()
        invariant
            i <= cs@.len(),
            alphanumerics@.len() == i,
            forall|j: int| 0 <= j < i ==> alphanumerics@[j] == alphanumeric(cs@[j]),
        decreases cs@.len() - i,
    {
        alphanumerics.push(is_alphanumeric(cs[i]));
        i = i + 1;
    }
    assert(negated(alphanumerics@) =~= separators(lowered@));
    terms_of_lowered(lowered.as_str(), &alphanumerics)
}

/// The terms of text already lowercased, given which of its characters are
/// alphanumeric: the runs of those characters as words, then the bigrams of
/// adjacent words.
pub fn terms_of_lowered(lowered: &str, alphanumerics: &Vec<bool>) -> (out: Vec<String>)
    requires
        alphanumerics@.len() == lowered@.len(),
    ensures
        out@.map_values(|t: String| t@) == flagged_terms(lowered@, alphanumerics@),
{
    let cs = chars_of(lowered);
    let mut marks: Vec<bool> = Vec::new();
    let mut i: usize = 0;
    while i < cs.len()
        invariant
            i <= cs@.len(),
            cs@.len() == alphanumerics@.len(),
            marks@.len() == i,
            forall|j: int| 0 <= j < i ==> marks@[j] == !alphanumerics@[j],
        decreases cs@.len() - i,
    {
        marks.push(!alphanumerics[i]);
        i = i + 1;
    }
    assert(marks@ =~= negated(alphanumerics@));
    let words = split_marked(&cs, &marks);
    let ghost word_views = words@.map_values(|run: Vec<char>| run@);
    assert(word_views == flagged_words(lowered@, alphanumerics@));

    let mut out: Vec<String> = Vec::new();
    let mut k: usize = 0;
    while k < words.len()
        invariant
            k <= words@.len(),
            word_views == words@.map_values(|run: Vec<char>| run@),
            out@.len() == k,
            forall|j: int| 0 <= j < k ==> #[trigger] out@[j]@ == word_views[j],
        decreases words@.len() - k,
    {
        let word = string_of(words[k].as_slice());
        assert(word_views[k as int] == words@[k as int]@);
        out.push(word);
        k = k + 1;
    }

    if words.len() >= 2 {
        let mut b: usize = 0;
        while b < words.len() - 1
            invariant
                words@.len() >= 2,
                b <= words@.len() - 1,
                word_views == words@.map_values(|run: Vec<char>| run@),
                out@.len() == words@.len() + b,
                forall|j: int| 0 <= j < words@.len() ==> #[trigger] out@[j]@ == word_views[j],
                forall|j: int|
                    0 <= j < b ==> #[trigger] out@[words@.len() + j]@ == bigrams_of(
                        word_views,
                    )[j],
            decreases words@.len() - b,
        {
            let mut pair = string_of(words[b].as_slice());
            push_char(&mut pair, BIGRAM);
            push_chars(&mut pair, words[b + 1].as_slice());
            assert(word_views[b as int] == words@[b as int]@);
            assert(word_views[b + 1] == words@[b + 1]@);
            assert(pair@ =~= bigram(word_views[b as int], word_views[b + 1]));
            out.push(pair);
            b = b + 1;
        }
    }
    assert(out@.map_values(|t: String| t@) =~= word_views + bigrams_of(word_views)) by {
        assert forall|j: int| 0 <= j < out@.len() implies out@.map_values(|t: String| t@)[j] == (
        word_views + bigrams_of(word_views))[j] by {
            if j >= words@.len() {
                let jj = j - words@.len();
                assert(out@[words@.len() + jj]@ == bigrams_of(word_views)[jj]);
            }
        }
    }
    out
}

/// Whether a counted list names `term`.
pub open spec fn has_term(counts: Seq<(Seq<char>, u32)>, term: Seq<char>) -> bool {
    exists|i: int| 0 <= i < counts.len() && #[trigger] counts[i].0 == term
}

/// How often a counted list says `term` occurs, if it names it at all.
pub open spec fn count_of(counts: Seq<(Seq<char>, u32)>, term: Seq<char>) -> Option<u32> {
    if has_term(counts, term) {
        Some(counts[choose|i: int| 0 <= i < counts.len() && counts[i].0 == term].1)
    } else {
        None
    }
}

/// No term is listed twice.
pub open spec fn distinct_keys(counts: Seq<(Seq<char>, u32)>) -> bool {
    forall|i: int, j: int| 0 <= i < j < counts.len() ==> counts[i].0 != counts[j].0
}

proof fn count_of_at(counts: Seq<(Seq<char>, u32)>, i: int)
    requires
        distinct_keys(counts),
        0 <= i < counts.len(),
    ensures
        count_of(counts, counts[i].0) == Some(counts[i].1),
{
    let term = counts[i].0;
    assert(has_term(counts, term));
    let k = choose|k: int| 0 <= k < counts.len() && counts[k].0 == term;
    if k != i {
        if k < i {
            assert(counts[k].0 != counts[i].0);
        } else {
            assert(counts[i].0 != counts[k].0);
        }
    }
}

/// A capture's terms and how often each occurs.
///
/// Each term is listed once, which the constructors keep true.
#[derive(Debug)]
pub struct TermCounts {
    entries: Vec<(String, u32)>,
}

impl View for TermCounts {
    type V = Seq<(Seq<char>, u32)>;

    closed spec fn view(&self) -> Seq<(Seq<char>, u32)> {
        self.entries@.map_values(|e: (String, u32)| (e.0@, e.1))
    }
}

impl TermCounts {
    #[verifier::type_invariant]
    closed spec fn wf(self) -> bool {
        distinct_keys(self.entries@.map_values(|e: (String, u32)| (e.0@, e.1)))
    }

    pub fn new() -> (counts: Self)
        ensures
            counts@.len() == 0,
    {
        TermCounts { entries: Vec::new() }
    }

    /// Where `term` is listed, if it is.
    fn position(&self, term: &str) -> (at: Option<usize>)
        ensures
            match at {
                Some(i) => i < self@.len() && self@[i as int].0 == term@,
                None => !has_term(self@, term@),
            },
    {
        let mut i: usize = 0;
        while i < self.entries.len()
            invariant
                i <= self.entries@.len(),
                forall|j: int| 0 <= j < i ==> self@[j].0 != term@,
            decreases self.entries@.len() - i,
        {
            if same_text(self.entries[i].0.as_str(), term) {
                return Some(i);
            }
            i = i + 1;
        }
        None
    }

    /// How often `term` occurs, if at all.
    pub fn get(&self, term: &str) -> (count: Option<u32>)
        ensures
            count == count_of(self@, term@),
    {
        proof {
            use_type_invariant(self);
        }
        match self.position(term) {
            Some(i) => {
                proof {
                    count_of_at(self@, i as int);
                }
                Some(self.entries[i].1)
            },
            None => None,
        }
    }

    /// Records that `term` occurs `count` times, replacing what was recorded.
    pub fn insert(&mut self, term: String, count: u32)
        ensures
            forall|t: Seq<char>| #[trigger]
                count_of(final(self)@, t) == if t == term@ {
                    Some(count)
                } else {
                    count_of(old(self)@, t)
                },
            final(self)@.len() == old(self)@.len() + if has_term(old(self)@, term@) {
                0int
            } else {
                1int
            },
    {
        proof {
            use_type_invariant(&*self);
        }
        let ghost before = self@;
        let found = self.position(term.as_str());
        let mut entries: Vec<(String, u32)> = Vec::new();
        std::mem::swap(&mut entries, &mut self.entries);
        assert(entries@.map_values(|e: (String, u32)| (e.0@, e.1)) == before);
        match found {
            Some(i) => {
                let ghost key = term@;
                entries.set(i, (term, count));
                proof {
                    assert(entries@.map_values(|e: (String, u32)| (e.0@, e.1)) =~= before.update(
                        i as int,
                        (key, count),
                    ));
                    lemma_update_keeps_counts(before, i as int, key, count);
                }
            },
            None => {
                let ghost key = term@;
                entries.push((term, count));
                proof {
                    assert(entries@.map_values(|e: (String, u32)| (e.0@, e.1)) =~= before.push(
                        (key, count),
                    ));
                    lemma_push_keeps_counts(before, key, count);
                }
            },
        }
        self.entries = entries;
    }

    /// How many distinct terms are listed.
    pub fn len(&self) -> (n: usize)
        ensures
            n == self@.len(),
    {
        self.entries.len()
    }

    /// Every term and its count, each term once.
    pub fn entries(&self) -> (all: &Vec<(String, u32)>)
        ensures
            all@.map_values(|e: (String, u32)| (e.0@, e.1)) == self@,
            distinct_keys(self@),
    {
        proof {
            use_type_invariant(self);
        }
        &self.entries
    }
}

proof fn lemma_update_keeps_counts(before: Seq<(Seq<char>, u32)>, i: int, key: Seq<char>, count: u32)
    requires
        distinct_keys(before),
        0 <= i < before.len(),
        before[i].0 == key,
    ensures
        distinct_keys(before.update(i, (key, count))),
        forall|t: Seq<char>| #[trigger]
            count_of(before.update(i, (key, count)), t) == if t == key {
                Some(count)
            } else {
                count_of(before, t)
            },
{
    let after = before.update(i, (key, count));
    assert(distinct_keys(after));
    assert forall|t: Seq<char>| #[trigger]
        count_of(after, t) == if t == key {
            Some(count)
        } else {
            count_of(before, t)
        } by {
        if t == key {
            count_of_at(after, i);
        } else if has_term(before, t) {
            let k = choose|k: int| 0 <= k < before.len() && before[k].0 == t;
            count_of_at(before, k);
            count_of_at(after, k);
        } else {
            if has_term(after, t) {
                let k = choose|k: int| 0 <= k < after.len() && after[k].0 == t;
                assert(before[k].0 == t);
            }
        }
    }
}

proof fn lemma_push_keeps_counts(before: Seq<(Seq<char>, u32)>, key: Seq<char>, count: u32)
    requires
        distinct_keys(before),
        !has_term(before, key),
    ensures
        distinct_keys(before.push((key, count))),
        forall|t: Seq<char>| #[trigger]
            count_of(before.push((key, count)), t) == if t == key {
                Some(count)
            } else {
                count_of(before, t)
            },
{
    let after = before.push((key, count));
    assert forall|i: int, j: int| 0 <= i < j < after.len() implies after[i].0 != after[j].0 by {
        if j == before.len() {
            assert(before[i].0 != key);
        }
    }
    assert forall|t: Seq<char>| #[trigger]
        count_of(after, t) == if t == key {
            Some(count)
        } else {
            count_of(before, t)
        } by {
        if t == key {
            count_of_at(after, before.len() as int);
        } else if has_term(before, t) {
            let k = choose|k: int| 0 <= k < before.len() && before[k].0 == t;
            count_of_at(before, k);
            count_of_at(after, k);
        } else {
            if has_term(after, t) {
                let k = choose|k: int| 0 <= k < after.len() && after[k].0 == t;
                assert(before[k].0 == t);
            }
        }
    }
}

/// What counting a text gives: each term that occurs, with how often.
pub open spec fn counted(text: Seq<char>, term: Seq<char>) -> Option<u32> {
    if occurrences(terms_of(text), term) > 0 {
        Some(occurrences(terms_of(text), term) as u32)
    } else {
        None
    }
}

proof fn occurrences_bound(terms: Seq<Seq<char>>, term: Seq<char>)
    ensures
        occurrences(terms, term) <= terms.len(),
        occurrences(terms, term) > 0 <==> terms.contains(term),
    decreases terms.len(),
{
    if terms.len() > 0 {
        occurrences_bound(terms.drop_last(), term);
        if terms.drop_last().contains(term) {
            let k = choose|k: int| 0 <= k < terms.drop_last().len() && terms.drop_last()[k] == term;
            assert(terms[k] == term);
        }
        if terms.contains(term) && terms.last() != term {
            let k = choose|k: int| 0 <= k < terms.len() && terms[k] == term;
            assert(terms.drop_last()[k] == term);
        }
        if terms.last() == term {
            assert(terms[terms.len() - 1] == term);
        }
    }
}

/// The same terms, counted.
pub fn counts(text: &str) -> (counted_terms: TermCounts)
    requires
        terms_of(text@).len() <= u32::MAX,
    ensures
        forall|t: Seq<char>| #[trigger] count_of(counted_terms@, t) == counted(text@, t),
{
    let all = terms(text);
    let ghost views = all@.map_values(|t: String| t@);
    let mut result = TermCounts::new();
    let mut i: usize = 0;
    while i < all.len()
        invariant
            i <= all@.len(),
            views == all@.map_values(|t: String| t@),
            views == terms_of(text@),
            views.len() <= u32::MAX,
            forall|t: Seq<char>| #[trigger]
                count_of(result@, t) == if occurrences(views.take(i as int), t) > 0 {
                    Some(occurrences(views.take(i as int), t) as u32)
                } else {
                    None
                },
        decreases all@.len() - i,
    {
        let term = &all[i];
        let ghost prefix = views.take(i as int);
        proof {
            assert(views.take(i + 1).drop_last() =~= prefix);
            assert(views.take(i + 1).last() == views[i as int]);
            occurrences_bound(prefix, term@);
        }
        let next = match result.get(term.as_str()) {
            Some(c) => c + 1,
            None => 1,
        };
        result.insert(term.clone(), next);
        proof {
            assert forall|t: Seq<char>| #[trigger]
                count_of(result@, t) == if occurrences(views.take(i + 1), t) > 0 {
                    Some(occurrences(views.take(i + 1), t) as u32)
                } else {
                    None
                } by {
                occurrences_bound(prefix, t);
            }
        }
        i = i + 1;
    }
    assert(views.take(i as int) =~= views);
    result
}

/// The terms of a text counted, or `None` for a text with more terms than a
/// count can hold.
pub fn checked_counts(text: &str) -> (found: Option<TermCounts>)
    ensures
        found is Some <==> terms_of(text@).len() <= u32::MAX,
        found matches Some(c) ==> forall|t: Seq<char>| #[trigger]
            count_of(c@, t) == counted(text@, t),
{
    let all = terms(text);
    if all.len() <= 0xffff_ffff {
        Some(counts(text))
    } else {
        None
    }
}

/// One capture's terms, as the index holds them.
#[derive(Debug)]
pub struct Document {
    pub capture: CaptureId,
    pub terms: TermCounts,
}

/// A document by its id's text and its counted terms.
pub open spec fn doc_view(d: Document) -> (Seq<char>, Seq<(Seq<char>, u32)>) {
    (d.capture@, d.terms@)
}

/// Documents by their ids' text and their counted terms.
pub open spec fn docs_view(docs: Seq<Document>) -> Seq<(Seq<char>, Seq<(Seq<char>, u32)>)> {
    docs.map_values(|d: Document| doc_view(d))
}

/// The terms of the last document with this id, if there is one.
pub open spec fn last_terms(docs: Seq<(Seq<char>, Seq<(Seq<char>, u32)>)>, id: Seq<char>) -> Option<
    Seq<(Seq<char>, u32)>,
>
    decreases docs.len(),
{
    if docs.len() == 0 {
        None
    } else if docs.last().0 == id {
        Some(docs.last().1)
    } else {
        last_terms(docs.drop_last(), id)
    }
}

proof fn last_terms_prepend(
    x: (Seq<char>, Seq<(Seq<char>, u32)>),
    rest: Seq<(Seq<char>, Seq<(Seq<char>, u32)>)>,
    id: Seq<char>,
)
    ensures
        last_terms(seq![x] + rest, id) == if last_terms(rest, id) is Some {
            last_terms(rest, id)
        } else if x.0 == id {
            Some(x.1)
        } else {
            None
        },
    decreases rest.len(),
{
    let whole = seq![x] + rest;
    if rest.len() > 0 {
        assert(whole.drop_last() =~= seq![x] + rest.drop_last());
        assert(whole.last() == rest.last());
        last_terms_prepend(x, rest.drop_last(), id);
        if rest.last().0 == id {
            assert(last_terms(whole, id) == Some(rest.last().1));
            assert(last_terms(rest, id) == Some(rest.last().1));
        } else {
            assert(last_terms(whole, id) == last_terms(whole.drop_last(), id));
            assert(last_terms(rest, id) == last_terms(rest.drop_last(), id));
        }
    } else {
        assert(whole =~= seq![x]);
        assert(whole.drop_last() =~= Seq::<(Seq<char>, Seq<(Seq<char>, u32)>)>::empty());
        assert(last_terms(Seq::<(Seq<char>, Seq<(Seq<char>, u32)>)>::empty(), id) is None);
        assert(rest =~= Seq::<(Seq<char>, Seq<(Seq<char>, u32)>)>::empty());
        assert(whole.last() == x);
    }
}

/// Ids in strictly increasing order.
pub open spec fn sorted_ids(entries: Seq<(Seq<char>, Seq<(Seq<char>, u32)>)>) -> bool {
    forall|i: int, j: int| 0 <= i < j < entries.len() ==> seq_lt(entries[i].0, entries[j].0)
}

/// How many documents contain `term`.
pub open spec fn documents_with(entries: Seq<(Seq<char>, Seq<(Seq<char>, u32)>)>, term: Seq<char>) -> nat
    decreases entries.len(),
{
    if entries.len() == 0 {
        0
    } else {
        documents_with(entries.drop_last(), term) + if has_term(entries.last().1, term) {
            1nat
        } else {
            0nat
        }
    }
}

/// One owner's captures, and the terms of each.
///
/// The corpus is the owner's, never the wiki's: a weight computed over
/// somebody else's writing would make the score a channel out of their inbox.
#[derive(Debug)]
pub struct Corpus {
    documents: Vec<Document>,
}

impl View for Corpus {
    type V = Seq<(Seq<char>, Seq<(Seq<char>, u32)>)>;

    closed spec fn view(&self) -> Seq<(Seq<char>, Seq<(Seq<char>, u32)>)> {
        docs_view(self.documents@)
    }
}

impl Corpus {
    #[verifier::type_invariant]
    closed spec fn wf(self) -> bool {
        sorted_ids(docs_view(self.documents@))
    }

    /// Builds a corpus from every one of an owner's captures.
    ///
    /// A capture with no terms still belongs here: it is one of the `N` the
    /// weights are computed over. When two documents name the same capture the
    /// later one is kept.
    pub fn new(documents: Vec<Document>) -> (corpus: Self)
        ensures
            sorted_ids(corpus@),
            forall|k: int|
                0 <= k < corpus@.len() ==> last_terms(
                    docs_view(documents@),
                    #[trigger] corpus@[k].0,
                ) == Some(corpus@[k].1),
            forall|id: Seq<char>|
                #[trigger] last_terms(docs_view(documents@), id) is Some
                    ==> exists|k: int| 0 <= k < corpus@.len() && corpus@[k].0 == id,
    {
        let ghost all = docs_view(documents@);
        let mut remaining = documents;
        let mut entries: Vec<Document> = Vec::new();
        assert(all.skip(all.len() as int) =~= Seq::<(Seq<char>, Seq<(Seq<char>, u32)>)>::empty());
        while remaining.len() > 0
            invariant
                remaining@.len() <= all.len(),
                docs_view(remaining@) == all.take(remaining@.len() as int),
                sorted_ids(docs_view(entries@)),
                forall|k: int|
                    0 <= k < docs_view(entries@).len() ==> last_terms(
                        all.skip(remaining@.len() as int),
                        #[trigger] docs_view(entries@)[k].0,
                    ) == Some(docs_view(entries@)[k].1),
                forall|id: Seq<char>|
                    #[trigger] last_terms(all.skip(remaining@.len() as int), id) is Some ==> exists|
                        k: int,
                    | 0 <= k < docs_view(entries@).len() && docs_view(entries@)[k].0 == id,
            decreases remaining@.len(),
        {
            let ghost n = remaining@.len();
            let ghost before = docs_view(entries@);
            let doc = remaining.pop().unwrap();
            let ghost x = doc_view(doc);
            proof {
                assert(all.take(n as int).last() == x);
                assert(all.skip(n - 1) =~= seq![x] + all.skip(n as int));
                assert(docs_view(remaining@) =~= all.take(n - 1));
                assert forall|id: Seq<char>|
                    #[trigger] last_terms(all.skip(n - 1), id) == if last_terms(
                        all.skip(n as int),
                        id,
                    ) is Some {
                        last_terms(all.skip(n as int), id)
                    } else if x.0 == id {
                        Some(x.1)
                    } else {
                        None
                    } by {
                    last_terms_prepend(x, all.skip(n as int), id);
                }
            }
            let mut i: usize = 0;
            while i < entries.len() && entries[i].capture.precedes(&doc.capture)
                invariant
                    i <= entries@.len(),
                    before == docs_view(entries@),
                    forall|j: int| 0 <= j < i ==> seq_lt(#[trigger] before[j].0, x.0),
                    x == doc_view(doc),
                decreases entries@.len() - i,
            {
                i = i + 1;
            }
            let present = i < entries.len() && entries[i].capture.same_as(&doc.capture);
            if !present {
                proof {
                    assert forall|j: int| i <= j < before.len() implies seq_lt(
                        x.0,
                        #[trigger] before[j].0,
                    ) by {
                        seq_lt_total(before[i as int].0, x.0);
                        if j > i {
                            seq_lt_transitive(x.0, before[i as int].0, before[j].0);
                        }
                    }
                    assert forall|k: int| 0 <= k < before.len() implies before[k].0 != x.0 by {
                        seq_lt_irreflexive(x.0);
                    }
                    assert(last_terms(all.skip(n as int), x.0) is None);
                }
                entries.insert(i, doc);
                proof {
                    let after = docs_view(entries@);
                    assert(after =~= before.insert(i as int, x));
                    assert forall|a: int, b: int| 0 <= a < b < after.len() implies seq_lt(
                        after[a].0,
                        after[b].0,
                    ) by {
                        if b < i {
                        } else if b == i {
                        } else if a < i {
                            assert(seq_lt(x.0, before[b - 1].0));
                            seq_lt_transitive(after[a].0, x.0, after[b].0);
                        } else if a == i {
                            assert(seq_lt(x.0, before[b - 1].0));
                        } else {
                        }
                    }
                    assert forall|k: int| 0 <= k < after.len() implies last_terms(
                        all.skip(n - 1),
                        #[trigger] after[k].0,
                    ) == Some(after[k].1) by {
                        if k < i {
                            assert(after[k] == before[k]);
                        } else if k > i {
                            assert(after[k] == before[k - 1]);
                        }
                    }
                    assert forall|id: Seq<char>|
                        #[trigger] last_terms(all.skip(n - 1), id) is Some implies exists|k: int|
                        0 <= k < after.len() && after[k].0 == id by {
                        if last_terms(all.skip(n as int), id) is Some {
                            let kk = choose|kk: int| 0 <= kk < before.len() && before[kk].0 == id;
                            if kk < i {
                                assert(after[kk].0 == id);
                            } else {
                                assert(after[kk + 1].0 == id);
                            }
                        } else {
                            assert(after[i as int].0 == id);
                        }
                    }
                }
            } else {
                proof {
                    assert(before[i as int].0 == x.0);
                    assert forall|id: Seq<char>|
                        #[trigger] last_terms(all.skip(n - 1), id) is Some implies exists|k: int|
                        0 <= k < before.len() && before[k].0 == id by {
                        if last_terms(all.skip(n as int), id) is None {
                            assert(before[i as int].0 == id);
                        }
                    }
                }
            }
        }
        assert(all.skip(0) =~= all);
        Corpus { documents: entries }
    }

    /// `N`: how many captures the weights are computed over.
    pub fn len(&self) -> (n: usize)
        ensures
            n == self@.len(),
    {
        self.documents.len()
    }

    pub fn is_empty(&self) -> (r: bool)
        ensures
            r == (self@.len() == 0),
    {
        self.documents.len() == 0
    }

    /// Where a capture's document is, if it is here.
    fn find(&self, capture: &CaptureId) -> (at: Option<usize>)
        ensures
            match at {
                Some(k) => k < self@.len() && self@[k as int].0 == capture@,
                None => forall|k: int| 0 <= k < self@.len() ==> self@[k].0 != capture@,
            },
    {
        let mut k: usize = 0;
        while k < self.documents.len()
            invariant
                k <= self.documents@.len(),
                forall|j: int| 0 <= j < k ==> self@[j].0 != capture@,
            decreases self.documents@.len() - k,
        {
            if self.documents[k].capture.same_as(capture) {
                return Some(k);
            }
            k = k + 1;
        }
        None
    }

    pub fn contains(&self, capture: &CaptureId) -> (r: bool)
        ensures
            r == exists|k: int| 0 <= k < self@.len() && self@[k].0 == capture@,
    {
        self.find(capture).is_some()
    }

    /// Every capture in the corpus, in id order and therefore in the order
    /// they were written.
    pub fn captures(&self) -> (ids: Vec<CaptureId>)
        ensures
            ids@.len() == self@.len(),
            forall|k: int| 0 <= k < ids@.len() ==> #[trigger] ids@[k]@ == self@[k].0,
            sorted_ids(self@),
    {
        proof {
            use_type_invariant(self);
        }
        let mut ids: Vec<CaptureId> = Vec::new();
        let mut k: usize = 0;
        while k < self.documents.len()
            invariant
                k <= self.documents@.len(),
                ids@.len() == k,
                forall|j: int| 0 <= j < k ==> #[trigger] ids@[j]@ == self@[j].0,
            decreases self.documents@.len() - k,
        {
            ids.push(self.documents[k].capture.clone());
            k = k + 1;
        }
        ids
    }

    /// A capture's counted terms, if it is here.
    pub fn document(&self, capture: &CaptureId) -> (terms: Option<&TermCounts>)
        ensures
            match terms {
                Some(t) => exists|k: int|
                    0 <= k < self@.len() && self@[k].0 == capture@ && self@[k].1 == t@,
                None => forall|k: int| 0 <= k < self@.len() ==> self@[k].0 != capture@,
            },
    {
        match self.find(capture) {
            Some(k) => Some(&self.documents[k].terms),
            None => None,
        }
    }

    /// How many distinct terms one capture has, or zero for one that is not
    /// here.
    pub fn distinct_terms(&self, capture: &CaptureId) -> (n: usize)
        ensures
            forall|k: int|
                0 <= k < self@.len() && #[trigger] self@[k].0 == capture@ ==> n == self@[k].1.len(),
            (forall|k: int| 0 <= k < self@.len() ==> self@[k].0 != capture@) ==> n == 0,
    {
        proof {
            use_type_invariant(self);
        }
        match self.find(capture) {
            Some(k) => {
                proof {
                    assert forall|j: int|
                        0 <= j < self@.len() && #[trigger] self@[j].0 == capture@ implies j
                        == k by {
                        if j < k {
                            assert(seq_lt(self@[j].0, self@[k as int].0));
                            seq_lt_irreflexive(capture@);
                        } else if j > k {
                            assert(seq_lt(self@[k as int].0, self@[j].0));
                            seq_lt_irreflexive(capture@);
                        }
                    }
                }
                self.documents[k].terms.len()
            },
            None => 0,
        }
    }

    /// How many of the owner's captures contain this term.
    pub fn frequency(&self, term: &str) -> (n: usize)
        ensures
            n == documents_with(self@, term@),
    {
        let mut n: usize = 0;
        let mut k: usize = 0;
        while k < self.documents.len()
            invariant
                k <= self.documents@.len(),
                n == documents_with(self@.take(k as int), term@),
                n <= k,
            decreases self.documents@.len() - k,
        {
            proof {
                assert(self@.take(k + 1).drop_last() =~= self@.take(k as int));
                assert(self@.take(k + 1).last() == self@[k as int]);
            }
            if self.documents[k].terms.get(term).is_some() {
                n = n + 1;
            }
            k = k + 1;
        }
        assert(self@.take(k as int) =~= self@);
        n
    }
}

/// Two captures in the order that makes their pair one thing: the order an
/// event file records a pair in, so a rejection from either side suppresses
/// the suggestion from both.
pub fn canonical(first: &CaptureId, second: &CaptureId) -> (pair: (CaptureId, CaptureId))
    ensures
        seq_lt(second@, first@) ==> pair.0@ == second@ && pair.1@ == first@,
        !seq_lt(second@, first@) ==> pair.0@ == first@ && pair.1@ == second@,
{
    if second.precedes(first) {
        (second.clone(), first.clone())
    } else {
        (first.clone(), second.clone())
    }
}

/// One idea thread, as candidate selection sees it.
#[derive(Debug)]
pub struct Thread {
    pub id: IdeaId,
    pub name: String,
    pub retired: bool,
    /// The captures it currently holds and can still read.
    pub members: Vec<CaptureId>,
}

/// Everything candidate selection reads, gathered before any of it is scored.
#[derive(Debug)]
pub struct Field {
    pub corpus: Corpus,
    pub threads: Vec<Thread>,
    /// Idea candidates this owner has turned down, until they reconsider.
    pub rejected_candidates: Vec<(IdeaId, CaptureId)>,
    /// Capture pairs this owner has turned down, in canonical order.
    pub rejected_pairs: Vec<(CaptureId, CaptureId)>,
}

/// What a candidate suggests connecting to.
#[derive(Debug)]
pub enum Target {
    /// An existing thread.
    Idea { id: IdeaId, name: String, members: usize },
    /// Another loose capture.
    Capture { id: CaptureId },
}

pub open spec fn target_id(target: Target) -> Seq<char> {
    match target {
        Target::Idea { id, .. } => id@,
        Target::Capture { id } => id@,
    }
}

pub open spec fn target_rank(target: Target) -> u8 {
    match target {
        Target::Idea { .. } => 0,
        Target::Capture { .. } => 1,
    }
}

impl Target {
    pub fn id(&self) -> (s: &str)
        ensures
            s@ == target_id(*self),
    {
        match self {
            Target::Idea { id, .. } => id.as_str(),
            Target::Capture { id } => id.as_str(),
        }
    }

    /// The tie-break between two candidates that scored the same: a thread
    /// before a loose capture, then by id.
    pub fn order(&self) -> (key: (u8, &str))
        ensures
            key.0 == target_rank(*self),
            key.1@ == target_id(*self),
    {
        match self {
            Target::Idea { id, .. } => (0, id.as_str()),
            Target::Capture { id } => (1, id.as_str()),
        }
    }
}

/// Whether a list of places names place `j`.
pub open spec fn listed(s: Seq<usize>, j: int) -> bool {
    exists|k: int| 0 <= k < s.len() && s[k] == j
}

pub open spec fn member_ids(thread: Thread) -> Seq<Seq<char>> {
    thread.members@.map_values(|id: CaptureId| id@)
}

/// Whether a live thread holds the capture.
pub open spec fn threaded(field: Field, capture: Seq<char>) -> bool {
    exists|i: int|
        0 <= i < field.threads@.len() && !(#[trigger] field.threads@[i]).retired && member_ids(
            field.threads@[i],
        ).contains(capture)
}

/// Whether the owner turned this thread down for this capture.
pub open spec fn candidate_rejected(field: Field, idea: Seq<char>, capture: Seq<char>) -> bool {
    exists|k: int|
        0 <= k < field.rejected_candidates@.len() && (#[trigger] field.rejected_candidates@[k]).0@ == idea
            && field.rejected_candidates@[k].1@ == capture
}

/// The pair two captures make, in the order an event records it.
pub open spec fn canonical_pair(first: Seq<char>, second: Seq<char>) -> (Seq<char>, Seq<char>) {
    if seq_lt(second, first) {
        (second, first)
    } else {
        (first, second)
    }
}

/// Whether the owner turned this pair of captures down.
pub open spec fn pair_rejected(field: Field, first: Seq<char>, second: Seq<char>) -> bool {
    exists|k: int|
        0 <= k < field.rejected_pairs@.len() && ((#[trigger] field.rejected_pairs@[k]).0@, field.rejected_pairs@[k].1@)
            == canonical_pair(first, second)
}

/// Whether a thread may be suggested for the capture: it is live, does not
/// hold it, and was not turned down for it.
pub open spec fn thread_eligible(field: Field, thread: Thread, capture: Seq<char>) -> bool {
    !thread.retired && !member_ids(thread).contains(capture) && !candidate_rejected(field, thread.id@, capture)
}

/// Whether another capture may be suggested for it: it is another capture,
/// no live thread holds it, and the pair was not turned down.
pub open spec fn capture_eligible(field: Field, other: Seq<char>, capture: Seq<char>) -> bool {
    other != capture && !threaded(field, other) && !pair_rejected(field, capture, other)
}

/// What candidate selection may score for one capture: the threads (by their
/// place in the field) and the other captures (in corpus order) that it may
/// suggest. Scoring them is arithmetic on weights, done elsewhere.
pub struct Eligible {
    pub threads: Vec<usize>,
    pub captures: Vec<CaptureId>,
}

fn holds_id(ids: &Vec<CaptureId>, capture: &CaptureId) -> (r: bool)
    ensures
        r == ids@.map_values(|id: CaptureId| id@).contains(capture@),
{
    let ghost v = ids@.map_values(|id: CaptureId| id@);
    let mut i: usize = 0;
    while i < ids.len()
        invariant
            i <= ids@.len(),
            v == ids@.map_values(|id: CaptureId| id@),
            forall|j: int| 0 <= j < i ==> v[j] != capture@,
        decreases ids@.len() - i,
    {
        if ids[i].same_as(capture) {
            assert(v[i as int] == capture@);
            return true;
        }
        i = i + 1;
    }
    false
}

fn is_threaded(field: &Field, capture: &CaptureId) -> (r: bool)
    ensures
        r == threaded(*field, capture@),
{
    let mut i: usize = 0;
    while i < field.threads.len()
        invariant
            i <= field.threads@.len(),
            forall|j: int| 0 <= j < i ==> !(!(#[trigger] field.threads@[j]).retired && member_ids(
                field.threads@[j],
            ).contains(capture@)),
        decreases field.threads@.len() - i,
    {
        let thread = &field.threads[i];
        if !thread.retired && holds_id(&thread.members, capture) {
            return true;
        }
        i = i + 1;
    }
    false
}

fn is_candidate_rejected(field: &Field, idea: &IdeaId, capture: &CaptureId) -> (r: bool)
    ensures
        r == candidate_rejected(*field, idea@, capture@),
{
    let mut k: usize = 0;
    while k < field.rejected_candidates.len()
        invariant
            k <= field.rejected_candidates@.len(),
            forall|j: int| 0 <= j < k ==> !((#[trigger] field.rejected_candidates@[j]).0@ == idea@
                && field.rejected_candidates@[j].1@ == capture@),
        decreases field.rejected_candidates@.len() - k,
    {
        let entry = &field.rejected_candidates[k];
        if entry.0.same_as(idea) && entry.1.same_as(capture) {
            return true;
        }
        k = k + 1;
    }
    false
}

fn is_pair_rejected(field: &Field, capture: &CaptureId, other: &CaptureId) -> (r: bool)
    ensures
        r == pair_rejected(*field, capture@, other@),
{
    let (first, second) = canonical(capture, other);
    proof {
        assert((first@, second@) == canonical_pair(capture@, other@));
    }
    let mut k: usize = 0;
    while k < field.rejected_pairs.len()
        invariant
            k <= field.rejected_pairs@.len(),
            (first@, second@) == canonical_pair(capture@, other@),
            forall|j: int| 0 <= j < k ==> ((#[trigger] field.rejected_pairs@[j]).0@, field.rejected_pairs@[j].1@)
                != canonical_pair(capture@, other@),
        decreases field.rejected_pairs@.len() - k,
    {
        let entry = &field.rejected_pairs[k];
        if entry.0.same_as(&first) && entry.1.same_as(&second) {
            return true;
        }
        k = k + 1;
    }
    false
}

/// The threads and captures one capture's candidates are drawn from.
pub fn eligible(field: &Field, capture: &CaptureId) -> (e: Eligible)
    ensures
        forall|k: int| 0 <= k < e.threads@.len() ==> #[trigger] e.threads@[k] < field.threads@.len(),
        forall|k: int, l: int| 0 <= k < l < e.threads@.len() ==> e.threads@[k] < e.threads@[l],
        forall|i: int| 0 <= i < field.threads@.len() ==> (listed(e.threads@, i) <==> thread_eligible(
            *field,
            #[trigger] field.threads@[i],
            capture@,
        )),
        forall|k: int| 0 <= k < e.captures@.len() ==> capture_eligible(*field, #[trigger] e.captures@[k]@, capture@),
        forall|k: int| 0 <= k < field.corpus@.len() ==> (capture_eligible(*field, #[trigger] field.corpus@[k].0, capture@)
            ==> e.captures@.map_values(|id: CaptureId| id@).contains(field.corpus@[k].0)),
        id_texts(e.captures@) == eligible_ids(*field, capture@),
        crate::sorted::names_sorted(id_texts(e.captures@)),
{
    proof {
        use_type_invariant(&field.corpus);
    }
    let mut threads: Vec<usize> = Vec::new();
    let mut i: usize = 0;
    while i < field.threads.len()
        invariant
            i <= field.threads@.len(),
            forall|k: int| 0 <= k < threads@.len() ==> #[trigger] threads@[k] < i,
            forall|k: int, l: int| 0 <= k < l < threads@.len() ==> threads@[k] < threads@[l],
            forall|j: int| 0 <= j < i ==> (listed(threads@, j) <==> thread_eligible(
                *field,
                #[trigger] field.threads@[j],
                capture@,
            )),
            forall|j: int| i <= j < field.threads@.len() ==> !#[trigger] listed(threads@, j),
        decreases field.threads@.len() - i,
    {
        let thread = &field.threads[i];
        let ghost before = threads@;
        if !thread.retired && !holds_id(&thread.members, capture) && !is_candidate_rejected(field, &thread.id, capture) {
            threads.push(i);
            proof {
                assert forall|j: int| 0 <= j <= i implies (listed(threads@, j) <==> thread_eligible(
                    *field,
                    #[trigger] field.threads@[j],
                    capture@,
                )) by {
                    if j == i {
                        assert(threads@[threads@.len() - 1] == i);
                    } else if listed(threads@, j) {
                        let k = choose|k: int| 0 <= k < threads@.len() && threads@[k] == j;
                        assert(k < before.len());
                        assert(before[k] == j);
                    } else if listed(before, j) {
                        let k = choose|k: int| 0 <= k < before.len() && before[k] == j;
                        assert(threads@[k] == j);
                    }
                }
                assert forall|j: int| i + 1 <= j < field.threads@.len() implies !#[trigger] listed(threads@, j) by {
                    if listed(threads@, j) {
                        let k = choose|k: int| 0 <= k < threads@.len() && threads@[k] == j;
                        if k < before.len() {
                            assert(before[k] == j);
                            assert(listed(before, j));
                        }
                    }
                }
            }
        } else {
            proof {
                assert(!listed(threads@, i as int));
            }
        }
        i = i + 1;
    }
    let others = field.corpus.captures();
    let mut captures: Vec<CaptureId> = Vec::new();
    let mut k: usize = 0;
    while k < others.len()
        invariant
            k <= others@.len(),
            others@.len() == field.corpus@.len(),
            forall|j: int| 0 <= j < others@.len() ==> #[trigger] others@[j]@ == field.corpus@[j].0,
            forall|j: int| 0 <= j < captures@.len() ==> capture_eligible(*field, #[trigger] captures@[j]@, capture@),
            forall|j: int| 0 <= j < k ==> (capture_eligible(*field, #[trigger] field.corpus@[j].0, capture@)
                ==> captures@.map_values(|id: CaptureId| id@).contains(field.corpus@[j].0)),
            id_texts(captures@) == corpus_ids(field.corpus@.take(k as int)).filter(eligible_for(*field, capture@)),
        decreases others@.len() - k,
    {
        let other = &others[k];
        let ghost before = captures@;
        proof {
            assert(other@ == field.corpus@[k as int].0);
            assert(corpus_ids(field.corpus@.take(k + 1)) =~= corpus_ids(field.corpus@.take(k as int)).push(other@));
            corpus_ids(field.corpus@.take(k as int)).lemma_filter_push(other@, eligible_for(*field, capture@));
        }
        if !other.same_as(capture) && !is_threaded(field, other) && !is_pair_rejected(field, capture, other) {
            captures.push(other.clone());
            proof {
                assert(captures@.map_values(|id: CaptureId| id@)[captures@.len() - 1] == other@);
                assert forall|j: int| 0 <= j < k implies (capture_eligible(*field, #[trigger] field.corpus@[j].0, capture@)
                    ==> captures@.map_values(|id: CaptureId| id@).contains(field.corpus@[j].0)) by {
                    if capture_eligible(*field, field.corpus@[j].0, capture@) {
                        let v = before.map_values(|id: CaptureId| id@);
                        assert(v.contains(field.corpus@[j].0));
                        let m = choose|m: int| 0 <= m < v.len() && v[m] == field.corpus@[j].0;
                        assert(captures@.map_values(|id: CaptureId| id@)[m] == v[m]);
                    }
                }
            }
        }
        proof {
            assert(id_texts(captures@) =~= corpus_ids(field.corpus@.take(k + 1)).filter(eligible_for(*field, capture@)));
        }
        k = k + 1;
    }
    proof {
        assert(field.corpus@.take(field.corpus@.len() as int) =~= field.corpus@);
        eligible_captures_are_distinct(*field, capture@);
    }
    Eligible { threads, captures }
}

/// Each capture's id text.
pub open spec fn id_texts(ids: Seq<CaptureId>) -> Seq<Seq<char>> {
    ids.map_values(|id: CaptureId| id@)
}

/// The captures of a corpus, in its order.
pub open spec fn corpus_ids(docs: Seq<(Seq<char>, Seq<(Seq<char>, u32)>)>) -> Seq<Seq<char>> {
    docs.map_values(|d: (Seq<char>, Seq<(Seq<char>, u32)>)| d.0)
}

pub open spec fn eligible_for(field: Field, capture: Seq<char>) -> spec_fn(Seq<char>) -> bool {
    |other: Seq<char>| capture_eligible(field, other, capture)
}

/// The captures that may be suggested for `capture`, in corpus order.
pub open spec fn eligible_ids(field: Field, capture: Seq<char>) -> Seq<Seq<char>> {
    corpus_ids(field.corpus@).filter(eligible_for(field, capture))
}

/// The captures that may be suggested for one capture are each other
/// capture of the corpus that no live thread holds and whose pair was not
/// turned down, each once, in id order: no capture is offered twice.
pub proof fn eligible_captures_are_distinct(field: Field, capture: Seq<char>)
    requires
        sorted_ids(field.corpus@),
    ensures
        crate::sorted::names_sorted(eligible_ids(field, capture)),
        forall|id: Seq<char>|
            #[trigger] eligible_ids(field, capture).contains(id) <==> (capture_eligible(field, id, capture)
                && exists|k: int| 0 <= k < field.corpus@.len() && field.corpus@[k].0 == id),
{
    broadcast use vstd::seq_lib::group_filter_ensures;

    let ids = corpus_ids(field.corpus@);
    let pred = eligible_for(field, capture);
    assert(crate::sorted::names_sorted(ids)) by {
        assert forall|i: int, j: int| 0 <= i < j < ids.len() implies seq_lt(#[trigger] ids[i], #[trigger] ids[j]) by {
            assert(ids[i] == field.corpus@[i].0 && ids[j] == field.corpus@[j].0);
        }
    }
    filter_keeps_sorted(ids, pred);
    assert forall|id: Seq<char>|
        #[trigger] eligible_ids(field, capture).contains(id) <==> (capture_eligible(field, id, capture)
            && exists|k: int| 0 <= k < field.corpus@.len() && field.corpus@[k].0 == id) by {
        if capture_eligible(field, id, capture) && exists|k: int| 0 <= k < field.corpus@.len() && field.corpus@[k].0 == id {
            let k = choose|k: int| 0 <= k < field.corpus@.len() && field.corpus@[k].0 == id;
            assert(ids[k] == id);
            assert(ids.contains(id));
        }
        if eligible_ids(field, capture).contains(id) {
            let m = choose|m: int| 0 <= m < ids.filter(pred).len() && ids.filter(pred)[m] == id;
            ids.lemma_filter_contains_rev(pred, id);
            let k = choose|k: int| 0 <= k < ids.len() && ids[k] == id;
            assert(field.corpus@[k].0 == id);
        }
    }
}

proof fn filter_keeps_sorted(s: Seq<Seq<char>>, pred: spec_fn(Seq<char>) -> bool)
    requires
        crate::sorted::names_sorted(s),
    ensures
        crate::sorted::names_sorted(s.filter(pred)),
    decreases s.len(),
{
    broadcast use vstd::seq_lib::group_filter_ensures;

    reveal(Seq::filter);
    if s.len() > 0 {
        let front = s.drop_last();
        assert(crate::sorted::names_sorted(front)) by {
            assert forall|i: int, j: int| 0 <= i < j < front.len() implies seq_lt(#[trigger] front[i], #[trigger] front[j]) by {
                assert(front[i] == s[i] && front[j] == s[j]);
            }
        }
        filter_keeps_sorted(front, pred);
        assert(s =~= front.push(s.last()));
        front.lemma_filter_push(s.last(), pred);
        let f = front.filter(pred);
        if pred(s.last()) {
            assert forall|i: int, j: int| 0 <= i < j < f.len() + 1 implies seq_lt(
                #[trigger] f.push(s.last())[i],
                #[trigger] f.push(s.last())[j],
            ) by {
                if j == f.len() {
                    assert(f.contains(f[i]));
                    front.lemma_filter_contains_rev(pred, f[i]);
                    let k = choose|k: int| 0 <= k < front.len() && front[k] == f[i];
                    assert(s[k] == f[i]);
                    assert(s[s.len() - 1] == s.last());
                } else {
                    assert(f.push(s.last())[i] == f[i] && f.push(s.last())[j] == f[j]);
                }
            }
        }
    }
}

/// Whether some document has this id.
pub open spec fn has_document(docs: Seq<(Seq<char>, Seq<(Seq<char>, u32)>)>, id: Seq<char>) -> bool {
    exists|i: int| 0 <= i < docs.len() && (#[trigger] docs[i]).0 == id
}

proof fn last_terms_found(docs: Seq<(Seq<char>, Seq<(Seq<char>, u32)>)>, id: Seq<char>)
    ensures
        last_terms(docs, id) is Some <==> has_document(docs, id),
    decreases docs.len(),
{
    if docs.len() > 0 {
        let front = docs.drop_last();
        last_terms_found(front, id);
        if has_document(front, id) {
            let i = choose|i: int| 0 <= i < front.len() && (#[trigger] front[i]).0 == id;
            assert(docs[i] == front[i]);
        }
        if has_document(docs, id) && docs.last().0 != id {
            let i = choose|i: int| 0 <= i < docs.len() && (#[trigger] docs[i]).0 == id;
            assert(i < docs.len() - 1);
            assert(front[i] == docs[i]);
        }
    }
}

/// A corpus holds each capture once: as many documents as there are distinct
/// captures among the documents it was built from.
pub proof fn a_corpus_counts_each_capture_once(
    docs: Seq<(Seq<char>, Seq<(Seq<char>, u32)>)>,
    corpus: Seq<(Seq<char>, Seq<(Seq<char>, u32)>)>,
)
    requires
        sorted_ids(corpus),
        forall|k: int| 0 <= k < corpus.len() ==> last_terms(docs, #[trigger] corpus[k].0) == Some(corpus[k].1),
        forall|id: Seq<char>|
            #[trigger] last_terms(docs, id) is Some ==> exists|k: int| 0 <= k < corpus.len() && corpus[k].0 == id,
    ensures
        Set::new(|id: Seq<char>| has_document(docs, id)).finite(),
        corpus.len() == Set::new(|id: Seq<char>| has_document(docs, id)).len(),
{
    let ids = corpus.map_values(|e: (Seq<char>, Seq<(Seq<char>, u32)>)| e.0);
    let names = Set::new(|id: Seq<char>| has_document(docs, id));
    assert(crate::sorted::names_sorted(ids)) by {
        assert forall|i: int, j: int| 0 <= i < j < ids.len() implies seq_lt(#[trigger] ids[i], #[trigger] ids[j]) by {
            assert(ids[i] == corpus[i].0 && ids[j] == corpus[j].0);
        }
    }
    assert forall|y: Seq<char>| #[trigger] ids.contains(y) <==> names.contains(y) by {
        last_terms_found(docs, y);
        if ids.contains(y) {
            let k = choose|k: int| 0 <= k < ids.len() && ids[k] == y;
            assert(corpus[k].0 == y);
            assert(last_terms(docs, corpus[k].0) == Some(corpus[k].1));
        }
        if names.contains(y) {
            let k = choose|k: int| 0 <= k < corpus.len() && corpus[k].0 == y;
            assert(ids[k] == y);
        }
    }
    crate::sorted::count_of_names(ids, names);
}

/// No two documents name the same capture.
pub open spec fn distinct_ids(docs: Seq<(Seq<char>, Seq<(Seq<char>, u32)>)>) -> bool {
    forall|i: int, j: int| 0 <= i < j < docs.len() ==> docs[i].0 != docs[j].0
}

/// The captures whose documents contain `term`.
pub open spec fn ids_with(docs: Seq<(Seq<char>, Seq<(Seq<char>, u32)>)>, term: Seq<char>) -> Set<
    Seq<char>,
> {
    Set::new(
        |id: Seq<char>|
            exists|i: int| 0 <= i < docs.len() && (#[trigger] docs[i]).0 == id && has_term(docs[i].1, term),
    )
}

proof fn documents_with_counts_ids(docs: Seq<(Seq<char>, Seq<(Seq<char>, u32)>)>, term: Seq<char>)
    requires
        distinct_ids(docs),
    ensures
        ids_with(docs, term).finite(),
        documents_with(docs, term) == ids_with(docs, term).len(),
    decreases docs.len(),
{
    if docs.len() == 0 {
        assert(ids_with(docs, term) =~= Set::empty());
    } else {
        let front = docs.drop_last();
        let x = docs.last();
        documents_with_counts_ids(front, term);
        assert forall|id: Seq<char>| #[trigger] ids_with(front, term).contains(id) implies ids_with(
            docs,
            term,
        ).contains(id) by {
            let i = choose|i: int|
                0 <= i < front.len() && (#[trigger] front[i]).0 == id && has_term(front[i].1, term);
            assert(docs[i] == front[i]);
        }
        assert forall|id: Seq<char>| #[trigger] ids_with(docs, term).contains(id) && id != x.0 implies ids_with(
            front,
            term,
        ).contains(id) by {
            let i = choose|i: int|
                0 <= i < docs.len() && (#[trigger] docs[i]).0 == id && has_term(docs[i].1, term);
            assert(i < docs.len() - 1);
            assert(front[i] == docs[i]);
        }
        assert(!ids_with(front, term).contains(x.0)) by {
            if ids_with(front, term).contains(x.0) {
                let i = choose|i: int|
                    0 <= i < front.len() && (#[trigger] front[i]).0 == x.0 && has_term(front[i].1, term);
                assert(docs[i].0 != docs[docs.len() - 1].0);
            }
        }
        if has_term(x.1, term) {
            assert(docs[docs.len() - 1] == x);
            assert(ids_with(docs, term) =~= ids_with(front, term).insert(x.0));
        } else {
            assert forall|id: Seq<char>| #[trigger] ids_with(docs, term).contains(id) implies id != x.0 by {
                let i = choose|i: int|
                    0 <= i < docs.len() && (#[trigger] docs[i]).0 == id && has_term(docs[i].1, term);
                if i < docs.len() - 1 {
                    assert(docs[i].0 != docs[docs.len() - 1].0);
                }
            }
            assert(ids_with(docs, term) =~= ids_with(front, term));
        }
    }
}

proof fn last_terms_of_distinct(docs: Seq<(Seq<char>, Seq<(Seq<char>, u32)>)>, i: int)
    requires
        distinct_ids(docs),
        0 <= i < docs.len(),
    ensures
        last_terms(docs, docs[i].0) == Some(docs[i].1),
    decreases docs.len(),
{
    if i < docs.len() - 1 {
        assert(docs[i].0 != docs[docs.len() - 1].0);
        assert(docs.drop_last()[i] == docs[i]);
        last_terms_of_distinct(docs.drop_last(), i);
    }
}

/// When no two documents name the same capture, a corpus built from them
/// counts a term in as many documents as contain it: the frequency is the
/// count over the documents it was built from.
pub proof fn a_corpus_counts_the_documents_with_a_term(
    docs: Seq<(Seq<char>, Seq<(Seq<char>, u32)>)>,
    corpus: Seq<(Seq<char>, Seq<(Seq<char>, u32)>)>,
    term: Seq<char>,
)
    requires
        distinct_ids(docs),
        sorted_ids(corpus),
        forall|k: int| 0 <= k < corpus.len() ==> last_terms(docs, #[trigger] corpus[k].0) == Some(corpus[k].1),
        forall|id: Seq<char>|
            #[trigger] last_terms(docs, id) is Some ==> exists|k: int| 0 <= k < corpus.len() && corpus[k].0 == id,
    ensures
        documents_with(corpus, term) == documents_with(docs, term),
{
    assert(distinct_ids(corpus)) by {
        assert forall|i: int, j: int| 0 <= i < j < corpus.len() implies corpus[i].0 != corpus[j].0 by {
            seq_lt_irreflexive(corpus[i].0);
        }
    }
    documents_with_counts_ids(docs, term);
    documents_with_counts_ids(corpus, term);
    assert forall|id: Seq<char>| #[trigger] ids_with(corpus, term).contains(id) <==> ids_with(
        docs,
        term,
    ).contains(id) by {
        if ids_with(corpus, term).contains(id) {
            let k = choose|k: int|
                0 <= k < corpus.len() && (#[trigger] corpus[k]).0 == id && has_term(corpus[k].1, term);
            assert(last_terms(docs, corpus[k].0) == Some(corpus[k].1));
            last_terms_found(docs, id);
            let i = choose|i: int| 0 <= i < docs.len() && (#[trigger] docs[i]).0 == id;
            last_terms_of_distinct(docs, i);
        }
        if ids_with(docs, term).contains(id) {
            let i = choose|i: int|
                0 <= i < docs.len() && (#[trigger] docs[i]).0 == id && has_term(docs[i].1, term);
            last_terms_of_distinct(docs, i);
            let k = choose|k: int| 0 <= k < corpus.len() && corpus[k].0 == id;
            assert(last_terms(docs, corpus[k].0) == Some(corpus[k].1));
        }
    }
    assert(ids_with(corpus, term) =~= ids_with(docs, term));
}

} // verus!