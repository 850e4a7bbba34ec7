use crate::error::RagError;
use crate::ranking::{
    eligible, floor_value, is_ranking, key_values, lemma_ranking_descends, ranking_of, top_ranked,
};
use crate::text::string_texts;
use crate::tokens::{lowercase_of, to_lowercase, unicode_word_seq, unicode_words};
use crate::vector_id::VectorID;
use vstd::prelude::*;

verus! {

/// The parameters of the scoring formula, in hundredths.
#[derive(Debug, Clone, Copy, PartialEq, Eq, Structural)]
pub struct BM25Options {
    /// How fast the weight of a repeated term levels off.
    pub k1_hundredths: u32,
    /// How much long documents are marked down.
    pub b_hundredths: u32,
}

impl Default for BM25Options {
    fn default() -> (options: Self)
        ensures
            options.k1_hundredths == 120,
            options.b_hundredths == 75,
    {
        BM25Options { k1_hundredths: 120, b_hundredths: 75 }
    }
}

/// Each of `words` in lower case.
pub open spec fn lowercased(words: Seq<Seq<char>>) -> Seq<Seq<char>> {
    Seq::new(words.len(), |i: int| lowercase_of(words[i]))
}

/// The tokens of a text: its words in lower case.
pub open spec fn tokens_of(text: Seq<char>) -> Seq<Seq<char>> {
    lowercased(unicode_word_seq(text))
}

/// How often `term` occurs among `tokens`.
pub open spec fn term_count(tokens: Seq<Seq<char>>, term: Seq<char>) -> nat
    decreases tokens.len(),
{
    if tokens.len() == 0 {
        0
    } else {
        term_count(tokens.drop_last(), term) + if tokens.last() == term {
            1nat
        } else {
            0nat
        }
    }
}

/// In how many of `documents` `term` occurs.
pub open spec fn document_frequency(documents: Seq<Seq<Seq<char>>>, term: Seq<char>) -> nat
    decreases documents.len(),
{
    if documents.len() == 0 {
        0
    } else {
        document_frequency(documents.drop_last(), term) + if term_count(documents.last(), term)
            > 0 {
            1nat
        } else {
            0nat
        }
    }
}

/// The number of tokens in all of `documents`.
pub open spec fn total_length(documents: Seq<Seq<Seq<char>>>) -> nat
    decreases documents.len(),
{
    if documents.len() == 0 {
        0
    } else {
        total_length(documents.drop_last()) + documents.last().len()
    }
}

/// A term occurs in a document no more often than the document has tokens.
pub proof fn lemma_term_count_bound(tokens: Seq<Seq<char>>, term: Seq<char>)
    ensures
        term_count(tokens, term) <= tokens.len(),
    decreases tokens.len(),
{
    if tokens.len() > 0 {
        lemma_term_count_bound(tokens.drop_last(), term);
    }
}

/// A term occurs in no more documents than there are.
pub proof fn lemma_document_frequency_bound(documents: Seq<Seq<Seq<char>>>, term: Seq<char>)
    ensures
        document_frequency(documents, term) <= documents.len(),
    decreases documents.len(),
{
    if documents.len() > 0 {
        lemma_document_frequency_bound(documents.drop_last(), term);
    }
}

/// The words of a list, each in lower case.
pub fn lowercase_all(words: &Vec<String>) -> (tokens: Vec<String>)
    ensures
        string_texts(tokens@) == lowercased(string_texts(words@)),
{
    let mut tokens: Vec<String> = Vec::new();
    let mut i: usize = 0;
    while i < words.len()
        invariant
            i <= words.len(),
            tokens.len() == i,
            forall|j: int| 0 <= j < i ==> tokens[j]@ == lowercase_of(words[j]@),
        decreases words.len() - i,
    {
        tokens.push(to_lowercase(words[i].as_str()));
        i += 1;
    }
    assert(string_texts(tokens@) =~= lowercased(string_texts(words@)));
    tokens
}

/// The tokens of a text: its words, in lower case.
pub fn tokenize(text: &str) -> (tokens: Vec<String>)
    ensures
        string_texts(tokens@) == tokens_of(text@),
{
    let words = unicode_words(text);
    lowercase_all(&words)
}

/// What the index knows of one term of a query.
#[derive(Debug)]
pub struct TermStatistics {
    /// In how many documents the term occurs.
    pub document_frequency: usize,
    /// How often the term occurs in each document.
    pub term_frequencies: Vec<usize>,
}

/// What the scoring formula needs for one query.
#[derive(Debug)]
pub struct QueryStatistics {
    /// The number of tokens of each document.
    pub lengths: Vec<usize>,
    /// The number of tokens in all documents.
    pub total_length: u128,
    /// The statistics of each term of the query, in the order of the terms.
    pub terms: Vec<TermStatistics>,
}

/// One entry of the list of a term: a document that holds the term, and how
/// often.
#[derive(Debug, Clone, Copy, PartialEq, Eq, Structural)]
pub struct Posting {
    pub document: usize,
    pub frequency: usize,
}

/// The list of a term: the documents that hold it, in their order, each with
/// the number of times that it holds the term.
pub open spec fn posting_list(documents: Seq<Seq<Seq<char>>>, term: Seq<char>) -> Seq<Posting>
    decreases documents.len(),
{
    if documents.len() == 0 {
        Seq::empty()
    } else {
        let earlier = posting_list(documents.drop_last(), term);
        let count = term_count(documents.last(), term);
        if count > 0 {
            earlier.push(
                Posting { document: (documents.len() - 1) as usize, frequency: count as usize },
            )
        } else {
            earlier
        }
    }
}

/// How often a list says that the term occurs in a document: the frequency
/// of the entry for the document, or zero where the list has none.
pub open spec fn posted(list: Seq<Posting>, document: int) -> nat
    decreases list.len(),
{
    if list.len() == 0 {
        0
    } else if list.last().document == document {
        list.last().frequency as nat
    } else {
        posted(list.drop_last(), document)
    }
}

/// The documents are such as a machine holds: their number and their
/// lengths fit in a word.
pub open spec fn corpus_fits(documents: Seq<Seq<Seq<char>>>) -> bool {
    &&& documents.len() <= usize::MAX
    &&& forall|d: int| 0 <= d < documents.len() ==> (#[trigger] documents[d]).len() <= usize::MAX
}

/// The list of a term has one entry for each document that holds the term,
/// with the number of times that it does.
pub proof fn lemma_posting_list(documents: Seq<Seq<Seq<char>>>, term: Seq<char>)
    requires
        corpus_fits(documents),
    ensures
        posting_list(documents, term).len() == document_frequency(documents, term),
        forall|i: int|
            0 <= i < posting_list(documents, term).len() ==> (#[trigger] posting_list(
                documents,
                term,
            )[i]).document < documents.len(),
        forall|d: int|
            0 <= d < documents.len() ==> #[trigger] posted(posting_list(documents, term), d)
                == term_count(documents[d], term),
        forall|d: int|
            d < 0 || d >= documents.len() ==> #[trigger] posted(posting_list(documents, term), d)
                == 0,
    decreases documents.len(),
{
    if documents.len() > 0 {
        let front = documents.drop_last();
        assert(corpus_fits(front)) by {
            assert forall|d: int| 0 <= d < front.len() implies (#[trigger] front[d]).len()
                <= usize::MAX by {
                assert(front[d] == documents[d]);
            }
        }
        lemma_posting_list(front, term);
        lemma_term_count_bound(documents.last(), term);
        let earlier = posting_list(front, term);
        let list = posting_list(documents, term);
        let count = term_count(documents.last(), term);
        let n = documents.len() - 1;
        assert(documents[n].len() <= usize::MAX);
        if count > 0 {
            assert(list.drop_last() =~= earlier);
            assert(list.last().document == n);
        }
        assert forall|i: int| 0 <= i < list.len() implies (#[trigger] list[i]).document
            < documents.len() by {
            if i < earlier.len() {
                assert(list[i] == earlier[i]);
            }
        }
        assert forall|d: int| 0 <= d < documents.len() implies #[trigger] posted(list, d)
            == term_count(documents[d], term) by {
            if d < n {
                assert(front[d] == documents[d]);
                assert(posted(earlier, d) == term_count(front[d], term));
            } else {
                assert(posted(earlier, n) == 0);
            }
        }
        assert forall|d: int| d < 0 || d >= documents.len() implies #[trigger] posted(list, d)
            == 0 by {
            assert(posted(earlier, d) == 0);
        }
    }
}

/// A term that is counted in a list of tokens is one of the tokens.
pub proof fn lemma_counted_term_occurs(tokens: Seq<Seq<char>>, term: Seq<char>)
    requires
        term_count(tokens, term) > 0,
    ensures
        exists|k: int| 0 <= k < tokens.len() && #[trigger] tokens[k] == term,
    decreases tokens.len(),
{
    if tokens.last() == term {
        assert(tokens[tokens.len() - 1] == term);
    } else {
        lemma_counted_term_occurs(tokens.drop_last(), term);
        let k = choose|k: int| 0 <= k < tokens.drop_last().len() && #[trigger] tokens.drop_last()[k] == term;
        assert(tokens[k] == term);
    }
}

/// A term that no document holds has an empty list and is in no document.
proof fn lemma_absent_term(documents: Seq<Seq<Seq<char>>>, term: Seq<char>)
    requires
        forall|d: int| 0 <= d < documents.len() ==> term_count(#[trigger] documents[d], term) == 0,
    ensures
        posting_list(documents, term) == Seq::<Posting>::empty(),
        document_frequency(documents, term) == 0,
    decreases documents.len(),
{
    if documents.len() > 0 {
        let front = documents.drop_last();
        assert forall|d: int| 0 <= d < front.len() implies term_count(#[trigger] front[d], term)
            == 0 by {
            assert(front[d] == documents[d]);
        }
        lemma_absent_term(front, term);
        assert(term_count(documents[documents.len() - 1], term) == 0);
    }
}

/// `term` is one of `terms`.
pub open spec fn known_term(terms: Seq<String>, term: Seq<char>) -> bool {
    exists|t: int| 0 <= t < terms.len() && (#[trigger] terms[t])@ == term
}

/// No term occurs twice among `terms`.
pub open spec fn terms_distinct(terms: Seq<String>) -> bool {
    forall|a: int, b: int|
        0 <= a < b < terms.len() ==> (#[trigger] terms[a])@ != (#[trigger] terms[b])@
}

/// The lists are those of the terms over the documents, and every token of
/// the documents is one of the terms.
pub open spec fn lists_match(
    terms: Seq<String>,
    postings: Seq<Vec<Posting>>,
    documents: Seq<Seq<Seq<char>>>,
) -> bool {
    &&& postings.len() == terms.len()
    &&& terms_distinct(terms)
    &&& forall|t: int|
        0 <= t < terms.len() ==> (#[trigger] postings[t])@ == posting_list(documents, terms[t]@)
    &&& forall|d: int, k: int|
        0 <= d < documents.len() && 0 <= k < documents[d].len() ==> known_term(
            terms,
            #[trigger] documents[d][k],
        )
}

/// The position of a term among the terms, if it is one of them.
fn find_term(terms: &Vec<String>, term: &String) -> (found: Option<usize>)
    ensures
        match found {
            Some(t) => t < terms.len() && terms[t as int]@ == term@,
            None => !known_term(terms@, term@),
        },
{
    let mut t: usize = 0;
    while t < terms.len()
        invariant
            t <= terms.len(),
            forall|j: int| 0 <= j < t ==> (#[trigger] terms[j])@ != term@,
        decreases terms.len() - t,
    {
        if terms[t] == *term {
            return Some(t);
        }
        t += 1;
    }
    None
}

/// Counts one more occurrence of a token in document `document`, whose
/// tokens before this one are `current`.
fn record_token(
    terms: &mut Vec<String>,
    postings: &mut Vec<Vec<Posting>>,
    token: &String,
    document: usize,
    Ghost(done): Ghost<Seq<Seq<Seq<char>>>>,
    Ghost(current): Ghost<Seq<Seq<char>>>,
)
    requires
        done.len() == document,
        corpus_fits(done),
        current.len() < usize::MAX,
        lists_match(old(terms)@, old(postings)@, done.push(current)),
    ensures
        lists_match(final(terms)@, final(postings)@, done.push(current.push(token@))),
{
    let ghost before = done.push(current);
    let ghost after = done.push(current.push(token@));
    let ghost old_terms = terms@;
    let ghost old_postings = postings@;
    proof {
        assert(before.drop_last() =~= done);
        assert(after.drop_last() =~= done);
        assert(before.last() == current);
        assert(after.last() == current.push(token@));
        assert(current.push(token@).drop_last() =~= current);
        assert forall|term: Seq<char>| #[trigger]
            term_count(current.push(token@), term) == term_count(current, term) + if token@
                == term {
                1nat
            } else {
                0nat
            } by {}
        assert forall|term: Seq<char>| #[trigger]
            term_count(current, term) <= current.len() by {
            lemma_term_count_bound(current, term);
        }
    }
    match find_term(terms, token) {
        Some(t) => {
            let ghost earlier = posting_list(done, token@);
            let ghost count = term_count(current, token@);
            proof {
                lemma_posting_list(done, token@);
                assert(old_postings[t as int]@ == posting_list(before, token@));
            }
            let mut list: Vec<Posting> = Vec::new();
            std::mem::swap(&mut list, &mut postings[t]);
            let n = list.len();
            if n > 0 && list[n - 1].document == document {
                proof {
                    if count == 0 {
                        assert(list@ == earlier);
                        assert(earlier[n - 1].document < done.len());
                    }
                    assert(list@.last().frequency == count);
                }
                let frequency = list[n - 1].frequency;
                list.set(n - 1, Posting { document, frequency: frequency + 1 });
                proof {
                    assert(list@ =~= earlier.push(
                        Posting { document, frequency: (count + 1) as usize },
                    ));
                }
            } else {
                proof {
                    if count > 0 {
                        assert(posting_list(before, token@).last().document == document);
                    }
                    assert(list@ == earlier);
                }
                list.push(Posting { document, frequency: 1 });
            }
            assert(list@ == posting_list(after, token@));
            postings.set(t, list);
            proof {
                assert forall|u: int| 0 <= u < terms.len() implies (#[trigger] postings[u])@
                    == posting_list(after, terms[u]@) by {
                    if u != t {
                        assert(postings[u] == old_postings[u]);
                        assert(terms[u]@ != token@) by {
                            if u < t {
                                assert(old_terms[u]@ != old_terms[t as int]@);
                            } else {
                                assert(old_terms[t as int]@ != old_terms[u]@);
                            }
                        }
                        assert(posting_list(after, terms[u]@) == posting_list(before, terms[u]@));
                    }
                }
                assert forall|d: int, k: int|
                    0 <= d < after.len() && 0 <= k < after[d].len() implies known_term(
                    terms@,
                    #[trigger] after[d][k],
                ) by {
                    if d < done.len() || k < current.len() {
                        assert(after[d][k] == before[d][k]);
                        assert(known_term(old_terms, before[d][k]));
                    } else {
                        assert(terms[t as int]@ == token@);
                    }
                }
            }
        },
        None => {
            proof {
                assert forall|d: int| 0 <= d < before.len() implies term_count(
                    #[trigger] before[d],
                    token@,
                ) == 0 by {
                    if term_count(before[d], token@) > 0 {
                        lemma_counted_term_occurs(before[d], token@);
                        let k = choose|k: int|
                            0 <= k < before[d].len() && #[trigger] before[d][k] == token@;
                        assert(known_term(old_terms, before[d][k]));
                    }
                }
                assert forall|d: int| 0 <= d < done.len() implies term_count(
                    #[trigger] done[d],
                    token@,
                ) == 0 by {
                    assert(before[d] == done[d]);
                }
                lemma_absent_term(done, token@);
                assert(term_count(before[done.len() as int], token@) == 0);
            }
            terms.push(token.clone());
            let mut list: Vec<Posting> = Vec::new();
            list.push(Posting { document, frequency: 1 });
            postings.push(list);
            proof {
                let last = terms.len() - 1;
                assert(terms[last]@ == token@);
                assert(postings[last]@ =~= posting_list(after, token@));
                assert forall|a: int, b: int| 0 <= a < b < terms.len() implies (
                #[trigger] terms[a])@ != (#[trigger] terms[b])@ by {
                    if b == last {
                        assert(terms[a] == old_terms[a]);
                        if old_terms[a]@ == token@ {
                            assert(known_term(old_terms, token@));
                        }
                    } else {
                        assert(terms[a] == old_terms[a] && terms[b] == old_terms[b]);
                    }
                }
                assert forall|u: int| 0 <= u < terms.len() implies (#[trigger] postings[u])@
                    == posting_list(after, terms[u]@) by {
                    if u < last {
                        assert(postings[u] == old_postings[u]);
                        assert(terms[u] == old_terms[u]);
                        if old_terms[u]@ == token@ {
                            assert(known_term(old_terms, token@));
                        }
                        assert(posting_list(after, terms[u]@) == posting_list(before, terms[u]@));
                    }
                }
                assert forall|d: int, k: int|
                    0 <= d < after.len() && 0 <= k < after[d].len() implies known_term(
                    terms@,
                    #[trigger] after[d][k],
                ) by {
                    if d < done.len() || k < current.len() {
                        assert(after[d][k] == before[d][k]);
                        assert(known_term(old_terms, before[d][k]));
                        let u = choose|u: int|
                            0 <= u < old_terms.len() && (#[trigger] old_terms[u])@ == before[d][k];
                        assert(terms[u]@ == after[d][k]);
                    } else {
                        assert(terms[last]@ == token@);
                    }
                }
            }
        },
    }
}

/// A lexical index: for each term the documents that hold it, with the
/// number of tokens of each document and the identifier under which it was
/// given.
#[derive(Debug)]
pub struct BM25 {
    ids: Vec<VectorID>,
    lengths: Vec<usize>,
    total_length: u128,
    terms: Vec<String>,
    postings: Vec<Vec<Posting>>,
    options: BM25Options,
}

/// The token lists of the texts of a corpus.
pub open spec fn corpus_tokens(corpus: Seq<(VectorID, String)>) -> Seq<Seq<Seq<char>>> {
    Seq::new(corpus.len(), |d: int| tokens_of(corpus[d].1@))
}

/// The identifiers of a corpus.
pub open spec fn corpus_ids(corpus: Seq<(VectorID, String)>) -> Seq<VectorID> {
    Seq::new(corpus.len(), |d: int| corpus[d].0)
}

/// `statistics` says of the documents `documents` what the terms `terms`
/// need: the lengths, their sum, and for each term its frequency in each
/// document and the number of documents that hold it.
pub open spec fn statistics_match(
    statistics: QueryStatistics,
    documents: Seq<Seq<Seq<char>>>,
    terms: Seq<Seq<char>>,
) -> bool {
    &&& statistics.lengths@.len() == documents.len()
    &&& forall|d: int|
        0 <= d < documents.len() ==> #[trigger] statistics.lengths@[d] == documents[d].len()
    &&& statistics.total_length == total_length(documents)
    &&& statistics.terms@.len() == terms.len()
    &&& forall|t: int|
        0 <= t < terms.len() ==> {
            let term = #[trigger] statistics.terms@[t];
            &&& term.document_frequency == document_frequency(documents, terms[t])
            &&& term.document_frequency <= documents.len()
            &&& term.term_frequencies@.len() == documents.len()
            &&& forall|d: int|
                0 <= d < documents.len() ==> #[trigger] term.term_frequencies@[d] == term_count(
                    documents[d],
                    terms[t],
                ) && term.term_frequencies@[d] <= documents[d].len()
        }
}

impl BM25 {
    /// The index holds together: one length for each identifier, one list
    /// for each term, and no list names a document that is not there.
    #[verifier::type_invariant]
    spec fn well_formed(&self) -> bool {
        &&& self.lengths@.len() == self.ids@.len()
        &&& self.postings@.len() == self.terms@.len()
        &&& forall|t: int, i: int|
            0 <= t < self.postings@.len() && 0 <= i < self.postings@[t]@.len() ==> (
            #[trigger] self.postings@[t]@[i]).document < self.ids@.len()
    }

    /// The identifiers of the documents, in the order of the documents.
    pub closed spec fn ids_view(&self) -> Seq<VectorID> {
        self.ids@
    }

    /// The parameters of the scoring formula.
    pub closed spec fn options_view(&self) -> BM25Options {
        self.options
    }

    /// This is the index of `documents`: it knows the length of each and
    /// their sum, and for each of its terms the documents that hold the term
    /// and how often; its terms are the tokens of the documents.
    pub closed spec fn indexes(&self, documents: Seq<Seq<Seq<char>>>) -> bool {
        &&& self.lengths@.len() == documents.len()
        &&& forall|d: int|
            0 <= d < documents.len() ==> #[trigger] self.lengths@[d] == documents[d].len()
        &&& self.total_length == total_length(documents)
        &&& lists_match(self.terms@, self.postings@, documents)
    }

    /// An index of the texts of `corpus`, each under its identifier, in the
    /// order given.
    pub fn new(corpus: Vec<(VectorID, String)>, options: BM25Options) -> (index: Self)
        ensures
            index.options_view() == options,
            index.ids_view() == corpus_ids(corpus@),
            index.indexes(corpus_tokens(corpus@)),
    {
        let ghost all = corpus_tokens(corpus@);
        let mut ids: Vec<VectorID> = Vec::new();
        let mut lengths: Vec<usize> = Vec::new();
        let mut total: u128 = 0;
        let mut terms: Vec<String> = Vec::new();
        let mut postings: Vec<Vec<Posting>> = Vec::new();
        let mut d: usize = 0;
        assert(all.take(0) =~= Seq::<Seq<Seq<char>>>::empty());
        while d < corpus.len()
            invariant
                d <= corpus.len(),
                all == corpus_tokens(corpus@),
                ids.len() == d,
                forall|j: int| 0 <= j < d ==> ids[j] == corpus[j].0,
                lengths.len() == d,
                forall|j: int| 0 <= j < d ==> #[trigger] lengths[j] == all[j].len(),
                total == total_length(all.take(d as int)),
                total <= d * usize::MAX,
                lists_match(terms@, postings@, all.take(d as int)),
            decreases corpus.len() - d,
        {
            let tokens = tokenize(corpus[d].1.as_str());
            let ghost done = all.take(d as int);
            let ghost whole = string_texts(tokens@);
            proof {
                assert(whole == all[d as int]);
                assert(corpus_fits(done)) by {
                    assert forall|j: int| 0 <= j < done.len() implies (#[trigger] done[j]).len()
                        <= usize::MAX by {
                        assert(done[j] == all[j]);
                        assert(lengths[j] == all[j].len());
                    }
                }
                lemma_empty_document(terms@, postings@, done);
                assert(whole.take(0) =~= Seq::<Seq<char>>::empty());
            }
            let mut k: usize = 0;
            while k < tokens.len()
                invariant
                    k <= tokens.len(),
                    done.len() == d,
                    corpus_fits(done),
                    whole == string_texts(tokens@),
                    lists_match(terms@, postings@, done.push(whole.take(k as int))),
                decreases tokens.len() - k,
            {
                record_token(
                    &mut terms,
                    &mut postings,
                    &tokens[k],
                    d,
                    Ghost(done),
                    Ghost(whole.take(k as int)),
                );
                proof {
                    assert(whole.take(k + 1) =~= whole.take(k as int).push(tokens[k as int]@));
                }
                k += 1;
            }
            proof {
                assert(whole.take(tokens.len() as int) =~= whole);
                assert(all.take(d + 1) =~= done.push(whole));
                assert(all.take(d + 1).drop_last() =~= done);
                assert(d * usize::MAX + usize::MAX == (d + 1) * usize::MAX) by (nonlinear_arith);
                assert((d + 1) * usize::MAX <= usize::MAX * usize::MAX) by (nonlinear_arith)
                    requires
                        d + 1 <= usize::MAX,
                ;
            }
            ids.push(corpus[d].0);
            lengths.push(tokens.len());
            total = total + tokens.len() as u128;
            d += 1;
        }
        proof {
            assert(all.take(corpus.len() as int) =~= all);
            assert(ids@ =~= corpus_ids(corpus@));
            assert(corpus_fits(all)) by {
                assert forall|j: int| 0 <= j < all.len() implies (#[trigger] all[j]).len()
                    <= usize::MAX by {
                    assert(lengths[j] == all[j].len());
                }
            }
            assert forall|t: int, i: int|
                0 <= t < postings@.len() && 0 <= i < postings@[t]@.len() implies (
            #[trigger] postings@[t]@[i]).document < ids@.len() by {
                lemma_posting_list(all, terms[t]@);
                assert(postings[t]@ == posting_list(all, terms[t]@));
            }
        }
        BM25 { ids, lengths, total_length: total, terms, postings, options }
    }

    /// The number of documents.
    pub fn len(&self) -> (count: usize)
        ensures
            count == self.ids_view().len(),
    {
        self.ids.len()
    }

    /// The identifiers of the documents, in the order of the documents.
    pub fn ids(&self) -> (ids: &Vec<VectorID>)
        ensures
            ids@ == self.ids_view(),
    {
        &self.ids
    }

    /// The parameters of the scoring formula.
    pub fn options(&self) -> (options: BM25Options)
        ensures
            options == self.options_view(),
    {
        self.options
    }

    /// What the index knows of one term: the number of documents that hold
    /// it, and how often each document does.
    fn term_entry(&self, term: &String) -> (entry: TermStatistics)
        ensures
            entry.term_frequencies@.len() == self.ids@.len(),
            forall|documents: Seq<Seq<Seq<char>>>| #[trigger]
                self.indexes(documents) ==> {
                    &&& entry.document_frequency == document_frequency(documents, term@)
                    &&& entry.document_frequency <= documents.len()
                    &&& forall|d: int|
                        0 <= d < documents.len() ==> #[trigger] entry.term_frequencies@[d]
                            == term_count(documents[d], term@) && entry.term_frequencies@[d]
                            <= documents[d].len()
                },
    {
        proof {
            use_type_invariant(self);
        }
        let count = self.ids.len();
        let mut frequencies: Vec<usize> = Vec::new();
        let mut d: usize = 0;
        while d < count
            invariant
                d <= count,
                frequencies.len() == d,
                forall|j: int| 0 <= j < d ==> frequencies[j] == 0,
            decreases count - d,
        {
            frequencies.push(0);
            d += 1;
        }
        match find_term(&self.terms, term) {
            Some(t) => {
                let list = &self.postings[t];
                let mut i: usize = 0;
                assert(list@.take(0) =~= Seq::<Posting>::empty());
                while i < list.len()
                    invariant
                        i <= list.len(),
                        frequencies.len() == count,
                        count == self.ids@.len(),
                        forall|k: int| 0 <= k < list.len() ==> (#[trigger] list[k]).document < count,
                        forall|j: int|
                            0 <= j < count ==> #[trigger] frequencies[j] == posted(
                                list@.take(i as int),
                                j,
                            ),
                    decreases list.len() - i,
                {
                    let posting = list[i];
                    proof {
                        assert(list@.take(i + 1).drop_last() =~= list@.take(i as int));
                        assert(list@.take(i + 1).last() == posting);
                    }
                    frequencies.set(posting.document, posting.frequency);
                    i += 1;
                }
                proof {
                    assert(list@.take(list.len() as int) =~= list@);
                    assert forall|documents: Seq<Seq<Seq<char>>>| #[trigger]
                        self.indexes(documents) implies {
                        &&& list.len() == document_frequency(documents, term@)
                        &&& list.len() <= documents.len()
                        &&& forall|d: int|
                            0 <= d < documents.len() ==> #[trigger] frequencies@[d] == term_count(
                                documents[d],
                                term@,
                            ) && frequencies@[d] <= documents[d].len()
                    } by {
                        assert(corpus_fits(documents)) by {
                            assert forall|j: int| 0 <= j < documents.len() implies (
                            #[trigger] documents[j]).len() <= usize::MAX by {
                                assert(self.lengths@[j] == documents[j].len());
                            }
                        }
                        assert(self.postings@[t as int]@ == posting_list(documents, term@));
                        lemma_posting_list(documents, term@);
                        lemma_document_frequency_bound(documents, term@);
                        assert forall|d: int| 0 <= d < documents.len() implies #[trigger] frequencies@[d]
                            == term_count(documents[d], term@) && frequencies@[d]
                            <= documents[d].len() by {
                            lemma_term_count_bound(documents[d], term@);
                            assert(posted(posting_list(documents, term@), d) == term_count(
                                documents[d],
                                term@,
                            ));
                        }
                    }
                }
                TermStatistics { document_frequency: list.len(), term_frequencies: frequencies }
            },
            None => {
                proof {
                    assert forall|documents: Seq<Seq<Seq<char>>>| #[trigger]
                        self.indexes(documents) implies {
                        &&& 0 == document_frequency(documents, term@)
                        &&& forall|d: int|
                            0 <= d < documents.len() ==> #[trigger] frequencies@[d] == term_count(
                                documents[d],
                                term@,
                            ) && frequencies@[d] <= documents[d].len()
                    } by {
                        assert forall|d: int| 0 <= d < documents.len() implies term_count(
                            #[trigger] documents[d],
                            term@,
                        ) == 0 by {
                            if term_count(documents[d], term@) > 0 {
                                lemma_counted_term_occurs(documents[d], term@);
                                let k = choose|k: int|
                                    0 <= k < documents[d].len() && #[trigger] documents[d][k]
                                        == term@;
                                assert(known_term(self.terms@, documents[d][k]));
                            }
                        }
                        lemma_absent_term(documents, term@);
                    }
                }
                TermStatistics { document_frequency: 0, term_frequencies: frequencies }
            },
        }
    }

    /// The statistics of the given terms over the documents of the index.
    pub fn term_statistics(&self, terms: &Vec<String>) -> (statistics: QueryStatistics)
        ensures
            forall|documents: Seq<Seq<Seq<char>>>| #[trigger]
                self.indexes(documents) ==> statistics_match(
                    statistics,
                    documents,
                    string_texts(terms@),
                ),
    {
        proof {
            use_type_invariant(self);
        }
        let mut lengths: Vec<usize> = Vec::new();
        let mut d: usize = 0;
        while d < self.lengths.len()
            invariant
                d <= self.lengths.len(),
                lengths.len() == d,
                forall|j: int| 0 <= j < d ==> lengths[j] == self.lengths[j],
            decreases self.lengths.len() - d,
        {
            lengths.push(self.lengths[d]);
            d += 1;
        }
        let mut entries: Vec<TermStatistics> = Vec::new();
        let mut t: usize = 0;
        while t < terms.len()
            invariant
                t <= terms.len(),
                entries.len() == t,
                self.lengths@.len() == self.ids@.len(),
                forall|k: int|
                    0 <= k < t ==> (#[trigger] entries@[k]).term_frequencies@.len()
                        == self.ids@.len(),
                forall|documents: Seq<Seq<Seq<char>>>, k: int| #[trigger]
                    self.indexes(documents) && 0 <= k < t ==> {
                        let entry = #[trigger] entries@[k];
                        &&& entry.document_frequency == document_frequency(documents, terms[k]@)
                        &&& entry.document_frequency <= documents.len()
                        &&& forall|d: int|
                            0 <= d < documents.len() ==> #[trigger] entry.term_frequencies@[d]
                                == term_count(documents[d], terms[k]@)
                                && entry.term_frequencies@[d] <= documents[d].len()
                    },
            decreases terms.len() - t,
        {
            let entry = self.term_entry(&terms[t]);
            entries.push(entry);
            t += 1;
        }
        QueryStatistics { lengths, total_length: self.total_length, terms: entries }
    }

    /// The statistics that scoring `query` needs: those of its tokens.
    pub fn statistics(&self, query: &str) -> (statistics: QueryStatistics)
        ensures
            forall|documents: Seq<Seq<Seq<char>>>| #[trigger]
                self.indexes(documents) ==> statistics_match(
                    statistics,
                    documents,
                    tokens_of(query@),
                ),
    {
        let terms = tokenize(query);
        self.term_statistics(&terms)
    }

    /// The identifiers of the documents by descending score: those whose
    /// score reaches `min_score`, where one is given, the document that was
    /// added first before others of the same score, at most `top_k` of them.
    /// `scores` holds one score for each document, in the order of the
    /// documents. A score is a number that rises with the relevance.
    pub fn rank(&self, scores: &Vec<u128>, top_k: usize, min_score: Option<u128>) -> (outcome:
        Result<Vec<VectorID>, RagError>)
        ensures
            scores.len() != self.ids_view().len() ==> outcome == Err::<Vec<VectorID>, RagError>(
                RagError::ScoreCount,
            ),
            scores.len() == self.ids_view().len() ==> (outcome matches Ok(found) && {
                let picks = ranking_of(key_values(scores@), floor_value(min_score), top_k as nat);
                &&& is_ranking(key_values(scores@), floor_value(min_score), top_k as nat, picks)
                &&& found@ == Seq::new(picks.len(), |i: int| self.ids_view()[picks[i] as int])
                &&& found.len() <= top_k
                &&& forall|i: int, j: int|
                    0 <= i < j < picks.len() ==> scores@[#[trigger] picks[i] as int]
                        >= scores@[#[trigger] picks[j] as int]
            }),
    {
        if scores.len() != self.ids.len() {
            return Err(RagError::ScoreCount);
        }
        let picks = top_ranked(scores, min_score, top_k);
        proof {
            lemma_ranking_descends(key_values(scores@), floor_value(min_score), top_k as nat, picks@);
        }
        let mut found: Vec<VectorID> = Vec::new();
        let mut i: usize = 0;
        while i < picks.len()
            invariant
                i <= picks.len(),
                found.len() == i,
                self.ids@.len() == scores@.len(),
                is_ranking(key_values(scores@), floor_value(min_score), top_k as nat, picks@),
                forall|j: int| 0 <= j < i ==> found[j] == self.ids@[picks[j] as int],
            decreases picks.len() - i,
        {
            assert(eligible(key_values(scores@), floor_value(min_score), picks[i as int] as int));
            found.push(self.ids[picks[i]]);
            i += 1;
        }
        assert(found@ =~= Seq::new(picks@.len(), |i: int| self.ids@[picks@[i] as int]));
        Ok(found)
    }
}

/// A document without tokens adds nothing to any list.
proof fn lemma_empty_document(
    terms: Seq<String>,
    postings: Seq<Vec<Posting>>,
    done: Seq<Seq<Seq<char>>>,
)
    requires
        lists_match(terms, postings, done),
    ensures
        lists_match(terms, postings, done.push(Seq::empty())),
{
    let work = done.push(Seq::<Seq<char>>::empty());
    assert(work.drop_last() =~= done);
    assert forall|t: int| 0 <= t < terms.len() implies (#[trigger] postings[t])@ == posting_list(
        work,
        terms[t]@,
    ) by {
        assert(term_count(work.last(), terms[t]@) == 0);
    }
    assert forall|d: int, k: int| 0 <= d < work.len() && 0 <= k < work[d].len() implies known_term(
        terms,
        #[trigger] work[d][k],
    ) by {
        assert(work[d] == done[d]);
    }
}

} // verus!
