//! The query engine and the scoring data.
//!
//! A query is tokenized like a document and collapsed to its distinct terms:
//! only term presence drives scoring. Every document sharing at least one
//! query term that is absent from some other document matches; for each
//! matching document the engine hands out the exact counts a scorer needs:
//! the raw count of each query term, the document's total term count, the
//! term's document frequency, and the corpus size.
//!
//! Term frequency and inverse document frequency are exposed as exact ratios
//! of integers. The real-valued scores of classic TF-IDF are `count / n` and
//! `ln(N / m)`; the ratios here are their exact arguments, so a scorer only
//! divides and takes one logarithm, and a ratio is strictly greater than one
//! exactly when its logarithm is strictly positive.
use vstd::prelude::*;

use crate::lexer::seq_views;
use crate::lexer::tokenize_all;
use crate::lexer::tokens_of;
use crate::model::DocFreq;
use crate::model::InMemoryModel;
use crate::model::TermFreq;
use crate::model::count_of;
use crate::model::lemma_count_of_at;
use crate::model::table_wf;

verus! {

/// The distinct terms of a token sequence, keeping the first occurrence
/// order.
pub open spec fn distinct_terms(tokens: Seq<Seq<char>>) -> Seq<Seq<char>>
    decreases tokens.len(),
{
    if tokens.len() == 0 {
        Seq::empty()
    } else {
        let rest = distinct_terms(tokens.drop_last());
        if rest.contains(tokens.last()) {
            rest
        } else {
            rest.push(tokens.last())
        }
    }
}

fn contains_string(v: &Vec<String>, t: &String) -> (b: bool)
    ensures
        b == seq_views(v@).contains(t@),
{
    let mut i: usize = 0;
    while i < v.len()
        invariant
            i <= v@.len(),
            forall|j: int| 0 <= j < i ==> seq_views(v@)[j] != t@,
        decreases v@.len() - i,
    {
        if v[i] == *t {
            proof {
                assert(seq_views(v@)[i as int] == t@);
            }
            return true;
        }
        i = i + 1;
    }
    proof {
        assert forall|j: int| 0 <= j < seq_views(v@).len() implies seq_views(v@)[j] != t@ by {}
    }
    false
}

/// The distinct terms of a query, in first-occurrence order.
pub fn query_terms(query: &[char]) -> (terms: Vec<String>)
    ensures
        seq_views(terms@) == distinct_terms(tokens_of(query@)),
{
    let tokens = tokenize_all(query);
    let mut terms: Vec<String> = Vec::new();
    let mut i: usize = 0;
    proof {
        assert(seq_views(tokens@).take(0) =~= Seq::<Seq<char>>::empty());
        assert(seq_views(terms@) =~= distinct_terms(seq_views(tokens@).take(0)));
    }
    while i < tokens.len()
        invariant
            i <= tokens@.len(),
            seq_views(terms@) == distinct_terms(seq_views(tokens@).take(i as int)),
        decreases tokens@.len() - i,
    {
        let ghost prefix = seq_views(tokens@).take(i as int);
        let ghost next = seq_views(tokens@).take(i as int + 1);
        proof {
            assert(next.drop_last() =~= prefix);
            assert(next.last() == tokens@[i as int]@);
        }
        let present = contains_string(&terms, &tokens[i]);
        if !present {
            let ghost before = seq_views(terms@);
            terms.push(tokens[i].clone());
            proof {
                assert(seq_views(terms@) =~= before.push(tokens@[i as int]@));
            }
        }
        i = i + 1;
    }
    proof {
        assert(seq_views(tokens@).take(tokens@.len() as int) =~= seq_views(tokens@));
    }
    terms
}

/// The exact term-frequency ratio: raw count over total term count, and the
/// exact zero `0 / 1` for an empty document.
pub open spec fn tf_ratio(t: Seq<char>, n: nat, entries: Seq<(Seq<char>, nat)>) -> (nat, nat) {
    if n == 0 {
        (0nat, 1nat)
    } else {
        (count_of(entries, t), n)
    }
}

/// The document frequency used by inverse document frequency: the stored
/// count, defaulting to `1` (never `0`) for a term the corpus has not seen.
pub open spec fn idf_denominator(dfv: Seq<(Seq<char>, nat)>, t: Seq<char>) -> nat {
    if count_of(dfv, t) == 0 {
        1nat
    } else {
        count_of(dfv, t)
    }
}

/// The exact inverse-document-frequency ratio: corpus size over the smoothed
/// document frequency. The real-valued weight is the natural logarithm of
/// this ratio.
pub open spec fn idf_ratio(t: Seq<char>, n_docs: nat, dfv: Seq<(Seq<char>, nat)>) -> (nat, nat) {
    (n_docs, idf_denominator(dfv, t))
}

/// The relative frequency of `t` in a document, as the exact ratio
/// `raw count / n`. A document with no terms (`n == 0`) yields the exact
/// zero ratio instead of a division by zero.
pub fn term_frequency_ratio(t: &String, n: usize, d: &TermFreq) -> (r: (usize, usize))
    requires
        d.wf(),
    ensures
        (r.0 as nat, r.1 as nat) == tf_ratio(t@, n as nat, d@),
{
    if n == 0 {
        (0, 1)
    } else {
        (d.get(t), n)
    }
}

/// The rarity ratio of `t` across the corpus: `N / m`, where `m` is the
/// document frequency of `t`, defaulting to `1` when `t` was never seen.
/// The inverse document frequency is the natural logarithm of this ratio.
pub fn inverse_document_frequency_ratio(t: &String, n_docs: usize, df: &DocFreq) -> (r: (
    usize,
    usize,
))
    requires
        df.wf(),
    ensures
        (r.0 as nat, r.1 as nat) == idf_ratio(t@, n_docs as nat, df@),
{
    let m = df.get(t);
    if m == 0 {
        (n_docs, 1)
    } else {
        (n_docs, m)
    }
}

/// With total count `0` the term frequency is the exact zero ratio: an empty
/// document never poisons a score.
pub proof fn lemma_term_frequency_of_empty_document(t: Seq<char>, entries: Seq<(Seq<char>, nat)>)
    ensures
        tf_ratio(t, 0, entries) == (0nat, 1nat),
{
}

/// A term absent from the document-frequency table gets the smoothed
/// frequency `1`, so its idf ratio is `N / 1`; the logarithm of that ratio
/// is strictly positive exactly when the numerator exceeds the denominator,
/// that is, when the corpus holds more than one document.
pub proof fn lemma_idf_of_unseen_term(t: Seq<char>, n_docs: nat, dfv: Seq<(Seq<char>, nat)>)
    requires
        count_of(dfv, t) == 0,
    ensures
        idf_ratio(t, n_docs, dfv) == (n_docs, 1nat),
        n_docs > 1 ==> idf_ratio(t, n_docs, dfv).0 > idf_ratio(t, n_docs, dfv).1,
{
}

/// The sum of the term-frequency numerators of the given keys, with `n` as
/// the total count: each summand is `tf * n` in exact arithmetic, since the
/// ratio's denominator is `n`.
pub open spec fn sum_tf_numerators(
    keys: Seq<(Seq<char>, nat)>,
    n: nat,
    entries: Seq<(Seq<char>, nat)>,
) -> nat
    decreases keys.len(),
{
    if keys.len() == 0 {
        0
    } else {
        sum_tf_numerators(keys.drop_last(), n, entries) + tf_ratio(
            keys.last().0,
            n,
            entries,
        ).0
    }
}

proof fn lemma_sum_tf_numerators_prefix(entries: Seq<(Seq<char>, nat)>, n: nat, i: int)
    requires
        0 <= i <= entries.len(),
        forall|k: int|
            0 <= k < entries.len() ==> tf_ratio((#[trigger] entries[k]).0, n, entries).0
                == entries[k].1,
    ensures
        sum_tf_numerators(entries.take(i), n, entries) == crate::model::sum_counts(
            entries.take(i),
        ),
    decreases i,
{
    if i > 0 {
        lemma_sum_tf_numerators_prefix(entries, n, i - 1);
        assert(entries.take(i).drop_last() =~= entries.take(i - 1));
        assert(entries.take(i).last() == entries[i - 1]);
    }
}

/// In a well-formed table whose counts sum to a positive `n`, the term
/// frequency of every key is exactly its stored count over `n`, and the term
/// frequencies weighted by `n` sum back to the sum of the raw counts: the
/// document's total number of occurrences, `n` itself.
pub proof fn lemma_term_frequencies_weighted_sum(n: nat, entries: Seq<(Seq<char>, nat)>)
    requires
        table_wf(entries),
        n == crate::model::sum_counts(entries),
        n > 0,
    ensures
        forall|i: int|
            0 <= i < entries.len() ==> tf_ratio((#[trigger] entries[i]).0, n, entries) == (
                entries[i].1,
                n,
            ),
        sum_tf_numerators(entries, n, entries) == n,
{
    assert forall|i: int|
        0 <= i < entries.len() implies tf_ratio((#[trigger] entries[i]).0, n, entries) == (
        entries[i].1,
        n,
    ) by {
        lemma_count_of_at(entries, i);
    }
    lemma_sum_tf_numerators_prefix(entries, n, entries.len() as int);
    assert(entries.take(entries.len() as int) =~= entries);
}

/// The per-term scoring data of one matching document.
pub struct TermStat {
    /// Raw count of the query term in the document.
    pub count: usize,
    /// Smoothed document frequency of the query term (the `m` of `ln(N/m)`).
    pub doc_freq: usize,
}

impl View for TermStat {
    type V = (nat, nat);

    open spec fn view(&self) -> (nat, nat) {
        (self.count as nat, self.doc_freq as nat)
    }
}

/// One matching document: its key, its total term count (the `n` of
/// `count / n`), and one `TermStat` per distinct query term, in query order.
pub struct SearchHit {
    pub path: String,
    pub term_count: usize,
    pub stats: Vec<TermStat>,
}

impl View for SearchHit {
    type V = (Seq<char>, nat, Seq<(nat, nat)>);

    open spec fn view(&self) -> (Seq<char>, nat, Seq<(nat, nat)>) {
        (self.path@, self.term_count as nat, self.stats@.map_values(|s: TermStat| s@))
    }
}

/// The scoring data of one document for the given query terms.
pub open spec fn stat_seq(
    doc: (Seq<char>, nat, Seq<(Seq<char>, nat)>),
    qterms: Seq<Seq<char>>,
    dfv: Seq<(Seq<char>, nat)>,
) -> Seq<(nat, nat)> {
    Seq::new(
        qterms.len(),
        |j: int| (count_of(doc.2, qterms[j]), idf_denominator(dfv, qterms[j])),
    )
}

/// Whether a document scores strictly above zero: every term contributes
/// `(count / n) * ln(N / m)` with `count / n >= 0` and `m <= N`, so the score
/// is positive exactly when the document contains some query term that is
/// missing from at least one document (`m < N`).
pub open spec fn doc_matches(
    doc: (Seq<char>, nat, Seq<(Seq<char>, nat)>),
    qterms: Seq<Seq<char>>,
    n_docs: nat,
    dfv: Seq<(Seq<char>, nat)>,
) -> bool {
    exists|j: int|
        0 <= j < qterms.len() && count_of(doc.2, #[trigger] qterms[j]) > 0 && count_of(
            dfv,
            qterms[j],
        ) < n_docs
}

/// The matching documents, in index order, each with its scoring data.
pub open spec fn search_results(
    docs: Seq<(Seq<char>, nat, Seq<(Seq<char>, nat)>)>,
    qterms: Seq<Seq<char>>,
    n_docs: nat,
    dfv: Seq<(Seq<char>, nat)>,
) -> Seq<(Seq<char>, nat, Seq<(nat, nat)>)>
    decreases docs.len(),
{
    if docs.len() == 0 {
        Seq::empty()
    } else {
        let rest = search_results(docs.drop_last(), qterms, n_docs, dfv);
        if doc_matches(docs.last(), qterms, n_docs, dfv) {
            rest.push((docs.last().0, docs.last().1, stat_seq(docs.last(), qterms, dfv)))
        } else {
            rest
        }
    }
}

impl InMemoryModel {
    /// Answers a query: tokenizes it, collapses it to its distinct terms, and
    /// returns every document whose score is strictly positive, in index
    /// order, with the exact counts its score is computed from.
    pub fn search_query(&self, query: &[char]) -> (hits: Vec<SearchHit>)
        requires
            self.wf(),
        ensures
            hits@.map_values(|h: SearchHit| h@) == search_results(
                self.docs(),
                distinct_terms(tokens_of(query@)),
                self.docs().len(),
                self.doc_freqs(),
            ),
    {
        let qterms = query_terms(query);
        let n_docs = self.document_count();
        let total = self.document_count();
        let mut hits: Vec<SearchHit> = Vec::new();
        let ghost qts = seq_views(qterms@);
        let ghost docsv = self.docs();
        let ghost dfv = self.doc_freqs();
        proof {
            assert(docsv.take(0) =~= Seq::<(Seq<char>, nat, Seq<(Seq<char>, nat)>)>::empty());
            assert(hits@.map_values(|h: SearchHit| h@) =~= search_results(
                docsv.take(0),
                qts,
                docsv.len(),
                dfv,
            ));
        }
        let mut i: usize = 0;
        while i < total
            invariant
                self.wf(),
                qts == seq_views(qterms@),
                docsv == self.docs(),
                dfv == self.doc_freqs(),
                n_docs as nat == docsv.len(),
                total as nat == docsv.len(),
                i <= docsv.len(),
                hits@.map_values(|h: SearchHit| h@) == search_results(
                    docsv.take(i as int),
                    qts,
                    docsv.len(),
                    dfv,
                ),
            decreases docsv.len() - i,
        {
            let doc = self.doc_at(i);
            let dn = doc.term_count();
            let mut stats: Vec<TermStat> = Vec::new();
            let mut matched = false;
            let mut j: usize = 0;
            while j < qterms.len()
                invariant
                    self.wf(),
                    0 <= i < docsv.len(),
                    doc@ == docsv[i as int],
                    qts == seq_views(qterms@),
                    docsv == self.docs(),
                    dfv == self.doc_freqs(),
                    n_docs as nat == docsv.len(),
                    j <= qterms@.len(),
                    stats@.len() == j,
                    forall|k: int|
                        0 <= k < j ==> (#[trigger] stats@[k])@ == (
                            count_of(doc@.2, qts[k]),
                            idf_denominator(dfv, qts[k]),
                        ),
                    matched == exists|k: int|
                        0 <= k < j && count_of(doc@.2, #[trigger] qts[k]) > 0 && count_of(
                            dfv,
                            qts[k],
                        ) < docsv.len(),
                decreases qterms@.len() - j,
            {
                let c = doc.counts().get(&qterms[j]);
                let m = self.doc_freq_table().get(&qterms[j]);
                let stat_df = if m == 0 {
                    1
                } else {
                    m
                };
                let ghost had_match = matched;
                stats.push(TermStat { count: c, doc_freq: stat_df });
                if c > 0 && m < n_docs {
                    matched = true;
                }
                j = j + 1;
                proof {
                    if c > 0 && (m as nat) < docsv.len() {
                        assert(count_of(doc@.2, qts[j - 1]) > 0 && count_of(dfv, qts[j - 1])
                            < docsv.len());
                    } else {
                        assert forall|k: int|
                            0 <= k < j && count_of(doc@.2, #[trigger] qts[k]) > 0 && count_of(
                                dfv,
                                qts[k],
                            ) < docsv.len() implies 0 <= k < j - 1 by {}
                    }
                }
            }
            let ghost hits0 = hits@.map_values(|h: SearchHit| h@);
            if matched {
                let hit = SearchHit { path: doc.path().clone(), term_count: dn, stats };
                proof {
                    assert(hit@.2 =~= stat_seq(doc@, qts, dfv));
                }
                hits.push(hit);
                proof {
                    assert(hits@.map_values(|h: SearchHit| h@) =~= hits0.push(
                        (doc@.0, doc@.1, stat_seq(doc@, qts, dfv)),
                    ));
                }
            }
            i = i + 1;
            proof {
                assert(docsv.take(i as int).drop_last() =~= docsv.take(i as int - 1));
                assert(docsv.take(i as int).last() == docsv[i as int - 1]);
            }
        }
        proof {
            assert(docsv.take(docsv.len() as int) =~= docsv);
        }
        hits
    }
}

} // verus!
