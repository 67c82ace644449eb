//! The frequency model: per-document term counts, corpus-wide document
//! frequencies, and the exact scoring data the query engine derives from
//! them.
//!
//! Counts are kept in association tables with unique keys. A table's view is
//! the sequence of `(term, count)` pairs; `count_of` reads it as a mapping
//! with default `0`.
use vstd::prelude::*;

use crate::lexer::Lexer;
use crate::lexer::tokens_of;

verus! {

/// The count stored for `t`, or `0` when `t` has no entry.
pub open spec fn count_of(entries: Seq<(Seq<char>, nat)>, t: Seq<char>) -> nat
    decreases entries.len(),
{
    if entries.len() == 0 {
        0
    } else if entries.last().0 == t {
        entries.last().1
    } else {
        count_of(entries.drop_last(), t)
    }
}

/// The sum of all stored counts.
pub open spec fn sum_counts(entries: Seq<(Seq<char>, nat)>) -> nat
    decreases entries.len(),
{
    if entries.len() == 0 {
        0
    } else {
        sum_counts(entries.drop_last()) + entries.last().1
    }
}

/// Well-formedness of an association table: keys are unique and every stored
/// count is positive.
pub open spec fn table_wf(entries: Seq<(Seq<char>, nat)>) -> bool {
    (forall|i: int, j: int| 0 <= i < j < entries.len() ==> entries[i].0 != entries[j].0) && (forall|
        i: int,
    | 0 <= i < entries.len() ==> (#[trigger] entries[i]).1 >= 1)
}

/// How many times `t` occurs in a sequence of terms.
pub open spec fn occ_count(tokens: Seq<Seq<char>>, t: Seq<char>) -> nat
    decreases tokens.len(),
{
    if tokens.len() == 0 {
        0
    } else {
        occ_count(tokens.drop_last(), t) + if tokens.last() == t {
            1nat
        } else {
            0nat
        }
    }
}

pub proof fn lemma_count_of_absent(entries: Seq<(Seq<char>, nat)>, t: Seq<char>)
    requires
        forall|i: int| 0 <= i < entries.len() ==> (#[trigger] entries[i]).0 != t,
    ensures
        count_of(entries, t) == 0,
    decreases entries.len(),
{
    if entries.len() > 0 {
        lemma_count_of_absent(entries.drop_last(), t);
    }
}

/// With unique keys, the count read for the key at `i` is the count stored
/// there.
pub proof fn lemma_count_of_at(entries: Seq<(Seq<char>, nat)>, i: int)
    requires
        0 <= i < entries.len(),
        forall|a: int, b: int| 0 <= a < b < entries.len() ==> entries[a].0 != entries[b].0,
    ensures
        count_of(entries, entries[i].0) == entries[i].1,
    decreases entries.len(),
{
    if i == entries.len() - 1 {
    } else {
        lemma_count_of_at(entries.drop_last(), i);
    }
}

pub proof fn lemma_count_positive_implies_present(entries: Seq<(Seq<char>, nat)>, t: Seq<char>)
    requires
        count_of(entries, t) > 0,
    ensures
        exists|i: int| 0 <= i < entries.len() && (#[trigger] entries[i]).0 == t,
    decreases entries.len(),
{
    if entries.last().0 == t {
        assert(entries[entries.len() - 1].0 == t);
    } else {
        lemma_count_positive_implies_present(entries.drop_last(), t);
        let i = choose|i: int|
            0 <= i < entries.drop_last().len() && (#[trigger] entries.drop_last()[i]).0 == t;
        assert(entries[i].0 == t);
    }
}

pub proof fn lemma_count_le_sum(entries: Seq<(Seq<char>, nat)>, t: Seq<char>)
    ensures
        count_of(entries, t) <= sum_counts(entries),
    decreases entries.len(),
{
    if entries.len() > 0 && entries.last().0 != t {
        lemma_count_le_sum(entries.drop_last(), t);
    }
}

/// Overwriting the count stored at `i` changes exactly that key's count and
/// shifts the sum by the difference.
pub proof fn lemma_count_of_update(entries: Seq<(Seq<char>, nat)>, i: int, v: nat)
    requires
        0 <= i < entries.len(),
        forall|a: int, b: int| 0 <= a < b < entries.len() ==> entries[a].0 != entries[b].0,
    ensures
        count_of(entries.update(i, (entries[i].0, v)), entries[i].0) == v,
        forall|u: Seq<char>|
            u != entries[i].0 ==> count_of(entries.update(i, (entries[i].0, v)), u) == count_of(
                entries,
                u,
            ),
        sum_counts(entries.update(i, (entries[i].0, v))) + entries[i].1 == sum_counts(entries) + v,
    decreases entries.len(),
{
    let updated = entries.update(i, (entries[i].0, v));
    if i == entries.len() - 1 {
        assert(updated.last() == (entries[i].0, v));
        assert(updated.drop_last() =~= entries.drop_last());
    } else {
        assert(updated.last() == entries.last());
        assert(updated.drop_last() =~= entries.drop_last().update(i, (entries[i].0, v)));
        assert(entries.drop_last()[i] == entries[i]);
        lemma_count_of_update(entries.drop_last(), i, v);
        assert(entries.last().0 != entries[i].0);
        assert forall|u: Seq<char>| u != entries[i].0 implies count_of(updated, u) == count_of(
            entries,
            u,
        ) by {
            if updated.last().0 == u {
                assert(count_of(updated, u) == updated.last().1);
                assert(count_of(entries, u) == entries.last().1);
            } else {
                assert(count_of(updated, u) == count_of(updated.drop_last(), u));
                assert(count_of(
                    entries.drop_last().update(i, (entries.drop_last()[i].0, v)),
                    u,
                ) == count_of(entries.drop_last(), u));
                assert(count_of(entries, u) == count_of(entries.drop_last(), u));
            }
        }
    }
}

pub proof fn lemma_occ_push(tokens: Seq<Seq<char>>, x: Seq<char>, t: Seq<char>)
    ensures
        occ_count(tokens.push(x), t) == occ_count(tokens, t) + if x == t {
            1nat
        } else {
            0nat
        },
{
    assert(tokens.push(x).drop_last() =~= tokens);
    assert(tokens.push(x).last() == x);
}

pub proof fn lemma_occ_le_len(tokens: Seq<Seq<char>>, t: Seq<char>)
    ensures
        occ_count(tokens, t) <= tokens.len(),
    decreases tokens.len(),
{
    if tokens.len() > 0 {
        lemma_occ_le_len(tokens.drop_last(), t);
    }
}

/// A term-to-count table with unique keys and positive counts.
pub struct TermFreq {
    entries: Vec<(String, usize)>,
}

/// Corpus-wide document frequencies use the same table shape.
pub type DocFreq = TermFreq;

impl View for TermFreq {
    type V = Seq<(Seq<char>, nat)>;

    closed spec fn view(&self) -> Seq<(Seq<char>, nat)> {
        self.entries@.map_values(|e: (String, usize)| (e.0@, e.1 as nat))
    }
}

impl TermFreq {
    pub open spec fn wf(&self) -> bool {
        table_wf(self@)
    }

    pub fn new() -> (t: TermFreq)
        ensures
            t@.len() == 0,
            t.wf(),
    {
        let t = TermFreq { entries: Vec::new() };
        proof {
            assert(t@ =~= Seq::<(Seq<char>, nat)>::empty());
        }
        t
    }

    /// Wraps raw entries as a table; nothing is checked, the view is exactly
    /// the given rows.
    pub fn from_entries(entries: Vec<(String, usize)>) -> (t: TermFreq)
        ensures
            t@ == entries@.map_values(|e: (String, usize)| (e.0@, e.1 as nat)),
    {
        TermFreq { entries }
    }

    /// Index of the entry for `t`, if there is one.
    fn index_of(&self, t: &String) -> (r: Option<usize>)
        ensures
            match r {
                Some(i) => i < self@.len() && self@[i as int].0 == t@,
                None => forall|i: int| 0 <= i < self@.len() ==> (#[trigger] self@[i]).0 != t@,
            },
    {
        let mut i: usize = 0;
        while i < self.entries.len()
            invariant
                i <= self.entries@.len(),
                forall|j: int| 0 <= j < i ==> (#[trigger] self@[j]).0 != t@,
            decreases self.entries@.len() - i,
        {
            if self.entries[i].0 == *t {
                return Some(i);
            }
            i = i + 1;
        }
        None
    }

    pub fn len(&self) -> (n: usize)
        ensures
            n as nat == self@.len(),
    {
        self.entries.len()
    }

    /// The entry at position `i`, as an owned pair.
    pub fn entry_at(&self, i: usize) -> (e: (String, usize))
        requires
            i < self@.len(),
        ensures
            (e.0@, e.1 as nat) == self@[i as int],
    {
        let key = self.entries[i].0.clone();
        let cnt = self.entries[i].1;
        (key, cnt)
    }

    /// The raw count of `t`, `0` when `t` has no entry.
    pub fn get(&self, t: &String) -> (c: usize)
        requires
            self.wf(),
        ensures
            c as nat == count_of(self@, t@),
    {
        match self.index_of(t) {
            Some(i) => {
                proof {
                    lemma_count_of_at(self@, i as int);
                }
                self.entries[i].1
            },
            None => {
                proof {
                    lemma_count_of_absent(self@, t@);
                }
                0
            },
        }
    }

    /// Adds one occurrence of `t`: its count grows by one (a missing entry
    /// counts as zero), every other count is unchanged, and the sum of all
    /// counts grows by one.
    pub fn increment(&mut self, t: &String)
        requires
            old(self).wf(),
            count_of(old(self)@, t@) < usize::MAX,
        ensures
            final(self).wf(),
            count_of(final(self)@, t@) == count_of(old(self)@, t@) + 1,
            forall|u: Seq<char>|
                u != t@ ==> count_of(final(self)@, u) == count_of(old(self)@, u),
            sum_counts(final(self)@) == sum_counts(old(self)@) + 1,
    {
        let ghost before = self@;
        match self.index_of(t) {
            Some(i) => {
                proof {
                    lemma_count_of_at(before, i as int);
                }
                let key = self.entries[i].0.clone();
                let cnt = self.entries[i].1;
                self.entries.set(i, (key, cnt + 1));
                proof {
                    assert(self@ =~= before.update(i as int, (before[i as int].0, (cnt + 1) as nat)));
                    lemma_count_of_update(before, i as int, (cnt + 1) as nat);
                    assert forall|a: int, b: int| 0 <= a < b < self@.len() implies self@[a].0
                        != self@[b].0 by {
                        assert(self@[a].0 == before[a].0);
                        assert(self@[b].0 == before[b].0);
                    }
                }
            },
            None => {
                proof {
                    lemma_count_of_absent(before, t@);
                }
                self.entries.push((t.clone(), 1));
                proof {
                    assert(self@ =~= before.push((t@, 1nat)));
                    assert(self@.drop_last() =~= before);
                    assert forall|u: Seq<char>| u != t@ implies count_of(self@, u) == count_of(
                        before,
                        u,
                    ) by {
                        assert(count_of(self@, u) == count_of(self@.drop_last(), u));
                    }
                }
            },
        }
    }
}

/// The view of one indexed document: its key, its total term count, and its
/// term-to-count table.
pub struct DocEntry {
    path: String,
    term_count: usize,
    tf: TermFreq,
}

impl View for DocEntry {
    type V = (Seq<char>, nat, Seq<(Seq<char>, nat)>);

    closed spec fn view(&self) -> (Seq<char>, nat, Seq<(Seq<char>, nat)>) {
        (self.path@, self.term_count as nat, self.tf@)
    }
}

impl DocEntry {
    pub fn path(&self) -> (p: &String)
        ensures
            p@ == self@.0,
    {
        &self.path
    }

    pub fn term_count(&self) -> (n: usize)
        ensures
            n as nat == self@.1,
    {
        self.term_count
    }

    pub fn counts(&self) -> (t: &TermFreq)
        ensures
            t@ == self@.2,
    {
        &self.tf
    }

    fn path_is(&self, p: &String) -> (b: bool)
        ensures
            b == (self@.0 == p@),
    {
        self.path == *p
    }

    /// Assembles a document record from its parts.
    pub fn assemble(path: String, term_count: usize, tf: TermFreq) -> (d: DocEntry)
        ensures
            d@ == (path@, term_count as nat, tf@),
    {
        DocEntry { path, term_count, tf }
    }
}

/// How many documents contain `t` at least once.
pub open spec fn docs_with_term(
    docs: Seq<(Seq<char>, nat, Seq<(Seq<char>, nat)>)>,
    t: Seq<char>,
) -> nat
    decreases docs.len(),
{
    if docs.len() == 0 {
        0
    } else {
        docs_with_term(docs.drop_last(), t) + if count_of(docs.last().2, t) > 0 {
            1nat
        } else {
            0nat
        }
    }
}

pub proof fn lemma_docs_with_term_le(
    docs: Seq<(Seq<char>, nat, Seq<(Seq<char>, nat)>)>,
    t: Seq<char>,
)
    ensures
        docs_with_term(docs, t) <= docs.len(),
    decreases docs.len(),
{
    if docs.len() > 0 {
        lemma_docs_with_term_le(docs.drop_last(), t);
    }
}

/// A term occurring in some document is contained in at least one document,
/// and conversely.
pub proof fn lemma_docs_with_term_positive(
    docs: Seq<(Seq<char>, nat, Seq<(Seq<char>, nat)>)>,
    t: Seq<char>,
)
    ensures
        docs_with_term(docs, t) > 0 <==> exists|i: int|
            0 <= i < docs.len() && count_of((#[trigger] docs[i]).2, t) > 0,
    decreases docs.len(),
{
    if docs.len() > 0 {
        lemma_docs_with_term_positive(docs.drop_last(), t);
        if count_of(docs.last().2, t) > 0 {
            assert(count_of(docs[docs.len() - 1].2, t) > 0);
        } else if docs_with_term(docs, t) > 0 {
            let i = choose|i: int|
                0 <= i < docs.drop_last().len() && count_of(
                    (#[trigger] docs.drop_last()[i]).2,
                    t,
                ) > 0;
            assert(count_of(docs[i].2, t) > 0);
        } else if exists|i: int|
            0 <= i < docs.len() && count_of((#[trigger] docs[i]).2, t) > 0 {
            let i = choose|i: int|
                0 <= i < docs.len() && count_of((#[trigger] docs[i]).2, t) > 0;
            assert(i < docs.len() - 1);
            assert(count_of(docs.drop_last()[i].2, t) > 0);
        }
    }
}

/// Tokenizes `content` and counts every term: the table maps each term to its
/// number of occurrences, and the second component is the total number of
/// terms.
pub fn count_terms(content: &[char]) -> (r: (TermFreq, usize))
    ensures
        r.0.wf(),
        forall|t: Seq<char>| #[trigger] count_of(r.0@, t) == occ_count(tokens_of(content@), t),
        r.1 as nat == tokens_of(content@).len(),
        sum_counts(r.0@) == tokens_of(content@).len(),
{
    let ghost total = tokens_of(content@);
    let clen = content.len();
    let mut lexer = Lexer::new(content);
    let mut tf = TermFreq::new();
    let mut n: usize = 0;
    let ghost mut processed = Seq::<Seq<char>>::empty();
    proof {
        assert(processed + tokens_of(lexer@) =~= total);
        assert forall|t: Seq<char>| #[trigger] count_of(tf@, t) == occ_count(processed, t) by {
            lemma_count_of_absent(tf@, t);
        }
    }
    loop
        invariant_except_break
            tf.wf(),
            processed + tokens_of(lexer@) == total,
            n as nat == processed.len(),
            sum_counts(tf@) == processed.len(),
            forall|t: Seq<char>| #[trigger] count_of(tf@, t) == occ_count(processed, t),
            clen as nat == content@.len(),
            n + lexer@.len() <= clen,
        ensures
            tf.wf(),
            processed == total,
            n as nat == processed.len(),
            sum_counts(tf@) == processed.len(),
            forall|t: Seq<char>| #[trigger] count_of(tf@, t) == occ_count(processed, t),
        decreases lexer@.len(),
    {
        let ghost pre = lexer@;
        match lexer.next_token() {
            Some(tok) => {
                proof {
                    lemma_count_le_sum(tf@, tok@);
                }
                tf.increment(&tok);
                n = n + 1;
                proof {
                    let ghost prev = processed;
                    processed = processed.push(tok@);
                    assert(seq![tokens_of(pre)[0]] + tokens_of(pre).skip(1) =~= tokens_of(pre));
                    assert(processed + tokens_of(lexer@) =~= prev + tokens_of(pre));
                    assert forall|t: Seq<char>| #[trigger] count_of(tf@, t) == occ_count(
                        processed,
                        t,
                    ) by {
                        lemma_occ_push(prev, tok@, t);
                    }
                }
            },
            None => {
                proof {
                    assert(processed =~= total);
                }
                break ;
            },
        }
    }
    (tf, n)
}

/// The corpus invariant: document keys are unique, every per-document table
/// is well formed with its total equal to the sum of its counts, and the
/// document-frequency count of every term equals the number of documents
/// containing it.
pub open spec fn corpus_wf(
    docs: Seq<(Seq<char>, nat, Seq<(Seq<char>, nat)>)>,
    dfv: Seq<(Seq<char>, nat)>,
) -> bool {
    &&& (forall|i: int, j: int| 0 <= i < j < docs.len() ==> docs[i].0 != docs[j].0)
    &&& (forall|i: int| 0 <= i < docs.len() ==> table_wf((#[trigger] docs[i]).2))
    &&& (forall|i: int|
        0 <= i < docs.len() ==> (#[trigger] docs[i]).1 == sum_counts(docs[i].2))
    &&& table_wf(dfv)
    &&& (forall|t: Seq<char>| #[trigger] count_of(dfv, t) == docs_with_term(docs, t))
}

/// The in-memory corpus: the indexed documents and the corpus-wide document
/// frequencies.
pub struct InMemoryModel {
    tfpd: Vec<DocEntry>,
    df: DocFreq,
}

impl InMemoryModel {
    /// The indexed documents, in insertion order.
    pub closed spec fn docs(&self) -> Seq<(Seq<char>, nat, Seq<(Seq<char>, nat)>)> {
        self.tfpd@.map_values(|d: DocEntry| d@)
    }

    /// The document-frequency table.
    pub closed spec fn doc_freqs(&self) -> Seq<(Seq<char>, nat)> {
        self.df@
    }

    pub open spec fn contains_path(&self, p: Seq<char>) -> bool {
        exists|i: int| 0 <= i < self.docs().len() && (#[trigger] self.docs()[i]).0 == p
    }

    /// The corpus invariant, over this model's views.
    pub open spec fn wf(&self) -> bool {
        corpus_wf(self.docs(), self.doc_freqs())
    }

    /// Assembles a corpus from its parts, as a persistence adapter
    /// reconstructs it; the parts must satisfy the corpus invariant.
    pub fn assemble(tfpd: Vec<DocEntry>, df: DocFreq) -> (m: InMemoryModel)
        requires
            corpus_wf(tfpd@.map_values(|d: DocEntry| d@), df@),
        ensures
            m.wf(),
            m.docs() == tfpd@.map_values(|d: DocEntry| d@),
            m.doc_freqs() == df@,
    {
        InMemoryModel { tfpd, df }
    }

    /// The number of indexed documents (the `N` of inverse document
    /// frequency).
    pub fn document_count(&self) -> (n: usize)
        ensures
            n as nat == self.docs().len(),
    {
        self.tfpd.len()
    }

    /// A read-only view of one indexed document.
    pub fn doc_at(&self, i: usize) -> (d: &DocEntry)
        requires
            i < self.docs().len(),
        ensures
            d@ == self.docs()[i as int],
    {
        &self.tfpd[i]
    }

    /// A read-only view of the document-frequency table.
    pub fn doc_freq_table(&self) -> (t: &DocFreq)
        ensures
            t@ == self.doc_freqs(),
    {
        &self.df
    }

    /// Indexes one document under a fresh key.
    ///
    /// On success the document's terms are counted (`count_of` of the new
    /// table equals the number of occurrences of each term), and the
    /// document frequency of every term the document contains grows by
    /// exactly one, however often the term occurs. A key already indexed is
    /// rejected and the model is unchanged.
    pub fn add_document(&mut self, path: String, content: &[char]) -> (r: Result<(), ()>)
        requires
            old(self).wf(),
        ensures
            final(self).wf(),
            r is Ok <==> !old(self).contains_path(path@),
            r is Err ==> final(self).docs() == old(self).docs() && final(self).doc_freqs() == old(
                self,
            ).doc_freqs(),
            r is Ok ==> {
                let toks = tokens_of(content@);
                &&& final(self).docs().len() == old(self).docs().len() + 1
                &&& (forall|i: int|
                    0 <= i < old(self).docs().len() ==> final(self).docs()[i] == old(
                        self,
                    ).docs()[i])
                &&& final(self).docs().last().0 == path@
                &&& final(self).docs().last().1 == toks.len()
                &&& (forall|t: Seq<char>|
                    #[trigger] count_of(final(self).docs().last().2, t) == occ_count(toks, t))
                &&& (forall|t: Seq<char>|
                    #[trigger] count_of(final(self).doc_freqs(), t) == count_of(
                        old(self).doc_freqs(),
                        t,
                    ) + (if occ_count(toks, t) > 0 {
                        1nat
                    } else {
                        0nat
                    }))
            },
    {
        let ghost toks = tokens_of(content@);
        let mut i: usize = 0;
        while i < self.tfpd.len()
            invariant
                old(self).wf(),
                self.docs() == old(self).docs(),
                self.doc_freqs() == old(self).doc_freqs(),
                i <= self.tfpd@.len(),
                forall|j: int| 0 <= j < i ==> (#[trigger] self.docs()[j]).0 != path@,
            decreases self.tfpd@.len() - i,
        {
            if self.tfpd[i].path_is(&path) {
                proof {
                    assert(0 <= i < old(self).docs().len() && old(self).docs()[i as int].0
                        == path@);
                }
                return Err(());
            }
            i = i + 1;
        }
        let ghost docs0 = self.docs();
        let ghost df0 = self.df@;
        let (tf, n) = count_terms(content);
        let ghost tfv = tf@;
        let entry = DocEntry { path, term_count: n, tf };
        let ghost ev = entry@;
        self.tfpd.push(entry);
        proof {
            assert(self.docs() =~= docs0.push(ev));
        }
        let m = self.tfpd.len();
        let nkeys = self.tfpd[m - 1].counts().len();
        let mut k: usize = 0;
        while k < nkeys
            invariant
                self.docs() == docs0.push(ev),
                1 <= m,
                m == self.tfpd@.len(),
                m == docs0.len() + 1,
                ev.2 == tfv,
                table_wf(tfv),
                nkeys as nat == tfv.len(),
                k <= nkeys,
                table_wf(self.df@),
                forall|t: Seq<char>|
                    #[trigger] count_of(self.df@, t) == count_of(df0, t) + (if (exists|j: int|
                        0 <= j < k && (#[trigger] tfv[j]).0 == t) {
                        1nat
                    } else {
                        0nat
                    }),
                forall|t: Seq<char>| #[trigger] count_of(df0, t) == docs_with_term(docs0, t),
            decreases nkeys - k,
        {
            proof {
                assert(self.docs()[m as int - 1] == ev);
            }
            let e = self.tfpd[m - 1].counts().entry_at(k);
            proof {
                assert((e.0@, e.1 as nat) == tfv[k as int]);
                assert(!(exists|j: int| 0 <= j < k && (#[trigger] tfv[j]).0 == e.0@));
                lemma_docs_with_term_le(docs0, e.0@);
                assert(count_of(self.df@, e.0@) < m);
            }
            self.df.increment(&e.0);
            k = k + 1;
            proof {
                assert forall|t: Seq<char>| #[trigger] count_of(self.df@, t) == count_of(df0, t)
                    + (if (exists|j: int| 0 <= j < k && (#[trigger] tfv[j]).0 == t) {
                    1nat
                } else {
                    0nat
                }) by {
                    if t == tfv[k - 1].0 {
                        assert(tfv[k - 1].0 == t);
                    } else {
                        assert((exists|j: int| 0 <= j < k && (#[trigger] tfv[j]).0 == t)
                            <==> (exists|j: int| 0 <= j < k - 1 && (#[trigger] tfv[j]).0 == t));
                    }
                }
            }
        }
        proof {
            assert(self.docs().drop_last() =~= docs0);
            assert(self.docs().last() == ev);
            assert forall|t: Seq<char>| (exists|j: int|
                0 <= j < tfv.len() && (#[trigger] tfv[j]).0 == t) <==> count_of(tfv, t) > 0 by {
                if exists|j: int| 0 <= j < tfv.len() && (#[trigger] tfv[j]).0 == t {
                    let j = choose|j: int| 0 <= j < tfv.len() && (#[trigger] tfv[j]).0 == t;
                    lemma_count_of_at(tfv, j);
                } else if count_of(tfv, t) > 0 {
                    lemma_count_positive_implies_present(tfv, t);
                }
            }
            assert forall|t: Seq<char>| #[trigger] count_of(self.doc_freqs(), t) == docs_with_term(
                self.docs(),
                t,
            ) by {
                assert(docs_with_term(self.docs(), t) == docs_with_term(docs0, t) + if count_of(
                    ev.2,
                    t,
                ) > 0 {
                    1nat
                } else {
                    0nat
                });
            }
            assert forall|a: int, b: int| 0 <= a < b < self.docs().len() implies self.docs()[a].0
                != self.docs()[b].0 by {
                if b < docs0.len() {
                    assert(docs0[a].0 != docs0[b].0);
                }
            }
        }
        Ok(())
    }
}

impl Default for InMemoryModel {
    /// An empty corpus: no documents, no document frequencies.
    fn default() -> (m: InMemoryModel)
        ensures
            m.wf(),
            m.docs().len() == 0,
            m.doc_freqs().len() == 0,
    {
        let m = InMemoryModel { tfpd: Vec::new(), df: TermFreq::new() };
        proof {
            assert(m.docs() =~= Seq::<(Seq<char>, nat, Seq<(Seq<char>, nat)>)>::empty());
            assert forall|t: Seq<char>| #[trigger] count_of(m.doc_freqs(), t) == docs_with_term(
                m.docs(),
                t,
            ) by {
                lemma_count_of_absent(m.doc_freqs(), t);
            }
        }
        m
    }
}

} // verus!
