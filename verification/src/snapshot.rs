//! The persisted form of a corpus.
//!
//! A snapshot holds plain rows: one row per document with its key, its total
//! term count and its term rows, and one row per corpus-wide document
//! frequency. Taking a snapshot of a well-formed corpus and reconstructing
//! from it yields exactly the original views; reconstruction validates an
//! untrusted snapshot and accepts it exactly when its rows satisfy the
//! corpus invariant. A persistence adapter only has to move the rows to and
//! from its medium unchanged.
use vstd::prelude::*;

use crate::model::DocEntry;
use crate::model::InMemoryModel;
use crate::model::TermFreq;
use crate::model::corpus_wf;
use crate::model::count_of;
use crate::model::docs_with_term;
use crate::model::lemma_count_of_at;
use crate::model::lemma_count_positive_implies_present;
use crate::model::lemma_docs_with_term_le;
use crate::model::lemma_docs_with_term_positive;
use crate::model::sum_counts;
use crate::model::table_wf;

verus! {

/// The persisted rows of a corpus.
pub struct Snapshot {
    /// One row per document: key, total term count, and term rows.
    pub docs: Vec<(String, usize, Vec<(String, usize)>)>,
    /// One row per term the corpus has seen: term and document frequency.
    pub doc_freqs: Vec<(String, usize)>,
}

/// The view of term rows, as a table view.
pub open spec fn rows_view(rows: Seq<(String, usize)>) -> Seq<(Seq<char>, nat)> {
    rows.map_values(|e: (String, usize)| (e.0@, e.1 as nat))
}

/// The view of document rows, as document views.
pub open spec fn doc_rows_view(rows: Seq<(String, usize, Vec<(String, usize)>)>) -> Seq<
    (Seq<char>, nat, Seq<(Seq<char>, nat)>),
> {
    rows.map_values(
        |d: (String, usize, Vec<(String, usize)>)| (d.0@, d.1 as nat, rows_view(d.2@)),
    )
}

impl Snapshot {
    pub open spec fn docs_view(&self) -> Seq<(Seq<char>, nat, Seq<(Seq<char>, nat)>)> {
        doc_rows_view(self.docs@)
    }

    pub open spec fn doc_freqs_view(&self) -> Seq<(Seq<char>, nat)> {
        rows_view(self.doc_freqs@)
    }
}

/// The rows of a table, in table order.
fn table_rows(t: &TermFreq) -> (rows: Vec<(String, usize)>)
    ensures
        rows_view(rows@) == t@,
{
    let mut rows: Vec<(String, usize)> = Vec::new();
    let len = t.len();
    let mut i: usize = 0;
    proof {
        assert(rows_view(rows@) =~= t@.take(0));
    }
    while i < len
        invariant
            len as nat == t@.len(),
            i <= len,
            rows_view(rows@) == t@.take(i as int),
        decreases len - i,
    {
        let e = t.entry_at(i);
        let ghost before = rows_view(rows@);
        rows.push(e);
        proof {
            assert(rows_view(rows@) =~= before.push(t@[i as int]));
            assert(t@.take(i as int + 1) =~= t@.take(i as int).push(t@[i as int]));
        }
        i = i + 1;
    }
    proof {
        assert(t@.take(len as int) =~= t@);
    }
    rows
}

fn clone_rows(rows: &Vec<(String, usize)>) -> (r: Vec<(String, usize)>)
    ensures
        r@ == rows@,
{
    let mut r: Vec<(String, usize)> = Vec::new();
    let mut i: usize = 0;
    proof {
        assert(r@ =~= rows@.take(0));
    }
    while i < rows.len()
        invariant
            i <= rows@.len(),
            r@ == rows@.take(i as int),
        decreases rows@.len() - i,
    {
        let key = rows[i].0.clone();
        let cnt = rows[i].1;
        r.push((key, cnt));
        proof {
            assert(rows@.take(i as int + 1) =~= rows@.take(i as int).push(rows@[i as int]));
        }
        i = i + 1;
    }
    proof {
        assert(rows@.take(rows@.len() as int) =~= rows@);
    }
    r
}

/// Whether a table has unique keys and positive counts.
fn check_table(t: &TermFreq) -> (b: bool)
    ensures
        b == table_wf(t@),
{
    let len = t.len();
    let mut i: usize = 0;
    while i < len
        invariant
            len as nat == t@.len(),
            i <= len,
            forall|a: int, c: int| 0 <= a < c < t@.len() && a < i ==> t@[a].0 != t@[c].0,
            forall|a: int| 0 <= a < i ==> (#[trigger] t@[a]).1 >= 1,
        decreases len - i,
    {
        let ei = t.entry_at(i);
        if ei.1 == 0 {
            proof {
                assert(t@[i as int].1 == 0);
            }
            return false;
        }
        let mut j: usize = i + 1;
        while j < len
            invariant
                len as nat == t@.len(),
                i < len,
                i < j <= len,
                (ei.0@, ei.1 as nat) == t@[i as int],
                forall|c: int| i < c < j ==> t@[i as int].0 != (#[trigger] t@[c]).0,
            decreases len - j,
        {
            let ej = t.entry_at(j);
            if ei.0 == ej.0 {
                proof {
                    assert(t@[i as int].0 == t@[j as int].0);
                }
                return false;
            }
            j = j + 1;
        }
        i = i + 1;
    }
    true
}

proof fn lemma_sum_take_le(entries: Seq<(Seq<char>, nat)>, i: int)
    requires
        0 <= i <= entries.len(),
    ensures
        sum_counts(entries.take(i)) <= sum_counts(entries),
    decreases entries.len() - i,
{
    if i < entries.len() {
        lemma_sum_take_le(entries, i + 1);
        assert(entries.take(i + 1).drop_last() =~= entries.take(i));
        assert(sum_counts(entries.take(i + 1)) == sum_counts(entries.take(i)) + entries[i].1);
    } else {
        assert(entries.take(i) =~= entries);
    }
}

/// The sum of a table's counts, or `None` when it does not fit a `usize`.
fn sum_table(t: &TermFreq) -> (r: Option<usize>)
    ensures
        match r {
            Some(v) => v as nat == sum_counts(t@),
            None => sum_counts(t@) > usize::MAX,
        },
{
    let len = t.len();
    let mut acc: usize = 0;
    let mut i: usize = 0;
    proof {
        assert(t@.take(0) =~= Seq::<(Seq<char>, nat)>::empty());
    }
    while i < len
        invariant
            len as nat == t@.len(),
            i <= len,
            acc as nat == sum_counts(t@.take(i as int)),
        decreases len - i,
    {
        let e = t.entry_at(i);
        proof {
            assert(t@.take(i as int + 1).drop_last() =~= t@.take(i as int));
            assert(t@.take(i as int + 1).last() == t@[i as int]);
        }
        match acc.checked_add(e.1) {
            Some(v) => {
                acc = v;
            },
            None => {
                proof {
                    lemma_sum_take_le(t@, i as int + 1);
                }
                return None;
            },
        }
        i = i + 1;
    }
    proof {
        assert(t@.take(len as int) =~= t@);
    }
    Some(acc)
}

/// How many of the given documents contain `t`.
fn docs_containing(docs: &Vec<DocEntry>, t: &String) -> (c: usize)
    requires
        forall|i: int| 0 <= i < docs@.len() ==> table_wf((#[trigger] docs@[i])@.2),
    ensures
        c as nat == docs_with_term(docs@.map_values(|d: DocEntry| d@), t@),
{
    let ghost dv = docs@.map_values(|d: DocEntry| d@);
    let mut c: usize = 0;
    let mut i: usize = 0;
    proof {
        assert(dv.take(0) =~= Seq::<(Seq<char>, nat, Seq<(Seq<char>, nat)>)>::empty());
    }
    while i < docs.len()
        invariant
            dv == docs@.map_values(|d: DocEntry| d@),
            forall|k: int| 0 <= k < docs@.len() ==> table_wf((#[trigger] docs@[k])@.2),
            i <= docs@.len(),
            c as nat == docs_with_term(dv.take(i as int), t@),
        decreases docs@.len() - i,
    {
        proof {
            lemma_docs_with_term_le(dv.take(i as int), t@);
            assert(dv.take(i as int + 1).drop_last() =~= dv.take(i as int));
            assert(dv.take(i as int + 1).last() == dv[i as int]);
        }
        let cnt = docs[i].counts().get(t);
        if cnt > 0 {
            c = c + 1;
        }
        i = i + 1;
    }
    proof {
        assert(dv.take(docs@.len() as int) =~= dv);
    }
    c
}

impl InMemoryModel {
    /// The persisted rows of this corpus: exactly its document views and its
    /// document-frequency view.
    pub fn to_snapshot(&self) -> (s: Snapshot)
        ensures
            s.docs_view() == self.docs(),
            s.doc_freqs_view() == self.doc_freqs(),
    {
        let mut docs: Vec<(String, usize, Vec<(String, usize)>)> = Vec::new();
        let total = self.document_count();
        let mut i: usize = 0;
        proof {
            assert(doc_rows_view(docs@) =~= self.docs().take(0));
        }
        while i < total
            invariant
                total as nat == self.docs().len(),
                i <= total,
                doc_rows_view(docs@) == self.docs().take(i as int),
            decreases total - i,
        {
            let d = self.doc_at(i);
            let rows = table_rows(d.counts());
            let ghost before = doc_rows_view(docs@);
            docs.push((d.path().clone(), d.term_count(), rows));
            proof {
                assert(doc_rows_view(docs@) =~= before.push(self.docs()[i as int]));
                assert(self.docs().take(i as int + 1) =~= self.docs().take(i as int).push(
                    self.docs()[i as int],
                ));
            }
            i = i + 1;
        }
        let doc_freqs = table_rows(self.doc_freq_table());
        proof {
            assert(self.docs().take(total as int) =~= self.docs());
        }
        Snapshot { docs, doc_freqs }
    }
}

/// Reconstructs a corpus from untrusted rows.
///
/// The result is `Ok` exactly when the rows satisfy the corpus invariant
/// (unique keys, positive counts, totals equal to the sums, document
/// frequencies counting exactly the containing documents); the reconstructed
/// corpus then carries exactly the snapshot's views. Composed with
/// `to_snapshot` this is the round trip: a snapshot of a well-formed corpus
/// is accepted and reproduces the corpus exactly.
pub fn from_snapshot(s: &Snapshot) -> (r: Result<InMemoryModel, ()>)
    ensures
        r is Ok <==> corpus_wf(s.docs_view(), s.doc_freqs_view()),
        match r {
            Ok(m) => m.wf() && m.docs() == s.docs_view() && m.doc_freqs() == s.doc_freqs_view(),
            Err(()) => true,
        },
{
    let ghost dv = s.docs_view();
    let ghost fv = s.doc_freqs_view();
    let df = TermFreq::from_entries(clone_rows(&s.doc_freqs));
    proof {
        assert(df@ =~= fv);
    }
    if !check_table(&df) {
        return Err(());
    }
    let ndocs = s.docs.len();
    let mut entries: Vec<DocEntry> = Vec::new();
    let mut i: usize = 0;
    proof {
        assert(entries@.map_values(|d: DocEntry| d@) =~= dv.take(0));
    }
    while i < ndocs
        invariant
            ndocs as nat == s.docs@.len(),
            dv == s.docs_view(),
            i <= ndocs,
            entries@.map_values(|d: DocEntry| d@) == dv.take(i as int),
            forall|a: int| 0 <= a < i ==> table_wf((#[trigger] dv[a]).2),
            forall|a: int| 0 <= a < i ==> (#[trigger] dv[a]).1 == sum_counts(dv[a].2),
        decreases ndocs - i,
    {
        let tf = TermFreq::from_entries(clone_rows(&s.docs[i].2));
        proof {
            assert(tf@ =~= dv[i as int].2);
        }
        if !check_table(&tf) {
            return Err(());
        }
        match sum_table(&tf) {
            Some(total) => {
                if total != s.docs[i].1 {
                    proof {
                        assert(dv[i as int].1 != sum_counts(dv[i as int].2));
                    }
                    return Err(());
                }
            },
            None => {
                proof {
                    assert(dv[i as int].1 != sum_counts(dv[i as int].2));
                }
                return Err(());
            },
        }
        let path = s.docs[i].0.clone();
        let total_count = s.docs[i].1;
        let ghost before = entries@.map_values(|d: DocEntry| d@);
        entries.push(DocEntry::assemble(path, total_count, tf));
        proof {
            assert(entries@.map_values(|d: DocEntry| d@) =~= before.push(dv[i as int]));
            assert(dv.take(i as int + 1) =~= dv.take(i as int).push(dv[i as int]));
        }
        i = i + 1;
    }
    proof {
        assert(dv.take(ndocs as int) =~= dv);
    }
    // document keys must be unique
    let mut a: usize = 0;
    while a < ndocs
        invariant
            ndocs as nat == s.docs@.len(),
            dv == s.docs_view(),
            a <= ndocs,
            forall|p: int, q: int| 0 <= p < q < dv.len() && p < a ==> dv[p].0 != dv[q].0,
        decreases ndocs - a,
    {
        let mut b: usize = a + 1;
        while b < ndocs
            invariant
                ndocs as nat == s.docs@.len(),
                dv == s.docs_view(),
                a < b <= ndocs,
                forall|q: int| a < q < b ==> dv[a as int].0 != (#[trigger] dv[q]).0,
            decreases ndocs - b,
        {
            if s.docs[a].0 == s.docs[b].0 {
                proof {
                    assert(dv[a as int].0 == dv[b as int].0);
                }
                return Err(());
            }
            b = b + 1;
        }
        a = a + 1;
    }
    // every stored document frequency must count exactly the containing
    // documents
    let nterms = df.len();
    let mut k: usize = 0;
    while k < nterms
        invariant
            nterms as nat == fv.len(),
            fv == s.doc_freqs_view(),
            dv == s.docs_view(),
            df@ == fv,
            table_wf(fv),
            entries@.map_values(|d: DocEntry| d@) == dv,
            forall|p: int| 0 <= p < dv.len() ==> table_wf((#[trigger] dv[p]).2),
            k <= nterms,
            forall|q: int|
                0 <= q < k ==> (#[trigger] fv[q]).1 == docs_with_term(dv, fv[q].0),
        decreases nterms - k,
    {
        let e = df.entry_at(k);
        proof {
            assert forall|x: int|
                0 <= x < entries@.len() implies table_wf((#[trigger] entries@[x])@.2) by {
                assert(entries@[x]@ == dv[x]);
            }
        }
        let c = docs_containing(&entries, &e.0);
        if c != e.1 {
            proof {
                lemma_count_of_at(fv, k as int);
                assert(count_of(fv, fv[k as int].0) != docs_with_term(dv, fv[k as int].0));
            }
            return Err(());
        }
        k = k + 1;
    }
    // every term contained in some document must have a stored frequency
    let mut p: usize = 0;
    while p < ndocs
        invariant
            ndocs as nat == dv.len(),
            fv == s.doc_freqs_view(),
            dv == s.docs_view(),
            df@ == fv,
            table_wf(fv),
            entries@.map_values(|d: DocEntry| d@) == dv,
            forall|x: int| 0 <= x < dv.len() ==> table_wf((#[trigger] dv[x]).2),
            p <= ndocs,
            forall|x: int, q: int|
                0 <= x < p && 0 <= q < dv[x].2.len() ==> count_of(
                    fv,
                    (#[trigger] dv[x].2[q]).0,
                ) > 0,
        decreases ndocs - p,
    {
        proof {
            assert(entries@[p as int]@ == dv[p as int]);
        }
        let tlen = entries[p].counts().len();
        let mut q: usize = 0;
        while q < tlen
            invariant
                ndocs as nat == dv.len(),
                fv == s.doc_freqs_view(),
                dv == s.docs_view(),
                df@ == fv,
                table_wf(fv),
                entries@.map_values(|d: DocEntry| d@) == dv,
                0 <= p < ndocs,
                entries@.len() == ndocs,
                table_wf(dv[p as int].2),
                tlen as nat == dv[p as int].2.len(),
                q <= tlen,
                forall|y: int|
                    0 <= y < q ==> count_of(fv, (#[trigger] dv[p as int].2[y]).0) > 0,
            decreases tlen - q,
        {
            proof {
                assert(entries@[p as int]@ == dv[p as int]);
            }
            let e = entries[p].counts().entry_at(q);
            if df.get(&e.0) == 0 {
                proof {
                    lemma_docs_with_term_positive(dv, e.0@);
                    assert(count_of(dv[p as int].2, e.0@) > 0) by {
                        lemma_count_of_at(dv[p as int].2, q as int);
                    }
                    assert(docs_with_term(dv, e.0@) > 0);
                    assert(!corpus_wf(dv, fv));
                }
                return Err(());
            }
            q = q + 1;
        }
        p = p + 1;
    }
    proof {
        assert forall|t: Seq<char>| #[trigger] count_of(fv, t) == docs_with_term(dv, t) by {
            if count_of(fv, t) > 0 {
                lemma_count_positive_implies_present(fv, t);
                let q = choose|q: int| 0 <= q < fv.len() && (#[trigger] fv[q]).0 == t;
                lemma_count_of_at(fv, q);
            } else {
                lemma_docs_with_term_positive(dv, t);
                if docs_with_term(dv, t) > 0 {
                    let x = choose|x: int|
                        0 <= x < dv.len() && count_of((#[trigger] dv[x]).2, t) > 0;
                    lemma_count_positive_implies_present(dv[x].2, t);
                    let y = choose|y: int|
                        0 <= y < dv[x].2.len() && (#[trigger] dv[x].2[y]).0 == t;
                    assert(count_of(fv, dv[x].2[y].0) > 0);
                }
            }
        }
        assert(corpus_wf(dv, fv));
    }
    Ok(InMemoryModel::assemble(entries, df))
}

} // verus!
