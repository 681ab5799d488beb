//! Score data extraction: everything the two ranking models read from the
//! store — counts, document frequencies, lengths — as exact integer data,
//! and the ordering of scored results.
use vstd::prelude::*;
use crate::{
    count_in, df_of, distinct_docs, doc_idx, has_doc, has_term, postings_of, term_idx,
    lemma_doc_idx_unique, lemma_term_idx_unique, wf_postings, wf_store, Index, Posting, StoreM,
    TermM,
};
use crate::preprocessing;

verus! {

/// The data the TF-IDF model reads for one term: the number of terms in
/// the index, the term's document frequency, and its posting list.
pub struct TermStats {
    pub n_terms: usize,
    pub df: usize,
    pub rows: Vec<Posting>,
}

/// One query term's contribution to one document: the occurrence count
/// and the term's document frequency.
pub struct ScorePart {
    pub count: usize,
    pub df: usize,
}

impl View for ScorePart {
    type V = (nat, nat);

    open spec fn view(&self) -> (nat, nat) {
        (self.count as nat, self.df as nat)
    }
}

impl DeepView for ScorePart {
    type V = (nat, nat);

    open spec fn deep_view(&self) -> (nat, nat) {
        self@
    }
}

/// The data the TF-IDF model reads for one matching document.
pub struct RankEntry {
    pub doc_id: usize,
    pub length: usize,
    pub parts: Vec<ScorePart>,
}

/// Ghost model of a rank entry.
#[verifier::ext_equal]
pub ghost struct RankEntryM {
    pub doc_id: nat,
    pub length: nat,
    pub parts: Seq<(nat, nat)>,
}

impl View for RankEntry {
    type V = RankEntryM;

    open spec fn view(&self) -> RankEntryM {
        RankEntryM {
            doc_id: self.doc_id as nat,
            length: self.length as nat,
            parts: self.parts.deep_view(),
        }
    }
}

/// The data the TF-IDF model reads for a whole query.
pub struct RankData {
    pub n_terms: usize,
    pub entries: Vec<RankEntry>,
}

/// The data the BM25 model reads for one matching document: the count of
/// the first query term that touches it, and the document's length.
pub struct Bm25Row {
    pub doc_id: usize,
    pub tf: usize,
    pub length: usize,
}

/// The data the BM25 model reads for a whole query.
pub struct Bm25Data {
    pub n_docs: usize,
    pub rows: Vec<Bm25Row>,
    pub dfs: Vec<usize>,
}

/// The per-term contributions that the TF-IDF model accumulates for
/// document `d` over the query `qs`, in query order: one pair of
/// (occurrence count, document frequency) for each query term the
/// document contains; absent terms contribute nothing.
pub open spec fn parts_of(ts: Seq<TermM>, qs: Seq<Seq<char>>, d: nat) -> Seq<(nat, nat)>
    decreases qs.len(),
{
    if qs.len() == 0 {
        Seq::empty()
    } else if count_in(ts, qs.last(), d) > 0 {
        parts_of(ts, qs.drop_last(), d).push((count_in(ts, qs.last(), d), df_of(ts, qs.last())))
    } else {
        parts_of(ts, qs.drop_last(), d)
    }
}

/// The count of the first query term in `qs` that document `d` contains,
/// if any: BM25's first-write-wins base component.
pub open spec fn first_hit(ts: Seq<TermM>, qs: Seq<Seq<char>>, d: nat) -> Option<nat>
    decreases qs.len(),
{
    if qs.len() == 0 {
        None
    } else if count_in(ts, qs[0], d) > 0 {
        Some(count_in(ts, qs[0], d))
    } else {
        first_hit(ts, qs.subrange(1, qs.len() as int), d)
    }
}

/// The document frequencies of the query terms the index holds, in query
/// order and with repeats; absent terms contribute nothing.
pub open spec fn present_dfs(ts: Seq<TermM>, qs: Seq<Seq<char>>) -> Seq<nat>
    decreases qs.len(),
{
    if qs.len() == 0 {
        Seq::empty()
    } else if df_of(ts, qs.last()) > 0 {
        present_dfs(ts, qs.drop_last()).push(df_of(ts, qs.last()))
    } else {
        present_dfs(ts, qs.drop_last())
    }
}

/// Extending a query on the right keeps an earlier first hit.
pub proof fn lemma_first_hit_push(ts: Seq<TermM>, qs: Seq<Seq<char>>, x: Seq<char>, d: nat)
    ensures
        first_hit(ts, qs.push(x), d) == if first_hit(ts, qs, d) is Some {
            first_hit(ts, qs, d)
        } else if count_in(ts, x, d) > 0 {
            Some(count_in(ts, x, d))
        } else {
            None::<nat>
        },
    decreases qs.len(),
{
    let q2 = qs.push(x);
    if qs.len() == 0 {
        assert(q2[0] == x);
        assert(q2.subrange(1, q2.len() as int) =~= Seq::<Seq<char>>::empty());
        assert(first_hit(ts, Seq::<Seq<char>>::empty(), d) is None);
    } else {
        assert(q2[0] == qs[0]);
        assert(q2.subrange(1, q2.len() as int) =~= qs.subrange(1, qs.len() as int).push(x));
        lemma_first_hit_push(ts, qs.subrange(1, qs.len() as int), x, d);
    }
}

/// A document that contains no query term is excluded by both models:
/// it gets no contribution at all.
pub proof fn lemma_unmatched_doc_excluded(ts: Seq<TermM>, qs: Seq<Seq<char>>, d: nat)
    requires
        forall|j: int| 0 <= j < qs.len() ==> count_in(ts, #[trigger] qs[j], d) == 0,
    ensures
        parts_of(ts, qs, d).len() == 0,
        first_hit(ts, qs, d) is None,
    decreases qs.len(),
{
    if qs.len() > 0 {
        assert(count_in(ts, qs[0], d) == 0);
        assert(count_in(ts, qs.last(), d) == 0);
        lemma_unmatched_doc_excluded(ts, qs.drop_last(), d);
        lemma_unmatched_doc_excluded_tail(ts, qs, d);
    }
}

proof fn lemma_unmatched_doc_excluded_tail(ts: Seq<TermM>, qs: Seq<Seq<char>>, d: nat)
    requires
        forall|j: int| 0 <= j < qs.len() ==> count_in(ts, #[trigger] qs[j], d) == 0,
    ensures
        first_hit(ts, qs, d) is None,
    decreases qs.len(),
{
    if qs.len() > 0 {
        assert(count_in(ts, qs[0], d) == 0);
        let q1 = qs.subrange(1, qs.len() as int);
        assert(forall|j: int| 0 <= j < q1.len() ==> count_in(ts, #[trigger] q1[j], d) == 0);
        lemma_unmatched_doc_excluded_tail(ts, q1, d);
    }
}

/// With a single document and a single query term that the index holds,
/// both ranking models score exactly one document: document zero gets a
/// contribution from each model.
pub proof fn lemma_single_doc_single_term(m: StoreM, t: Seq<char>)
    requires
        wf_store(m),
        m.docs.len() == 1,
        has_term(m.terms, t),
    ensures
        parts_of(m.terms, seq![t], 0).len() == 1,
        first_hit(m.terms, seq![t], 0) is Some,
        forall|d: nat| d != 0 ==> parts_of(m.terms, #[trigger] seq![t], d).len() == 0
            && first_hit(m.terms, seq![t], d) is None,
{
    let i = term_idx(m.terms, t);
    assert(0 <= i < m.terms.len() && m.terms[i].term == t);
    assert(wf_postings(m.terms[i].postings, m.docs.len()));
    let ps = postings_of(m.terms, t);
    assert(ps == m.terms[i].postings);
    assert(ps[0].0 < 1 && ps[0].1 >= 1);
    assert(distinct_docs(ps));
    lemma_doc_idx_unique(ps, 0, 0);
    assert(count_in(m.terms, t, 0) == ps[0].1);
    let q = seq![t];
    assert(q.last() == t && q[0] == t);
    assert(q.drop_last() =~= Seq::<Seq<char>>::empty());
    assert(parts_of(m.terms, Seq::<Seq<char>>::empty(), 0).len() == 0);
    assert(parts_of(m.terms, q, 0).len() == 1);
    assert(first_hit(m.terms, q, 0) is Some);
    assert forall|d: nat| d != 0 implies parts_of(m.terms, #[trigger] seq![t], d).len() == 0
        && first_hit(m.terms, seq![t], d) is None by {
        if has_doc(ps, d) {
            let a = doc_idx(ps, d);
            assert(ps[a].0 < 1);
            assert(false);
        }
        assert(count_in(m.terms, t, d) == 0);
        assert(forall|j: int| 0 <= j < q.len() ==> count_in(m.terms, #[trigger] q[j], d) == 0);
        lemma_unmatched_doc_excluded(m.terms, q, d);
    }
}

impl Index {
    /// The document frequency of `term`: the size of its posting list,
    /// zero when the term is absent.
    pub fn term_df(&self, term: &String) -> (df: usize)
        requires
            self.wf(),
        ensures
            df as nat == df_of(self@.terms, term@),
    {
        let ghost ts = self@.terms;
        let mut found: bool = false;
        let mut at: usize = 0;
        let mut k: usize = 0;
        while k < self.index.len()
            invariant
                0 <= k <= self.index@.len(),
                ts == self@.terms,
                ts.len() == self.index@.len(),
                forall|k0: int| 0 <= k0 < ts.len()
                    ==> #[trigger] ts[k0].term == self.index@[k0].term@,
                !found ==> forall|k0: int| 0 <= k0 < k ==> #[trigger] ts[k0].term != term@,
                found ==> at < ts.len() && ts[at as int].term == term@,
            decreases self.index@.len() - k,
        {
            if !found && self.index[k].term == *term {
                found = true;
                at = k;
            }
            k = k + 1;
        }
        if found {
            proof {
                lemma_term_idx_unique(ts, term@, at as int);
            }
            self.index[at].postings.len()
        } else {
            proof {
                if has_term(ts, term@) {
                    let i = term_idx(ts, term@);
                    assert(ts[i].term == term@);
                    assert(false);
                }
            }
            0
        }
    }

    /// How often `term` occurs in the document with id `doc_id`, zero when
    /// either is absent.
    pub fn posting_count(&self, term: &String, doc_id: usize) -> (c: usize)
        requires
            self.wf(),
        ensures
            c as nat == count_in(self@.terms, term@, doc_id as nat),
    {
        let ghost ts = self@.terms;
        let mut found: bool = false;
        let mut at: usize = 0;
        let mut k: usize = 0;
        while k < self.index.len()
            invariant
                0 <= k <= self.index@.len(),
                ts == self@.terms,
                ts.len() == self.index@.len(),
                forall|k0: int| 0 <= k0 < ts.len()
                    ==> #[trigger] ts[k0].term == self.index@[k0].term@,
                !found ==> forall|k0: int| 0 <= k0 < k ==> #[trigger] ts[k0].term != term@,
                found ==> at < ts.len() && ts[at as int].term == term@,
            decreases self.index@.len() - k,
        {
            if !found && self.index[k].term == *term {
                found = true;
                at = k;
            }
            k = k + 1;
        }
        if !found {
            proof {
                if has_term(ts, term@) {
                    let i = term_idx(ts, term@);
                    assert(ts[i].term == term@);
                    assert(false);
                }
            }
            return 0;
        }
        proof {
            lemma_term_idx_unique(ts, term@, at as int);
        }
        let ghost ps = postings_of(ts, term@);
        proof {
            assert(wf_postings(ts[at as int].postings, self@.docs.len()));
            assert(distinct_docs(ps));
        }
        let entry = &self.index[at];
        let mut a: usize = 0;
        while a < entry.postings.len()
            invariant
                0 <= a <= entry.postings@.len(),
                at < self.index@.len(),
                at < ts.len(),
                ts.len() == self.index@.len(),
                *entry == self.index@[at as int],
                ts == self@.terms,
                ps == postings_of(ts, term@),
                ps == ts[at as int].postings,
                ts[at as int] == self.index@[at as int]@,
                ps.len() == entry.postings@.len(),
                distinct_docs(ps),
                forall|a0: int| 0 <= a0 < ps.len()
                    ==> #[trigger] ps[a0] == entry.postings@[a0]@,
                forall|a0: int| 0 <= a0 < a ==> #[trigger] ps[a0].0 != doc_id as nat,
            decreases entry.postings@.len() - a,
        {
            if entry.postings[a].doc_id == doc_id {
                proof {
                    lemma_doc_idx_unique(ps, doc_id as nat, a as int);
                }
                return entry.postings[a].count;
            }
            a = a + 1;
        }
        proof {
            if has_doc(ps, doc_id as nat) {
                let b = doc_idx(ps, doc_id as nat);
                assert(ps[b].0 == doc_id as nat);
                assert(false);
            }
        }
        0
    }

    /// The data the TF-IDF model reads for one term: how many terms the
    /// index holds, the term's document frequency, and a copy of its
    /// posting list (empty when the term is absent).
    pub fn cosine_stats(&self, term: &String) -> (r: TermStats)
        requires
            self.wf(),
        ensures
            r.n_terms == self@.terms.len(),
            r.df as nat == df_of(self@.terms, term@),
            r.rows.deep_view() == postings_of(self@.terms, term@),
            r.df as nat == r.rows.deep_view().len(),
    {
        let ghost ts = self@.terms;
        let mut found: bool = false;
        let mut at: usize = 0;
        let mut k: usize = 0;
        while k < self.index.len()
            invariant
                0 <= k <= self.index@.len(),
                ts == self@.terms,
                ts.len() == self.index@.len(),
                forall|k0: int| 0 <= k0 < ts.len()
                    ==> #[trigger] ts[k0].term == self.index@[k0].term@,
                !found ==> forall|k0: int| 0 <= k0 < k ==> #[trigger] ts[k0].term != term@,
                found ==> at < ts.len() && ts[at as int].term == term@,
            decreases self.index@.len() - k,
        {
            if !found && self.index[k].term == *term {
                found = true;
                at = k;
            }
            k = k + 1;
        }
        let n_terms = self.index.len();
        if found {
            proof {
                lemma_term_idx_unique(ts, term@, at as int);
            }
            let ghost ps = postings_of(ts, term@);
            let entry = &self.index[at];
            let mut rows: Vec<Posting> = Vec::new();
            let mut a: usize = 0;
            while a < entry.postings.len()
                invariant
                    0 <= a <= entry.postings@.len(),
                    at < self.index@.len(),
                    at < ts.len(),
                    ts.len() == self.index@.len(),
                    *entry == self.index@[at as int],
                    ps == ts[at as int].postings,
                    ts[at as int] == self.index@[at as int]@,
                    ps.len() == entry.postings@.len(),
                    forall|a0: int| 0 <= a0 < ps.len()
                        ==> #[trigger] ps[a0] == entry.postings@[a0]@,
                    rows@.len() == a as int,
                    rows.deep_view() == ps.take(a as int),
                decreases entry.postings@.len() - a,
            {
                let ghost rows0 = rows@;
                let ghost dv0 = rows.deep_view();
                rows.push(entry.postings[a]);
                proof {
                    assert(rows0.len() == a as int);
                    assert(rows@ == rows0.push(entry.postings@[a as int]));
                    assert(rows@[a as int] == entry.postings@[a as int]);
                    assert(ps[a as int] == entry.postings@[a as int]@);
                    assert(rows@[a as int].deep_view() == ps[a as int]);
                    assert forall|k: int| 0 <= k < a + 1 implies
                        #[trigger] rows.deep_view()[k] == ps.take(a + 1)[k] by {
                        assert(rows.deep_view()[k] == rows@[k].deep_view());
                        if k < a as int {
                            assert(rows@[k] == rows0[k]);
                            assert(dv0[k] == rows0[k].deep_view());
                            assert(dv0[k] == ps.take(a as int)[k]);
                            assert(ps.take(a as int)[k] == ps[k]);
                            assert(ps.take(a + 1)[k] == ps[k]);
                        }
                    }
                    assert(rows.deep_view().len() == a + 1);
                    assert(rows.deep_view() =~= ps.take(a + 1));
                }
                a = a + 1;
            }
            proof {
                assert(ps.take(ps.len() as int) =~= ps);
            }
            let df = rows.len();
            proof {
                assert(rows.deep_view().len() == rows@.len());
            }
            TermStats { n_terms, df, rows }
        } else {
            proof {
                if has_term(ts, term@) {
                    let i = term_idx(ts, term@);
                    assert(ts[i].term == term@);
                    assert(false);
                }
                assert(postings_of(ts, term@) =~= Seq::<(nat, nat)>::empty());
            }
            TermStats { n_terms, df: 0, rows: Vec::new() }
        }
    }
}


impl Index {
    /// Everything the TF-IDF cosine model reads for a query: for each
    /// document that contains at least one query term, that document's
    /// length and the (count, document frequency) pair of each query term
    /// it contains, in query order; plus the number of terms in the index.
    /// Documents come in ascending id order, and exactly the matching
    /// documents are listed.
    pub fn rank_data(&self, terms: &Vec<String>) -> (r: RankData)
        requires
            self.wf(),
        ensures
            r.n_terms == self@.terms.len(),
            forall|e: int| 0 <= e < r.entries@.len() ==> {
                let em = (#[trigger] r.entries@[e])@;
                &&& em.doc_id < self@.docs.len()
                &&& em.length == self@.docs[em.doc_id as int].length
                &&& em.parts == parts_of(self@.terms, terms.deep_view(), em.doc_id)
                &&& em.parts.len() > 0
            },
            forall|e1: int, e2: int| 0 <= e1 < e2 < r.entries@.len()
                ==> (#[trigger] r.entries@[e1]).doc_id < (#[trigger] r.entries@[e2]).doc_id,
            forall|d: nat| d < self@.docs.len()
                && (#[trigger] parts_of(self@.terms, terms.deep_view(), d)).len() > 0
                ==> exists|e: int| 0 <= e < r.entries@.len()
                    && (#[trigger] r.entries@[e]).doc_id as nat == d,
    {
        let ghost ts = self@.terms;
        let ghost qs = terms.deep_view();
        let n_terms = self.index.len();
        let mut entries: Vec<RankEntry> = Vec::new();
        let mut d: usize = 0;
        while d < self.documents.len()
            invariant
                self.wf(),
                ts == self@.terms,
                qs == terms.deep_view(),
                qs.len() == terms@.len(),
                ts.len() == self.index@.len(),
                0 <= d <= self.documents@.len(),
                self@.docs.len() == self.documents@.len(),
                forall|e: int| 0 <= e < entries@.len() ==> {
                    let em = (#[trigger] entries@[e])@;
                    &&& em.doc_id < d
                    &&& em.length == self@.docs[em.doc_id as int].length
                    &&& em.parts == parts_of(ts, qs, em.doc_id)
                    &&& em.parts.len() > 0
                },
                forall|e1: int, e2: int| 0 <= e1 < e2 < entries@.len()
                    ==> (#[trigger] entries@[e1]).doc_id < (#[trigger] entries@[e2]).doc_id,
                forall|d0: nat| d0 < d && (#[trigger] parts_of(ts, qs, d0)).len() > 0
                    ==> exists|e: int| 0 <= e < entries@.len()
                        && (#[trigger] entries@[e]).doc_id as nat == d0,
            decreases self.documents@.len() - d,
        {
            let mut parts: Vec<ScorePart> = Vec::new();
            let mut j: usize = 0;
            while j < terms.len()
                invariant
                    self.wf(),
                    ts == self@.terms,
                    qs == terms.deep_view(),
                    qs.len() == terms@.len(),
                    0 <= j <= terms@.len(),
                    parts@.len() == parts.deep_view().len(),
                    parts.deep_view() == parts_of(ts, qs.take(j as int), d as nat),
                decreases terms@.len() - j,
            {
                let ghost p0 = parts@;
                let ghost dv0 = parts.deep_view();
                proof {
                    assert(qs.take(j + 1).drop_last() =~= qs.take(j as int));
                    assert(qs.take(j + 1).last() == qs[j as int]);
                    assert(qs[j as int] == terms@[j as int]@);
                }
                let c = self.posting_count(&terms[j], d);
                if c > 0 {
                    let df = self.term_df(&terms[j]);
                    parts.push(ScorePart { count: c, df });
                    proof {
                        assert(parts@ == p0.push(ScorePart { count: c, df }));
                        assert(parts_of(ts, qs.take(j + 1), d as nat)
                            == parts_of(ts, qs.take(j as int), d as nat).push(
                                (c as nat, df as nat),
                            ));
                        assert forall|k: int| 0 <= k < parts@.len() implies
                            #[trigger] parts.deep_view()[k]
                                == parts_of(ts, qs.take(j + 1), d as nat)[k] by {
                            assert(parts.deep_view()[k] == parts@[k].deep_view());
                            if k < p0.len() {
                                assert(parts@[k] == p0[k]);
                                assert(dv0[k] == p0[k].deep_view());
                                assert(dv0[k] == parts_of(ts, qs.take(j as int), d as nat)[k]);
                            }
                        }
                        assert(parts.deep_view() =~= parts_of(ts, qs.take(j + 1), d as nat));
                    }
                } else {
                    proof {
                        assert(parts_of(ts, qs.take(j + 1), d as nat)
                            == parts_of(ts, qs.take(j as int), d as nat));
                    }
                }
                j = j + 1;
            }
            proof {
                assert(qs.take(terms@.len() as int) =~= qs);
                assert(parts.deep_view() == parts_of(ts, qs, d as nat));
            }
            let ghost es0 = entries@;
            if parts.len() > 0 {
                let length = self.documents[d].length;
                entries.push(RankEntry { doc_id: d, length, parts });
                proof {
                    assert(entries@[es0.len() as int]@.doc_id == d as nat);
                    assert(entries@[es0.len() as int]@.parts == parts_of(ts, qs, d as nat));
                    assert(self@.docs[d as int].length == length as nat);
                    assert forall|d0: nat| d0 < d + 1
                        && (#[trigger] parts_of(ts, qs, d0)).len() > 0 implies
                        exists|e: int| 0 <= e < entries@.len()
                            && (#[trigger] entries@[e]).doc_id as nat == d0 by {
                        if d0 < d as nat {
                            let e0 = choose|e0: int| 0 <= e0 < es0.len()
                                && (#[trigger] es0[e0]).doc_id as nat == d0;
                            assert(entries@[e0].doc_id as nat == d0);
                        } else {
                            assert(entries@[es0.len() as int].doc_id as nat == d0);
                        }
                    }
                }
            } else {
                proof {
                    assert(parts_of(ts, qs, d as nat).len() == 0);
                    assert forall|d0: nat| d0 < d + 1
                        && (#[trigger] parts_of(ts, qs, d0)).len() > 0 implies
                        exists|e: int| 0 <= e < entries@.len()
                            && (#[trigger] entries@[e]).doc_id as nat == d0 by {
                        assert(d0 < d as nat);
                        let e0 = choose|e0: int| 0 <= e0 < es0.len()
                            && (#[trigger] es0[e0]).doc_id as nat == d0;
                        assert(entries@[e0].doc_id as nat == d0);
                    }
                }
            }
            d = d + 1;
        }
        RankData { n_terms, entries }
    }

    /// Everything the BM25 model reads for a query: the document count,
    /// the document frequency of each query token the index holds (in
    /// query order, repeats kept), and for each document that contains
    /// some query token, the count of the first such token and the
    /// document's length. Documents come in ascending id order, and
    /// exactly the matching documents are listed.
    pub fn bm25_data(&self, query: &str) -> (r: Bm25Data)
        requires
            self.wf(),
        ensures
            r.n_docs == self@.docs.len(),
            r.dfs@.map_values(|x: usize| x as nat)
                == present_dfs(self@.terms, preprocessing::spec_tokens(query@)),
            forall|i: int| 0 <= i < r.rows@.len() ==> {
                let row = #[trigger] r.rows@[i];
                &&& row.doc_id < self@.docs.len()
                &&& first_hit(self@.terms, preprocessing::spec_tokens(query@), row.doc_id as nat)
                    == Some(row.tf as nat)
                &&& row.length == self@.docs[row.doc_id as int].length
            },
            forall|i1: int, i2: int| 0 <= i1 < i2 < r.rows@.len()
                ==> (#[trigger] r.rows@[i1]).doc_id < (#[trigger] r.rows@[i2]).doc_id,
            forall|d: nat| d < self@.docs.len()
                && (#[trigger] first_hit(self@.terms, preprocessing::spec_tokens(query@), d))
                    is Some
                ==> exists|i: int| 0 <= i < r.rows@.len()
                    && (#[trigger] r.rows@[i]).doc_id as nat == d,
    {
        let ghost ts = self@.terms;
        let ghost qs = preprocessing::spec_tokens(query@);
        let q_tokens = preprocessing::tokenize(query.to_owned());
        proof {
            assert(q_tokens.deep_view() == qs);
            assert(q_tokens@.len() == qs.len());
        }
        let mut dfs: Vec<usize> = Vec::new();
        let mut j: usize = 0;
        proof {
            assert(qs.take(0) =~= Seq::<Seq<char>>::empty());
            assert(dfs@.map_values(|x: usize| x as nat) =~= present_dfs(ts, qs.take(0)));
        }
        while j < q_tokens.len()
            invariant
                self.wf(),
                ts == self@.terms,
                qs == q_tokens.deep_view(),
                qs.len() == q_tokens@.len(),
                0 <= j <= q_tokens@.len(),
                dfs@.map_values(|x: usize| x as nat) == present_dfs(ts, qs.take(j as int)),
            decreases q_tokens@.len() - j,
        {
            let ghost f0 = dfs@;
            proof {
                assert(qs.take(j + 1).drop_last() =~= qs.take(j as int));
                assert(qs.take(j + 1).last() == qs[j as int]);
                assert(qs[j as int] == q_tokens@[j as int]@);
            }
            let df = self.term_df(&q_tokens[j]);
            if df > 0 {
                dfs.push(df);
                proof {
                    assert(dfs@ == f0.push(df));
                    assert(dfs@.map_values(|x: usize| x as nat)
                        =~= present_dfs(ts, qs.take(j + 1)));
                }
            } else {
                proof {
                    assert(present_dfs(ts, qs.take(j + 1)) == present_dfs(ts, qs.take(j as int)));
                }
            }
            j = j + 1;
        }
        proof {
            assert(qs.take(q_tokens@.len() as int) =~= qs);
        }
        let mut rows: Vec<Bm25Row> = Vec::new();
        let mut d: usize = 0;
        while d < self.documents.len()
            invariant
                self.wf(),
                ts == self@.terms,
                qs == q_tokens.deep_view(),
                qs.len() == q_tokens@.len(),
                0 <= d <= self.documents@.len(),
                self@.docs.len() == self.documents@.len(),
                forall|i: int| 0 <= i < rows@.len() ==> {
                    let row = #[trigger] rows@[i];
                    &&& row.doc_id < d
                    &&& first_hit(ts, qs, row.doc_id as nat) == Some(row.tf as nat)
                    &&& row.length == self@.docs[row.doc_id as int].length
                },
                forall|i1: int, i2: int| 0 <= i1 < i2 < rows@.len()
                    ==> (#[trigger] rows@[i1]).doc_id < (#[trigger] rows@[i2]).doc_id,
                forall|d0: nat| d0 < d && (#[trigger] first_hit(ts, qs, d0)) is Some
                    ==> exists|i: int| 0 <= i < rows@.len()
                        && (#[trigger] rows@[i]).doc_id as nat == d0,
            decreases self.documents@.len() - d,
        {
            let mut found: bool = false;
            let mut tf: usize = 0;
            let mut j2: usize = 0;
            proof {
                assert(qs.take(0) =~= Seq::<Seq<char>>::empty());
                assert(first_hit(ts, qs.take(0), d as nat) is None);
            }
            while j2 < q_tokens.len()
                invariant
                    self.wf(),
                    ts == self@.terms,
                    qs == q_tokens.deep_view(),
                    qs.len() == q_tokens@.len(),
                    0 <= j2 <= q_tokens@.len(),
                    !found ==> first_hit(ts, qs.take(j2 as int), d as nat) is None,
                    found ==> first_hit(ts, qs.take(j2 as int), d as nat) == Some(tf as nat),
                decreases q_tokens@.len() - j2,
            {
                proof {
                    assert(qs.take(j2 + 1) =~= qs.take(j2 as int).push(qs[j2 as int]));
                    assert(qs[j2 as int] == q_tokens@[j2 as int]@);
                    lemma_first_hit_push(ts, qs.take(j2 as int), qs[j2 as int], d as nat);
                }
                if !found {
                    let c = self.posting_count(&q_tokens[j2], d);
                    if c > 0 {
                        found = true;
                        tf = c;
                    }
                }
                j2 = j2 + 1;
            }
            proof {
                assert(qs.take(q_tokens@.len() as int) =~= qs);
            }
            let ghost rs0 = rows@;
            if found {
                let length = self.documents[d].length;
                rows.push(Bm25Row { doc_id: d, tf, length });
                proof {
                    assert(rows@[rs0.len() as int].doc_id == d);
                    assert forall|d0: nat| d0 < d + 1
                        && (#[trigger] first_hit(ts, qs, d0)) is Some implies
                        exists|i: int| 0 <= i < rows@.len()
                            && (#[trigger] rows@[i]).doc_id as nat == d0 by {
                        if d0 < d as nat {
                            let i0 = choose|i0: int| 0 <= i0 < rs0.len()
                                && (#[trigger] rs0[i0]).doc_id as nat == d0;
                            assert(rows@[i0].doc_id as nat == d0);
                        } else {
                            assert(rows@[rs0.len() as int].doc_id as nat == d0);
                        }
                    }
                }
            } else {
                proof {
                    assert(first_hit(ts, qs, d as nat) is None);
                    assert forall|d0: nat| d0 < d + 1
                        && (#[trigger] first_hit(ts, qs, d0)) is Some implies
                        exists|i: int| 0 <= i < rows@.len()
                            && (#[trigger] rows@[i]).doc_id as nat == d0 by {
                        assert(d0 < d as nat);
                        let i0 = choose|i0: int| 0 <= i0 < rs0.len()
                            && (#[trigger] rs0[i0]).doc_id as nat == d0;
                        assert(rows@[i0].doc_id as nat == d0);
                    }
                }
            }
            d = d + 1;
        }
        Bm25Data { n_docs: self.documents.len(), rows, dfs }
    }
}

/// The sum of all document lengths, which the BM25 model averages.
pub open spec fn sum_lengths(ds: Seq<crate::DocM>) -> nat
    decreases ds.len(),
{
    if ds.len() == 0 {
        0
    } else {
        sum_lengths(ds.drop_last()) + ds.last().length
    }
}

/// A sum of machine-word lengths is bounded by count times the word range.
proof fn lemma_sum_lengths_bound(ds: Seq<crate::DocM>)
    requires
        forall|i: int| 0 <= i < ds.len() ==> (#[trigger] ds[i]).length <= usize::MAX,
    ensures
        sum_lengths(ds) <= ds.len() * (usize::MAX as nat),
    decreases ds.len(),
{
    if ds.len() > 0 {
        let d0 = ds.drop_last();
        assert(forall|i: int| 0 <= i < d0.len() ==> (#[trigger] d0[i]).length <= usize::MAX);
        lemma_sum_lengths_bound(d0);
        assert(ds.last().length <= usize::MAX);
        assert(d0.len() * (usize::MAX as nat) + (usize::MAX as nat)
            == ds.len() * (usize::MAX as nat)) by (nonlinear_arith)
            requires
                d0.len() + 1 == ds.len(),
        ;
    }
}

impl Index {
    /// The total token count over all documents: the numerator of the
    /// average document length.
    pub fn total_length(&self) -> (t: u128)
        ensures
            t as nat == sum_lengths(self@.docs),
    {
        let ghost ds = self@.docs;
        let mut t: u128 = 0;
        let mut d: usize = 0;
        proof {
            assert(ds.take(0) =~= Seq::<crate::DocM>::empty());
        }
        while d < self.documents.len()
            invariant
                0 <= d <= self.documents@.len(),
                ds == self@.docs,
                ds.len() == self.documents@.len(),
                forall|i: int| 0 <= i < ds.len() ==> (#[trigger] ds[i]).length <= usize::MAX,
                forall|i: int| 0 <= i < ds.len()
                    ==> (#[trigger] ds[i]).length == self.documents@[i]@.length,
                t as nat == sum_lengths(ds.take(d as int)),
            decreases self.documents@.len() - d,
        {
            proof {
                assert(ds.take(d + 1).drop_last() =~= ds.take(d as int));
                assert(ds.take(d + 1).last() == ds[d as int]);
                assert(forall|i: int| 0 <= i < ds.take(d as int).len()
                    ==> (#[trigger] ds.take(d as int)[i]).length <= usize::MAX);
                lemma_sum_lengths_bound(ds.take(d as int));
                assert((d as nat) * (usize::MAX as nat)
                    <= 0x10000000000000000 * 0xffffffffffffffff) by (nonlinear_arith)
                    requires
                        d as nat <= 0xffffffffffffffff,
                        usize::MAX as nat <= 0xffffffffffffffff,
                ;
            }
            t = t + self.documents[d].length as u128;
            d = d + 1;
        }
        proof {
            assert(ds.take(ds.len() as int) =~= ds);
        }
        t
    }
}

/// Orders one scored result no later than another: a higher score comes
/// first, and equal scores order by ascending document id.
pub open spec fn result_le(a: (usize, u64), b: (usize, u64)) -> bool {
    a.1 > b.1 || (a.1 == b.1 && a.0 <= b.0)
}

/// Sorts scored documents for presentation: scores non-increasing, ties
/// broken by ascending document id; the result is a permutation of the
/// input.
pub fn sort_results(rows: Vec<(usize, u64)>) -> (r: Vec<(usize, u64)>)
    ensures
        r@.to_multiset() == rows@.to_multiset(),
        r@.len() == rows@.len(),
        forall|i: int, j: int| 0 <= i < j < r@.len()
            ==> result_le(#[trigger] r@[i], #[trigger] r@[j]),
        forall|i: int, j: int| 0 <= i < j < r@.len()
            ==> (#[trigger] r@[i]).1 >= (#[trigger] r@[j]).1,
{
    broadcast use vstd::seq_lib::group_to_multiset_ensures;

    let mut out: Vec<(usize, u64)> = Vec::new();
    let mut i: usize = 0;
    proof {
        assert(rows@.take(0) =~= Seq::<(usize, u64)>::empty());
        assert(out@.to_multiset() =~= rows@.take(0).to_multiset());
    }
    while i < rows.len()
        invariant
            0 <= i <= rows@.len(),
            out@.len() == i,
            out@.to_multiset() == rows@.take(i as int).to_multiset(),
            forall|a: int, b: int| 0 <= a < b < out@.len()
                ==> result_le(#[trigger] out@[a], #[trigger] out@[b]),
        decreases rows@.len() - i,
    {
        let x = rows[i];
        let mut pos: usize = 0;
        while pos < out.len()
            && (out[pos].1 > x.1 || (out[pos].1 == x.1 && out[pos].0 <= x.0))
            invariant
                0 <= pos <= out@.len(),
                forall|k: int| 0 <= k < pos ==> result_le(#[trigger] out@[k], x),
            decreases out@.len() - pos,
        {
            pos = pos + 1;
        }
        let ghost out0 = out@;
        out.insert(pos, x);
        proof {
            broadcast use vstd::seq_lib::group_to_multiset_ensures;

            assert(out@ == out0.insert(pos as int, x));
            assert(out0.insert(pos as int, x).to_multiset() =~= out0.to_multiset().insert(x));
            assert(rows@.take(i + 1).drop_last() =~= rows@.take(i as int));
            assert(rows@.take(i + 1) =~= rows@.take(i as int).push(x));
            assert(rows@.take(i as int).push(x).to_multiset()
                =~= rows@.take(i as int).to_multiset().insert(x));
            assert(rows@.take(i + 1).to_multiset() =~= rows@.take(i as int).to_multiset().insert(x));
            assert(out@.to_multiset() =~= rows@.take(i + 1).to_multiset());
            assert forall|a: int, b: int| 0 <= a < b < out@.len() implies
                result_le(#[trigger] out@[a], #[trigger] out@[b]) by {
                if (pos as int) < out0.len() {
                    assert(!result_le(out0[pos as int], x));
                    assert(result_le(x, out0[pos as int]));
                }
                if b < pos {
                    assert(out@[a] == out0[a] && out@[b] == out0[b]);
                } else if b == pos {
                    assert(out@[a] == out0[a] && out@[b] == x);
                    assert(result_le(out0[a], x));
                } else {
                    assert(out@[b] == out0[b - 1]);
                    if a < pos {
                        assert(out@[a] == out0[a]);
                        if pos as int == out0.len() {
                            assert(false);
                        }
                        assert(result_le(x, out0[pos as int]));
                        if a < pos as int {
                            assert(result_le(out0[a], x));
                        }
                        if (pos as int) < b - 1 {
                            assert(result_le(out0[pos as int], out0[b - 1]));
                        }
                    } else if a == pos {
                        assert(out@[a] == x);
                        assert(result_le(x, out0[pos as int]));
                        if (pos as int) < b - 1 {
                            assert(result_le(out0[pos as int], out0[b - 1]));
                        }
                    } else {
                        assert(out@[a] == out0[a - 1]);
                        assert(result_le(out0[a - 1], out0[b - 1]));
                    }
                }
            }
        }
        i = i + 1;
    }
    proof {
        assert(rows@.take(rows@.len() as int) =~= rows@);
    }
    out
}

} // verus!
