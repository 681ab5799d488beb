//! A small in-memory full-text search engine: an inverted index of
//! term -> per-document occurrence counts, plus a document table.
use vstd::prelude::*;

pub mod preprocessing;
pub mod scoring;
pub mod snapshot;
pub mod utils;

verus! {

/// One ingested document: a caller-supplied label and its total token count.
pub struct Document {
    pub name: String,
    pub length: usize,
}

/// Ghost model of a document.
#[verifier::ext_equal]
pub ghost struct DocM {
    pub name: Seq<char>,
    pub length: nat,
}

impl View for Document {
    type V = DocM;

    open spec fn view(&self) -> DocM {
        DocM { name: self.name@, length: self.length as nat }
    }
}

impl DeepView for Document {
    type V = DocM;

    open spec fn deep_view(&self) -> DocM {
        self@
    }
}

/// One posting: a document id and the occurrence count of the term in it.
#[derive(Clone, Copy)]
pub struct Posting {
    pub doc_id: usize,
    pub count: usize,
}

impl View for Posting {
    type V = (nat, nat);

    open spec fn view(&self) -> (nat, nat) {
        (self.doc_id as nat, self.count as nat)
    }
}

impl DeepView for Posting {
    type V = (nat, nat);

    open spec fn deep_view(&self) -> (nat, nat) {
        self@
    }
}

/// The posting list of one term.
pub struct TermPostings {
    pub term: String,
    pub postings: Vec<Posting>,
}

/// Ghost model of a term's posting list.
#[verifier::ext_equal]
pub ghost struct TermM {
    pub term: Seq<char>,
    pub postings: Seq<(nat, nat)>,
}

impl View for TermPostings {
    type V = TermM;

    open spec fn view(&self) -> TermM {
        TermM { term: self.term@, postings: self.postings.deep_view() }
    }
}

impl DeepView for TermPostings {
    type V = TermM;

    open spec fn deep_view(&self) -> TermM {
        self@
    }
}

/// Ghost model of a whole store: the inverted index and the document table.
/// Document ids are positions in `docs`.
#[verifier::ext_equal]
pub ghost struct StoreM {
    pub terms: Seq<TermM>,
    pub docs: Seq<DocM>,
}

/// The store: an inverted index over ingested documents.
pub struct Index {
    pub index: Vec<TermPostings>,
    pub documents: Vec<Document>,
}

impl View for Index {
    type V = StoreM;

    open spec fn view(&self) -> StoreM {
        StoreM { terms: self.index.deep_view(), docs: self.documents.deep_view() }
    }
}

impl Index {
    /// Creates an empty store.
    pub fn new() -> (r: Index)
        ensures
            r@.terms.len() == 0,
            r@.docs.len() == 0,
            r.wf(),
    {
        Index { index: Vec::new(), documents: Vec::new() }
    }

    /// Well-formedness of the store.
    pub open spec fn wf(&self) -> bool {
        wf_store(self@)
    }

    /// Ingests one document: assigns it the next id, records its name and
    /// token count, and adds each distinct token's occurrence count to that
    /// token's posting list. Other documents' counts are untouched.
    pub fn index_document(&mut self, text: &str, name: &str) -> (id: usize)
        requires
            old(self).wf(),
        ensures
            final(self).wf(),
            id == old(self)@.docs.len(),
            final(self)@.docs == old(self)@.docs.push(
                DocM { name: name@, length: preprocessing::spec_tokens(text@).len() },
            ),
            forall|t: Seq<char>| #[trigger] count_in(final(self)@.terms, t, id as nat)
                == utils::count_of(preprocessing::spec_tokens(text@), t),
            forall|t: Seq<char>, d: nat| d < old(self)@.docs.len()
                ==> #[trigger] count_in(final(self)@.terms, t, d) == count_in(old(self)@.terms, t, d),
            forall|t: Seq<char>| #[trigger] has_term(final(self)@.terms, t)
                <==> (has_term(old(self)@.terms, t)
                    || utils::count_of(preprocessing::spec_tokens(text@), t) > 0),
    {
        let ghost toks = preprocessing::spec_tokens(text@);
        let ghost ts0 = self@.terms;
        let id = self.documents.len();
        let tokens = preprocessing::tokenize(text.to_owned());
        let length = tokens.len();
        let counts = utils::count_tokens(tokens);
        self.documents.push(Document { name: name.to_owned(), length });
        proof {
            assert(self@.docs =~= old(self)@.docs.push(
                DocM { name: name@, length: toks.len() },
            ));
        }
        let ghost docs1 = self@.docs;
        let mut i: usize = 0;
        while i < counts.len()
            invariant
                0 <= i <= counts@.len(),
                self@.docs == docs1,
                docs1.len() == id + 1,
                distinct_terms(self@.terms),
                forall|k: int| 0 <= k < self@.terms.len()
                    ==> wf_postings(#[trigger] self@.terms[k].postings, docs1.len()),
                forall|k: int| 0 <= k < ts0.len()
                    ==> wf_postings(#[trigger] ts0[k].postings, id as nat),
                distinct_terms(ts0),
                forall|i0: int, j0: int| 0 <= i0 < j0 < counts@.len()
                    ==> #[trigger] counts@[i0]@.0 != #[trigger] counts@[j0]@.0,
                forall|i0: int| 0 <= i0 < counts@.len()
                    ==> #[trigger] counts@[i0]@.1 == utils::count_of(toks, counts@[i0]@.0)
                        && counts@[i0]@.1 >= 1,
                forall|t: Seq<char>| #[trigger] has_term(self@.terms, t)
                    <==> (has_term(ts0, t)
                        || exists|i0: int| 0 <= i0 < i && #[trigger] counts@[i0]@.0 == t),
                forall|i0: int| 0 <= i0 < i
                    ==> #[trigger] count_in(self@.terms, counts@[i0]@.0, id as nat)
                        == counts@[i0]@.1,
                forall|t: Seq<char>|
                    (forall|i0: int| 0 <= i0 < i ==> #[trigger] counts@[i0]@.0 != t)
                    ==> #[trigger] count_in(self@.terms, t, id as nat) == 0,
                forall|t: Seq<char>, d: nat| d < id as nat
                    ==> #[trigger] count_in(self@.terms, t, d) == count_in(ts0, t, d),
            decreases counts@.len() - i,
        {
            let ghost cur = self@.terms;
            let ghost tv = counts@[i as int]@.0;
            let ghost cv = counts@[i as int]@.1;
            let c = counts[i].count;
            let mut found: bool = false;
            let mut at: usize = 0;
            let mut k: usize = 0;
            while k < self.index.len()
                invariant
                    0 <= k <= self.index@.len(),
                    i < counts@.len(),
                    tv == counts@[i as int]@.0,
                    cur == self@.terms,
                    cur.len() == self.index@.len(),
                    forall|k0: int| 0 <= k0 < cur.len()
                        ==> #[trigger] cur[k0].term == self.index@[k0].term@,
                    !found ==> forall|k0: int| 0 <= k0 < k ==> #[trigger] cur[k0].term != tv,
                    found ==> at < cur.len() && cur[at as int].term == tv,
                decreases self.index@.len() - k,
            {
                if !found && self.index[k].term == counts[i].token {
                    found = true;
                    at = k;
                }
                k = k + 1;
            }
            if found {
                let mut entry = self.index.remove(at);
                let ghost ps0 = entry@.postings;
                proof {
                    lemma_term_idx_unique(cur, tv, at as int);
                    assert(ps0 == postings_of(cur, tv));
                    assert(wf_postings(cur[at as int].postings, docs1.len()));
                    assert(distinct_docs(ps0));
                    assert(count_in(cur, tv, id as nat) == 0) by {
                        if exists|i0: int| 0 <= i0 < i && #[trigger] counts@[i0]@.0 == tv {
                            let i0 = choose|i0: int|
                                0 <= i0 < i && #[trigger] counts@[i0]@.0 == tv;
                            assert(counts@[i0]@.0 != counts@[i as int]@.0);
                            assert(false);
                        }
                    }
                    assert forall|a: int| 0 <= a < ps0.len() implies
                        #[trigger] ps0[a].0 != id as nat by {
                        if ps0[a].0 == id as nat {
                            lemma_doc_idx_unique(ps0, id as nat, a);
                            assert(count_in(cur, tv, id as nat) == ps0[a].1);
                            assert(ps0[a].1 >= 1);
                            assert(false);
                        }
                    }
                }
                entry.postings.push(Posting { doc_id: id, count: c });
                self.index.insert(at, entry);
                proof {
                    let e2 = TermM { term: tv, postings: ps0.push((id as nat, cv)) };
                    assert(self@.terms =~~= cur.update(at as int, e2));
                    assert(distinct_docs(ps0));
                    lemma_postings_push(ps0, id as nat, cv);
                    lemma_update_entry(cur, at as int, e2);
                    assert(postings_of(self@.terms, tv) == ps0.push((id as nat, cv)));
                    assert(count_in(self@.terms, tv, id as nat) == cv);
                    assert(wf_postings(e2.postings, docs1.len()));
                    assert forall|t: Seq<char>, d: nat| d < id as nat implies
                        #[trigger] count_in(self@.terms, t, d) == count_in(ts0, t, d) by {
                        assert(count_in(cur, t, d) == count_in(ts0, t, d));
                        if t == tv {
                            assert(postings_of(self@.terms, t) == ps0.push((id as nat, cv)));
                            assert(pcount(ps0.push((id as nat, cv)), d) == pcount(ps0, d));
                            assert(count_in(cur, t, d) == pcount(ps0, d));
                        } else {
                            assert(postings_of(self@.terms, t) == postings_of(cur, t));
                        }
                    }
                }
            } else {
                let tok = counts[i].token.clone();
                self.index.push(TermPostings {
                    term: tok,
                    postings: vec![Posting { doc_id: id, count: c }],
                });
                proof {
                    let ps1: Seq<(nat, nat)> = seq![(id as nat, cv)];
                    let e2 = TermM { term: tv, postings: ps1 };
                    assert(self@.terms =~~= cur.push(e2));
                    assert(!has_term(cur, tv)) by {
                        if has_term(cur, tv) {
                            let k0 = term_idx(cur, tv);
                            assert(cur[k0].term == tv);
                            assert(false);
                        }
                    }
                    lemma_push_entry(cur, e2);
                    lemma_doc_idx_unique(ps1, id as nat, 0);
                    assert(count_in(self@.terms, tv, id as nat) == cv);
                    assert(wf_postings(ps1, docs1.len()));
                    assert forall|t: Seq<char>, d: nat| d < id as nat implies
                        #[trigger] count_in(self@.terms, t, d) == count_in(ts0, t, d) by {
                        assert(count_in(cur, t, d) == count_in(ts0, t, d));
                        if t == tv {
                            assert(postings_of(self@.terms, t) == ps1);
                            assert(!has_doc(ps1, d));
                            assert(count_in(cur, t, d) == 0);
                        } else {
                            assert(postings_of(self@.terms, t) == postings_of(cur, t));
                        }
                    }
                }
            }
            proof {
                assert(count_in(self@.terms, tv, id as nat) == cv);
                assert forall|i0: int| 0 <= i0 < i + 1 implies
                    #[trigger] count_in(self@.terms, counts@[i0]@.0, id as nat)
                        == counts@[i0]@.1 by {
                    let t0 = counts@[i0]@.0;
                    if i0 < i {
                        assert(counts@[i0]@.0 != counts@[i as int]@.0);
                        assert(postings_of(self@.terms, t0) == postings_of(cur, t0));
                        assert(count_in(cur, t0, id as nat) == counts@[i0]@.1);
                    }
                }
                assert forall|t: Seq<char>|
                    (forall|i0: int| 0 <= i0 < i + 1 ==> #[trigger] counts@[i0]@.0 != t) implies
                    #[trigger] count_in(self@.terms, t, id as nat) == 0 by {
                    assert(counts@[i as int]@.0 != t);
                    assert(postings_of(self@.terms, t) == postings_of(cur, t));
                    assert(count_in(cur, t, id as nat) == 0);
                }
            }
            i = i + 1;
        }
        proof {
            assert forall|t: Seq<char>| true implies
                #[trigger] count_in(self@.terms, t, id as nat) == utils::count_of(toks, t) by {
                if exists|i0: int| 0 <= i0 < counts@.len() && #[trigger] counts@[i0]@.0 == t {
                    let i0 = choose|i0: int|
                        0 <= i0 < counts@.len() && #[trigger] counts@[i0]@.0 == t;
                    assert(count_in(self@.terms, t, id as nat) == counts@[i0]@.1);
                } else {
                    if utils::count_of(toks, t) > 0 {
                        assert(exists|i0: int|
                            0 <= i0 < counts@.len() && #[trigger] counts@[i0]@.0 == t);
                    }
                }
            }
            assert forall|t: Seq<char>| #[trigger] has_term(self@.terms, t) implies
                (has_term(ts0, t) || utils::count_of(toks, t) > 0) by {
                if !has_term(ts0, t) {
                    let i0 = choose|i0: int|
                        0 <= i0 < counts@.len() && #[trigger] counts@[i0]@.0 == t;
                    assert(counts@[i0]@.1 == utils::count_of(toks, t));
                }
            }
            assert forall|t: Seq<char>|
                (has_term(ts0, t) || utils::count_of(toks, t) > 0) implies
                #[trigger] has_term(self@.terms, t) by {
                if utils::count_of(toks, t) > 0 {
                    assert(exists|i0: int|
                        0 <= i0 < counts@.len() && #[trigger] counts@[i0]@.0 == t);
                }
            }
        }
        id
    }

    /// Deletes the whole posting list of `term`; documents are untouched.
    /// Removing an absent term leaves the store unchanged; either way the
    /// call succeeds.
    pub fn remove(&mut self, term: String) -> (r: Result<(), SearchError>)
        requires
            old(self).wf(),
        ensures
            final(self).wf(),
            r is Ok,
            final(self)@.docs == old(self)@.docs,
            !has_term(final(self)@.terms, term@),
            forall|t: Seq<char>| t != term@
                ==> #[trigger] has_term(final(self)@.terms, t) == has_term(old(self)@.terms, t),
            forall|t: Seq<char>| t != term@
                ==> #[trigger] postings_of(final(self)@.terms, t)
                    == postings_of(old(self)@.terms, t),
            !has_term(old(self)@.terms, term@) ==> final(self)@ == old(self)@,
    {
        let ghost cur = self@.terms;
        let mut found: bool = false;
        let mut at: usize = 0;
        let mut k: usize = 0;
        while k < self.index.len()
            invariant
                0 <= k <= self.index@.len(),
                cur == self@.terms,
                cur.len() == self.index@.len(),
                forall|k0: int| 0 <= k0 < cur.len()
                    ==> #[trigger] cur[k0].term == self.index@[k0].term@,
                !found ==> forall|k0: int| 0 <= k0 < k ==> #[trigger] cur[k0].term != term@,
                found ==> at < cur.len() && cur[at as int].term == term@,
            decreases self.index@.len() - k,
        {
            if !found && self.index[k].term == term {
                found = true;
                at = k;
            }
            k = k + 1;
        }
        if found {
            self.index.remove(at);
            proof {
                assert(self@.terms =~= cur.remove(at as int));
                lemma_remove_entry(cur, at as int);
                assert forall|k0: int| 0 <= k0 < self@.terms.len() implies
                    wf_postings(#[trigger] self@.terms[k0].postings, self@.docs.len()) by {
                    let k1 = if k0 < at as int { k0 } else { k0 + 1 };
                    assert(self@.terms[k0] == cur[k1]);
                    assert(wf_postings(cur[k1].postings, self@.docs.len()));
                }
            }
        } else {
            proof {
                if has_term(cur, term@) {
                    let i = term_idx(cur, term@);
                    assert(cur[i].term == term@);
                    assert(false);
                }
                assert(self@ =~= old(self)@);
            }
        }
        Ok(())
    }
}

/// The errors the store can report.
#[derive(Debug, Clone, Copy, PartialEq, Eq, Structural)]
pub enum SearchError {
    /// A source or destination could not be read or written.
    Io,
    /// A snapshot did not have the expected shape.
    Parse,
    /// A term or document id was absent.
    NotFound,
    /// A ranking was asked of a store without documents.
    EmptyCorpus,
}

/// Terms are pairwise distinct.
pub open spec fn distinct_terms(ts: Seq<TermM>) -> bool {
    forall|i: int, j: int| 0 <= i < j < ts.len() ==> ts[i].term != ts[j].term
}

/// Every posting list is non-empty, strictly increasing in document id,
/// holds only counts of at least one, and points into the document table.
pub open spec fn wf_postings(ps: Seq<(nat, nat)>, n_docs: nat) -> bool {
    &&& ps.len() >= 1
    &&& forall|a: int, b: int| 0 <= a < b < ps.len() ==> ps[a].0 < ps[b].0
    &&& forall|a: int| 0 <= a < ps.len() ==> ps[a].0 < n_docs && ps[a].1 >= 1
}

/// Well-formedness of a store model.
pub open spec fn wf_store(m: StoreM) -> bool {
    &&& distinct_terms(m.terms)
    &&& forall|i: int| 0 <= i < m.terms.len() ==> wf_postings(#[trigger] m.terms[i].postings, m.docs.len())
}

/// Whether the index holds term `t`.
pub open spec fn has_term(ts: Seq<TermM>, t: Seq<char>) -> bool {
    exists|i: int| 0 <= i < ts.len() && #[trigger] ts[i].term == t
}

/// The position of term `t` in the index.
pub open spec fn term_idx(ts: Seq<TermM>, t: Seq<char>) -> int {
    choose|i: int| 0 <= i < ts.len() && #[trigger] ts[i].term == t
}

/// The posting list of term `t`, empty when the term is absent.
pub open spec fn postings_of(ts: Seq<TermM>, t: Seq<char>) -> Seq<(nat, nat)> {
    if has_term(ts, t) {
        ts[term_idx(ts, t)].postings
    } else {
        Seq::empty()
    }
}

/// Whether a posting list mentions document `d`.
pub open spec fn has_doc(ps: Seq<(nat, nat)>, d: nat) -> bool {
    exists|a: int| 0 <= a < ps.len() && #[trigger] ps[a].0 == d
}

/// The position of document `d` in a posting list.
pub open spec fn doc_idx(ps: Seq<(nat, nat)>, d: nat) -> int {
    choose|a: int| 0 <= a < ps.len() && #[trigger] ps[a].0 == d
}

/// The count a posting list gives document `d`, zero when absent.
pub open spec fn pcount(ps: Seq<(nat, nat)>, d: nat) -> nat {
    if has_doc(ps, d) {
        ps[doc_idx(ps, d)].1
    } else {
        0
    }
}

/// How often term `t` occurs in document `d` according to the index;
/// zero for absent terms and absent documents.
pub open spec fn count_in(ts: Seq<TermM>, t: Seq<char>, d: nat) -> nat {
    pcount(postings_of(ts, t), d)
}

/// The document frequency of term `t`: how many documents contain it.
pub open spec fn df_of(ts: Seq<TermM>, t: Seq<char>) -> nat {
    postings_of(ts, t).len()
}

/// Posting lists hold pairwise distinct document ids.
pub open spec fn distinct_docs(ps: Seq<(nat, nat)>) -> bool {
    forall|a: int, b: int| 0 <= a < b < ps.len() ==> #[trigger] ps[a].0 != #[trigger] ps[b].0
}

/// With distinct terms, a position holding `t` is the position of `t`.
pub proof fn lemma_term_idx_unique(ts: Seq<TermM>, t: Seq<char>, k: int)
    requires
        distinct_terms(ts),
        0 <= k < ts.len(),
        ts[k].term == t,
    ensures
        has_term(ts, t),
        term_idx(ts, t) == k,
        postings_of(ts, t) == ts[k].postings,
{
    assert(has_term(ts, t));
    let i = term_idx(ts, t);
    assert(0 <= i < ts.len() && ts[i].term == t);
    if i < k {
        assert(ts[i].term != ts[k].term);
    } else if k < i {
        assert(ts[k].term != ts[i].term);
    }
}

/// With distinct document ids, a position holding `d` is the position of `d`.
pub proof fn lemma_doc_idx_unique(ps: Seq<(nat, nat)>, d: nat, a: int)
    requires
        distinct_docs(ps),
        0 <= a < ps.len(),
        ps[a].0 == d,
    ensures
        has_doc(ps, d),
        doc_idx(ps, d) == a,
        pcount(ps, d) == ps[a].1,
{
    assert(has_doc(ps, d));
    let b = doc_idx(ps, d);
    assert(0 <= b < ps.len() && ps[b].0 == d);
    if b < a {
        assert(ps[b].0 != ps[a].0);
    } else if a < b {
        assert(ps[a].0 != ps[b].0);
    }
}

/// Appending a fresh document to a posting list sets its count and
/// changes no other.
pub proof fn lemma_postings_push(ps: Seq<(nat, nat)>, d: nat, c: nat)
    requires
        distinct_docs(ps),
        forall|a: int| 0 <= a < ps.len() ==> #[trigger] ps[a].0 != d,
    ensures
        distinct_docs(ps.push((d, c))),
        pcount(ps.push((d, c)), d) == c,
        forall|d2: nat| d2 != d ==> #[trigger] pcount(ps.push((d, c)), d2) == pcount(ps, d2),
{
    let ps2 = ps.push((d, c));
    lemma_doc_idx_unique(ps2, d, ps.len() as int);
    assert forall|d2: nat| d2 != d implies #[trigger] pcount(ps2, d2) == pcount(ps, d2) by {
        if has_doc(ps, d2) {
            let a = doc_idx(ps, d2);
            assert(ps2[a].0 == d2);
            lemma_doc_idx_unique(ps2, d2, a);
            lemma_doc_idx_unique(ps, d2, a);
        } else {
            if has_doc(ps2, d2) {
                let a = doc_idx(ps2, d2);
                assert(0 <= a < ps2.len() && ps2[a].0 == d2);
                assert(a < ps.len());
                assert(ps[a].0 == d2);
                assert(false);
            }
        }
    }
}

/// Replacing the entry of a term with one for the same term keeps all
/// other terms and their posting lists.
pub proof fn lemma_update_entry(ts: Seq<TermM>, at: int, e2: TermM)
    requires
        distinct_terms(ts),
        0 <= at < ts.len(),
        e2.term == ts[at].term,
    ensures
        distinct_terms(ts.update(at, e2)),
        forall|t: Seq<char>| #[trigger] has_term(ts.update(at, e2), t) == has_term(ts, t),
        forall|t: Seq<char>| t != e2.term
            ==> #[trigger] postings_of(ts.update(at, e2), t) == postings_of(ts, t),
        has_term(ts, e2.term),
        postings_of(ts.update(at, e2), e2.term) == e2.postings,
{
    let ts2 = ts.update(at, e2);
    assert forall|t: Seq<char>| #[trigger] has_term(ts2, t) == has_term(ts, t) by {
        if has_term(ts, t) {
            let i = term_idx(ts, t);
            if i == at {
                assert(ts2[at].term == t);
            } else {
                assert(ts2[i].term == t);
            }
            assert(has_term(ts2, t));
        }
        if has_term(ts2, t) {
            let i = term_idx(ts2, t);
            if i == at {
                assert(ts[at].term == t);
            } else {
                assert(ts[i].term == t);
            }
            assert(has_term(ts, t));
        }
    }
    assert forall|t: Seq<char>| t != e2.term implies
        #[trigger] postings_of(ts2, t) == postings_of(ts, t) by {
        if has_term(ts, t) {
            let i = term_idx(ts, t);
            assert(i != at);
            assert(ts2[i].term == t);
            lemma_term_idx_unique(ts2, t, i);
        }
    }
    lemma_term_idx_unique(ts, e2.term, at);
    lemma_term_idx_unique(ts2, e2.term, at);
}

/// Appending an entry for a new term keeps all other terms and their
/// posting lists.
pub proof fn lemma_push_entry(ts: Seq<TermM>, e2: TermM)
    requires
        distinct_terms(ts),
        !has_term(ts, e2.term),
    ensures
        distinct_terms(ts.push(e2)),
        forall|t: Seq<char>| t != e2.term
            ==> #[trigger] has_term(ts.push(e2), t) == has_term(ts, t),
        forall|t: Seq<char>| t != e2.term
            ==> #[trigger] postings_of(ts.push(e2), t) == postings_of(ts, t),
        has_term(ts.push(e2), e2.term),
        postings_of(ts.push(e2), e2.term) == e2.postings,
{
    let ts2 = ts.push(e2);
    assert forall|i: int, j: int| 0 <= i < j < ts2.len() implies ts2[i].term != ts2[j].term by {
        if j < ts.len() {
            assert(ts[i].term != ts[j].term);
        } else {
            assert(ts2[i].term == ts[i].term);
            if ts2[i].term == e2.term {
                assert(has_term(ts, e2.term));
            }
        }
    }
    assert forall|t: Seq<char>| t != e2.term implies
        #[trigger] has_term(ts2, t) == has_term(ts, t) by {
        if has_term(ts, t) {
            let i = term_idx(ts, t);
            assert(ts2[i].term == t);
        } else {
            if has_term(ts2, t) {
                let i = term_idx(ts2, t);
                assert(i < ts.len());
                assert(ts[i].term == t);
                assert(false);
            }
        }
    }
    assert forall|t: Seq<char>| t != e2.term implies
        #[trigger] postings_of(ts2, t) == postings_of(ts, t) by {
        if has_term(ts, t) {
            let i = term_idx(ts, t);
            assert(ts2[i].term == t);
            lemma_term_idx_unique(ts2, t, i);
            lemma_term_idx_unique(ts, t, i);
        } else {
            if has_term(ts2, t) {
                let i = term_idx(ts2, t);
                assert(i < ts.len());
                assert(ts[i].term == t);
                assert(false);
            }
        }
    }
    lemma_term_idx_unique(ts2, e2.term, ts.len() as int);
}

/// Removing the entry of a term keeps all other terms and their
/// posting lists.
pub proof fn lemma_remove_entry(ts: Seq<TermM>, at: int)
    requires
        distinct_terms(ts),
        0 <= at < ts.len(),
    ensures
        distinct_terms(ts.remove(at)),
        !has_term(ts.remove(at), ts[at].term),
        forall|t: Seq<char>| t != ts[at].term
            ==> #[trigger] has_term(ts.remove(at), t) == has_term(ts, t),
        forall|t: Seq<char>| t != ts[at].term
            ==> #[trigger] postings_of(ts.remove(at), t) == postings_of(ts, t),
{
    let ts2 = ts.remove(at);
    assert forall|i: int, j: int| 0 <= i < j < ts2.len() implies ts2[i].term != ts2[j].term by {
        let i0 = if i < at { i } else { i + 1 };
        let j0 = if j < at { j } else { j + 1 };
        assert(ts2[i] == ts[i0] && ts2[j] == ts[j0]);
        assert(ts[i0].term != ts[j0].term);
    }
    if has_term(ts2, ts[at].term) {
        let i = term_idx(ts2, ts[at].term);
        let i0 = if i < at { i } else { i + 1 };
        assert(ts2[i] == ts[i0]);
        if i0 < at {
            assert(ts[i0].term != ts[at].term);
        } else {
            assert(ts[at].term != ts[i0].term);
        }
        assert(false);
    }
    assert forall|t: Seq<char>| t != ts[at].term implies
        #[trigger] has_term(ts2, t) == has_term(ts, t) by {
        if has_term(ts, t) {
            let i = term_idx(ts, t);
            assert(i != at);
            let i2 = if i < at { i } else { i - 1 };
            assert(ts2[i2] == ts[i]);
            assert(ts2[i2].term == t);
        } else {
            if has_term(ts2, t) {
                let i = term_idx(ts2, t);
                let i0 = if i < at { i } else { i + 1 };
                assert(ts2[i] == ts[i0]);
                assert(ts[i0].term == t);
                assert(false);
            }
        }
    }
    assert forall|t: Seq<char>| t != ts[at].term implies
        #[trigger] postings_of(ts2, t) == postings_of(ts, t) by {
        if has_term(ts, t) {
            let i = term_idx(ts, t);
            assert(i != at);
            let i2 = if i < at { i } else { i - 1 };
            assert(ts2[i2] == ts[i]);
            lemma_term_idx_unique(ts2, t, i2);
            lemma_term_idx_unique(ts, t, i);
        } else {
            if has_term(ts2, t) {
                let i = term_idx(ts2, t);
                let i0 = if i < at { i } else { i + 1 };
                assert(ts2[i] == ts[i0]);
                assert(ts[i0].term == t);
                assert(false);
            }
        }
    }
}

} // verus!
