//! Term counting: reduce a token sequence to per-token occurrence counts.
use vstd::prelude::*;

verus! {

/// One token with its occurrence count.
pub struct TermCount {
    pub token: String,
    pub count: usize,
}

impl View for TermCount {
    type V = (Seq<char>, nat);

    open spec fn view(&self) -> (Seq<char>, nat) {
        (self.token@, self.count as nat)
    }
}

impl DeepView for TermCount {
    type V = (Seq<char>, nat);

    open spec fn deep_view(&self) -> (Seq<char>, nat) {
        self@
    }
}

/// How often token `t` occurs in `toks`.
pub open spec fn count_of(toks: Seq<Seq<char>>, t: Seq<char>) -> nat
    decreases toks.len(),
{
    if toks.len() == 0 {
        0
    } else {
        count_of(toks.drop_last(), t) + if toks.last() == t { 1nat } else { 0nat }
    }
}

/// An occurrence count never exceeds the sequence length.
pub proof fn lemma_count_of_le_len(toks: Seq<Seq<char>>, t: Seq<char>)
    ensures
        count_of(toks, t) <= toks.len(),
    decreases toks.len(),
{
    if toks.len() > 0 {
        lemma_count_of_le_len(toks.drop_last(), t);
    }
}

/// Produces the occurrence count of each distinct token: every counted
/// token occurs in the input, counts are exact and at least one, each
/// token is counted once, and every input token is counted.
pub fn count_tokens(tokens: Vec<String>) -> (r: Vec<TermCount>)
    ensures
        forall|i: int, j: int| 0 <= i < j < r@.len()
            ==> #[trigger] r@[i]@.0 != #[trigger] r@[j]@.0,
        forall|i: int| 0 <= i < r@.len()
            ==> #[trigger] r@[i]@.1 == count_of(tokens.deep_view(), r@[i]@.0) && r@[i]@.1 >= 1,
        forall|t: Seq<char>| #[trigger] count_of(tokens.deep_view(), t) > 0
            ==> exists|i: int| 0 <= i < r@.len() && #[trigger] r@[i]@.0 == t,
{
    let ghost toks = tokens.deep_view();
    let mut counts: Vec<TermCount> = Vec::new();
    let mut j: usize = 0;
    while j < tokens.len()
        invariant
            0 <= j <= tokens.len(),
            toks == tokens.deep_view(),
            toks.len() == tokens@.len(),
            forall|i: int, k: int| 0 <= i < k < counts@.len()
                ==> #[trigger] counts@[i]@.0 != #[trigger] counts@[k]@.0,
            forall|i: int| 0 <= i < counts@.len()
                ==> #[trigger] counts@[i]@.1 == count_of(toks.take(j as int), counts@[i]@.0)
                    && counts@[i]@.1 >= 1,
            forall|t: Seq<char>| #[trigger] count_of(toks.take(j as int), t) > 0
                ==> exists|i: int| 0 <= i < counts@.len() && #[trigger] counts@[i]@.0 == t,
        decreases tokens.len() - j,
    {
        let ghost tv = toks[j as int];
        proof {
            assert(toks.take(j + 1).drop_last() =~= toks.take(j as int));
            assert(toks.take(j + 1).last() == tv);
            assert(tv == tokens@[j as int]@);
        }
        let mut found: bool = false;
        let mut at: usize = 0;
        let mut i: usize = 0;
        while i < counts.len()
            invariant
                0 <= i <= counts@.len(),
                j < tokens@.len(),
                tv == tokens@[j as int]@,
                !found ==> forall|k: int| 0 <= k < i ==> #[trigger] counts@[k]@.0 != tv,
                found ==> at < counts@.len() && counts@[at as int]@.0 == tv,
            decreases counts@.len() - i,
        {
            if !found && counts[i].token == tokens[j] {
                found = true;
                at = i;
            }
            i = i + 1;
        }
        proof {
            assert forall|t: Seq<char>| t != tv implies
                count_of(toks.take(j + 1), t) == count_of(toks.take(j as int), t) by {
                assert(toks.take(j + 1).drop_last() =~= toks.take(j as int));
            }
            assert(count_of(toks.take(j + 1), tv) == count_of(toks.take(j as int), tv) + 1);
        }
        let ghost cs0 = counts@;
        if found {
            proof {
                lemma_count_of_le_len(toks.take(j as int), tv);
                assert(counts@[at as int]@.1 == count_of(toks.take(j as int), tv));
            }
            let c = counts[at].count;
            let tok = counts[at].token.clone();
            counts.set(at, TermCount { token: tok, count: c + 1 });
            proof {
                assert(counts@[at as int]@.0 == tv);
                assert forall|i0: int| 0 <= i0 < counts@.len() implies
                    #[trigger] counts@[i0]@.1 == count_of(toks.take(j + 1), counts@[i0]@.0)
                        && counts@[i0]@.1 >= 1 by {
                    if i0 != at {
                        assert(counts@[i0]@.0 != tv);
                    }
                }
                assert forall|t: Seq<char>| #[trigger] count_of(toks.take(j + 1), t) > 0 implies
                    exists|i0: int| 0 <= i0 < counts@.len() && #[trigger] counts@[i0]@.0 == t by {
                    if t == tv {
                        assert(counts@[at as int]@.0 == t);
                    } else {
                        assert(count_of(toks.take(j as int), t) > 0);
                        let i0 = choose|i0: int|
                            0 <= i0 < cs0.len() && #[trigger] cs0[i0]@.0 == t;
                        assert(i0 != at);
                        assert(counts@[i0]@.0 == t);
                    }
                }
            }
        } else {
            proof {
                assert(count_of(toks.take(j as int), tv) == 0) by {
                    if count_of(toks.take(j as int), tv) > 0 {
                        let i0 = choose|i0: int|
                            0 <= i0 < counts@.len() && #[trigger] counts@[i0]@.0 == tv;
                        assert(false);
                    }
                }
            }
            counts.push(TermCount { token: tokens[j].clone(), count: 1 });
            proof {
                let last = counts@.len() - 1;
                assert(counts@[last]@.0 == tv);
                assert(counts@[last]@.1 == 1);
                assert forall|t: Seq<char>| #[trigger] count_of(toks.take(j + 1), t) > 0 implies
                    exists|i0: int| 0 <= i0 < counts@.len() && #[trigger] counts@[i0]@.0 == t by {
                    if t == tv {
                        assert(counts@[last]@.0 == t);
                    } else {
                        assert(count_of(toks.take(j as int), t) > 0);
                        let i0 = choose|i0: int|
                            0 <= i0 < cs0.len() && #[trigger] cs0[i0]@.0 == t;
                        assert(counts@[i0]@.0 == t);
                    }
                }
            }
        }
        j = j + 1;
    }
    proof {
        assert(toks.take(tokens@.len() as int) =~= toks);
    }
    counts
}

} // verus!
