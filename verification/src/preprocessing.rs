//! Tokenization: lower-case the input, split it into word runs, and drop
//! the empty runs that the word-boundary pattern can produce.
use vstd::prelude::*;

verus! {

/// The character sequence that lower-casing yields; it depends on the
/// input characters alone.
pub uninterp spec fn lower_of(s: Seq<char>) -> Seq<char>;

/// The word runs that the word-boundary pattern finds in a text, in input
/// order; they depend on the input characters alone.
pub uninterp spec fn word_runs_of(s: Seq<char>) -> Seq<Seq<char>>;

/// Relies on str::to_lowercase: the result depends on the characters alone,
/// and an empty string stays empty.
#[verifier::external_body]
fn lowercase(s: &str) -> (r: String)
    ensures
        r@ == lower_of(s@),
        s@.len() == 0 ==> r@.len() == 0,
{
    s.to_lowercase()
}

/// Relies on regex::Regex::find_iter: with a fixed pattern the matches
/// depend on the text alone, come in input order, and an empty text has
/// no word boundary, hence no match.
#[verifier::external_body]
fn word_runs(s: &str) -> (r: Vec<String>)
    ensures
        r.deep_view() == word_runs_of(s@),
        s@.len() == 0 ==> r@.len() == 0,
{
    let pattern = regex::Regex::new(r"\b\w*\b").unwrap();
    pattern.find_iter(s).map(|m| m.as_str().to_string()).collect()
}

/// The subsequence of non-empty runs, in order.
pub open spec fn nonempty_runs(rs: Seq<Seq<char>>) -> Seq<Seq<char>>
    decreases rs.len(),
{
    if rs.len() == 0 {
        Seq::empty()
    } else if rs.last().len() > 0 {
        nonempty_runs(rs.drop_last()).push(rs.last())
    } else {
        nonempty_runs(rs.drop_last())
    }
}

/// The token sequence of a text: lower-case it, take its word runs, and
/// keep only the non-empty ones.
pub open spec fn spec_tokens(s: Seq<char>) -> Seq<Seq<char>> {
    nonempty_runs(word_runs_of(lower_of(s)))
}

/// Splits a text into lower-cased word tokens. Tokens keep input order,
/// are not deduplicated, and are never empty; an empty input yields an
/// empty sequence.
pub fn tokenize(text: String) -> (r: Vec<String>)
    ensures
        r.deep_view() == spec_tokens(text@),
        forall|i: int| 0 <= i < r@.len() ==> #[trigger] r@[i]@.len() > 0,
        text@.len() == 0 ==> r@.len() == 0,
{
    let lowered = lowercase(text.as_str());
    let runs = word_runs(lowered.as_str());
    let mut out: Vec<String> = Vec::new();
    let ghost all = runs.deep_view();
    let mut i: usize = 0;
    while i < runs.len()
        invariant
            0 <= i <= runs.len(),
            all == runs.deep_view(),
            all.len() == runs@.len(),
            out.deep_view() == nonempty_runs(all.take(i as int)),
            forall|k: int| 0 <= k < out@.len() ==> #[trigger] out@[k]@.len() > 0,
        decreases runs.len() - i,
    {
        proof {
            assert(all.take(i + 1).drop_last() =~= all.take(i as int));
            assert(all.take(i + 1).last() == all[i as int]);
            assert(all[i as int] == runs@[i as int]@);
        }
        if !runs[i].as_str().is_empty() {
            out.push(runs[i].clone());
            proof {
                assert(out.deep_view() =~= nonempty_runs(all.take(i + 1)));
            }
        } else {
            proof {
                assert(out.deep_view() =~= nonempty_runs(all.take(i + 1)));
            }
        }
        i = i + 1;
    }
    proof {
        assert(all.take(runs@.len() as int) =~= all);
        assert(nonempty_runs(all) =~= spec_tokens(text@));
    }
    out
}

} // verus!
