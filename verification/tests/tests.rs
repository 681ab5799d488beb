use search::preprocessing::tokenize;
use search::scoring::sort_results;
use search::utils::count_tokens;
use search::{Index, SearchError};

fn score_key(s: f32) -> u64 {
    // Order-preserving embedding of non-negative floats into integers.
    s.to_bits() as u64
}

#[test]
fn test_tokenize() {
    assert_eq!(
        tokenize("Hello World".to_string()),
        vec!["hello".to_string(), "world".to_string()]
    )
}

#[test]
fn tokenize_mixed_separators() {
    assert_eq!(
        tokenize("The cat, the DOG!".to_string()),
        vec![
            "the".to_string(),
            "cat".to_string(),
            "the".to_string(),
            "dog".to_string()
        ]
    );
}

#[test]
fn tokenize_punctuation_only_is_empty() {
    assert_eq!(tokenize("!!! ... ???".to_string()), Vec::<String>::new());
    for t in tokenize("a!b, c-d".to_string()) {
        assert!(!t.is_empty());
    }
}

#[test]
fn tokenize_empty_input_is_empty() {
    assert_eq!(tokenize(String::new()), Vec::<String>::new());
}

#[test]
fn count_tokens_counts_each_token_once() {
    let counts = count_tokens(vec![
        "dog".to_string(),
        "cat".to_string(),
        "dog".to_string(),
    ]);
    assert_eq!(counts.len(), 2);
    let mut dog = 0;
    let mut cat = 0;
    for c in &counts {
        if c.token == "dog" {
            dog = c.count;
        } else if c.token == "cat" {
            cat = c.count;
        } else {
            panic!("unexpected token");
        }
    }
    assert_eq!(dog, 2);
    assert_eq!(cat, 1);
}

#[test]
fn ingestion_records_length_and_counts() {
    let mut ix = Index::new();
    let id = ix.index_document("the cat sat on the mat", "d1");
    assert_eq!(id, 0);
    assert_eq!(ix.documents.len(), 1);
    assert_eq!(ix.documents[0].name, "d1");
    assert_eq!(ix.documents[0].length, 6);
    assert_eq!(ix.posting_count(&"the".to_string(), 0), 2);
    assert_eq!(ix.posting_count(&"cat".to_string(), 0), 1);
    assert_eq!(ix.posting_count(&"dog".to_string(), 0), 0);
}

#[test]
fn document_ids_increase() {
    let mut ix = Index::new();
    assert_eq!(ix.index_document("cat", "a"), 0);
    assert_eq!(ix.index_document("dog", "b"), 1);
    assert_eq!(ix.index_document("cat dog", "c"), 2);
    assert_eq!(ix.posting_count(&"cat".to_string(), 2), 1);
    assert_eq!(ix.posting_count(&"cat".to_string(), 1), 0);
}

#[test]
fn removal_of_absent_term_is_a_no_op() {
    let mut ix = Index::new();
    ix.index_document("the cat sat", "d1");
    let terms_before = ix.index.len();
    let the_before = ix.posting_count(&"the".to_string(), 0);
    assert!(ix.remove("ghost".to_string()).is_ok());
    assert_eq!(ix.index.len(), terms_before);
    assert_eq!(ix.posting_count(&"the".to_string(), 0), the_before);
}

#[test]
fn removal_deletes_whole_posting_list() {
    let mut ix = Index::new();
    ix.index_document("cat dog", "d0");
    ix.index_document("dog bird", "d1");
    assert!(ix.remove("dog".to_string()).is_ok());
    assert_eq!(ix.posting_count(&"dog".to_string(), 0), 0);
    assert_eq!(ix.posting_count(&"dog".to_string(), 1), 0);
    assert_eq!(ix.term_df(&"dog".to_string()), 0);
    assert_eq!(ix.posting_count(&"cat".to_string(), 0), 1);
    assert_eq!(ix.documents.len(), 2);
}

#[test]
fn snapshot_round_trip_restores_the_store() {
    let mut ix = Index::new();
    ix.index_document("the cat sat on the mat", "docs/a.txt");
    ix.index_document("der Grüne Ölberg", "docs/ü.txt");
    ix.index_document("cat cat cat", "docs/c.txt");
    let blob = ix.to_snapshot();
    let loaded = Index::from_snapshot(&blob).expect("snapshot should parse");
    assert_eq!(loaded.documents.len(), ix.documents.len());
    for d in 0..ix.documents.len() {
        assert_eq!(loaded.documents[d].name, ix.documents[d].name);
        assert_eq!(loaded.documents[d].length, ix.documents[d].length);
    }
    assert_eq!(loaded.index.len(), ix.index.len());
    for e in 0..ix.index.len() {
        assert_eq!(loaded.index[e].term, ix.index[e].term);
        assert_eq!(loaded.index[e].postings.len(), ix.index[e].postings.len());
        for a in 0..ix.index[e].postings.len() {
            assert_eq!(
                loaded.index[e].postings[a].doc_id,
                ix.index[e].postings[a].doc_id
            );
            assert_eq!(
                loaded.index[e].postings[a].count,
                ix.index[e].postings[a].count
            );
        }
    }
}

#[test]
fn empty_store_round_trips() {
    let ix = Index::new();
    let blob = ix.to_snapshot();
    let loaded = Index::from_snapshot(&blob).expect("snapshot should parse");
    assert_eq!(loaded.index.len(), 0);
    assert_eq!(loaded.documents.len(), 0);
}

#[test]
fn malformed_snapshot_is_a_parse_error() {
    assert!(matches!(Index::from_snapshot(""), Err(SearchError::Parse)));
    assert!(matches!(
        Index::from_snapshot("not a snapshot"),
        Err(SearchError::Parse)
    ));
    let mut ix = Index::new();
    ix.index_document("cat", "a");
    let mut blob = ix.to_snapshot();
    blob.push('x');
    assert!(matches!(Index::from_snapshot(&blob), Err(SearchError::Parse)));
}

#[test]
fn sort_orders_scores_non_increasing_ties_by_id() {
    let rows = vec![(0usize, 10u64), (1, 30), (2, 20), (3, 30)];
    let sorted = sort_results(rows);
    assert_eq!(sorted, vec![(1, 30), (3, 30), (2, 20), (0, 10)]);
    for w in sorted.windows(2) {
        assert!(w[0].1 >= w[1].1);
    }
}

fn tfidf_scores(ix: &Index, terms: Vec<String>) -> Vec<(usize, f32)> {
    // The floating-point half of ranking, over the exact data the
    // verified core hands out.
    let data = ix.rank_data(&terms);
    let mut rows: Vec<(usize, u64)> = Vec::new();
    let mut scores: Vec<(usize, f32)> = Vec::new();
    for e in &data.entries {
        let mut total = 0.0f32;
        for p in &e.parts {
            total += p.count as f32 * ((data.n_terms as f32) / (p.df as f32)).ln() + 1.0;
        }
        let denom = (e.length as f32).sqrt();
        let score = if denom > 0.0 { total / denom } else { 0.0 };
        rows.push((e.doc_id, score_key(score)));
        scores.push((e.doc_id, score));
    }
    let sorted = sort_results(rows);
    sorted
        .into_iter()
        .map(|(d, _)| {
            let s = scores.iter().find(|p| p.0 == d).unwrap().1;
            (d, s)
        })
        .collect()
}

fn bm25_scores(ix: &Index, query: &str) -> Vec<(usize, f32)> {
    let data = ix.bm25_data(query);
    if data.n_docs == 0 {
        return Vec::new();
    }
    let avgdl = (ix.total_length() as f64 / data.n_docs as f64) as f32;
    let n = data.n_docs as f32;
    let k = 1.5f32;
    let b = 0.75f32;
    let mut idf_sum = 0.0f32;
    for nq in &data.dfs {
        let nqf = *nq as f32;
        idf_sum += ((n - nqf + 0.5) / (nqf + 0.5) + 1.0).ln();
    }
    let mut rows: Vec<(usize, u64)> = Vec::new();
    let mut scores: Vec<(usize, f32)> = Vec::new();
    for row in &data.rows {
        let tf = row.tf as f32;
        let num = tf * (k + 1.0);
        let den = tf + k * (1.0 - b + b * (row.length as f32 / avgdl));
        let score = if den > 0.0 { num / den * idf_sum } else { 0.0 };
        rows.push((row.doc_id, score_key(score)));
        scores.push((row.doc_id, score));
    }
    let sorted = sort_results(rows);
    sorted
        .into_iter()
        .map(|(d, _)| {
            let s = scores.iter().find(|p| p.0 == d).unwrap().1;
            (d, s)
        })
        .collect()
}

#[test]
fn trivial_corpus_scores_exactly_one_document_in_both_models() {
    let mut ix = Index::new();
    ix.index_document("cat", "only");
    let tfidf = tfidf_scores(&ix, vec!["cat".to_string()]);
    assert_eq!(tfidf.len(), 1);
    assert_eq!(tfidf[0].0, 0);
    // One term, one document: tfidf = 1 * ln(1/1) + 1 = 1, then / sqrt(1).
    assert_eq!(tfidf[0].1, 1.0);
    let bm25 = bm25_scores(&ix, "cat");
    assert_eq!(bm25.len(), 1);
    assert_eq!(bm25[0].0, 0);
    // One doc of length 1, avgdl 1: the saturation factor is exactly 1,
    // so the score is the lone idf term, ln((1 - 1 + 0.5)/(1 + 0.5) + 1).
    assert!((bm25[0].1 - (4.0f32 / 3.0).ln()).abs() < 1e-6);
}

#[test]
fn three_document_scenario_ranks_by_occurrences() {
    let mut ix = Index::new();
    ix.index_document("cat dog", "d0");
    ix.index_document("dog dog bird", "d1");
    ix.index_document("bird bird bird", "d2");
    let scores = tfidf_scores(&ix, vec!["dog".to_string()]);
    assert_eq!(scores.len(), 2);
    assert_eq!(scores[0].0, 1);
    assert_eq!(scores[1].0, 0);
    assert!(scores[0].1 > scores[1].1);
    assert!(scores.iter().all(|p| p.0 != 2));
    for w in scores.windows(2) {
        assert!(w[0].1 >= w[1].1);
    }
    // Three terms, "dog" in two documents: tfidf = count * ln(3/2) + 1,
    // normalized by the square root of the document length.
    let expected_d1 = (2.0f32 * 1.5f32.ln() + 1.0) / 3.0f32.sqrt();
    let expected_d0 = (1.0f32 * 1.5f32.ln() + 1.0) / 2.0f32.sqrt();
    assert!((scores[0].1 - expected_d1).abs() < 1e-6);
    assert!((scores[1].1 - expected_d0).abs() < 1e-6);
}

#[test]
fn bm25_scenario_prefers_more_occurrences() {
    let mut ix = Index::new();
    ix.index_document("cat dog", "d0");
    ix.index_document("dog dog bird", "d1");
    ix.index_document("bird bird bird", "d2");
    let data = ix.bm25_data("dog");
    assert_eq!(data.n_docs, 3);
    assert_eq!(data.dfs, vec![2]);
    let scores = bm25_scores(&ix, "dog");
    assert_eq!(scores.len(), 2);
    assert_eq!(scores[0].0, 1);
    assert_eq!(scores[1].0, 0);
    assert!(scores[0].1 > scores[1].1);
    assert!(scores.iter().all(|p| p.0 != 2));
}

#[test]
fn absent_query_terms_contribute_nothing() {
    let mut ix = Index::new();
    ix.index_document("cat dog", "d0");
    let scores = tfidf_scores(&ix, vec!["ghost".to_string()]);
    assert!(scores.is_empty());
    let with_present = tfidf_scores(&ix, vec!["ghost".to_string(), "cat".to_string()]);
    assert_eq!(with_present.len(), 1);
    let bm25 = bm25_scores(&ix, "ghost");
    assert!(bm25.is_empty());
}

#[test]
fn ranking_an_empty_corpus_yields_nothing() {
    let ix = Index::new();
    assert!(tfidf_scores(&ix, vec!["cat".to_string()]).is_empty());
    assert!(bm25_scores(&ix, "cat").is_empty());
}

#[test]
fn cosine_stats_reports_term_data() {
    let mut ix = Index::new();
    ix.index_document("cat dog", "d0");
    ix.index_document("dog dog", "d1");
    let stats = ix.cosine_stats(&"dog".to_string());
    assert_eq!(stats.n_terms, 2);
    assert_eq!(stats.df, 2);
    assert_eq!(stats.rows.len(), 2);
    assert_eq!(stats.rows[0].doc_id, 0);
    assert_eq!(stats.rows[0].count, 1);
    assert_eq!(stats.rows[1].doc_id, 1);
    assert_eq!(stats.rows[1].count, 2);
    let absent = ix.cosine_stats(&"ghost".to_string());
    assert_eq!(absent.df, 0);
    assert!(absent.rows.is_empty());
}
