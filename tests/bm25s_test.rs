use bm25s::{document_frequencies, score_key, tokenize_corpus, tokenize_query, IndexError, BM25S, FORMAT_TAG};
use std::collections::HashMap;

fn bm25_score(tf: f64, idf: f64, doc_len: f64, avg: f64, k1: f64, b: f64) -> f64 {
    (tf * idf) / (tf + k1 * (1.0 - b + b * (doc_len / avg)))
}

fn sum_scores(contributions: &Vec<Vec<u64>>) -> Vec<u64> {
    contributions
        .iter()
        .map(|c| c.iter().map(|s| f64::from_bits(*s)).sum::<f64>().to_bits())
        .collect()
}

fn as_f64(ranked: &Vec<(usize, u64)>) -> Vec<(usize, f64)> {
    ranked.iter().map(|(d, s)| (*d, f64::from_bits(*s))).collect()
}

fn build_corpus_index(corpus: &[&str], k1: f64, b: f64) -> (BM25S, HashMap<String, usize>) {
    let (ids, vocab) = tokenize_corpus(corpus);
    let df = document_frequencies(&ids, vocab.len());
    let n = corpus.len() as f64;
    let idf: Vec<f64> = df.iter().map(|&c| ((n - c as f64 + 0.5) / (c as f64 + 0.5)).ln() + 1.0).collect();
    let total: usize = ids.iter().map(|d| d.len()).sum();
    let avg = total as f64 / n;
    let mut index = BM25S::new(corpus.len(), avg.to_bits(), k1.to_bits(), b.to_bits()).unwrap();
    let rows: Vec<Vec<(usize, u64)>> = ids
        .iter()
        .map(|doc| {
            let len = doc.len() as f64;
            doc.iter().map(|&t| (t, bm25_score(1.0, idf[t], len, avg, k1, b).to_bits())).collect()
        })
        .collect();
    index.index(rows, idf.len()).unwrap();
    (index, vocab)
}

const ANIMALS: [&str; 4] = [
    "a cat is a feline and likes to purr",
    "a dog is the human's best friend and loves to play",
    "a bird is a beautiful animal that can fly",
    "a fish is a creature that lives in water and swims",
];

#[test]
fn test_bm25_with_corpus() {
    let (bm25s, term_to_id) = build_corpus_index(&ANIMALS, 1.5, 0.75);
    let query = "does the fish purr like a cat?";
    let scores = sum_scores(&bm25s.query(tokenize_query(query, &term_to_id)));
    let top_k_results = bm25s.top_k(scores, 2);
    for (i, (doc_id, score)) in as_f64(&top_k_results).iter().enumerate() {
        println!("Rank {} (score: {:.2}): {}", i + 1, score, ANIMALS[*doc_id]);
    }
    let saved = bm25s.save();
    let reloaded_bm25s = BM25S::load(&saved).unwrap();
    let reloaded_scores = sum_scores(&reloaded_bm25s.query(tokenize_query(query, &term_to_id)));
    let reloaded_top_k_results = reloaded_bm25s.top_k(reloaded_scores, 2);
    assert_eq!(top_k_results, reloaded_top_k_results);
}

#[test]
fn fish_scenario_ranks_only_matching_document() {
    let k1 = 1.5;
    let b = 0.75;
    let lengths = [8.0, 10.0, 8.0, 9.0];
    let avg = (8.0 + 10.0 + 8.0 + 9.0) / 4.0;
    let fish: usize = 7;
    let mut index = BM25S::new(4, f64::to_bits(avg), f64::to_bits(k1), f64::to_bits(b)).unwrap();
    let other = bm25_score(1.0, 0.4, lengths[0], avg, k1, b).to_bits();
    let rows = vec![
        vec![(0, other), (1, other)],
        vec![(2, other)],
        vec![(0, other)],
        vec![(fish, bm25_score(1.0, 1.3, lengths[3], avg, k1, b).to_bits()), (3, other)],
    ];
    index.index(rows, 8).unwrap();
    let scores = sum_scores(&index.query(vec![fish]));
    assert!(f64::from_bits(scores[3]) > 0.0);
    for d in 0..3 {
        assert_eq!(f64::from_bits(scores[d]), 0.0);
    }
    let top = index.top_k(scores.clone(), 2);
    assert_eq!(top.len(), 2);
    assert_eq!(top[0].0, 3);
    assert_eq!(top[1], (0, scores[0]));
}

#[test]
fn out_of_range_term_is_rejected() {
    let mut index = BM25S::new(2, 4.0f64.to_bits(), 1.2f64.to_bits(), 0.75f64.to_bits()).unwrap();
    let rows = vec![vec![(0, 1.0f64.to_bits())], vec![(3, 1.0f64.to_bits())]];
    assert_eq!(index.index(rows, 3), Err(IndexError::OutOfRangeTermId));
    assert!(index.sparse_matrix().is_empty());
    assert_eq!(index.query(vec![0]), vec![Vec::<u64>::new(), Vec::new()]);
}

#[test]
fn row_count_must_match_document_count() {
    let mut index = BM25S::new(3, 4.0f64.to_bits(), 1.2f64.to_bits(), 0.75f64.to_bits()).unwrap();
    assert_eq!(index.index(vec![vec![], vec![]], 5), Err(IndexError::DimensionMismatch));
}

#[test]
fn invalid_configuration_is_rejected() {
    let ok = |avg: f64, k1: f64, b: f64| BM25S::new(1, avg.to_bits(), k1.to_bits(), b.to_bits()).is_ok();
    assert!(ok(1.0, 0.0, 0.0));
    assert!(ok(1.0, -0.0, 1.0));
    assert!(!ok(0.0, 1.2, 0.75));
    assert!(!ok(-3.0, 1.2, 0.75));
    assert!(!ok(f64::INFINITY, 1.2, 0.75));
    assert!(!ok(f64::NAN, 1.2, 0.75));
    assert!(!ok(5.0, -0.5, 0.75));
    assert!(!ok(5.0, f64::INFINITY, 0.75));
    assert!(!ok(5.0, 1.2, 1.5));
    assert!(!ok(5.0, 1.2, -0.25));
    assert!(matches!(
        BM25S::new(1, 0, 0, 0),
        Err(IndexError::InvalidConfiguration)
    ));
}

#[test]
fn build_appends_postings_in_document_order() {
    let mut index = BM25S::new(2, 2.0f64.to_bits(), 1.2f64.to_bits(), 0.75f64.to_bits()).unwrap();
    index.index(vec![vec![(1, 10), (0, 11), (1, 12)], vec![(1, 13)]], 2).unwrap();
    assert_eq!(index.sparse_matrix(), &vec![vec![(0, 11)], vec![(0, 10), (0, 12), (1, 13)]]);
    index.index(vec![vec![(3, 14)], vec![]], 4).unwrap();
    assert_eq!(index.sparse_matrix().len(), 4);
    assert_eq!(index.sparse_matrix()[3], vec![(0, 14)]);
    assert_eq!(index.sparse_matrix()[1].len(), 3);
}

#[test]
fn query_collects_contributions_per_document() {
    let mut index = BM25S::new(3, 2.0f64.to_bits(), 1.2f64.to_bits(), 0.75f64.to_bits()).unwrap();
    index.index(vec![vec![(0, 1), (1, 2)], vec![(1, 3)], vec![(0, 4)]], 3).unwrap();
    assert_eq!(index.query(vec![0, 1, 0]), vec![vec![1, 2, 1], vec![3], vec![4, 4]]);
    assert_eq!(index.query(vec![]), vec![Vec::<u64>::new(), vec![], vec![]]);
}

#[test]
fn unseen_term_contributes_nothing() {
    let (index, _) = build_corpus_index(&ANIMALS, 1.5, 0.75);
    for t in [1000usize, index.sparse_matrix().len()] {
        assert!(index.query(vec![t]).iter().all(|c| c.is_empty()));
    }
}

#[test]
fn query_of_concatenation_is_sum_of_queries() {
    let (index, vocab) = build_corpus_index(&ANIMALS, 1.5, 0.75);
    let a = vocab["a"];
    let fish = vocab["fish"];
    let both = index.query(vec![a, fish]);
    let qa = index.query(vec![a]);
    let qf = index.query(vec![fish]);
    for d in 0..4 {
        let mut joined = qa[d].clone();
        joined.extend(qf[d].iter());
        assert_eq!(both[d], joined);
        let total: f64 = both[d].iter().map(|s| f64::from_bits(*s)).sum();
        let parts = f64::from_bits(sum_scores(&qa)[d]) + f64::from_bits(sum_scores(&qf)[d]);
        assert!((total - parts).abs() < 1e-12);
    }
}

#[test]
fn top_k_orders_by_score_then_document() {
    let index = BM25S::new(1, 1.0f64.to_bits(), 1.0f64.to_bits(), 0.5f64.to_bits()).unwrap();
    let scores: Vec<u64> = [0.5, f64::NAN, 2.0, -0.0, 2.0, 0.0, -1.0].iter().map(|s: &f64| s.to_bits()).collect();
    let ranked: Vec<usize> = index.top_k(scores.clone(), 10).iter().map(|p| p.0).collect();
    assert_eq!(ranked, vec![2, 4, 0, 3, 5, 6, 1]);
    let top = index.top_k(scores.clone(), 3);
    assert_eq!(top, vec![(2, scores[2]), (4, scores[4]), (0, scores[0])]);
    assert!(index.top_k(scores.clone(), 0).is_empty());
    assert!(index.top_k(Vec::new(), 5).is_empty());
}

#[test]
fn score_keys_follow_numeric_order() {
    assert_eq!(score_key(0.0f64.to_bits()), 0x8000_0000_0000_0000);
    assert_eq!(score_key((-0.0f64).to_bits()), 0x8000_0000_0000_0000);
    assert_eq!(score_key(f64::NAN.to_bits()), 0);
    assert_eq!(score_key(1.0f64.to_bits()), 0xBFF0_0000_0000_0000);
    assert_eq!(score_key((-1.0f64).to_bits()), 0x400F_FFFF_FFFF_FFFF);
    let values = [f64::NEG_INFINITY, -2.5, -1e-300, 0.0, 1e-300, 3.0, f64::INFINITY];
    for w in values.windows(2) {
        assert!(score_key(w[0].to_bits()) < score_key(w[1].to_bits()));
    }
    assert!(score_key(f64::NAN.to_bits()) < score_key(f64::NEG_INFINITY.to_bits()));
}

#[test]
fn save_then_load_answers_every_query_alike() {
    let (index, _) = build_corpus_index(&ANIMALS, 1.2, 0.5);
    let bytes = index.save();
    let loaded = BM25S::load(&bytes).unwrap();
    assert_eq!(loaded.sparse_matrix(), index.sparse_matrix());
    assert_eq!(loaded.doc_count(), index.doc_count());
    assert_eq!(loaded.k1(), 1.2f64.to_bits());
    assert_eq!(loaded.b(), 0.5f64.to_bits());
    assert_eq!(loaded.avg_doc_length(), index.avg_doc_length());
    for t in 0..index.sparse_matrix().len() + 2 {
        assert_eq!(loaded.query(vec![t]), index.query(vec![t]));
    }
    assert_eq!(loaded.save(), bytes);
}

#[test]
fn saved_form_layout() {
    let mut index = BM25S::new(2, 2.0f64.to_bits(), 1.0f64.to_bits(), 0.5f64.to_bits()).unwrap();
    index.index(vec![vec![(0, 9)], vec![]], 1).unwrap();
    let bytes = index.save();
    assert_eq!(bytes.len(), 8 * (6 + 1 + 2));
    assert_eq!(bytes[0..8].to_vec(), FORMAT_TAG.to_le_bytes().to_vec());
    assert_eq!(bytes[8..16].to_vec(), 2u64.to_le_bytes().to_vec());
    assert_eq!(bytes[40..48].to_vec(), 1u64.to_le_bytes().to_vec());
    assert_eq!(bytes[56..64].to_vec(), 0u64.to_le_bytes().to_vec());
    assert_eq!(bytes[64..72].to_vec(), 9u64.to_le_bytes().to_vec());
}

#[test]
fn corrupt_saved_form_is_rejected() {
    let mut index = BM25S::new(2, 2.0f64.to_bits(), 1.0f64.to_bits(), 0.5f64.to_bits()).unwrap();
    index.index(vec![vec![(0, 9)], vec![(1, 8)]], 2).unwrap();
    let bytes = index.save();
    assert_eq!(BM25S::load(&Vec::new()).err(), Some(IndexError::DeserializationError));
    assert!(BM25S::load(&bytes[..bytes.len() - 1].to_vec()).is_err());
    assert!(BM25S::load(&bytes[..bytes.len() - 8].to_vec()).is_err());
    let mut extra = bytes.clone();
    extra.extend_from_slice(&[0u8; 8]);
    assert!(BM25S::load(&extra).is_err());
    let mut tag = bytes.clone();
    tag[0] ^= 1;
    assert!(BM25S::load(&tag).is_err());
    let mut doc = bytes.clone();
    doc[56] = 2;
    assert!(BM25S::load(&doc).is_err());
    let mut avg = bytes.clone();
    avg[16..24].copy_from_slice(&0u64.to_le_bytes());
    assert!(BM25S::load(&avg).is_err());
    assert!(BM25S::load(&bytes).is_ok());
}

#[test]
fn document_frequencies_count_documents_not_occurrences() {
    let corpus = vec![vec![0, 0, 1], vec![1, 2], vec![], vec![1]];
    assert_eq!(document_frequencies(&corpus, 4), vec![1, 3, 1, 0]);
    assert!(document_frequencies(&Vec::new(), 0).is_empty());
}

#[test]
fn tokenize_corpus_assigns_ids_in_first_occurrence_order() {
    let (ids, vocab) = tokenize_corpus(&["b a  b", "", "c\ta\nd"]);
    assert_eq!(ids, vec![vec![0, 1, 0], vec![], vec![2, 1, 3]]);
    assert_eq!(vocab.len(), 4);
    assert_eq!(vocab["b"], 0);
    assert_eq!(vocab["d"], 3);
}

#[test]
fn tokenize_query_drops_unknown_words() {
    let (_, vocab) = tokenize_corpus(&ANIMALS);
    let ids = tokenize_query("  the fish   purr cat? zebra fish", &vocab);
    assert_eq!(ids, vec![vocab["the"], vocab["fish"], vocab["purr"], vocab["fish"]]);
    assert!(tokenize_query("", &vocab).is_empty());
}

#[test]
fn tokenize_corpus_numbers_small_corpus() {
    let (ids, vocab) = tokenize_corpus(&["a b a", "b c"]);
    assert_eq!(ids, vec![vec![0, 1, 0], vec![1, 2]]);
    let mut expected = HashMap::new();
    expected.insert("a".to_string(), 0);
    expected.insert("b".to_string(), 1);
    expected.insert("c".to_string(), 2);
    assert_eq!(vocab, expected);
}

#[test]
fn tokenize_query_gives_first_occurrence_ids() {
    let (_, vocab) = tokenize_corpus(&ANIMALS);
    assert_eq!(tokenize_query("does the fish purr like a cat?", &vocab), vec![9, 21, 7, 0]);
}

#[test]
fn arena_grows_only_to_largest_term() {
    let rows = || vec![vec![(1usize, 5u64)], vec![(0, 6)]];
    let mut small = BM25S::new(2, 2.0f64.to_bits(), 1.0f64.to_bits(), 0.5f64.to_bits()).unwrap();
    let mut large = BM25S::new(2, 2.0f64.to_bits(), 1.0f64.to_bits(), 0.5f64.to_bits()).unwrap();
    small.index(rows(), 2).unwrap();
    large.index(rows(), 1000).unwrap();
    assert_eq!(small.sparse_matrix().len(), 2);
    assert_eq!(large.sparse_matrix().len(), 2);
    assert_eq!(small.save(), large.save());
    let mut empty = BM25S::new(2, 2.0f64.to_bits(), 1.0f64.to_bits(), 0.5f64.to_bits()).unwrap();
    empty.index(vec![vec![], vec![]], 7).unwrap();
    assert!(empty.sparse_matrix().is_empty());
}

#[test]
fn load_rejects_trailing_empty_list() {
    let words = [FORMAT_TAG, 1, 2.0f64.to_bits(), 1.0f64.to_bits(), 0.5f64.to_bits(), 1, 0];
    let bytes: Vec<u8> = words.iter().flat_map(|w| w.to_le_bytes()).collect();
    assert_eq!(BM25S::load(&bytes).err(), Some(IndexError::DeserializationError));
    let words = [FORMAT_TAG, 1, 2.0f64.to_bits(), 1.0f64.to_bits(), 0.5f64.to_bits(), 0];
    let bytes: Vec<u8> = words.iter().flat_map(|w| w.to_le_bytes()).collect();
    assert!(BM25S::load(&bytes).unwrap().sparse_matrix().is_empty());
}
