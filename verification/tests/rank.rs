use semsearch::rank::{rank_scores, rank_top_k, score_key};

fn keys(scores: &[f32]) -> Vec<i64> {
    scores.iter().map(|s| score_key(s.to_bits())).collect()
}

fn cosine(a: &[f32], b: &[f32]) -> f32 {
    let dot: f32 = a.iter().zip(b).map(|(x, y)| x * y).sum();
    let na: f32 = a.iter().map(|x| x * x).sum::<f32>().sqrt();
    let nb: f32 = b.iter().map(|x| x * x).sum::<f32>().sqrt();
    if na == 0.0 || nb == 0.0 { 0.0 } else { dot / (na * nb) }
}

fn scores_bits(embeddings: &[Vec<f32>], query: &[f32]) -> Vec<u32> {
    embeddings.iter().map(|e| cosine(query, e).to_bits()).collect()
}

#[test]
fn search_ranks_closest_first_and_respects_top_k() {
    let texts = ["a", "b", "c"];
    let embeddings = [vec![1.0f32, 0.0], vec![0.0, 1.0], vec![0.9, 0.1]];
    let hits = rank_scores(&scores_bits(&embeddings, &[1.0, 0.0]), 2);
    assert_eq!(hits.len(), 2);
    assert_eq!(texts[hits[0]], "a");
    assert_eq!(texts[hits[1]], "c");
}

#[test]
fn top_k_larger_than_chunk_count_returns_all() {
    let embeddings = [vec![1.0f32, 0.0]];
    assert_eq!(rank_scores(&scores_bits(&embeddings, &[1.0, 0.0]), 100).len(), 1);
}

#[test]
fn empty_index_returns_no_hits() {
    assert!(rank_scores(&vec![], 5).is_empty());
}

#[test]
fn large_top_k_returns_all_in_order() {
    assert_eq!(rank_top_k(&keys(&[0.1, 0.3, 0.2]), 100), vec![1, 2, 0]);
}

#[test]
fn zero_top_k_gives_no_hits() {
    assert!(rank_top_k(&keys(&[1.0, 2.0]), 0).is_empty());
}

#[test]
fn ties_keep_original_order() {
    assert_eq!(rank_top_k(&keys(&[0.5, 0.7, 0.5, 0.7, 0.5]), 4), vec![1, 3, 0, 2]);
}

#[test]
fn order_matches_total_cmp_descending_sort() {
    let scores = [
        0.3f32, -0.0, 0.0, f32::NAN, -f32::NAN, f32::INFINITY, f32::NEG_INFINITY, -1.5, 1.5,
        f32::MIN_POSITIVE, -f32::MIN_POSITIVE, 0.3, 1e-45, -1e-45,
    ];
    let mut expected: Vec<usize> = (0..scores.len()).collect();
    expected.sort_by(|&a, &b| scores[b].total_cmp(&scores[a]));
    for k in 0..=scores.len() + 1 {
        let mut cut = expected.clone();
        cut.truncate(k);
        assert_eq!(rank_top_k(&keys(&scores), k), cut, "k = {k}");
        let bits: Vec<u32> = scores.iter().map(|s| s.to_bits()).collect();
        assert_eq!(rank_scores(&bits, k), cut, "k = {k}");
    }
}

#[test]
fn score_keys_compare_like_total_cmp() {
    let values = [
        0.0f32, -0.0, 1.0, -1.0, f32::NAN, -f32::NAN, f32::INFINITY, f32::NEG_INFINITY, 2.5e-40,
        -2.5e-40, f32::MAX, f32::MIN,
    ];
    for a in values {
        for b in values {
            assert_eq!(score_key(a.to_bits()).cmp(&score_key(b.to_bits())), a.total_cmp(&b));
        }
    }
}

#[test]
fn score_key_values() {
    assert_eq!(score_key(0.0f32.to_bits()), 0);
    assert_eq!(score_key((-0.0f32).to_bits()), -1);
    assert_eq!(score_key(1.0f32.to_bits()), 0x3f80_0000);
    assert_eq!(score_key((-1.0f32).to_bits()), -1 - 0x3f80_0000);
}
