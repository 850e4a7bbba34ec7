use aichat::fusion::{fusion_scores, reciprocal_rank_fusion};
use aichat::vector_id::{combine_vector_id, split_vector_id};

#[test]
fn fusion_of_two_lists() {
    let fused = reciprocal_rank_fusion(vec![10, 20, 30], vec![20, 40, 10], 1, 1, 3);
    assert_eq!(fused, vec![20, 10, 40]);
}

fn number(limbs: &[u32]) -> u128 {
    limbs.iter().rev().fold(0u128, |value, limb| value * (1u128 << 32) + *limb as u128)
}

fn numbers(keys: &[Vec<u32>]) -> Vec<u128> {
    keys.iter().map(|key| number(key)).collect()
}

#[test]
fn fusion_scores_are_sums_of_contributions() {
    let (ids, keys) = fusion_scores(&vec![10, 20, 30], &vec![20, 40, 10], 1, 1, 3);
    let denominator: u128 = 7 * 8 * 9;
    assert_eq!(ids, vec![10, 20, 30, 40]);
    assert_eq!(
        numbers(&keys),
        vec![
            denominator / 7 + denominator / 9,
            denominator / 8 + denominator / 7,
            denominator / 9,
            denominator / 8,
        ]
    );
}

#[test]
fn id_packing() {
    assert_eq!(combine_vector_id(1, 2), (1 << (usize::BITS / 2)) | 2);
    assert_eq!(split_vector_id((3 << (usize::BITS / 2)) | 7), (3, 7));
}

#[test]
fn fusion_breaks_ties_by_first_appearance() {
    assert_eq!(reciprocal_rank_fusion(vec![5], vec![9], 1, 1, 2), vec![5, 9]);
    assert_eq!(reciprocal_rank_fusion(vec![9], vec![5], 1, 1, 2), vec![9, 5]);
    assert_eq!(reciprocal_rank_fusion(vec![1, 2], vec![2, 1], 1, 1, 2), vec![1, 2]);
}

#[test]
fn fusion_returns_at_most_top_k() {
    assert_eq!(reciprocal_rank_fusion(vec![1, 2, 3], vec![4, 5], 1, 1, 0), Vec::<usize>::new());
    assert_eq!(reciprocal_rank_fusion(vec![1, 2, 3], vec![4, 5], 1, 1, 1).len(), 1);
    assert_eq!(reciprocal_rank_fusion(vec![1, 2, 3], vec![4, 5], 1, 1, 9).len(), 5);
    assert_eq!(reciprocal_rank_fusion(vec![], vec![], 1, 1, 9), Vec::<usize>::new());
}

#[test]
fn fusion_weights_the_lists() {
    assert_eq!(reciprocal_rank_fusion(vec![1], vec![2], 1, 3, 2), vec![2, 1]);
    assert_eq!(reciprocal_rank_fusion(vec![1], vec![2], 3, 1, 2), vec![1, 2]);
    assert_eq!(reciprocal_rank_fusion(vec![1], vec![2], 0, 0, 2), vec![1, 2]);
    let (_, keys) = fusion_scores(&vec![1], &vec![2], 2, 3, 1);
    assert_eq!(numbers(&keys), vec![2, 3]);
    let halves = reciprocal_rank_fusion(vec![1, 2, 3], vec![3, 2], 1, 2, 3);
    let scaled = reciprocal_rank_fusion(vec![1, 2, 3], vec![3, 2], 500, 1000, 3);
    assert_eq!(halves, scaled);
}

#[test]
fn fusion_adds_repeated_occurrences() {
    let (ids, keys) = fusion_scores(&vec![7, 8, 7], &vec![], 1, 1, 1);
    assert_eq!(ids, vec![7, 8]);
    assert_eq!(numbers(&keys), vec![4 * 5 + 3 * 4, 3 * 5]);
    assert_eq!(reciprocal_rank_fusion(vec![7, 8, 7], vec![], 1, 1, 1), vec![7]);
}

#[test]
fn fusion_keeps_exact_ties_in_order_of_appearance() {
    assert_eq!(reciprocal_rank_fusion(vec![1, 2], vec![3, 2, 4, 1], 1, 1, 1), vec![1]);
    let (ids, keys) = fusion_scores(&vec![1, 2], &vec![3, 2, 4, 1], 1, 1, 1);
    let scores = numbers(&keys);
    assert_eq!(ids, vec![1, 2, 3, 4]);
    assert_eq!(scores[0], scores[1]);
    assert_eq!(scores[0], 3 * 4 * 5 * 6 / 2);
}

#[test]
fn fusion_tells_close_scores_apart() {
    assert_eq!(reciprocal_rank_fusion(vec![7, 8], vec![9], 1, 1, 30000), vec![7, 9, 8]);
    let (_, keys) = fusion_scores(&vec![7, 8], &vec![9], 1, 1, 30000);
    assert_eq!(numbers(&keys), vec![60002, 60001, 60002]);
    assert_eq!(reciprocal_rank_fusion(vec![7, 8], vec![9], 1, 1, usize::MAX), vec![7, 9, 8]);
}

#[test]
fn fusion_of_long_lists_is_exact() {
    let vector_ids: Vec<usize> = (0..60).collect();
    let text_ids: Vec<usize> = (0..60).rev().collect();
    let fused = reciprocal_rank_fusion(vector_ids.clone(), text_ids.clone(), 1, 1, 60);
    let score = |id: usize| 1.0 / (121.0 + id as f64) + 1.0 / (121.0 + (59 - id) as f64);
    let mut expected: Vec<usize> = (0..60).collect();
    expected.sort_by(|a, b| {
        let (low_a, low_b) = ((*a).min(59 - *a), (*b).min(59 - *b));
        low_a.cmp(&low_b).then(a.cmp(b))
    });
    assert_eq!(fused, expected);
    assert!(score(0) > score(1));
    let (_, keys) = fusion_scores(&vector_ids, &text_ids, 1, 1, 60);
    assert_eq!(keys[0], keys[59]);
    assert_eq!(keys[20], keys[39]);
}

#[test]
fn id_round_trip() {
    let limit = 1usize << (usize::BITS / 2);
    for (f, c) in [(0, 0), (0, 1), (1, 0), (12, 34), (limit - 1, 0), (0, limit - 1), (limit - 1, limit - 1)] {
        assert_eq!(split_vector_id(combine_vector_id(f, c)), (f, c));
        assert_eq!(combine_vector_id(f, c), f * limit + c);
    }
    let id = usize::MAX - 5;
    let (f, c) = split_vector_id(id);
    assert_eq!(combine_vector_id(f, c), id);
}
