use hugo_ai::related::select_related;
use hugo_ai::related::MIN_SIMILARITY;
use hugo_ai::related::SIMILARITY_SCALE;

#[test]
fn score_exactly_at_the_minimum_is_kept() {
    let cands = vec![(1u64, MIN_SIMILARITY)];
    assert_eq!(select_related(&cands), vec![1]);
}

#[test]
fn score_just_below_the_minimum_is_dropped() {
    let cands = vec![(1u64, MIN_SIMILARITY - 1)];
    assert_eq!(select_related(&cands), Vec::<u64>::new());
}

#[test]
fn score_just_above_the_minimum_is_kept() {
    let cands = vec![(1u64, MIN_SIMILARITY + 1)];
    assert_eq!(select_related(&cands), vec![1]);
}

#[test]
fn keeps_at_most_three_best_in_descending_order() {
    let cands = vec![
        (10u64, 450_000i64),
        (11, 990_000),
        (12, 600_000),
        (13, 500_000),
    ];
    // Sorted descending the top three are 11, 12, 13; 10 is cut by the
    // limit even though it clears the minimum.
    assert_eq!(select_related(&cands), vec![11, 12, 13]);
}

#[test]
fn below_minimum_entries_inside_the_top_three_are_dropped() {
    let cands = vec![
        (1u64, 900_000i64),
        (2, 100_000),
        (3, 90_000),
        (4, 80_000),
    ];
    assert_eq!(select_related(&cands), vec![1]);
}

#[test]
fn whole_scale_scores_sort_first() {
    let cands = vec![(1u64, SIMILARITY_SCALE), (2, 999_999i64)];
    assert_eq!(select_related(&cands), vec![1, 2]);
}

#[test]
fn equal_scores_keep_their_original_order() {
    let cands = vec![(5u64, 700_000i64), (6, 700_000), (7, 700_000)];
    assert_eq!(select_related(&cands), vec![5, 6, 7]);
}

#[test]
fn empty_candidates_select_nothing() {
    assert_eq!(select_related(&Vec::new()), Vec::<u64>::new());
}
