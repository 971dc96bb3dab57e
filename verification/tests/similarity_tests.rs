//! Tests of the similarity engine: score computation over distance-two
//! pairs, summary statistics, and threshold counts.

use social_similarity::network_graph::SocialNetwork;
use social_similarity::similarity_analysis::PairScore;
use social_similarity::similarity_analysis::Score;
use social_similarity::similarity_analysis::calculate_jaccard_scores;
use social_similarity::similarity_analysis::compute_thresholds;
use social_similarity::similarity_analysis::summarize_scores;

fn build(edges: &[(usize, usize)]) -> SocialNetwork {
    let mut network = SocialNetwork::new();
    for &(from, to) in edges {
        network.add_node(from);
        network.add_node(to);
        network.connect_nodes(from, to);
    }
    network
}

fn find_score(scores: &[PairScore], a: usize, b: usize) -> Option<Score> {
    scores.iter().find(|e| e.a == a && e.b == b).map(|e| e.score)
}

fn entry(a: usize, b: usize, num: usize, den: usize) -> PairScore {
    PairScore { a, b, score: Score { num, den } }
}

#[test]
fn diamond_pair_with_empty_second_set_scores_zero() {
    // 1 -> 2, 1 -> 3, 2 -> 4, 3 -> 4: node 4 is at distance two from
    // node 1 along two paths; its own neighbor set is empty, so the
    // intersection is empty and the score is zero.
    let network = build(&[(1, 2), (1, 3), (2, 4), (3, 4)]);
    let scores = calculate_jaccard_scores(&network);
    assert_eq!(scores.len(), 1);
    let s = find_score(&scores, 1, 4).expect("pair (1, 4) must be recorded");
    assert_eq!(s.num, 0);
    assert_eq!(s.den, 2);
}

#[test]
fn two_route_pair_with_empty_second_set_scores_zero() {
    // 1 -> 2, 2 -> 3, 1 -> 4, 4 -> 3: node 3 is at distance two from
    // node 1; its neighbor set is empty.
    let network = build(&[(1, 2), (2, 3), (1, 4), (4, 3)]);
    let scores = calculate_jaccard_scores(&network);
    assert_eq!(scores.len(), 1);
    let s = find_score(&scores, 1, 3).expect("pair (1, 3) must be recorded");
    assert_eq!(s.num, 0);
    assert_eq!(s.den, 2);
}

#[test]
fn equal_nonempty_neighbor_sets_score_one() {
    // 1 -> 2 -> 3 and 3 -> 2: both node 1 and node 3 point exactly at
    // node 2, so their sets fully overlap.
    let network = build(&[(1, 2), (2, 3), (3, 2)]);
    let scores = calculate_jaccard_scores(&network);
    let s = find_score(&scores, 1, 3).expect("pair (1, 3) must be recorded");
    assert_eq!(s.num, 1);
    assert_eq!(s.den, 1);
}

#[test]
fn disjoint_nonempty_neighbor_sets_score_zero() {
    // 1 -> 2 -> 3 -> 4: nodes 1 and 3 have disjoint, non-empty sets.
    let network = build(&[(1, 2), (2, 3), (3, 4)]);
    let scores = calculate_jaccard_scores(&network);
    let s = find_score(&scores, 1, 3).expect("pair (1, 3) must be recorded");
    assert_eq!(s.num, 0);
    assert_eq!(s.den, 2);
    // Node 4 is at distance two from node 2 and has no outgoing edges.
    let s2 = find_score(&scores, 2, 4).expect("pair (2, 4) must be recorded");
    assert_eq!(s2.num, 0);
    assert_eq!(s2.den, 1);
}

#[test]
fn partial_overlap_scores_exact_ratio() {
    // N(1) = {2, 3}, N(4) = {3, 5}: intersection {3}, union {2, 3, 5}.
    let network = build(&[(1, 2), (1, 3), (2, 4), (4, 3), (4, 5)]);
    let scores = calculate_jaccard_scores(&network);
    let s = find_score(&scores, 1, 4).expect("pair (1, 4) must be recorded");
    assert_eq!(s.num, 1);
    assert_eq!(s.den, 3);
}

#[test]
fn duplicate_edges_collapse_in_neighbor_sets() {
    let network = build(&[(1, 2), (1, 2), (2, 3)]);
    let scores = calculate_jaccard_scores(&network);
    let s = find_score(&scores, 1, 3).expect("pair (1, 3) must be recorded");
    // N(1) = {2} despite the parallel edge; N(3) is empty.
    assert_eq!(s.num, 0);
    assert_eq!(s.den, 1);
}

#[test]
fn pairs_at_other_distances_are_not_recorded() {
    let network = build(&[(1, 2), (2, 3), (3, 4)]);
    let scores = calculate_jaccard_scores(&network);
    assert_eq!(find_score(&scores, 1, 2), None); // distance one
    assert_eq!(find_score(&scores, 1, 4), None); // distance three
    assert_eq!(find_score(&scores, 3, 1), None); // unreachable
    assert_eq!(find_score(&scores, 1, 1), None); // distance zero
}

#[test]
fn summarize_single_half_score() {
    let scores = vec![entry(1, 2, 1, 2)];
    let summary = summarize_scores(&scores).expect("one score present");
    assert_eq!(summary.average_micros, 500_000);
    assert_eq!(summary.max, Score { num: 1, den: 2 });
    assert_eq!(summary.max_pairs.len(), 1);
    assert_eq!(summary.max_pairs[0], entry(1, 2, 1, 2));
}

#[test]
fn summarize_empty_map_is_no_data() {
    let scores: Vec<PairScore> = Vec::new();
    assert!(summarize_scores(&scores).is_none());
}

#[test]
fn summarize_collects_rationally_equal_ties_in_order() {
    // One half, one quarter, and two quarters: the maximum is one half.
    let scores = vec![entry(1, 2, 1, 2), entry(3, 4, 1, 4), entry(5, 6, 2, 4)];
    let summary = summarize_scores(&scores).expect("scores present");
    assert_eq!(summary.max, Score { num: 1, den: 2 });
    assert_eq!(summary.max_pairs, vec![entry(1, 2, 1, 2), entry(5, 6, 2, 4)]);
    // 500000 + 250000 + 500000 = 1250000; divided by 3, rounded down.
    assert_eq!(summary.average_micros, 416_666);
}

#[test]
fn summarize_all_zero_scores_keeps_zero_maximum() {
    let scores = vec![entry(1, 2, 0, 3), entry(4, 5, 0, 1)];
    let summary = summarize_scores(&scores).expect("scores present");
    assert_eq!(summary.average_micros, 0);
    assert_eq!(summary.max, Score { num: 0, den: 1 });
    assert_eq!(summary.max_pairs.len(), 2);
}

#[test]
fn thresholds_count_strictly_greater_scores() {
    // Scores 0.3, 0.6, 0.6.
    let scores = vec![entry(1, 2, 3, 10), entry(3, 4, 6, 10), entry(5, 6, 6, 10)];
    let rows = compute_thresholds(&scores);
    assert_eq!(rows.len(), 10);
    for (i, row) in rows.iter().enumerate() {
        assert_eq!(row.tenths as usize, i + 1);
        assert_eq!(row.total, 3);
    }
    assert_eq!(rows[0].count, 3); // above 0.1
    assert_eq!(rows[1].count, 3); // above 0.2
    assert_eq!(rows[2].count, 2); // above 0.3: 0.3 itself is not counted
    assert_eq!(rows[3].count, 2); // above 0.4
    assert_eq!(rows[4].count, 2); // above 0.5: two of three, about 66.7%
    assert_eq!(rows[5].count, 0); // above 0.6: 0.6 itself is not counted
    assert_eq!(rows[9].count, 0); // above 1.0
}

#[test]
fn thresholds_on_empty_map_report_zero_of_zero() {
    let scores: Vec<PairScore> = Vec::new();
    let rows = compute_thresholds(&scores);
    assert_eq!(rows.len(), 10);
    for row in rows.iter() {
        assert_eq!(row.count, 0);
        assert_eq!(row.total, 0);
    }
}

#[test]
fn end_to_end_scores_feed_both_reducers() {
    let network = build(&[(1, 2), (1, 3), (2, 4), (3, 4)]);
    let scores = calculate_jaccard_scores(&network);
    let summary = summarize_scores(&scores).expect("one score present");
    assert_eq!(summary.average_micros, 0);
    assert_eq!(summary.max, Score { num: 0, den: 1 });
    let rows = compute_thresholds(&scores);
    assert_eq!(rows[0].count, 0);
    assert_eq!(rows[0].total, 1);
}
