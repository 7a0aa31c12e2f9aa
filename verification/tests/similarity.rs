use jaccard_graph::aggregate::group_rating_by_game;
use jaccard_graph::ingest::Rating;
use jaccard_graph::score::Score;
use jaccard_graph::similarity::compute_jaccard_similarities;
use jaccard_graph::similarity::score_pair;
use jaccard_graph::similarity::ScoredPair;

fn rating(item_id: i32, participant: &str) -> Rating {
    Rating { item_id, participant_id: participant.to_string() }
}

fn sample_ratings() -> Vec<Rating> {
    vec![
        rating(1, "u1"),
        rating(1, "u2"),
        rating(1, "u3"),
        rating(2, "u2"),
        rating(2, "u3"),
        rating(2, "u4"),
        rating(3, "u5"),
        rating(3, "u6"),
    ]
}

#[test]
fn the_example_has_one_pair_of_one_half() {
    let items = group_rating_by_game(sample_ratings(), 2);
    let scores = compute_jaccard_similarities(&items);
    assert_eq!(scores, vec![ScoredPair { a: 1, b: 2, score: Score { overlap: 2, coverage: 4 } }]);
    assert_eq!(scores[0].score.overlap as f32 / scores[0].score.coverage as f32, 0.5);
}

#[test]
fn three_items_give_three_scored_pairs() {
    let items = group_rating_by_game(sample_ratings(), 1);
    let scores = compute_jaccard_similarities(&items);
    assert_eq!(
        scores,
        vec![
            ScoredPair { a: 1, b: 2, score: Score { overlap: 2, coverage: 4 } },
            ScoredPair { a: 1, b: 3, score: Score { overlap: 0, coverage: 5 } },
            ScoredPair { a: 2, b: 3, score: Score { overlap: 0, coverage: 5 } },
        ]
    );
}

#[test]
fn score_pair_scores_two_positions() {
    let items = group_rating_by_game(sample_ratings(), 1);
    assert_eq!(
        score_pair(&items, 1, 0),
        ScoredPair { a: 2, b: 1, score: Score { overlap: 2, coverage: 4 } }
    );
}

#[test]
fn no_items_give_no_scores() {
    let items = group_rating_by_game(sample_ratings(), 3);
    assert_eq!(items.len(), 0);
    assert!(compute_jaccard_similarities(&items).is_empty());
}
