use jaccard_graph::ingest::Rating;
use jaccard_graph::pipeline::rank_similarities;
use jaccard_graph::pipeline::similarity_graph;
use jaccard_graph::pipeline::Config;
use jaccard_graph::rank::DegeneracyFilter;
use jaccard_graph::score::Score;
use jaccard_graph::similarity::ScoredPair;
use std::collections::HashMap;

fn rating(item_id: i32, participant: &str) -> Rating {
    Rating { item_id, participant_id: participant.to_string() }
}

fn example() -> Vec<Rating> {
    vec![
        rating(1, "u1"),
        rating(1, "u2"),
        rating(1, "u3"),
        rating(2, "u2"),
        rating(2, "u3"),
        rating(2, "u4"),
        rating(3, "u5"),
        rating(3, "u6"),
    ]
}

fn larger() -> Vec<Rating> {
    let mut ratings = Vec::new();
    for item in 0..12 {
        for user in 0..20 {
            if (item * 7 + user * 3) % 5 != 0 || user % (item + 2) == 0 {
                ratings.push(rating(100 - item, &format!("user{}", user)));
            }
        }
    }
    ratings
}

fn config(support_threshold: usize, top_k: usize) -> Config {
    Config {
        support_threshold,
        degeneracy_filter: DegeneracyFilter::ZeroOnly,
        top_k,
        edge_threshold: Score::new(6, 100).unwrap(),
    }
}

#[test]
fn the_example_gives_one_pair_of_one_half() {
    let ranked = rank_similarities(example(), &config(2, 10)).unwrap();
    assert_eq!(ranked, vec![ScoredPair { a: 1, b: 2, score: Score { overlap: 2, coverage: 4 } }]);
    assert_eq!(ranked[0].score.overlap as f32 / ranked[0].score.coverage as f32, 0.5);
}

#[test]
fn with_threshold_one_the_small_item_is_compared_and_its_zero_scores_dropped() {
    let ranked = rank_similarities(example(), &config(1, 10)).unwrap();
    assert_eq!(ranked, vec![ScoredPair { a: 1, b: 2, score: Score { overlap: 2, coverage: 4 } }]);
}

#[test]
fn two_runs_on_the_same_input_give_the_same_output() {
    let first = rank_similarities(larger(), &config(3, 25)).unwrap();
    let second = rank_similarities(larger(), &config(3, 25)).unwrap();
    assert!(!first.is_empty());
    assert!(first.len() <= 25);
    assert_eq!(first, second);
    assert_eq!(format!("{:?}", first), format!("{:?}", second));
}

#[test]
fn the_run_is_ranked_and_free_of_zero_scores() {
    let ranked = rank_similarities(larger(), &config(3, 1000)).unwrap();
    for window in ranked.windows(2) {
        assert!(!window[1].score.is_above(&window[0].score));
    }
    assert!(ranked.iter().all(|p| !p.score.is_zero() && p.a != p.b));
}

#[test]
fn the_graph_of_the_example_has_two_nodes_and_one_edge() {
    let mut catalog: HashMap<i32, String> = HashMap::new();
    catalog.insert(1, "First".to_string());
    let graph = similarity_graph(example(), &config(2, 10), &catalog).unwrap();
    assert_eq!(
        graph.edges,
        vec![ScoredPair { a: 1, b: 2, score: Score { overlap: 2, coverage: 4 } }]
    );
    assert_eq!(graph.nodes.len(), 2);
    assert_eq!((graph.nodes[0].node_id, graph.nodes[0].item_id), (0, 1));
    assert_eq!((graph.nodes[1].node_id, graph.nodes[1].item_id), (1, 2));
    assert_eq!(graph.nodes[0].weight, 500_000_000);
    assert_eq!(graph.nodes[1].weight, 500_000_000);
    assert_eq!(graph.nodes[0].label, Some("First".to_string()));
    assert_eq!(graph.nodes[1].label, None);
}

#[test]
fn no_ratings_give_an_empty_ranking() {
    assert_eq!(rank_similarities(Vec::new(), &config(0, 10)), Some(Vec::new()));
}
