use jaccard_graph::aggregate::group_rating_by_game;
use jaccard_graph::graph::accumulate;
use jaccard_graph::ingest::Rating;
use jaccard_graph::rank::rank_pairs;
use jaccard_graph::rank::DegeneracyFilter;
use jaccard_graph::similarity::compute_jaccard_similarities;
use std::collections::HashMap;
use std::collections::HashSet;

fn pseudo_random_ratings(seed: u64, count: usize, items: u64, users: u64) -> Vec<Rating> {
    let mut state = seed;
    let mut next = move || {
        state = state.wrapping_mul(6364136223846793005).wrapping_add(1442695040888963407);
        state >> 33
    };
    (0..count)
        .map(|_| Rating {
            item_id: (next() % items) as i32 - 3,
            participant_id: format!("user-{}", next() % users),
        })
        .collect()
}

fn direct_sets(ratings: &[Rating], threshold: usize) -> HashMap<i32, HashSet<String>> {
    let mut sets: HashMap<i32, HashSet<String>> = HashMap::new();
    for rating in ratings {
        sets.entry(rating.item_id).or_default().insert(rating.participant_id.clone());
    }
    sets.retain(|_, set| set.len() > threshold);
    sets
}

#[test]
fn the_item_sets_agree_with_a_direct_grouping() {
    for seed in 0..6 {
        let ratings = pseudo_random_ratings(seed, 400, 15, 40);
        for threshold in [0, 5, 18, 25, 40] {
            let expected = direct_sets(&ratings, threshold);
            let items = group_rating_by_game(ratings.clone(), threshold);
            assert_eq!(items.len(), expected.len());
            let mut first_seen: Vec<i32> = Vec::new();
            for rating in ratings.iter() {
                if expected.contains_key(&rating.item_id) && !first_seen.contains(&rating.item_id)
                {
                    first_seen.push(rating.item_id);
                }
            }
            assert_eq!(items.keys(), first_seen);
            for k in 0..items.len() {
                let set: HashSet<String> = items.participants(k).to_vec().into_iter().collect();
                assert_eq!(items.participants(k).len(), set.len());
                assert!(set.len() > threshold);
                assert_eq!(&set, &expected[&items.item_id(k)]);
            }
        }
    }
}

#[test]
fn the_scores_agree_with_a_direct_computation() {
    let ratings = pseudo_random_ratings(11, 300, 12, 30);
    let expected = direct_sets(&ratings, 4);
    let items = group_rating_by_game(ratings, 4);
    let scores = compute_jaccard_similarities(&items);
    assert_eq!(scores.len(), items.len() * (items.len() - 1) / 2);
    for pair in scores.iter() {
        let a = &expected[&pair.a];
        let b = &expected[&pair.b];
        assert_eq!(pair.score.overlap as usize, a.intersection(b).count());
        assert_eq!(pair.score.coverage as usize, a.union(b).count());
    }
}

#[test]
fn the_ranking_agrees_with_a_direct_sort() {
    let ratings = pseudo_random_ratings(23, 500, 14, 25);
    let items = group_rating_by_game(ratings, 3);
    let scores = compute_jaccard_similarities(&items);
    let mut expected: Vec<_> = scores.iter().copied().filter(|p| p.score.overlap != 0).collect();
    expected.sort_by(|x, y| {
        let left = y.score.overlap as u128 * x.score.coverage as u128;
        let right = x.score.overlap as u128 * y.score.coverage as u128;
        left.cmp(&right).then((x.a, x.b, x.score.overlap).cmp(&(y.a, y.b, y.score.overlap)))
    });
    let ranked = rank_pairs(scores.clone(), DegeneracyFilter::ZeroOnly, usize::MAX);
    assert_eq!(ranked, expected);
    let top = rank_pairs(scores, DegeneracyFilter::ZeroOnly, 7);
    assert_eq!(top[..], expected[..7]);
}

#[test]
fn the_weights_agree_with_a_direct_sum() {
    let ratings = pseudo_random_ratings(5, 500, 10, 20);
    let items = group_rating_by_game(ratings, 2);
    let edges = rank_pairs(compute_jaccard_similarities(&items), DegeneracyFilter::ZeroOnly, 30);
    let table = accumulate(&edges);
    let mut expected: HashMap<i32, u128> = HashMap::new();
    let mut order: Vec<i32> = Vec::new();
    for edge in edges.iter() {
        let units = (edge.score.overlap as u128 * 1_000_000_000) / edge.score.coverage as u128;
        for item in [edge.a, edge.b] {
            if !order.contains(&item) {
                order.push(item);
            }
            *expected.entry(item).or_default() += units;
        }
    }
    assert_eq!(table.len(), order.len());
    for (k, item) in order.iter().enumerate() {
        assert_eq!(table.item_id(k), *item);
        assert_eq!(table.weight(k), expected[item]);
    }
}
