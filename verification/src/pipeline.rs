//! The whole run: from ratings to the ranked pairs and to the similarity
//! graph.

use crate::aggregate::group_rating_by_game;
use crate::aggregate::items_of;
use crate::aggregate::participants_of;
use crate::aggregate::with_support;
use crate::graph::above_threshold;
use crate::graph::build_graph;
use crate::graph::endpoints;
use crate::graph::incident_units;
use crate::graph::node_at;
use crate::graph::Graph;
use crate::ingest::rating_views;
use crate::ingest::Rating;
use crate::ingest::RatingView;
use crate::jaccard::similarity;
use crate::pairs::index_pairs;
use crate::pairs::lemma_index_pairs;
use crate::pairs::pairs_fit;
use crate::pairs::pairs_fit_in_memory;
use crate::rank::all_valid;
use crate::rank::first_few;
use crate::rank::is_ranking;
use crate::rank::lemma_ranking_unique;
use crate::rank::rank_pairs;
use crate::rank::DegeneracyFilter;
use crate::score::Score;
use crate::similarity::compute_jaccard_similarities;
use crate::similarity::ScoredPair;
use std::collections::HashMap;
use vstd::prelude::*;

verus! {

/// What a run is configured with.
#[derive(Clone, Copy, Debug)]
pub struct Config {
    /// An item is compared only where more participants than this have
    /// rated it.
    pub support_threshold: usize,
    /// Which scores are left out of the ranking.
    pub degeneracy_filter: DegeneracyFilter,
    /// The largest number of pairs that the ranking keeps.
    pub top_k: usize,
    /// A ranked pair becomes an edge of the graph where its score is above
    /// this.
    pub edge_threshold: Score,
}

/// The items that are compared: those that more than `threshold`
/// participants have rated, in the order in which the ratings first name
/// them.
pub open spec fn compared_items(ratings: Seq<RatingView>, threshold: int) -> Seq<i32> {
    with_support(items_of(ratings), ratings, threshold)
}

/// The similarity of every unordered pair of the compared items, in the
/// order of the pair enumerator.
pub open spec fn similarity_scores(ratings: Seq<RatingView>, threshold: int) -> Seq<ScoredPair> {
    let items = compared_items(ratings, threshold);
    index_pairs(0, items.len() as int).map_values(
        |p: (int, int)|
            ScoredPair {
                a: items[p.0],
                b: items[p.1],
                score: similarity(
                    participants_of(ratings, items[p.0]),
                    participants_of(ratings, items[p.1]),
                ).unwrap(),
            },
    )
}

/// `ranked` is what a run gives for the ratings: the first `top_k` pairs of
/// the ranking of the similarity scores.
pub open spec fn is_run_output(
    ranked: Seq<ScoredPair>,
    ratings: Seq<RatingView>,
    config: Config,
) -> bool {
    exists|full: Seq<ScoredPair>|
        is_ranking(
            full,
            similarity_scores(ratings, config.support_threshold as int),
            config.degeneracy_filter,
        ) && ranked == first_few(full, config.top_k as int)
}

/// `graph` is the similarity graph of a run on the ratings: its edges are the
/// ranked pairs with a score above the edge threshold, and its nodes are the
/// items that the edges name, numbered in the order in which the edges first
/// name them, each with the sum of the scores of its edges and with the label
/// that the catalog has for it.
pub open spec fn is_graph_of(
    graph: Graph,
    ratings: Seq<RatingView>,
    config: Config,
    catalog: Map<i32, String>,
) -> bool {
    exists|ranked: Seq<ScoredPair>|
        {
            &&& is_run_output(ranked, ratings, config)
            &&& graph.edges@ == above_threshold(ranked, config.edge_threshold)
            &&& graph.nodes@.len() == endpoints(graph.edges@).len()
            &&& forall|k: int|
                0 <= k < graph.nodes@.len() ==> (#[trigger] graph.nodes@[k])@ == node_at(
                    graph.edges@,
                    catalog,
                    k,
                )
            &&& forall|k: int|
                0 <= k < graph.nodes@.len() ==> (#[trigger] graph.nodes@[k]).weight
                    == incident_units(graph.edges@, graph.nodes@[k].item_id)
        }
}

/// Runs the similarity engine on the ratings: groups the participants by
/// item, scores every pair of the items with enough support, and ranks the
/// scores. There is no result where the items have more pairs than one list
/// can hold.
pub fn rank_similarities(ratings: Vec<Rating>, config: &Config) -> (res: Option<Vec<ScoredPair>>)
    ensures
        res.is_some() == pairs_fit(
            compared_items(rating_views(ratings@), config.support_threshold as int).len() as int,
        ),
        res matches Some(ranked) ==> is_run_output(ranked@, rating_views(ratings@), *config)
            && all_valid(ranked@) && ranked@.len() <= config.top_k,
{
    let ghost all = rating_views(ratings@);
    let ghost limit = config.support_threshold as int;
    let items = group_rating_by_game(ratings, config.support_threshold);
    if !pairs_fit_in_memory(items.len()) {
        return None;
    }
    let scores = compute_jaccard_similarities(&items);
    proof {
        let wanted = similarity_scores(all, limit);
        lemma_index_pairs(0, items.ids().len() as int);
        assert(scores@ =~= wanted);
    }
    let ranked = rank_pairs(scores, config.degeneracy_filter, config.top_k);
    Some(ranked)
}

/// Runs the similarity engine on the ratings and builds the graph of the
/// ranked pairs. There is no result where the items have more pairs than one
/// list can hold.
pub fn similarity_graph(
    ratings: Vec<Rating>,
    config: &Config,
    catalog: &HashMap<i32, String>,
) -> (res: Option<Graph>)
    ensures
        res.is_some() == pairs_fit(
            compared_items(rating_views(ratings@), config.support_threshold as int).len() as int,
        ),
        res matches Some(graph) ==> is_graph_of(graph, rating_views(ratings@), *config, catalog@),
{
    match rank_similarities(ratings, config) {
        Some(ranked) => {
            let graph = build_graph(&ranked, &config.edge_threshold, catalog);
            Some(graph)
        },
        None => None,
    }
}

/// A run is determined by its input: whatever two runs give for the same
/// ratings under the same configuration is the same list of pairs with the
/// same scores.
pub proof fn lemma_run_is_deterministic(
    first: Seq<ScoredPair>,
    second: Seq<ScoredPair>,
    ratings: Seq<RatingView>,
    config: Config,
)
    requires
        is_run_output(first, ratings, config),
        is_run_output(second, ratings, config),
    ensures
        first == second,
{
    let scores = similarity_scores(ratings, config.support_threshold as int);
    let full_first = choose|full: Seq<ScoredPair>|
        is_ranking(full, scores, config.degeneracy_filter) && first == first_few(
            full,
            config.top_k as int,
        );
    let full_second = choose|full: Seq<ScoredPair>|
        is_ranking(full, scores, config.degeneracy_filter) && second == first_few(
            full,
            config.top_k as int,
        );
    lemma_ranking_unique(
        full_first,
        full_second,
        scores,
        config.degeneracy_filter,
        config.top_k as int,
    );
}

} // verus!
