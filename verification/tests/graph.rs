use jaccard_graph::graph::accumulate;
use jaccard_graph::graph::build_graph;
use jaccard_graph::graph::select_edges;
use jaccard_graph::graph::NodeTable;
use jaccard_graph::score::Score;
use jaccard_graph::similarity::ScoredPair;
use std::collections::HashMap;

fn pair(a: i32, b: i32, overlap: u64, coverage: u64) -> ScoredPair {
    ScoredPair { a, b, score: Score::new(overlap, coverage).unwrap() }
}

fn edges() -> Vec<ScoredPair> {
    vec![pair(7, 3, 1, 2), pair(3, 9, 1, 4), pair(7, 9, 1, 5), pair(4, 3, 1, 10)]
}

#[test]
fn a_new_item_gets_the_next_node() {
    let mut table = NodeTable::new();
    assert_eq!(table.touch(50, 10), 0);
    assert_eq!(table.touch(60, 20), 1);
    assert_eq!(table.touch(50, 5), 0);
    assert_eq!(table.len(), 2);
    assert_eq!(table.item_id(0), 50);
    assert_eq!(table.item_id(1), 60);
    assert_eq!(table.weight(0), 15);
    assert_eq!(table.weight(1), 20);
    assert_eq!(table.total_units(), 35);
    assert_eq!(table.node_of(60), Some(1));
    assert_eq!(table.node_of(61), None);
}

#[test]
fn an_edge_touches_both_its_ends() {
    let mut table = NodeTable::new();
    assert_eq!(table.add_edge(&pair(1, 2, 1, 2)), (0, 1));
    assert_eq!(table.add_edge(&pair(2, 3, 1, 4)), (1, 2));
    assert_eq!(table.weight(0), 500_000_000);
    assert_eq!(table.weight(1), 750_000_000);
    assert_eq!(table.weight(2), 250_000_000);
}

#[test]
fn weights_are_the_sums_of_the_incident_scores() {
    let table = accumulate(&edges());
    assert_eq!(table.len(), 4);
    let items: Vec<i32> = (0..table.len()).map(|k| table.item_id(k)).collect();
    assert_eq!(items, vec![7, 3, 9, 4]);
    assert_eq!(table.weight(0), 500_000_000 + 200_000_000);
    assert_eq!(table.weight(1), 500_000_000 + 250_000_000 + 100_000_000);
    assert_eq!(table.weight(2), 250_000_000 + 200_000_000);
    assert_eq!(table.weight(3), 100_000_000);
}

#[test]
fn weights_do_not_depend_on_the_order_of_the_edges() {
    let reference = accumulate(&edges());
    let orders: [[usize; 4]; 5] =
        [[3, 2, 1, 0], [1, 0, 3, 2], [2, 0, 1, 3], [0, 3, 2, 1], [1, 3, 0, 2]];
    for order in orders.iter() {
        let permuted: Vec<ScoredPair> = order.iter().map(|&k| edges()[k]).collect();
        let table = accumulate(&permuted);
        assert_eq!(table.len(), reference.len());
        for k in 0..reference.len() {
            let item = reference.item_id(k);
            let node = table.node_of(item).unwrap();
            assert_eq!(table.weight(node), reference.weight(k));
        }
    }
}

#[test]
fn edges_are_the_pairs_above_the_threshold() {
    let threshold = Score::new(6, 100).unwrap();
    let ranked = vec![pair(1, 2, 1, 2), pair(1, 3, 6, 100), pair(2, 3, 7, 100), pair(3, 4, 1, 20)];
    assert_eq!(select_edges(&ranked, &threshold), vec![pair(1, 2, 1, 2), pair(2, 3, 7, 100)]);
}

#[test]
fn the_graph_has_a_node_for_each_end_of_each_edge() {
    let threshold = Score::new(15, 100).unwrap();
    let mut catalog: HashMap<i32, String> = HashMap::new();
    catalog.insert(7, "Pagoda".to_string());
    catalog.insert(9, "Catan".to_string());
    let graph = build_graph(&edges(), &threshold, &catalog);
    assert_eq!(graph.edges, vec![pair(7, 3, 1, 2), pair(3, 9, 1, 4), pair(7, 9, 1, 5)]);
    assert_eq!(graph.nodes.len(), 3);
    for (k, node) in graph.nodes.iter().enumerate() {
        assert_eq!(node.node_id, k);
    }
    assert_eq!(graph.nodes[0].item_id, 7);
    assert_eq!(graph.nodes[1].item_id, 3);
    assert_eq!(graph.nodes[2].item_id, 9);
    assert_eq!(graph.nodes[0].weight, 700_000_000);
    assert_eq!(graph.nodes[1].weight, 750_000_000);
    assert_eq!(graph.nodes[2].weight, 450_000_000);
    assert_eq!(graph.nodes[0].label, Some("Pagoda".to_string()));
    assert_eq!(graph.nodes[1].label, None);
    assert_eq!(graph.nodes[2].label, Some("Catan".to_string()));
    for edge in graph.edges.iter() {
        assert!(graph.nodes.iter().any(|node| node.item_id == edge.a));
        assert!(graph.nodes.iter().any(|node| node.item_id == edge.b));
    }
}

#[test]
fn no_edges_give_no_nodes() {
    let graph = build_graph(&Vec::new(), &Score::new(0, 1).unwrap(), &HashMap::new());
    assert!(graph.nodes.is_empty());
    assert!(graph.edges.is_empty());
}
