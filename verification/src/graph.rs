//! The edge-weight accumulator: the nodes of the similarity graph, numbered
//! in the order in which the edges name them, each with the sum of the
//! scores of the edges that touch it.

use crate::rank::all_valid;
use crate::score::lemma_units_bounded;
use crate::score::Score;
use crate::score::UNITS_PER_ONE;
use crate::similarity::ScoredPair;
use std::collections::HashMap;
use vstd::prelude::*;

verus! {

/// The items with `item` among them: `item` is added at the end where it is
/// new, and nothing changes where it is known.
pub open spec fn touched(items: Seq<i32>, item: i32) -> Seq<i32> {
    if items.contains(item) {
        items
    } else {
        items.push(item)
    }
}

/// The items that the edges name, each once, in the order in which the
/// edges first name them; of the two ends of an edge the first comes first.
pub open spec fn endpoints(edges: Seq<ScoredPair>) -> Seq<i32>
    decreases edges.len(),
{
    if edges.len() == 0 {
        Seq::empty()
    } else {
        touched(touched(endpoints(edges.drop_last()), edges.last().a), edges.last().b)
    }
}

/// What one edge adds to the weight of `item`: its score, in whole weight
/// units, for each of its two ends that is `item`.
pub open spec fn share(edge: ScoredPair, item: i32) -> int {
    (if edge.a == item {
        edge.score.spec_units()
    } else {
        0
    }) + (if edge.b == item {
        edge.score.spec_units()
    } else {
        0
    })
}

/// The weight of `item`: the sum of the scores of the edges that touch it,
/// each score counted in whole weight units.
pub open spec fn incident_units(edges: Seq<ScoredPair>, item: i32) -> int
    decreases edges.len(),
{
    if edges.len() == 0 {
        0
    } else {
        incident_units(edges.drop_last(), item) + share(edges.last(), item)
    }
}

/// The nodes seen so far, in the order in which they were first seen, with
/// the weight that each has gathered.
pub struct NodeTable {
    item_ids: Vec<i32>,
    weights: Vec<u128>,
    index: HashMap<i32, usize>,
    total: u128,
}

impl NodeTable {
    /// The items of the nodes; the node of the item at position `k` has the
    /// identifier `k`.
    pub closed spec fn items(self) -> Seq<i32> {
        self.item_ids@
    }

    /// The weight of the node at position `k`, in weight units.
    pub closed spec fn weight_at(self, k: int) -> int {
        self.weights@[k] as int
    }

    /// All the weight units that the table has been given.
    pub closed spec fn total(self) -> int {
        self.total as int
    }

    /// The weight of the node of `item`, in weight units; zero for an item
    /// that has no node.
    pub open spec fn weight_of(self, item: i32) -> int {
        if self.items().contains(item) {
            self.weight_at(self.items().index_of(item))
        } else {
            0
        }
    }

    /// No item has two nodes, the index finds the node of every item, and no
    /// node weighs more than the table has been given.
    pub closed spec fn wf(self) -> bool {
        &&& self.item_ids@.len() == self.weights@.len()
        &&& self.item_ids@.no_duplicates()
        &&& forall|item: i32| #[trigger]
            self.index@.contains_key(item) <==> self.item_ids@.contains(item)
        &&& forall|k: int|
            0 <= k < self.item_ids@.len() ==> self.index@[#[trigger] self.item_ids@[k]] == k
        &&& forall|k: int|
            0 <= k < self.weights@.len() ==> #[trigger] self.weights@[k] <= self.total
    }

    /// What well-formedness says, over the public names.
    pub proof fn lemma_wf(self)
        requires
            self.wf(),
        ensures
            self.items().no_duplicates(),
            forall|k: int|
                0 <= k < self.items().len() ==> 0 <= #[trigger] self.weight_at(k) <= self.total(),
            forall|k: int|
                0 <= k < self.items().len() ==> self.weight_of(#[trigger] self.items()[k])
                    == self.weight_at(k),
    {
        assert forall|k: int| 0 <= k < self.items().len() implies self.weight_of(
            #[trigger] self.items()[k],
        ) == self.weight_at(k) by {
            self.item_ids@.index_of_first_ensures(self.item_ids@[k]);
        }
    }

    /// The table without nodes.
    pub fn new() -> (res: NodeTable)
        ensures
            res.wf(),
            res.items() == Seq::<i32>::empty(),
            res.total() == 0,
    {
        broadcast use vstd::std_specs::hash::group_hash_axioms;

        NodeTable { item_ids: Vec::new(), weights: Vec::new(), index: HashMap::new(), total: 0 }
    }

    /// The number of nodes.
    pub fn len(&self) -> (res: usize)
        requires
            self.wf(),
        ensures
            res == self.items().len(),
    {
        self.item_ids.len()
    }

    /// All the weight units that the table has been given.
    pub fn total_units(&self) -> (res: u128)
        ensures
            res == self.total(),
    {
        self.total
    }

    /// The item of the node `node_id`.
    pub fn item_id(&self, node_id: usize) -> (res: i32)
        requires
            self.wf(),
            node_id < self.items().len(),
        ensures
            res == self.items()[node_id as int],
    {
        self.item_ids[node_id]
    }

    /// The weight of the node `node_id`, in weight units.
    pub fn weight(&self, node_id: usize) -> (res: u128)
        requires
            self.wf(),
            node_id < self.items().len(),
        ensures
            res == self.weight_at(node_id as int),
            res == self.weight_of(self.items()[node_id as int]),
    {
        self.weights[node_id]
    }

    /// The identifier of the node of `item`, or nothing where the item has
    /// no node.
    pub fn node_of(&self, item: i32) -> (res: Option<usize>)
        requires
            self.wf(),
        ensures
            match res {
                Some(node_id) => node_id < self.items().len() && self.items()[node_id as int]
                    == item,
                None => !self.items().contains(item),
            },
    {
        broadcast use vstd::std_specs::hash::group_hash_axioms;

        match self.index.get(&item) {
            Some(node_id) => Some(*node_id),
            None => None,
        }
    }

    /// Sees `item` on an edge of `units` weight units. An item that is seen
    /// for the first time gets a node, numbered after the nodes that are
    /// there; an item that has a node keeps it. Either way the weight of the
    /// node grows by `units`. Returns the identifier of the node.
    pub fn touch(&mut self, item: i32, units: u64) -> (node_id: usize)
        requires
            old(self).wf(),
            old(self).total() + units <= u128::MAX,
        ensures
            final(self).wf(),
            final(self).items() == touched(old(self).items(), item),
            final(self).total() == old(self).total() + units,
            node_id < final(self).items().len(),
            final(self).items()[node_id as int] == item,
            forall|other: i32|
                #[trigger] final(self).weight_of(other) == old(self).weight_of(other) + (if other
                    == item {
                    units as int
                } else {
                    0
                }),
    {
        broadcast use vstd::std_specs::hash::group_hash_axioms;

        let ghost before = *self;
        let found = self.node_of(item);
        self.total = self.total + units as u128;
        match found {
            Some(node_id) => {
                let weight = self.weights[node_id];
                self.weights.set(node_id, weight + units as u128);
                proof {
                    assert forall|other: i32| #[trigger]
                        self.weight_of(other) == before.weight_of(other) + (if other == item {
                            units as int
                        } else {
                            0
                        }) by {
                        if self.items().contains(other) {
                            self.items().index_of_first_ensures(other);
                        }
                    }
                }
                node_id
            },
            None => {
                let node_id = self.item_ids.len();
                self.item_ids.push(item);
                self.weights.push(units as u128);
                self.index.insert(item, node_id);
                proof {
                    assert forall|other: i32| #[trigger]
                        self.index@.contains_key(other) <==> self.item_ids@.contains(other) by {
                        if before.item_ids@.contains(other) {
                            let k = choose|k: int|
                                0 <= k < before.item_ids@.len() && before.item_ids@[k] == other;
                            assert(self.item_ids@[k] == other);
                        }
                        assert(self.item_ids@[node_id as int] == item);
                    }
                    assert forall|other: i32| #[trigger]
                        self.weight_of(other) == before.weight_of(other) + (if other == item {
                            units as int
                        } else {
                            0
                        }) by {
                        if other == item {
                            assert(self.items()[node_id as int] == item);
                        } else if self.items().contains(other) {
                            self.items().index_of_first_ensures(other);
                        } else {
                            if before.items().contains(other) {
                                let k = before.items().index_of(other);
                                before.items().index_of_first_ensures(other);
                                assert(self.items()[k] == other);
                            }
                        }
                    }
                }
                node_id
            },
        }
    }

    /// Takes one edge into the table: sees its first end, then its second,
    /// each with the score of the edge. Returns the identifiers of the two
    /// nodes.
    pub fn add_edge(&mut self, edge: &ScoredPair) -> (ends: (usize, usize))
        requires
            old(self).wf(),
            edge.score.wf(),
            old(self).total() + 2 * UNITS_PER_ONE <= u128::MAX,
        ensures
            final(self).wf(),
            final(self).items() == touched(touched(old(self).items(), edge.a), edge.b),
            final(self).total() == old(self).total() + 2 * edge.score.spec_units(),
            ends.0 < final(self).items().len(),
            ends.1 < final(self).items().len(),
            final(self).items()[ends.0 as int] == edge.a,
            final(self).items()[ends.1 as int] == edge.b,
            forall|item: i32|
                #[trigger] final(self).weight_of(item) == old(self).weight_of(item) + share(
                    *edge,
                    item,
                ),
    {
        let ghost before = *self;
        let units = edge.score.units();
        let first = self.touch(edge.a, units);
        let ghost between = *self;
        let second = self.touch(edge.b, units);
        proof {
            assert forall|item: i32| #[trigger]
                self.weight_of(item) == before.weight_of(item) + share(*edge, item) by {
                assert(between.weight_of(item) == before.weight_of(item) + (if item == edge.a {
                    units as int
                } else {
                    0
                }));
            }
            assert(self.items()[first as int] == edge.a);
        }
        (first, second)
    }
}

/// The edges whose score is above the threshold, in their order.
pub open spec fn above_threshold(edges: Seq<ScoredPair>, threshold: Score) -> Seq<ScoredPair>
    decreases edges.len(),
{
    if edges.len() == 0 {
        Seq::empty()
    } else if edges.last().score.above(threshold) {
        above_threshold(edges.drop_last(), threshold).push(edges.last())
    } else {
        above_threshold(edges.drop_last(), threshold)
    }
}

/// The label that the catalog has for `item`, if it has one.
pub open spec fn label_of(catalog: Map<i32, String>, item: i32) -> Option<Seq<char>> {
    if catalog.contains_key(item) {
        Some(catalog[item]@)
    } else {
        None
    }
}

/// A node of the similarity graph.
#[derive(Debug)]
pub struct GraphNode {
    /// The number of the node: nodes are numbered from zero in the order in
    /// which the edges first name their items.
    pub node_id: usize,
    /// The item that the node stands for.
    pub item_id: i32,
    /// The sum of the scores of the edges that touch the node, each score
    /// counted in whole weight units: `UNITS_PER_ONE` units are a score of
    /// one.
    pub weight: u128,
    /// The label of the item, where the catalog has one.
    pub label: Option<String>,
}

/// What a node holds.
pub struct NodeView {
    pub node_id: usize,
    pub item_id: i32,
    pub weight: u128,
    pub label: Option<Seq<char>>,
}

impl View for GraphNode {
    type V = NodeView;

    open spec fn view(&self) -> NodeView {
        NodeView {
            node_id: self.node_id,
            item_id: self.item_id,
            weight: self.weight,
            label: match self.label {
                Some(text) => Some(text@),
                None => None,
            },
        }
    }
}

/// The similarity graph: its nodes and its edges.
#[derive(Debug)]
pub struct Graph {
    pub nodes: Vec<GraphNode>,
    pub edges: Vec<ScoredPair>,
}

/// The node that the graph of `edges` has at position `k`.
pub open spec fn node_at(edges: Seq<ScoredPair>, catalog: Map<i32, String>, k: int) -> NodeView {
    NodeView {
        node_id: k as usize,
        item_id: endpoints(edges)[k],
        weight: incident_units(edges, endpoints(edges)[k]) as u128,
        label: label_of(catalog, endpoints(edges)[k]),
    }
}

/// Whether one of the nodes stands for `item`.
pub open spec fn has_node(nodes: Seq<GraphNode>, item: i32) -> bool {
    exists|k: int| 0 <= k < nodes.len() && (#[trigger] nodes[k]).item_id == item
}

/// The edges whose score is above the threshold, in their order.
pub fn select_edges(ranked: &Vec<ScoredPair>, edge_threshold: &Score) -> (res: Vec<ScoredPair>)
    ensures
        res@ == above_threshold(ranked@, *edge_threshold),
        all_valid(ranked@) ==> all_valid(res@),
{
    let mut res: Vec<ScoredPair> = Vec::new();
    let mut k: usize = 0;
    while k < ranked.len()
        invariant
            k <= ranked@.len(),
            res@ == above_threshold(ranked@.take(k as int), *edge_threshold),
            all_valid(ranked@) ==> all_valid(res@),
        decreases ranked@.len() - k,
    {
        let edge = ranked[k];
        assert(ranked@.take(k as int + 1).drop_last() =~= ranked@.take(k as int));
        if edge.score.is_above(edge_threshold) {
            res.push(edge);
        }
        k += 1;
    }
    assert(ranked@.take(ranked@.len() as int) =~= ranked@);
    res
}

/// The node table of the edges: every item that an edge names has one node,
/// the nodes are numbered in the order in which the edges first name their
/// items, and the weight of a node is the sum of the scores of the edges
/// that touch it.
pub fn accumulate(edges: &Vec<ScoredPair>) -> (res: NodeTable)
    requires
        all_valid(edges@),
    ensures
        res.wf(),
        res.items() == endpoints(edges@),
        forall|item: i32| #[trigger] res.weight_of(item) == incident_units(edges@, item),
{
    let mut table = NodeTable::new();
    let mut k: usize = 0;
    while k < edges.len()
        invariant
            k <= edges@.len(),
            all_valid(edges@),
            table.wf(),
            table.total() <= 2 * UNITS_PER_ONE * k,
            table.items() == endpoints(edges@.take(k as int)),
            forall|item: i32| #[trigger]
                table.weight_of(item) == incident_units(edges@.take(k as int), item),
        decreases edges@.len() - k,
    {
        let edge = edges[k];
        proof {
            assert(edges@.take(k as int + 1).drop_last() =~= edges@.take(k as int));
            lemma_units_bounded(edge.score);
            let spent = 2 * UNITS_PER_ONE * k;
            assert(2 * UNITS_PER_ONE * (k + 1) == spent + 2 * UNITS_PER_ONE) by (nonlinear_arith)
                requires
                    spent == 2 * UNITS_PER_ONE * k,
            ;
            assert(spent + 2 * UNITS_PER_ONE <= u128::MAX) by (nonlinear_arith)
                requires
                    spent == 2 * UNITS_PER_ONE * k,
                    0 <= k <= 0xffff_ffff_ffff_ffff,
                    UNITS_PER_ONE == 1_000_000_000,
            ;
        }
        table.add_edge(&edge);
        k += 1;
    }
    assert(edges@.take(edges@.len() as int) =~= edges@);
    table
}

/// The similarity graph of the ranked pairs: the pairs whose score is above
/// the threshold are its edges, and the items that they name are its nodes,
/// each with its weight and with the label that the catalog has for it.
pub fn build_graph(
    ranked: &Vec<ScoredPair>,
    edge_threshold: &Score,
    catalog: &HashMap<i32, String>,
) -> (res: Graph)
    requires
        all_valid(ranked@),
    ensures
        res.edges@ == above_threshold(ranked@, *edge_threshold),
        res.nodes@.len() == endpoints(res.edges@).len(),
        forall|k: int|
            0 <= k < res.nodes@.len() ==> (#[trigger] res.nodes@[k])@ == node_at(
                res.edges@,
                catalog@,
                k,
            ),
        forall|k: int|
            0 <= k < res.nodes@.len() ==> (#[trigger] res.nodes@[k]).weight == incident_units(
                res.edges@,
                res.nodes@[k].item_id,
            ),
        forall|e: int|
            0 <= e < res.edges@.len() ==> has_node(res.nodes@, (#[trigger] res.edges@[e]).a)
                && has_node(res.nodes@, res.edges@[e].b),
{
    broadcast use vstd::std_specs::hash::group_hash_axioms;

    let edges = select_edges(ranked, edge_threshold);
    let table = accumulate(&edges);
    let mut nodes: Vec<GraphNode> = Vec::new();
    let mut k: usize = 0;
    while k < table.len()
        invariant
            k <= table.items().len(),
            table.wf(),
            table.items() == endpoints(edges@),
            forall|item: i32| #[trigger] table.weight_of(item) == incident_units(edges@, item),
            forall|t: int|
                0 <= t < table.items().len() ==> table.weight_of(#[trigger] table.items()[t])
                    == table.weight_at(t),
            nodes@.len() == k,
            forall|t: int|
                0 <= t < nodes@.len() ==> (#[trigger] nodes@[t])@ == node_at(edges@, catalog@, t),
            forall|t: int|
                0 <= t < nodes@.len() ==> (#[trigger] nodes@[t]).weight == incident_units(
                    edges@,
                    nodes@[t].item_id,
                ),
        decreases table.items().len() - k,
    {
        let item_id = table.item_id(k);
        let weight = table.weight(k);
        let label = match catalog.get(&item_id) {
            Some(text) => Some(text.clone()),
            None => None,
        };
        let node = GraphNode { node_id: k, item_id, weight, label };
        nodes.push(node);
        k += 1;
    }
    proof {
        lemma_endpoints_cover(edges@);
        assert forall|e: int| 0 <= e < edges@.len() implies has_node(
            nodes@,
            (#[trigger] edges@[e]).a,
        ) && has_node(nodes@, edges@[e].b) by {
            let first = endpoints(edges@).index_of(edges@[e].a);
            let second = endpoints(edges@).index_of(edges@[e].b);
            endpoints(edges@).index_of_first_ensures(edges@[e].a);
            endpoints(edges@).index_of_first_ensures(edges@[e].b);
            assert(nodes@[first]@ == node_at(edges@, catalog@, first));
            assert(nodes@[second]@ == node_at(edges@, catalog@, second));
        }
    }
    Graph { nodes, edges }
}

/// Every item that an edge names is among the endpoints, and none of the
/// endpoints occurs twice: each end of each edge of the graph has one node.
pub proof fn lemma_endpoints_cover(edges: Seq<ScoredPair>)
    ensures
        endpoints(edges).no_duplicates(),
        forall|k: int|
            0 <= k < edges.len() ==> endpoints(edges).contains((#[trigger] edges[k]).a)
                && endpoints(edges).contains(edges[k].b),
        forall|item: i32|
            endpoints(edges).contains(item) ==> exists|k: int|
                0 <= k < edges.len() && ((#[trigger] edges[k]).a == item || edges[k].b == item),
    decreases edges.len(),
{
    if edges.len() > 0 {
        let head = edges.drop_last();
        let last = edges.last();
        lemma_endpoints_cover(head);
        let known = endpoints(head);
        let first = touched(known, last.a);
        let both = touched(first, last.b);
        lemma_touched(known, last.a);
        lemma_touched(first, last.b);
        assert forall|k: int| 0 <= k < edges.len() implies both.contains((#[trigger] edges[k]).a)
            && both.contains(edges[k].b) by {
            if k < head.len() {
                assert(head[k] == edges[k]);
            }
        }
    }
}

/// Seeing an item keeps the items distinct and adds nothing but that item.
pub proof fn lemma_touched(items: Seq<i32>, item: i32)
    requires
        items.no_duplicates(),
    ensures
        touched(items, item).no_duplicates(),
        forall|other: i32| #[trigger]
            touched(items, item).contains(other) <==> items.contains(other) || other == item,
{
    let next = touched(items, item);
    if !items.contains(item) {
        assert forall|other: i32| #[trigger]
            next.contains(other) <==> items.contains(other) || other == item by {
            if items.contains(other) {
                let k = choose|k: int| 0 <= k < items.len() && items[k] == other;
                assert(next[k] == other);
            }
            assert(next[items.len() as int] == item);
        }
    }
}

/// An edge between two different items adds its score once to the weight of
/// each of them, and nothing to any other item.
pub proof fn lemma_share_of_plain_edge(edge: ScoredPair, item: i32)
    requires
        edge.a != edge.b,
    ensures
        share(edge, item) == if edge.a == item || edge.b == item {
            edge.score.spec_units()
        } else {
            0
        },
{
}

/// Taking an edge out of the list takes its share out of the weight.
pub proof fn lemma_incident_units_remove(edges: Seq<ScoredPair>, at: int, item: i32)
    requires
        0 <= at < edges.len(),
    ensures
        incident_units(edges, item) == incident_units(edges.remove(at), item) + share(
            edges[at],
            item,
        ),
    decreases edges.len(),
{
    if at < edges.len() - 1 {
        lemma_incident_units_remove(edges.drop_last(), at, item);
        assert(edges.remove(at).drop_last() =~= edges.drop_last().remove(at));
    }
}

/// The weight of a node does not depend on the order of the edges: two lists
/// that hold the same edges equally often give every item the same weight.
pub proof fn lemma_weight_order_independent(
    first: Seq<ScoredPair>,
    second: Seq<ScoredPair>,
    item: i32,
)
    requires
        first.to_multiset() == second.to_multiset(),
    ensures
        incident_units(first, item) == incident_units(second, item),
    decreases first.len(),
{
    crate::rank::lemma_same_elements(first, second);
    if first.len() > 0 {
        let last = first.last();
        assert(first.contains(last));
        let at = choose|at: int| 0 <= at < second.len() && second[at] == last;
        vstd::seq_lib::to_multiset_remove(first, first.len() - 1);
        vstd::seq_lib::to_multiset_remove(second, at);
        lemma_weight_order_independent(first.drop_last(), second.remove(at), item);
        lemma_incident_units_remove(second, at, item);
    }
}

} // verus!
