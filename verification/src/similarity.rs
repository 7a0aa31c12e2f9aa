//! The similarity of every pair of items of an item set.

use crate::aggregate::ItemSet;
use crate::jaccard::jaccard_of;
use crate::jaccard::lemma_similarity_in_range;
use crate::jaccard::similarity;
use crate::pairs::enumerate_positions;
use crate::pairs::index_pairs;
use crate::pairs::lemma_index_pairs;
use crate::pairs::pair_count;
use crate::pairs::pairs_fit;
use crate::pairs::position_views;
use crate::score::Score;
use vstd::prelude::*;

verus! {

/// A pair of items with the similarity of their participant sets.
#[derive(Clone, Copy, Debug, PartialEq, Eq, Structural)]
pub struct ScoredPair {
    pub a: i32,
    pub b: i32,
    pub score: Score,
}

/// The items at positions `i` and `j` of the set, with the Jaccard index of
/// their participants.
pub open spec fn pair_score(items: ItemSet, i: int, j: int) -> ScoredPair {
    ScoredPair {
        a: items.ids()[i],
        b: items.ids()[j],
        score: similarity(items.set_at(i), items.set_at(j)).unwrap(),
    }
}

/// The two pairs join the same two items, in the same order or in the other.
pub open spec fn same_items(x: ScoredPair, y: ScoredPair) -> bool {
    (x.a == y.a && x.b == y.b) || (x.a == y.b && x.b == y.a)
}

/// Every pair of items of the set with its similarity, in the order of the
/// pair enumerator.
pub open spec fn scores_of(items: ItemSet) -> Seq<ScoredPair> {
    index_pairs(0, items.ids().len() as int).map_values(
        |p: (int, int)| pair_score(items, p.0, p.1),
    )
}

/// Two different items of a well-formed set have a similarity: neither set
/// is empty, and together they are within the machine's range.
pub proof fn lemma_pair_has_score(items: ItemSet, i: int, j: int)
    requires
        items.wf(),
        0 <= i < items.ids().len(),
        0 <= j < items.ids().len(),
        i != j,
    ensures
        similarity(items.set_at(i), items.set_at(j)).is_some(),
        pair_score(items, i, j).score.wf(),
{
    items.lemma_wf();
    lemma_similarity_in_range(items.set_at(i), items.set_at(j));
    let a = items.set_at(i);
    let b = items.set_at(j);
    vstd::set_lib::lemma_len_subset(a, a.union(b));
}

/// Every unordered pair of the items is scored once: the scored pairs are as
/// many as the items have unordered pairs, each joins two different items of
/// the set, and any two different items are joined by one of them.
pub proof fn lemma_scores_of(items: ItemSet)
    requires
        items.wf(),
    ensures
        scores_of(items).len() == pair_count(items.ids().len() as int),
        forall|k: int|
            0 <= k < scores_of(items).len() ==> (#[trigger] scores_of(items)[k]).a != scores_of(
                items,
            )[k].b && items.ids().contains(scores_of(items)[k].a) && items.ids().contains(
                scores_of(items)[k].b,
            ) && scores_of(items)[k].score.wf(),
        forall|k: int, t: int|
            0 <= k < scores_of(items).len() && 0 <= t < scores_of(items).len() && k != t
                ==> !same_items(#[trigger] scores_of(items)[k], #[trigger] scores_of(items)[t]),
        forall|i: int, j: int|
            0 <= i < j < items.ids().len() ==> #[trigger] scores_of(items).contains(
                pair_score(items, i, j),
            ),
{
    let n = items.ids().len() as int;
    let positions = index_pairs(0, n);
    let scores = scores_of(items);
    items.lemma_wf();
    lemma_index_pairs(0, n);
    assert forall|k: int| 0 <= k < scores.len() implies (#[trigger] scores[k]).a != scores[k].b
        && items.ids().contains(scores[k].a) && items.ids().contains(scores[k].b)
        && scores[k].score.wf() by {
        let p = positions[k];
        lemma_pair_has_score(items, p.0, p.1);
    }
    assert forall|i: int, j: int| 0 <= i < j < n implies #[trigger] scores.contains(
        pair_score(items, i, j),
    ) by {
        assert(positions.contains((i, j)));
        let k = choose|k: int| 0 <= k < positions.len() && positions[k] == (i, j);
        assert(scores[k] == pair_score(items, i, j));
    }
}

/// The similarity of the items at two different positions of the set.
pub fn score_pair(items: &ItemSet, i: usize, j: usize) -> (res: ScoredPair)
    requires
        items.wf(),
        i < items.ids().len(),
        j < items.ids().len(),
        i != j,
    ensures
        res == pair_score(*items, i as int, j as int),
        res.score.wf(),
{
    proof {
        lemma_pair_has_score(*items, i as int, j as int);
    }
    let score = jaccard_of(items.participants(i), items.participants(j));
    ScoredPair { a: items.item_id(i), b: items.item_id(j), score }
}

/// The similarity of every unordered pair of items of the set: one scored
/// pair for each pair that the enumerator gives, in its order.
pub fn compute_jaccard_similarities(items: &ItemSet) -> (res: Vec<ScoredPair>)
    requires
        items.wf(),
        pairs_fit(items.ids().len() as int),
    ensures
        res@ == scores_of(*items),
        res@.len() == pair_count(items.ids().len() as int),
        forall|k: int|
            0 <= k < res@.len() ==> (#[trigger] res@[k]).score.wf() && res@[k].a != res@[k].b,
{
    proof {
        lemma_scores_of(*items);
    }
    let positions = enumerate_positions(items.len());
    let ghost wanted = scores_of(*items);
    let mut res: Vec<ScoredPair> = Vec::new();
    let mut k: usize = 0;
    while k < positions.len()
        invariant
            k <= positions@.len(),
            items.wf(),
            position_views(positions@) == index_pairs(0, items.ids().len() as int),
            forall|t: int|
                0 <= t < positions@.len() ==> (#[trigger] positions@[t]).0 < positions@[t].1
                    < items.ids().len(),
            wanted == scores_of(*items),
            res@ == wanted.take(k as int),
            forall|t: int| 0 <= t < res@.len() ==> (#[trigger] res@[t]).score.wf(),
        decreases positions@.len() - k,
    {
        let (i, j) = positions[k];
        let scored = score_pair(items, i, j);
        res.push(scored);
        k += 1;
    }
    res
}

} // verus!
