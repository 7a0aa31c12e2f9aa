//! The rank selector: drops the degenerate scores, orders the rest by
//! descending score, and keeps the first few.

use crate::score::lemma_score_transitive;
use crate::score::Score;
use crate::similarity::ScoredPair;
use itertools::Itertools;
use std::cmp::Ordering;
use vstd::prelude::*;
use vstd::seq_lib::to_multiset_contains;
use vstd::seq_lib::to_multiset_len;

verus! {

/// Which scores say nothing and are dropped before ranking.
#[derive(Clone, Copy, Debug, PartialEq, Eq, Structural)]
pub enum DegeneracyFilter {
    /// Drops the pairs that share nobody.
    ZeroOnly,
    /// Drops the pairs that share nobody and the pairs that share everybody.
    ZeroAndOne,
}

impl DegeneracyFilter {
    /// Whether a pair with this score is ranked.
    pub open spec fn keeps(self, score: Score) -> bool {
        match self {
            DegeneracyFilter::ZeroOnly => score.overlap != 0,
            DegeneracyFilter::ZeroAndOne => score.overlap != 0 && score.overlap != score.coverage,
        }
    }

    /// Whether a pair with this score is ranked.
    pub fn retains(&self, score: &Score) -> (res: bool)
        ensures
            res == self.keeps(*score),
    {
        match self {
            DegeneracyFilter::ZeroOnly => !score.is_zero(),
            DegeneracyFilter::ZeroAndOne => !score.is_zero() && !score.is_one(),
        }
    }
}

/// The order among pairs of the same score: by the first item, then by the
/// second, then by the counts that the score was computed from.
pub open spec fn key_before(x: ScoredPair, y: ScoredPair) -> bool {
    x.a < y.a || (x.a == y.a && (x.b < y.b || (x.b == y.b && (x.score.overlap < y.score.overlap
        || (x.score.overlap == y.score.overlap && x.score.coverage < y.score.coverage)))))
}

/// `x` comes before `y` in the ranking: its score is higher, or the scores
/// tie and its key comes first.
pub open spec fn ranks_before(x: ScoredPair, y: ScoredPair) -> bool {
    x.score.above(y.score) || (x.score.ties(y.score) && key_before(x, y))
}

/// `x` comes before `y` in the ranking, or they are the same.
pub open spec fn ranks_no_later(x: ScoredPair, y: ScoredPair) -> bool {
    ranks_before(x, y) || x == y
}

/// The pairs are in ranking order.
pub open spec fn is_ranked(pairs: Seq<ScoredPair>) -> bool {
    forall|i: int, j: int| 0 <= i < j < pairs.len() ==> ranks_no_later(pairs[i], pairs[j])
}

/// Every score of the list is well-formed.
pub open spec fn all_valid(pairs: Seq<ScoredPair>) -> bool {
    forall|k: int| 0 <= k < pairs.len() ==> (#[trigger] pairs[k]).score.wf()
}

/// The pairs that the filter keeps, in their order.
pub open spec fn retained(pairs: Seq<ScoredPair>, filter: DegeneracyFilter) -> Seq<ScoredPair>
    decreases pairs.len(),
{
    if pairs.len() == 0 {
        Seq::empty()
    } else if filter.keeps(pairs.last().score) {
        retained(pairs.drop_last(), filter).push(pairs.last())
    } else {
        retained(pairs.drop_last(), filter)
    }
}

/// `ranked` is the ranking of `pairs`: the pairs that the filter keeps, each
/// as often as it was given, in ranking order.
pub open spec fn is_ranking(
    ranked: Seq<ScoredPair>,
    pairs: Seq<ScoredPair>,
    filter: DegeneracyFilter,
) -> bool {
    ranked.to_multiset() == retained(pairs, filter).to_multiset() && is_ranked(ranked)
}

/// The first `count` elements, or all of them where there are fewer.
pub open spec fn first_few<T>(items: Seq<T>, count: int) -> Seq<T> {
    if 0 <= count < items.len() {
        items.take(count)
    } else {
        items
    }
}

/// Compares two pairs by their place in the ranking.
pub fn rank_order(x: &ScoredPair, y: &ScoredPair) -> (res: Ordering)
    ensures
        (res == Ordering::Less) == ranks_before(*x, *y),
        (res == Ordering::Greater) == ranks_before(*y, *x),
        (res == Ordering::Equal) == (*x == *y),
{
    if x.score.is_above(&y.score) {
        Ordering::Less
    } else if y.score.is_above(&x.score) {
        Ordering::Greater
    } else if x.a < y.a {
        Ordering::Less
    } else if x.a > y.a {
        Ordering::Greater
    } else if x.b < y.b {
        Ordering::Less
    } else if x.b > y.b {
        Ordering::Greater
    } else if x.score.overlap < y.score.overlap {
        Ordering::Less
    } else if x.score.overlap > y.score.overlap {
        Ordering::Greater
    } else if x.score.coverage < y.score.coverage {
        Ordering::Less
    } else if x.score.coverage > y.score.coverage {
        Ordering::Greater
    } else {
        Ordering::Equal
    }
}

/// The pairs in ranking order.
///
/// Calls `Itertools::sorted_by` of itertools with `rank_order` as the
/// comparison. By its documentation it sorts all the elements in ascending
/// order of the comparison, with the sort of the standard library. That sort
/// may fail where the comparison is no total order; `rank_order` is one
/// among well-formed scores, so those are asked for. The sort is stable,
/// which says nothing more here: pairs that compare equal are the same.
#[verifier::external_body]
fn sort_by_rank(pairs: Vec<ScoredPair>) -> (res: Vec<ScoredPair>)
    requires
        all_valid(pairs@),
    ensures
        res@.to_multiset() == pairs@.to_multiset(),
        is_ranked(res@),
{
    pairs.into_iter().sorted_by(|x, y| rank_order(x, y)).collect()
}

/// The pairs that the filter keeps, in their order.
pub fn drop_degenerate(pairs: &Vec<ScoredPair>, filter: DegeneracyFilter) -> (res: Vec<
    ScoredPair,
>)
    ensures
        res@ == retained(pairs@, filter),
{
    let mut res: Vec<ScoredPair> = Vec::new();
    let mut k: usize = 0;
    while k < pairs.len()
        invariant
            k <= pairs@.len(),
            res@ == retained(pairs@.take(k as int), filter),
        decreases pairs@.len() - k,
    {
        let pair = pairs[k];
        assert(pairs@.take(k as int + 1).drop_last() =~= pairs@.take(k as int));
        if filter.retains(&pair.score) {
            res.push(pair);
        }
        k += 1;
    }
    assert(pairs@.take(pairs@.len() as int) =~= pairs@);
    res
}

/// Ranks the scored pairs: drops those that the filter does not keep, puts
/// the rest in order of descending score, pairs of the same score in the
/// order of their keys, and keeps the first `top_k` of them.
pub fn rank_pairs(pairs: Vec<ScoredPair>, filter: DegeneracyFilter, top_k: usize) -> (res: Vec<
    ScoredPair,
>)
    requires
        all_valid(pairs@),
    ensures
        exists|ranked: Seq<ScoredPair>|
            is_ranking(ranked, pairs@, filter) && res@ == first_few(ranked, top_k as int),
        is_ranked(res@),
        res@.len() <= top_k,
        res@.len() <= pairs@.len(),
        all_valid(res@),
        forall|k: int| 0 <= k < res@.len() ==> filter.keeps((#[trigger] res@[k]).score),
        forall|i: int, j: int|
            0 <= i < j < res@.len() ==> !(#[trigger] res@[j]).score.above(
                (#[trigger] res@[i]).score,
            ),
{
    let kept = drop_degenerate(&pairs, filter);
    proof {
        lemma_retained(pairs@, filter);
    }
    let mut ranked = sort_by_rank(kept);
    let ghost full = ranked@;
    proof {
        lemma_same_elements(full, retained(pairs@, filter));
    }
    ranked.truncate(top_k);
    proof {
        assert(ranked@ =~= first_few(full, top_k as int));
        assert forall|k: int| 0 <= k < ranked@.len() implies filter.keeps(
            (#[trigger] ranked@[k]).score,
        ) && ranked@[k].score.wf() by {
            assert(full.contains(full[k]));
        }
        assert forall|i: int, j: int| 0 <= i < j < ranked@.len() implies !(
        #[trigger] ranked@[j]).score.above((#[trigger] ranked@[i]).score) by {
            assert(ranks_no_later(full[i], full[j]));
        }
    }
    ranked
}

/// The pairs that the filter keeps are among the pairs, and the filter keeps
/// each of them.
pub proof fn lemma_retained(pairs: Seq<ScoredPair>, filter: DegeneracyFilter)
    ensures
        retained(pairs, filter).len() <= pairs.len(),
        forall|x: ScoredPair| #[trigger]
            retained(pairs, filter).contains(x) <==> pairs.contains(x) && filter.keeps(x.score),
        all_valid(pairs) ==> all_valid(retained(pairs, filter)),
    decreases pairs.len(),
{
    if pairs.len() > 0 {
        let head = pairs.drop_last();
        let last = pairs.last();
        let kept = retained(head, filter);
        lemma_retained(head, filter);
        assert forall|x: ScoredPair| #[trigger]
            retained(pairs, filter).contains(x) <==> pairs.contains(x) && filter.keeps(
                x.score,
            ) by {
            if pairs.contains(x) {
                let k = choose|k: int| 0 <= k < pairs.len() && pairs[k] == x;
                if k < head.len() {
                    assert(head[k] == x);
                }
            }
            if kept.contains(x) {
                let k = choose|k: int| 0 <= k < kept.len() && kept[k] == x;
                assert(kept.push(last)[k] == x);
            }
            assert(kept.push(last)[kept.len() as int] == last);
        }
    }
}

/// Two lists that hold the same elements equally often are equally long, and
/// what is in one is in the other.
pub proof fn lemma_same_elements<T>(first: Seq<T>, second: Seq<T>)
    requires
        first.to_multiset() == second.to_multiset(),
    ensures
        first.len() == second.len(),
        forall|x: T| first.contains(x) <==> second.contains(x),
{
    to_multiset_len(first);
    to_multiset_len(second);
    assert forall|x: T| first.contains(x) <==> second.contains(x) by {
        to_multiset_contains(first, x);
        to_multiset_contains(second, x);
    }
}

/// The ranking order is transitive among pairs with well-formed scores.
pub proof fn lemma_rank_transitive(x: ScoredPair, y: ScoredPair, z: ScoredPair)
    requires
        x.score.wf(),
        y.score.wf(),
        z.score.wf(),
        ranks_before(x, y),
        ranks_before(y, z),
    ensures
        ranks_before(x, z),
{
    lemma_score_transitive(x.score, y.score, z.score);
}

/// Among pairs with well-formed scores the ranking is a total order: every
/// pair is no later than itself, two pairs that are no later than each other
/// are the same, the order is transitive, and of any two pairs one is no
/// later than the other.
pub proof fn lemma_ranking_is_total_order(x: ScoredPair, y: ScoredPair, z: ScoredPair)
    requires
        x.score.wf(),
        y.score.wf(),
        z.score.wf(),
    ensures
        ranks_no_later(x, x),
        ranks_no_later(x, y) && ranks_no_later(y, x) ==> x == y,
        ranks_no_later(x, y) && ranks_no_later(y, z) ==> ranks_no_later(x, z),
        ranks_no_later(x, y) || ranks_no_later(y, x),
{
    if ranks_before(x, y) && ranks_before(y, z) {
        lemma_rank_transitive(x, y, z);
    }
}

/// A ranking is unique: two lists in ranking order that hold the same pairs
/// equally often are the same list.
pub proof fn lemma_ranked_unique(first: Seq<ScoredPair>, second: Seq<ScoredPair>)
    requires
        is_ranked(first),
        is_ranked(second),
        first.to_multiset() == second.to_multiset(),
    ensures
        first == second,
    decreases first.len(),
{
    lemma_same_elements(first, second);
    if first.len() > 0 {
        let x = first[0];
        let y = second[0];
        assert(first.contains(x));
        assert(second.contains(y));
        assert(ranks_no_later(x, y));
        assert(ranks_no_later(y, x));
        vstd::seq_lib::to_multiset_remove(first, 0);
        vstd::seq_lib::to_multiset_remove(second, 0);
        lemma_ranked_unique(first.drop_first(), second.drop_first());
        assert(second =~= seq![y] + second.drop_first());
    }
}

/// What the rank selector gives is determined by what it is given: two
/// rankings of the same pairs under the same filter are the same, and so are
/// their first `top_k` pairs.
pub proof fn lemma_ranking_unique(
    first: Seq<ScoredPair>,
    second: Seq<ScoredPair>,
    pairs: Seq<ScoredPair>,
    filter: DegeneracyFilter,
    top_k: int,
)
    requires
        is_ranking(first, pairs, filter),
        is_ranking(second, pairs, filter),
    ensures
        first == second,
        first_few(first, top_k) == first_few(second, top_k),
{
    lemma_ranked_unique(first, second);
}

} // verus!
