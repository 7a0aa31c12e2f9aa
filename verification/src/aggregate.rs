//! The set aggregator: from ratings to the participant set of each item,
//! keeping only the items with enough support.

use crate::ingest::rating_views;
use crate::ingest::Rating;
use crate::ingest::RatingView;
use crate::participants::name_views;
use crate::participants::ParticipantSet;
use itertools::Itertools;
use std::collections::HashMap;
use std::collections::HashSet;
use vstd::prelude::*;

verus! {

/// The names of the participants in the ratings of `item`, in the order of
/// the ratings. A participant who rated the item twice is named twice.
pub open spec fn names_for(ratings: Seq<RatingView>, item: i32) -> Seq<Seq<char>>
    decreases ratings.len(),
{
    if ratings.len() == 0 {
        Seq::empty()
    } else if ratings.last().item_id == item {
        names_for(ratings.drop_last(), item).push(ratings.last().participant_id)
    } else {
        names_for(ratings.drop_last(), item)
    }
}

/// The participants who rated `item`.
pub open spec fn participants_of(ratings: Seq<RatingView>, item: i32) -> Set<Seq<char>> {
    names_for(ratings, item).to_set()
}

/// The items that the ratings name, each once, in the order in which they
/// first occur.
pub open spec fn items_of(ratings: Seq<RatingView>) -> Seq<i32>
    decreases ratings.len(),
{
    if ratings.len() == 0 {
        Seq::empty()
    } else if items_of(ratings.drop_last()).contains(ratings.last().item_id) {
        items_of(ratings.drop_last())
    } else {
        items_of(ratings.drop_last()).push(ratings.last().item_id)
    }
}

/// Those of `items`, in their order, that more than `threshold` participants
/// have rated.
pub open spec fn with_support(items: Seq<i32>, ratings: Seq<RatingView>, threshold: int) -> Seq<
    i32,
>
    decreases items.len(),
{
    if items.len() == 0 {
        Seq::empty()
    } else if participants_of(ratings, items.last()).len() > threshold {
        with_support(items.drop_last(), ratings, threshold).push(items.last())
    } else {
        with_support(items.drop_last(), ratings, threshold)
    }
}

/// The participant set of each item that more than `threshold` participants
/// have rated. An item with fewer has no entry at all.
pub open spec fn grouped(ratings: Seq<RatingView>, threshold: int) -> Map<i32, Set<Seq<char>>> {
    Map::new(
        |item: i32| participants_of(ratings, item).len() > threshold,
        |item: i32| participants_of(ratings, item),
    )
}

/// The participant sets of the items with enough support. Its view maps each
/// item to its participants; the items keep the order in which they first
/// occurred in the ratings.
pub struct ItemSet {
    ids: Vec<i32>,
    sets: Vec<ParticipantSet>,
    threshold: usize,
}

impl View for ItemSet {
    type V = Map<i32, Set<Seq<char>>>;

    closed spec fn view(&self) -> Map<i32, Set<Seq<char>>> {
        Map::new(
            |item: i32| self.ids@.contains(item),
            |item: i32| self.sets@[self.ids@.index_of(item)]@,
        )
    }
}

impl ItemSet {
    /// The items, in order.
    pub closed spec fn ids(self) -> Seq<i32> {
        self.ids@
    }

    /// The participants of the item at position `k`.
    pub closed spec fn set_at(self, k: int) -> Set<Seq<char>> {
        self.sets@[k]@
    }

    /// The support threshold that every item of the set exceeds.
    pub closed spec fn threshold(self) -> nat {
        self.threshold as nat
    }

    /// No item occurs twice, every item has more participants than the
    /// threshold, and the sizes of any two of the sets add up within the
    /// machine's range.
    pub closed spec fn wf(self) -> bool {
        &&& self.ids@.len() == self.sets@.len()
        &&& self.ids@.no_duplicates()
        &&& forall|k: int|
            0 <= k < self.sets@.len() ==> (#[trigger] self.sets@[k]).wf() && self.sets@[k]@.len()
                > self.threshold
        &&& forall|j: int, k: int|
            0 <= j < self.sets@.len() && 0 <= k < self.sets@.len() && j != k ==> (
            #[trigger] self.sets@[j])@.len() + (#[trigger] self.sets@[k])@.len() <= usize::MAX
    }

    /// What well-formedness says, over the public names: the view maps the
    /// item at each position to the set at that position, every set is
    /// finite and larger than the threshold, and no item occurs twice.
    pub proof fn lemma_wf(self)
        requires
            self.wf(),
        ensures
            self.ids().no_duplicates(),
            self@.dom() == self.ids().to_set(),
            forall|k: int|
                0 <= k < self.ids().len() ==> self@[#[trigger] self.ids()[k]] == self.set_at(k),
            forall|k: int|
                0 <= k < self.ids().len() ==> (#[trigger] self.set_at(k)).finite() && self.set_at(
                    k,
                ).len() > self.threshold(),
            forall|j: int, k: int|
                0 <= j < self.ids().len() && 0 <= k < self.ids().len() && j != k ==> (
                #[trigger] self.set_at(j)).len() + (#[trigger] self.set_at(k)).len() <= usize::MAX,
    {
        assert forall|k: int| 0 <= k < self.ids().len() implies self@[#[trigger] self.ids()[k]]
            == self.set_at(k) by {
            self.ids@.index_of_first_ensures(self.ids@[k]);
        }
        assert forall|k: int| 0 <= k < self.ids().len() implies (#[trigger] self.set_at(
            k,
        )).finite() && self.set_at(k).len() > self.threshold() by {
            self.sets@[k].lemma_finite();
        }
    }

    /// The number of items.
    pub fn len(&self) -> (res: usize)
        requires
            self.wf(),
        ensures
            res == self.ids().len(),
    {
        self.ids.len()
    }

    /// The items, in order.
    pub fn keys(&self) -> (res: Vec<i32>)
        requires
            self.wf(),
        ensures
            res@ == self.ids(),
            res@.no_duplicates(),
    {
        self.ids.clone()
    }

    /// The support threshold that the set was built with.
    pub fn support_threshold(&self) -> (res: usize)
        ensures
            res == self.threshold(),
    {
        self.threshold
    }

    /// The item at position `k`.
    pub fn item_id(&self, k: usize) -> (res: i32)
        requires
            self.wf(),
            k < self.ids().len(),
        ensures
            res == self.ids()[k as int],
    {
        self.ids[k]
    }

    /// The participants of the item at position `k`.
    pub fn participants(&self, k: usize) -> (res: &ParticipantSet)
        requires
            self.wf(),
            k < self.ids().len(),
        ensures
            res.wf(),
            res@ == self.set_at(k as int),
            res@.len() > self.threshold(),
    {
        &self.sets[k]
    }

    /// The position of `item`, or nothing where the set has no such item.
    pub fn position(&self, item: i32) -> (res: Option<usize>)
        requires
            self.wf(),
        ensures
            match res {
                Some(k) => k < self.ids().len() && self.ids()[k as int] == item,
                None => !self.ids().contains(item),
            },
            res.is_some() == self@.contains_key(item),
    {
        let mut k: usize = 0;
        while k < self.ids.len()
            invariant
                k <= self.ids@.len(),
                forall|j: int| 0 <= j < k ==> self.ids@[j] != item,
            decreases self.ids@.len() - k,
        {
            if self.ids[k] == item {
                return Some(k);
            }
            k += 1;
        }
        None
    }

    /// The participants of `item`, or nothing where the set has no such
    /// item.
    pub fn get(&self, item: i32) -> (res: Option<&ParticipantSet>)
        requires
            self.wf(),
        ensures
            match res {
                Some(set) => self@.contains_key(item) && set@ == self@[item] && set.wf(),
                None => !self@.contains_key(item),
            },
    {
        match self.position(item) {
            Some(k) => {
                Some(&self.sets[k])
            },
            None => None,
        }
    }
}

/// Groups the names of the participants by the item that they rated.
///
/// Calls `Itertools::into_group_map_by` of itertools on the ratings, with the
/// item as the key, and hands each group out as the list of its names. By
/// the function's source, an item has a group exactly where some rating
/// names it, and a group lists its ratings in the order in which they came.
#[verifier::external_body]
fn group_names_by_item(ratings: &Vec<Rating>) -> (groups: HashMap<i32, Vec<String>>)
    ensures
        forall|item: i32| #[trigger]
            groups@.contains_key(item) <==> (exists|k: int|
                0 <= k < ratings@.len() && (#[trigger] ratings@[k]).item_id == item),
        forall|item: i32| #[trigger]
            groups@.contains_key(item) ==> name_views(groups@[item]@) == names_for(
                rating_views(ratings@),
                item,
            ),
{
    let grouped = ratings.iter().into_group_map_by(|rating| rating.item_id);
    grouped.into_iter().map(
        |(item, group)|
            (item, group.into_iter().map(|rating| rating.participant_id.clone()).collect()),
    ).collect()
}

/// Groups the participants by the item that they rated, each participant once
/// for each item, and keeps the items that more than `ratings_threshold`
/// participants have rated.
pub fn group_rating_by_game(ratings: Vec<Rating>, ratings_threshold: usize) -> (res: ItemSet)
    ensures
        res.wf(),
        res.threshold() == ratings_threshold,
        res@ == grouped(rating_views(ratings@), ratings_threshold as int),
        res.ids() == with_support(
            items_of(rating_views(ratings@)),
            rating_views(ratings@),
            ratings_threshold as int,
        ),
        forall|k: int|
            0 <= k < res.ids().len() ==> #[trigger] res.set_at(k) == participants_of(
                rating_views(ratings@),
                res.ids()[k],
            ),
        forall|k: int|
            0 <= k < res.ids().len() ==> (#[trigger] res.set_at(k)).len() > ratings_threshold,
{
    broadcast use vstd::std_specs::hash::group_hash_axioms;

    let ghost all = rating_views(ratings@);
    let ghost limit = ratings_threshold as int;
    let groups = group_names_by_item(&ratings);
    let mut seen: HashSet<i32> = HashSet::new();
    let mut ids: Vec<i32> = Vec::new();
    let mut sets: Vec<ParticipantSet> = Vec::new();
    let mut i: usize = 0;
    while i < ratings.len()
        invariant
            i <= ratings.len(),
            all == rating_views(ratings@),
            limit == ratings_threshold as int,
            forall|item: i32| #[trigger]
                groups@.contains_key(item) <==> exists|k: int|
                    0 <= k < ratings@.len() && (#[trigger] ratings@[k]).item_id == item,
            forall|item: i32| #[trigger]
                groups@.contains_key(item) ==> name_views(groups@[item]@) == names_for(all, item),
            seen@ == items_of(all.take(i as int)).to_set(),
            ids@ == with_support(items_of(all.take(i as int)), all, limit),
            ids@.len() == sets@.len(),
            forall|k: int|
                0 <= k < sets@.len() ==> (#[trigger] sets@[k]).wf() && sets@[k]@ == participants_of(
                    all,
                    ids@[k],
                ),
        decreases ratings.len() - i,
    {
        let item = ratings[i].item_id;
        let ghost before = items_of(all.take(i as int));
        proof {
            assert(all.take(i as int + 1).drop_last() =~= all.take(i as int));
        }
        if !seen.contains(&item) {
            seen.insert(item);
            proof {
                before.lemma_push_to_set_commute(item);
                assert(before.push(item).drop_last() =~= before);
            }
            match groups.get(&item) {
                Some(names) => {
                    let set = ParticipantSet::from_names(names);
                    if set.len() > ratings_threshold {
                        ids.push(item);
                        sets.push(set);
                    }
                },
                None => {},
            }
        }
        i += 1;
    }
    proof {
        assert(all.take(ratings.len() as int) =~= all);
        lemma_items_of(all);
        lemma_with_support(items_of(all), all, limit);
    }
    let res = ItemSet { ids, sets, threshold: ratings_threshold };
    proof {
        assert forall|j: int, k: int|
            0 <= j < res.sets@.len() && 0 <= k < res.sets@.len() && j != k implies (
        #[trigger] res.sets@[j])@.len() + (#[trigger] res.sets@[k])@.len() <= usize::MAX by {
            lemma_two_items_within_total(all, res.ids@[j], res.ids@[k]);
        }
        assert forall|k: int| 0 <= k < res.sets@.len() implies (#[trigger] res.sets@[k]).wf()
            && res.sets@[k]@.len() > res.threshold by {
            let item = res.ids@[k];
            let kept = with_support(items_of(all), all, limit);
            assert(kept.contains(item));
        }
        assert forall|item: i32| res@.contains_key(item) <==> grouped(all, limit).contains_key(
            item,
        ) by {
            if participants_of(all, item).len() > limit {
                lemma_rated_item_occurs(all, item);
            }
        }
        assert forall|item: i32| res@.contains_key(item) implies res@[item] == grouped(
            all,
            limit,
        )[item] by {
            res.ids@.index_of_first_ensures(item);
        }
    }
    res
}

/// A participant is among the participants of an item exactly where one of
/// the ratings names the two together.
pub proof fn lemma_participants_of(ratings: Seq<RatingView>, item: i32)
    ensures
        participants_of(ratings, item).finite(),
        forall|name: Seq<char>| #[trigger]
            participants_of(ratings, item).contains(name) <==> (exists|k: int|
                0 <= k < ratings.len() && #[trigger] ratings[k] == (RatingView {
                    item_id: item,
                    participant_id: name,
                })),
    decreases ratings.len(),
{
    vstd::seq_lib::seq_to_set_is_finite(names_for(ratings, item));
    if ratings.len() > 0 {
        let head = ratings.drop_last();
        let last = ratings.last();
        lemma_participants_of(head, item);
        names_for(head, item).lemma_push_to_set_commute(last.participant_id);
        assert forall|name: Seq<char>| #[trigger]
            participants_of(ratings, item).contains(name) <==> (exists|k: int|
                0 <= k < ratings.len() && #[trigger] ratings[k] == (RatingView {
                    item_id: item,
                    participant_id: name,
                })) by {
            let wanted = RatingView { item_id: item, participant_id: name };
            if exists|k: int| 0 <= k < ratings.len() && #[trigger] ratings[k] == wanted {
                let k = choose|k: int| 0 <= k < ratings.len() && #[trigger] ratings[k] == wanted;
                if k < head.len() {
                    assert(head[k] == wanted);
                }
            }
        }
    }
}

/// The items of the ratings are pairwise distinct, and an item is among them
/// exactly where some rating names it.
pub proof fn lemma_items_of(ratings: Seq<RatingView>)
    ensures
        items_of(ratings).no_duplicates(),
        forall|item: i32| #[trigger]
            items_of(ratings).contains(item) <==> (exists|k: int|
                0 <= k < ratings.len() && (#[trigger] ratings[k]).item_id == item),
    decreases ratings.len(),
{
    if ratings.len() > 0 {
        let head = ratings.drop_last();
        let last = ratings.last().item_id;
        lemma_items_of(head);
        assert forall|item: i32| #[trigger]
            items_of(ratings).contains(item) <==> (exists|k: int|
                0 <= k < ratings.len() && (#[trigger] ratings[k]).item_id == item) by {
            assert(items_of(ratings).contains(item) ==> items_of(head).contains(item) || item
                == last);
            if exists|k: int| 0 <= k < ratings.len() && (#[trigger] ratings[k]).item_id == item {
                let k = choose|k: int|
                    0 <= k < ratings.len() && (#[trigger] ratings[k]).item_id == item;
                if k < head.len() {
                    assert(head[k].item_id == item);
                    assert(items_of(head).contains(item));
                    if !items_of(head).contains(last) {
                        let at = items_of(head).index_of(item);
                        assert(items_of(head).push(last)[at] == item);
                    }
                } else {
                    if !items_of(head).contains(last) {
                        assert(items_of(head).push(last)[items_of(head).len() as int] == item);
                    }
                }
            }
        }
    }
}

/// The items with support are some of the items, in their order: none of
/// them occurs twice where none of the items does, and an item is among them
/// exactly where it is among the items and has the support.
pub proof fn lemma_with_support(items: Seq<i32>, ratings: Seq<RatingView>, threshold: int)
    ensures
        items.no_duplicates() ==> with_support(items, ratings, threshold).no_duplicates(),
        forall|item: i32| #[trigger]
            with_support(items, ratings, threshold).contains(item) <==> items.contains(item)
                && participants_of(ratings, item).len() > threshold,
    decreases items.len(),
{
    if items.len() > 0 {
        let head = items.drop_last();
        let last = items.last();
        let kept = with_support(head, ratings, threshold);
        lemma_with_support(head, ratings, threshold);
        assert forall|item: i32| #[trigger]
            with_support(items, ratings, threshold).contains(item) <==> items.contains(item)
                && participants_of(ratings, item).len() > threshold by {
            if items.contains(item) {
                let k = choose|k: int| 0 <= k < items.len() && items[k] == item;
                if k < head.len() {
                    assert(head[k] == item);
                }
            }
            if kept.contains(item) {
                let k = choose|k: int| 0 <= k < kept.len() && kept[k] == item;
                assert(kept.push(last)[k] == item);
            }
            assert(kept.push(last)[kept.len() as int] == last);
        }
        if items.no_duplicates() {
            assert(!head.contains(last));
            assert forall|i: int, j: int|
                0 <= i < kept.push(last).len() && 0 <= j < kept.push(last).len() && i
                    != j implies kept.push(last)[i] != kept.push(last)[j] by {
                if i < kept.len() {
                    assert(kept.contains(kept[i]));
                }
                if j < kept.len() {
                    assert(kept.contains(kept[j]));
                }
            }
        }
    }
}

/// An item that somebody has rated is among the items of the ratings.
pub proof fn lemma_rated_item_occurs(ratings: Seq<RatingView>, item: i32)
    requires
        participants_of(ratings, item).len() > 0,
    ensures
        items_of(ratings).contains(item),
    decreases ratings.len(),
{
    lemma_items_of(ratings);
    if ratings.len() == 0 {
        assert(names_for(ratings, item).to_set() =~= Set::<Seq<char>>::empty());
    } else if ratings.last().item_id != item {
        lemma_rated_item_occurs(ratings.drop_last(), item);
        lemma_items_of(ratings.drop_last());
    }
}

/// The ratings of two different items are different ratings: together they
/// are no more than all the ratings, and so are the participants of the two
/// items.
pub proof fn lemma_two_items_within_total(ratings: Seq<RatingView>, first: i32, second: i32)
    requires
        first != second,
    ensures
        names_for(ratings, first).len() + names_for(ratings, second).len() <= ratings.len(),
        participants_of(ratings, first).len() + participants_of(ratings, second).len()
            <= ratings.len(),
    decreases ratings.len(),
{
    if ratings.len() > 0 {
        lemma_two_items_within_total(ratings.drop_last(), first, second);
    }
    names_for(ratings, first).lemma_cardinality_of_set();
    names_for(ratings, second).lemma_cardinality_of_set();
}

} // verus!
