//! From decoded records to ratings: which records of a log are sampled, and
//! which of them count as a rating.

use crate::participants::name_views;
use vstd::prelude::*;

verus! {

/// One decoded record of the rating log.
pub struct Record {
    pub item_id: i32,
    pub participant_id: String,
    pub has_opinion: bool,
}

/// What a record holds.
pub struct RecordView {
    pub item_id: i32,
    pub participant_id: Seq<char>,
    pub has_opinion: bool,
}

impl View for Record {
    type V = RecordView;

    open spec fn view(&self) -> RecordView {
        RecordView {
            item_id: self.item_id,
            participant_id: self.participant_id@,
            has_opinion: self.has_opinion,
        }
    }
}

/// The fact that a participant has rated an item.
#[derive(Debug)]
pub struct Rating {
    pub item_id: i32,
    pub participant_id: String,
}

/// What a rating holds.
pub struct RatingView {
    pub item_id: i32,
    pub participant_id: Seq<char>,
}

impl View for Rating {
    type V = RatingView;

    open spec fn view(&self) -> RatingView {
        RatingView { item_id: self.item_id, participant_id: self.participant_id@ }
    }
}

impl Clone for Rating {
    fn clone(&self) -> (res: Rating)
        ensures
            res@ == self@,
    {
        Rating { item_id: self.item_id, participant_id: self.participant_id.clone() }
    }
}

/// What a list of ratings holds, rating by rating.
pub open spec fn rating_views(ratings: Seq<Rating>) -> Seq<RatingView> {
    ratings.map_values(|r: Rating| r@)
}

/// What a list of decoding outcomes holds: for each line its record, or
/// nothing where the line could not be decoded.
pub open spec fn outcome_views(outcomes: Seq<Option<Record>>) -> Seq<Option<RecordView>> {
    outcomes.map_values(
        |o: Option<Record>|
            match o {
                Some(record) => Some(record@),
                None => None,
            },
    )
}

/// Every `factor`-th element of `items`, starting with the first.
pub open spec fn sampled<T>(items: Seq<T>, factor: int) -> Seq<T>
    recommends
        factor > 0,
{
    Seq::new(((items.len() + factor - 1) / factor) as nat, |k: int| items[k * factor])
}

/// The rating that a decoding outcome gives: that of a decoded record with
/// an opinion, and none otherwise.
pub open spec fn rating_of(outcome: Option<RecordView>) -> Option<RatingView> {
    match outcome {
        Some(record) => if record.has_opinion {
            Some(RatingView { item_id: record.item_id, participant_id: record.participant_id })
        } else {
            None
        },
        None => None,
    }
}

/// The ratings that a list of decoding outcomes gives, in the order of the
/// outcomes.
pub open spec fn ratings_of(outcomes: Seq<Option<RecordView>>) -> Seq<RatingView>
    decreases outcomes.len(),
{
    if outcomes.len() == 0 {
        Seq::empty()
    } else {
        match rating_of(outcomes.last()) {
            Some(rating) => ratings_of(outcomes.drop_last()).push(rating),
            None => ratings_of(outcomes.drop_last()),
        }
    }
}

/// Whether position `index` is kept when one record in `factor` is kept: the
/// first position is, and then every `factor`-th after it.
pub open spec fn kept_position(index: int, factor: int) -> bool
    recommends
        factor > 0,
{
    index % factor == 0
}

/// Whether the record at position `index` of the log is sampled when one
/// record in `decimation_factor` is kept.
pub fn keeps_position(index: usize, decimation_factor: usize) -> (res: bool)
    requires
        decimation_factor > 0,
    ensures
        res == kept_position(index as int, decimation_factor as int),
{
    index % decimation_factor == 0
}

/// Keeps one line in `decimation_factor`: the first, and then every
/// `decimation_factor`-th after it.
pub fn decimate(lines: &Vec<String>, decimation_factor: usize) -> (res: Vec<String>)
    requires
        decimation_factor > 0,
    ensures
        name_views(res@) == sampled(
            name_views(lines@),
            decimation_factor as int,
        ),
{
    let ghost texts = name_views(lines@);
    let ghost step = decimation_factor as int;
    let count = lines.len();
    let mut res: Vec<String> = Vec::new();
    if count == 0 {
        assert((0 + step - 1) / step == 0) by (nonlinear_arith)
            requires
                step > 0,
        ;
        return res;
    }
    let mut i: usize = 0;
    assert(res@.len() * step == 0) by (nonlinear_arith)
        requires
            res@.len() == 0,
    ;
    loop
        invariant_except_break
            i < count,
            i == res@.len() * step,
        invariant
            count == lines@.len(),
            step == decimation_factor as int,
            step > 0,
            texts == name_views(lines@),
            forall|k: int| 0 <= k < res@.len() ==> (#[trigger] res@[k])@ == texts[k * step],
        ensures
            res@.len() == (count + step - 1) / step,
        decreases count - i,
    {
        let ghost taken = res@.len() as int;
        let line = lines[i].clone();
        res.push(line);
        assert((taken + 1) * step == taken * step + step) by (nonlinear_arith);
        if count - i <= decimation_factor {
            assert((count + step - 1) / step == taken + 1) by (nonlinear_arith)
                requires
                    step > 0,
                    taken * step < count,
                    count <= (taken + 1) * step,
            ;
            break;
        }
        i = i + decimation_factor;
    }
    res
}

/// The sample holds the elements at the kept positions, in their order: the
/// element at a kept position `i` is the `i / factor`-th of the sample.
pub proof fn lemma_sampled<T>(items: Seq<T>, factor: int)
    requires
        factor > 0,
    ensures
        forall|i: int|
            0 <= i < items.len() && #[trigger] kept_position(i, factor) ==> 0 <= i / factor
                < sampled(items, factor).len() && sampled(items, factor)[i / factor] == items[i],
{
    let count = (items.len() + factor - 1) / factor;
    assert forall|i: int| 0 <= i < items.len() && #[trigger] kept_position(i, factor) implies 0
        <= i / factor < sampled(items, factor).len() && sampled(items, factor)[i / factor]
        == items[i] by {
        let k = i / factor;
        assert(i == k * factor && 0 <= k < count) by (nonlinear_arith)
            requires
                factor > 0,
                0 <= i < items.len(),
                i % factor == 0,
                k == i / factor,
                count == (items.len() + factor - 1) / factor,
        ;
    }
}

/// The ratings among the decoding outcomes of a log: each decoded record
/// with an opinion gives one, in the order of the log. Lines that could not
/// be decoded and records without an opinion give none.
pub fn collect_ratings(outcomes: &Vec<Option<Record>>) -> (res: Vec<Rating>)
    ensures
        rating_views(res@) == ratings_of(outcome_views(outcomes@)),
{
    let ghost all = outcome_views(outcomes@);
    let mut res: Vec<Rating> = Vec::new();
    let mut i: usize = 0;
    while i < outcomes.len()
        invariant
            i <= outcomes.len(),
            all == outcome_views(outcomes@),
            rating_views(res@) == ratings_of(all.take(i as int)),
        decreases outcomes.len() - i,
    {
        assert(all.take(i as int + 1).drop_last() =~= all.take(i as int));
        match &outcomes[i] {
            Some(record) => {
                if record.has_opinion {
                    let rating = Rating {
                        item_id: record.item_id,
                        participant_id: record.participant_id.clone(),
                    };
                    res.push(rating);
                }
            },
            None => {},
        }
        i += 1;
    }
    assert(all.take(outcomes.len() as int) =~= all);
    res
}

/// A decoded record gives a rating exactly where it has an opinion, and the
/// rating names the record's item and participant.
pub fn rating_from_record(record: &Record) -> (res: Option<Rating>)
    ensures
        match res {
            Some(rating) => Some(rating@) == rating_of(Some(record@)),
            None => rating_of(Some(record@)).is_none(),
        },
{
    if record.has_opinion {
        Some(Rating { item_id: record.item_id, participant_id: record.participant_id.clone() })
    } else {
        None
    }
}

} // verus!
