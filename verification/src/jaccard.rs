//! The Jaccard index of two sets: the size of their intersection over the
//! size of their union.

use crate::participants::lemma_prefix_overlap_step;
use crate::participants::ParticipantSet;
use crate::score::Score;
use vstd::prelude::*;
use vstd::set_lib::lemma_len_subset;
use vstd::set_lib::lemma_set_intersect_union_lens;

verus! {

/// The Jaccard index of two finite sets. It is undefined where both sets are
/// empty, and out of the machine's range where their union has more members
/// than a 64-bit count holds.
pub open spec fn similarity<T>(a: Set<T>, b: Set<T>) -> Option<Score> {
    let coverage = a.union(b).len();
    if coverage == 0 || coverage > u64::MAX {
        None
    } else {
        Some(Score { overlap: a.intersect(b).len() as u64, coverage: coverage as u64 })
    }
}

/// The sizes of the intersection and of the union of two participant sets.
fn overlap_and_coverage(a: &ParticipantSet, b: &ParticipantSet) -> (res: (usize, u128))
    requires
        a.wf(),
        b.wf(),
    ensures
        res.0 == a@.intersect(b@).len(),
        res.1 == a@.union(b@).len(),
        res.0 <= res.1 <= a@.len() + b@.len(),
{
    let common = a.common_count(b);
    let size_a = a.len();
    let size_b = b.len();
    proof {
        lemma_set_intersect_union_lens(a@, b@);
        lemma_similarity_in_range(a@, b@);
    }
    (common, size_a as u128 + size_b as u128 - common as u128)
}

/// The Jaccard index of two participant sets, computed from the exact sizes
/// of their intersection and union. There is none where both sets are empty.
pub fn jaccard(a: &ParticipantSet, b: &ParticipantSet) -> (res: Option<Score>)
    requires
        a.wf(),
        b.wf(),
    ensures
        res == similarity(a@, b@),
        res matches Some(s) ==> s.wf(),
        (a@.len() > 0 || b@.len() > 0) && a@.len() + b@.len() <= u64::MAX ==> res.is_some(),
{
    let (overlap, coverage) = overlap_and_coverage(a, b);
    proof {
        a.lemma_finite();
        b.lemma_finite();
        lemma_similarity_some(a@, b@);
    }
    if coverage == 0 || coverage > u64::MAX as u128 {
        None
    } else {
        Some(Score { overlap: overlap as u64, coverage: coverage as u64 })
    }
}

/// The Jaccard index of two participant sets that have one: they are not
/// both empty, and their union is within the machine's range.
pub fn jaccard_of(a: &ParticipantSet, b: &ParticipantSet) -> (res: Score)
    requires
        a.wf(),
        b.wf(),
        similarity(a@, b@).is_some(),
    ensures
        Some(res) == similarity(a@, b@),
        res.wf(),
{
    let (overlap, coverage) = overlap_and_coverage(a, b);
    Score { overlap: overlap as u64, coverage: coverage as u64 }
}

/// The Jaccard index of two lists of identifiers, each read as the set of
/// its values: a value that occurs more than once counts once. There is none
/// where both lists are empty.
pub fn jaccard_index(set1: &Vec<u32>, set2: &Vec<u32>) -> (res: Option<Score>)
    ensures
        res == similarity(set1@.to_set(), set2@.to_set()),
        res matches Some(s) ==> s.wf(),
        (set1@.len() > 0 || set2@.len() > 0) && set1@.len() + set2@.len() <= u64::MAX
            ==> res.is_some(),
{
    let first = distinct(set1);
    let second = distinct(set2);
    let common = common_values(&first, &second);
    let ghost a = set1@.to_set();
    let ghost b = set2@.to_set();
    proof {
        first@.unique_seq_to_set();
        second@.unique_seq_to_set();
        lemma_set_intersect_union_lens(a, b);
        lemma_similarity_in_range(a, b);
        if set1@.len() > 0 {
            assert(a.contains(set1@[0]));
        }
        if set2@.len() > 0 {
            assert(b.contains(set2@[0]));
        }
    }
    let coverage: u128 = first.len() as u128 + second.len() as u128 - common as u128;
    if coverage == 0 || coverage > u64::MAX as u128 {
        None
    } else {
        Some(Score { overlap: common as u64, coverage: coverage as u64 })
    }
}

/// The values of `values`, each once, in the order of their first
/// occurrence.
fn distinct(values: &Vec<u32>) -> (res: Vec<u32>)
    ensures
        res@.no_duplicates(),
        res@.to_set() == values@.to_set(),
        res@.len() <= values@.len(),
{
    let mut res: Vec<u32> = Vec::new();
    let mut i: usize = 0;
    while i < values.len()
        invariant
            i <= values.len(),
            res@.no_duplicates(),
            res@.to_set() == values@.take(i as int).to_set(),
            res@.len() <= i,
        decreases values.len() - i,
    {
        let value = values[i];
        let known = holds(&res, value);
        proof {
            values@.take(i as int).lemma_push_to_set_commute(value);
            assert(values@.take(i as int + 1) =~= values@.take(i as int).push(value));
            res@.lemma_push_to_set_commute(value);
        }
        if !known {
            res.push(value);
        }
        i += 1;
    }
    assert(values@.take(values.len() as int) =~= values@);
    res
}

/// Whether `value` occurs in `values`.
fn holds(values: &Vec<u32>, value: u32) -> (res: bool)
    ensures
        res == values@.contains(value),
        res == values@.to_set().contains(value),
{
    let mut i: usize = 0;
    while i < values.len()
        invariant
            i <= values.len(),
            forall|k: int| 0 <= k < i ==> values@[k] != value,
        decreases values.len() - i,
    {
        if values[i] == value {
            return true;
        }
        i += 1;
    }
    false
}

/// The number of values of the duplicate-free `xs` that occur in `ys`.
fn common_values(xs: &Vec<u32>, ys: &Vec<u32>) -> (res: usize)
    requires
        xs@.no_duplicates(),
    ensures
        res == xs@.to_set().intersect(ys@.to_set()).len(),
{
    let ghost other = ys@.to_set();
    let mut count: usize = 0;
    let mut i: usize = 0;
    assert(xs@.take(0).to_set().intersect(other) =~= Set::<u32>::empty());
    while i < xs.len()
        invariant
            i <= xs.len(),
            xs@.no_duplicates(),
            other == ys@.to_set(),
            count <= i,
            count == xs@.take(i as int).to_set().intersect(other).len(),
        decreases xs.len() - i,
    {
        let hit = holds(ys, xs[i]);
        proof {
            lemma_prefix_overlap_step(xs@, other, i as int);
        }
        if hit {
            count += 1;
        }
        i += 1;
    }
    assert(xs@.take(xs.len() as int) =~= xs@);
    count
}

/// The Jaccard index lies in `[0, 1]`: the overlap is at most the coverage,
/// and the coverage is positive wherever the index is defined.
pub proof fn lemma_similarity_in_range<T>(a: Set<T>, b: Set<T>)
    requires
        a.finite(),
        b.finite(),
    ensures
        similarity(a, b) matches Some(s) ==> s.wf(),
        a.intersect(b).len() <= a.union(b).len(),
        a.union(b).len() <= a.len() + b.len(),
{
    lemma_set_intersect_union_lens(a, b);
    lemma_len_subset(a.intersect(b), a.union(b));
}

/// Two finite sets have a Jaccard index exactly where one of them has a
/// member and their union is within the machine's range. That is so, in
/// particular, where their sizes add up within that range.
pub proof fn lemma_similarity_some<T>(a: Set<T>, b: Set<T>)
    requires
        a.finite(),
        b.finite(),
    ensures
        similarity(a, b).is_some() <==> (a.len() > 0 || b.len() > 0) && a.union(b).len()
            <= u64::MAX,
        a.union(b).len() <= a.len() + b.len(),
{
    lemma_similarity_in_range(a, b);
    if a.len() > 0 {
        assert(a.union(b).contains(a.choose()));
    }
    if b.len() > 0 {
        assert(a.union(b).contains(b.choose()));
    }
}

/// The Jaccard index of a non-empty set with itself is one.
pub proof fn lemma_similarity_self<T>(a: Set<T>)
    requires
        a.finite(),
        a.len() > 0,
    ensures
        similarity(a, a) matches Some(s) ==> s.overlap == s.coverage,
        a.len() <= u64::MAX ==> similarity(a, a).is_some(),
{
    assert(a.union(a) =~= a);
    assert(a.intersect(a) =~= a);
}

/// The Jaccard index of two non-empty sets is zero exactly where they share
/// no member.
pub proof fn lemma_similarity_zero_iff_disjoint<T>(a: Set<T>, b: Set<T>)
    requires
        a.finite(),
        b.finite(),
        a.len() > 0,
        b.len() > 0,
    ensures
        similarity(a, b) matches Some(s) ==> (s.overlap == 0 <==> a.intersect(b) == Set::<
            T,
        >::empty()),
        a.intersect(b) == Set::<T>::empty() <==> a.disjoint(b),
{
    lemma_similarity_in_range(a, b);
    vstd::set_lib::lemma_disjoint_iff_empty_intersection(a, b);
}

/// The Jaccard index does not depend on the order of its two sets.
pub proof fn lemma_similarity_symmetric<T>(a: Set<T>, b: Set<T>)
    ensures
        similarity(a, b) == similarity(b, a),
{
    assert(a.union(b) =~= b.union(a));
    assert(a.intersect(b) =~= b.intersect(a));
}

} // verus!
