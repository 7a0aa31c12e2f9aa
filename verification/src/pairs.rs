//! The pair enumerator: every unordered pair of items, once.

use itertools::Itertools;
use vstd::prelude::*;

verus! {

/// The pairs of positions `(i, j)` with `first <= i < j < n`, in
/// lexicographic order: those that begin with `first`, then those that
/// begin with `first + 1`, and so on.
pub open spec fn index_pairs(first: int, n: int) -> Seq<(int, int)>
    decreases n - first,
{
    if first >= n {
        Seq::empty()
    } else {
        Seq::new((n - first - 1) as nat, |k: int| (first, first + 1 + k)) + index_pairs(
            first + 1,
            n,
        )
    }
}

/// The number of unordered pairs among `n` items.
pub open spec fn pair_count(n: int) -> int {
    n * (n - 1) / 2
}

/// Whether the pairs of `n` items can be held in one list: a pair takes the
/// room of two positions, and no list is larger than half the address space.
pub open spec fn pairs_fit(n: int) -> bool {
    pair_count(n) <= usize::MAX / 32
}

/// The pairs of keys at the positions of `index_pairs`.
pub open spec fn key_pairs(keys: Seq<i32>) -> Seq<(i32, i32)> {
    index_pairs(0, keys.len() as int).map_values(|p: (int, int)| (keys[p.0], keys[p.1]))
}

/// What a list of pairs of positions holds, as integers.
pub open spec fn position_views(pairs: Seq<(usize, usize)>) -> Seq<(int, int)> {
    pairs.map_values(|p: (usize, usize)| (p.0 as int, p.1 as int))
}

/// Whether the pairs of `n` items can be held in one list.
pub fn pairs_fit_in_memory(n: usize) -> (res: bool)
    ensures
        res == pairs_fit(n as int),
{
    if n == 0 {
        return true;
    }
    let wide: u128 = n as u128;
    assert(wide * (wide - 1) <= 0xffff_ffff_ffff_ffff * 0xffff_ffff_ffff_ffff) by (nonlinear_arith)
        requires
            1 <= wide <= 0xffff_ffff_ffff_ffff,
    ;
    let count: u128 = wide * (wide - 1) / 2;
    count <= (usize::MAX / 32) as u128
}

/// The pairs of positions below `n`.
///
/// Calls `Itertools::tuple_combinations` of itertools on the range `0..n`,
/// for pairs, and collects what it yields. By the function's source it pairs
/// the first position with each later one in turn, then the second position
/// with each later one, and so on, which is the lexicographic order.
/// Collecting fails where the list does not fit in memory, so the number of
/// pairs is bounded.
#[allow(deprecated)]
#[verifier::external_body]
fn position_combinations(n: usize) -> (res: Vec<(usize, usize)>)
    requires
        pairs_fit(n as int),
    ensures
        position_views(res@) == index_pairs(0, n as int),
{
    (0..n).tuple_combinations().collect()
}

/// The pairs of positions `(i, j)` with `i < j < n`, in lexicographic order.
pub fn enumerate_positions(n: usize) -> (res: Vec<(usize, usize)>)
    requires
        pairs_fit(n as int),
    ensures
        position_views(res@) == index_pairs(0, n as int),
        res@.len() == pair_count(n as int),
        forall|k: int| 0 <= k < res@.len() ==> (#[trigger] res@[k]).0 < res@[k].1 < n,
{
    let res = position_combinations(n);
    proof {
        lemma_index_pairs(0, n as int);
        assert forall|k: int| 0 <= k < res@.len() implies (#[trigger] res@[k]).0 < res@[k].1
            < n by {
            assert(position_views(res@)[k] == (res@[k].0 as int, res@[k].1 as int));
        }
    }
    res
}

/// Every unordered pair of the keys, once: the first key with each later
/// one, then the second key with each later one, and so on.
pub fn enumerate_pairs(keys: &Vec<i32>) -> (res: Vec<(i32, i32)>)
    requires
        pairs_fit(keys@.len() as int),
    ensures
        res@ == key_pairs(keys@),
        res@.len() == pair_count(keys@.len() as int),
{
    let positions = enumerate_positions(keys.len());
    let ghost wanted = key_pairs(keys@);
    let mut res: Vec<(i32, i32)> = Vec::new();
    let mut k: usize = 0;
    while k < positions.len()
        invariant
            k <= positions@.len(),
            position_views(positions@) == index_pairs(0, keys@.len() as int),
            forall|t: int|
                0 <= t < positions@.len() ==> (#[trigger] positions@[t]).0 < positions@[t].1
                    < keys@.len(),
            wanted == key_pairs(keys@),
            res@ == wanted.take(k as int),
        decreases positions@.len() - k,
    {
        let (i, j) = positions[k];
        res.push((keys[i], keys[j]));
        k += 1;
    }
    res
}

/// The pairs of positions are as many as `n` items have unordered pairs;
/// each is a pair of two different positions in ascending order; each such
/// pair is among them; and none occurs twice.
pub proof fn lemma_index_pairs(first: int, n: int)
    requires
        0 <= first <= n,
    ensures
        index_pairs(first, n).len() == pair_count(n - first),
        forall|k: int|
            0 <= k < index_pairs(first, n).len() ==> first <= (#[trigger] index_pairs(
                first,
                n,
            )[k]).0 < index_pairs(first, n)[k].1 < n,
        forall|i: int, j: int|
            first <= i < j < n ==> #[trigger] index_pairs(first, n).contains((i, j)),
        index_pairs(first, n).no_duplicates(),
    decreases n - first,
{
    let all = index_pairs(first, n);
    if first < n {
        let row = Seq::new((n - first - 1) as nat, |k: int| (first, first + 1 + k));
        let rest = index_pairs(first + 1, n);
        lemma_index_pairs(first + 1, n);
        assert(pair_count(n - first) == (n - first - 1) + pair_count(n - first - 1))
            by (nonlinear_arith)
            requires
                n - first >= 1,
        ;
        assert forall|i: int, j: int| first <= i < j < n implies #[trigger] all.contains(
            (i, j),
        ) by {
            if i == first {
                assert(all[j - first - 1] == (i, j));
            } else {
                assert(rest.contains((i, j)));
                let k = choose|k: int| 0 <= k < rest.len() && rest[k] == (i, j);
                assert(all[row.len() + k] == rest[k]);
            }
        }
    } else {
        assert(pair_count(0) == 0) by (nonlinear_arith);
    }
}

/// Over `n` distinct keys the enumerator gives `n (n - 1) / 2` pairs. No
/// pair joins a key with itself; no pair occurs twice, in either order; and
/// any two different keys are joined by one of the pairs.
pub proof fn lemma_key_pairs(keys: Seq<i32>)
    requires
        keys.no_duplicates(),
    ensures
        key_pairs(keys).len() == pair_count(keys.len() as int),
        forall|k: int|
            0 <= k < key_pairs(keys).len() ==> (#[trigger] key_pairs(keys)[k]).0 != key_pairs(
                keys,
            )[k].1,
        forall|k: int|
            0 <= k < key_pairs(keys).len() ==> keys.contains((#[trigger] key_pairs(keys)[k]).0)
                && keys.contains(key_pairs(keys)[k].1),
        key_pairs(keys).no_duplicates(),
        forall|k: int, t: int|
            0 <= k < key_pairs(keys).len() && 0 <= t < key_pairs(keys).len() ==> (
            #[trigger] key_pairs(keys)[k]).0 != (#[trigger] key_pairs(keys)[t]).1 || key_pairs(
                keys,
            )[k].1 != key_pairs(keys)[t].0,
        forall|a: i32, b: i32|
            keys.contains(a) && keys.contains(b) && a != b ==> #[trigger] key_pairs(
                keys,
            ).contains((a, b)) || key_pairs(keys).contains((b, a)),
{
    let n = keys.len() as int;
    let positions = index_pairs(0, n);
    let pairs = key_pairs(keys);
    lemma_index_pairs(0, n);
    assert forall|a: i32, b: i32| keys.contains(a) && keys.contains(b) && a
        != b implies #[trigger] pairs.contains((a, b)) || pairs.contains((b, a)) by {
        let i = choose|i: int| 0 <= i < keys.len() && keys[i] == a;
        let j = choose|j: int| 0 <= j < keys.len() && keys[j] == b;
        if i < j {
            assert(positions.contains((i, j)));
            let k = choose|k: int| 0 <= k < positions.len() && positions[k] == (i, j);
            assert(pairs[k] == (a, b));
        } else {
            assert(positions.contains((j, i)));
            let k = choose|k: int| 0 <= k < positions.len() && positions[k] == (j, i);
            assert(pairs[k] == (b, a));
        }
    }
}

} // verus!
