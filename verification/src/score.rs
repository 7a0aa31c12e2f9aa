//! Similarity scores, held exactly as a ratio of two counts.

use vstd::prelude::*;

verus! {

/// The number of weight units that make up a score of one. Node weights are
/// sums of scores, counted in these units.
pub const UNITS_PER_ONE: u64 = 1_000_000_000;

/// A similarity score: `overlap` shared participants out of `coverage`
/// participants in all. Its value is the ratio `overlap / coverage`. Two
/// scores are equal where they hold the same counts; `ties` says whether two
/// scores have the same value.
#[derive(Clone, Copy, Debug, PartialEq, Eq, Structural)]
pub struct Score {
    pub overlap: u64,
    pub coverage: u64,
}

impl Score {
    /// A score is a ratio in `[0, 1]` with a positive denominator.
    pub open spec fn wf(self) -> bool {
        0 < self.coverage && self.overlap <= self.coverage
    }

    /// The value of `self` is strictly greater than the value of `other`.
    pub open spec fn above(self, other: Score) -> bool {
        self.overlap as int * other.coverage as int > other.overlap as int * self.coverage as int
    }

    /// The two scores have the same value, whatever counts they hold.
    pub open spec fn ties(self, other: Score) -> bool {
        self.overlap as int * other.coverage as int == other.overlap as int * self.coverage as int
    }

    /// The value of the score in weight units, rounded down.
    pub open spec fn spec_units(self) -> int {
        (self.overlap as int * UNITS_PER_ONE as int) / self.coverage as int
    }

    /// Builds the score `overlap / coverage`, or nothing where that is no
    /// ratio in `[0, 1]`.
    pub fn new(overlap: u64, coverage: u64) -> (res: Option<Score>)
        ensures
            res.is_some() <==> (0 < coverage && overlap <= coverage),
            res matches Some(s) ==> s.overlap == overlap && s.coverage == coverage && s.wf(),
    {
        if 0 < coverage && overlap <= coverage {
            Some(Score { overlap, coverage })
        } else {
            None
        }
    }

    /// Whether the score is zero: the two sets share nobody.
    pub fn is_zero(&self) -> (res: bool)
        ensures
            res == (self.overlap == 0),
    {
        self.overlap == 0
    }

    /// Whether the score is one: the two sets are the same.
    pub fn is_one(&self) -> (res: bool)
        ensures
            res == (self.overlap == self.coverage),
    {
        self.overlap == self.coverage
    }

    /// Compares two scores by value, exactly.
    pub fn is_above(&self, other: &Score) -> (res: bool)
        ensures
            res == self.above(*other),
    {
        let left: u128 = wide_product(self.overlap, other.coverage);
        let right: u128 = wide_product(other.overlap, self.coverage);
        left > right
    }

    /// Whether two scores have the same value.
    pub fn is_tied(&self, other: &Score) -> (res: bool)
        ensures
            res == self.ties(*other),
    {
        let left: u128 = wide_product(self.overlap, other.coverage);
        let right: u128 = wide_product(other.overlap, self.coverage);
        left == right
    }

    /// The score in weight units, rounded down: a score of one is
    /// `UNITS_PER_ONE` units.
    pub fn units(&self) -> (res: u64)
        requires
            self.wf(),
        ensures
            res == self.spec_units(),
            res <= UNITS_PER_ONE,
    {
        let scaled: u128 = wide_product(self.overlap, UNITS_PER_ONE);
        let quotient: u128 = scaled / (self.coverage as u128);
        proof {
            lemma_units_bounded(*self);
        }
        quotient as u64
    }
}

/// The product of two 64-bit counts, which always fits in 128 bits.
fn wide_product(x: u64, y: u64) -> (res: u128)
    ensures
        res == x as int * y as int,
{
    assert(x as int * y as int <= 0xffff_ffff_ffff_ffff * 0xffff_ffff_ffff_ffff)
        by (nonlinear_arith)
        requires
            0 <= x as int <= 0xffff_ffff_ffff_ffff,
            0 <= y as int <= 0xffff_ffff_ffff_ffff,
    ;
    assert(0 <= x as int * y as int) by (nonlinear_arith)
        requires
            0 <= x as int,
            0 <= y as int,
    ;
    (x as u128) * (y as u128)
}

/// A well-formed score is worth between zero and `UNITS_PER_ONE` units.
pub proof fn lemma_units_bounded(s: Score)
    requires
        s.wf(),
    ensures
        0 <= s.spec_units() <= UNITS_PER_ONE,
        s.overlap == 0 ==> s.spec_units() == 0,
        s.overlap == s.coverage ==> s.spec_units() == UNITS_PER_ONE,
{
    let o = s.overlap as int;
    let c = s.coverage as int;
    let u = UNITS_PER_ONE as int;
    assert(0 <= o * u <= c * u) by (nonlinear_arith)
        requires
            0 <= o <= c,
            0 <= u,
    ;
    vstd::arithmetic::div_mod::lemma_div_is_ordered(o * u, c * u, c);
    vstd::arithmetic::div_mod::lemma_div_multiples_vanish(u, c);
}

/// Being above is transitive, also through ties, among well-formed scores.
pub proof fn lemma_score_transitive(s: Score, t: Score, u: Score)
    requires
        s.wf(),
        t.wf(),
        u.wf(),
    ensures
        s.above(t) && t.above(u) ==> s.above(u),
        s.above(t) && t.ties(u) ==> s.above(u),
        s.ties(t) && t.above(u) ==> s.above(u),
        s.ties(t) && t.ties(u) ==> s.ties(u),
{
    let (a, b) = (s.overlap as int, s.coverage as int);
    let (c, d) = (t.overlap as int, t.coverage as int);
    let (e, f) = (u.overlap as int, u.coverage as int);
    if s.above(t) && t.above(u) {
        lemma_cross_chain_strict(a, b, c, d, e, f);
    }
    if s.above(t) && t.ties(u) {
        lemma_cross_chain_right_tie(a, b, c, d, e, f);
    }
    if s.ties(t) && t.above(u) {
        lemma_cross_chain_left_tie(a, b, c, d, e, f);
    }
    if s.ties(t) && t.ties(u) {
        lemma_cross_chain_tie(a, b, c, d, e, f);
    }
}

/// Cross-multiplied, `a / b > c / d` and `c / d > e / f` give `a / b > e / f`.
proof fn lemma_cross_chain_strict(a: int, b: int, c: int, d: int, e: int, f: int)
    by (nonlinear_arith)
    requires
        0 <= a,
        0 < b,
        0 <= c,
        0 < d,
        0 <= e,
        0 < f,
        a * d > c * b,
        c * f > e * d,
    ensures
        a * f > e * b,
{
}

/// Cross-multiplied, `a / b > c / d` and `c / d == e / f` give `a / b > e / f`.
proof fn lemma_cross_chain_right_tie(a: int, b: int, c: int, d: int, e: int, f: int)
    by (nonlinear_arith)
    requires
        0 <= a,
        0 < b,
        0 <= c,
        0 < d,
        0 <= e,
        0 < f,
        a * d > c * b,
        c * f == e * d,
    ensures
        a * f > e * b,
{
}

/// Cross-multiplied, `a / b == c / d` and `c / d > e / f` give `a / b > e / f`.
proof fn lemma_cross_chain_left_tie(a: int, b: int, c: int, d: int, e: int, f: int)
    by (nonlinear_arith)
    requires
        0 <= a,
        0 < b,
        0 <= c,
        0 < d,
        0 <= e,
        0 < f,
        a * d == c * b,
        c * f > e * d,
    ensures
        a * f > e * b,
{
}

/// Cross-multiplied, `a / b == c / d` and `c / d == e / f` give `a / b == e / f`.
proof fn lemma_cross_chain_tie(a: int, b: int, c: int, d: int, e: int, f: int)
    by (nonlinear_arith)
    requires
        0 <= a,
        0 < b,
        0 <= c,
        0 < d,
        0 <= e,
        0 < f,
        a * d == c * b,
        c * f == e * d,
    ensures
        a * f == e * b,
{
}

} // verus!
