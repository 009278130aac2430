//! Core value types: vote counts, seat counters with a capacity limit, and
//! exact rational numbers compared by cross-multiplication.

use vstd::prelude::*;

verus! {

/// The integer width used for votes and seats throughout the crate.
pub type Count = u64;

/// A party's immutable vote count.
#[derive(Clone, Copy, PartialEq, Eq, Structural)]
pub struct Votes(pub Count);

/// A party's seat counter: the seats awarded so far and an upper limit
/// (the number of candidates on the party's list).  A counter with
/// `limit == Count::MAX` is effectively unbounded.
#[derive(Clone, Copy)]
pub struct Seats {
    pub awarded: Count,
    pub limit: Count,
}

impl Seats {
    /// The number of seats awarded so far.
    pub open spec fn spec_count(self) -> Count {
        self.awarded
    }

    /// A seat counter is well formed when it does not exceed its limit.
    pub open spec fn wf(self) -> bool {
        self.spec_count() <= self.limit
    }

    /// The same counter with a different awarded count (specification helper).
    pub open spec fn with_count(self, c: Count) -> Seats {
        Seats { awarded: c, limit: self.limit }
    }

    /// Move one seat out of `pool` into this counter.
    pub fn transfer(&mut self, pool: &mut Seats)
        requires
            old(self).spec_count() < old(self).limit,
            old(pool).spec_count() >= 1,
        ensures
            *final(self) == old(self).with_count((old(self).spec_count() + 1) as Count),
            *final(pool) == old(pool).with_count((old(pool).spec_count() - 1) as Count),
    {
        self.awarded = self.awarded + 1;
        pool.awarded = pool.awarded - 1;
    }

    /// The number of seats awarded so far.
    pub fn count(&self) -> (r: Count)
        ensures
            r == self.spec_count(),
    {
        self.awarded
    }

    /// Whether the party still has an unseated candidate, i.e. spare capacity.
    pub fn has_candidates(&self) -> (r: bool)
        ensures
            r == (self.spec_count() < self.limit),
    {
        self.awarded < self.limit
    }

    /// An empty counter capped at `limit` seats.
    pub fn limited(limit: Count) -> (r: Seats)
        ensures
            r.spec_count() == 0,
            r.limit == limit,
            r.wf(),
    {
        Seats { awarded: 0, limit }
    }

    /// An unbounded counter holding `awarded` seats already; also used as a
    /// pool of seats that are still to be handed out.
    pub fn filled(awarded: Count) -> (r: Seats)
        ensures
            r.spec_count() == awarded,
            r.limit == Count::MAX,
            r.wf(),
    {
        Seats { awarded, limit: Count::MAX }
    }

    /// An empty counter without a capacity limit.
    pub fn unlimited() -> (r: Seats)
        ensures
            r.spec_count() == 0,
            r.limit == Count::MAX,
            r.wf(),
    {
        Seats::limited(Count::MAX)
    }
}

/// An exact non-negative ratio.  Two ratios are compared by
/// cross-multiplication, so equal ratios in different representations
/// (2/4 and 1/2) compare equal and no precision is ever lost.
#[derive(Clone, Copy)]
pub struct Fraction {
    pub numerator: Count,
    pub denominator: Count,
}

/// `a <= b` as rationals, by cross-multiplication over unbounded integers.
pub open spec fn frac_le(a: Fraction, b: Fraction) -> bool {
    a.numerator * b.denominator <= b.numerator * a.denominator
}

/// `a == b` as rationals, by cross-multiplication over unbounded integers.
pub open spec fn frac_eq(a: Fraction, b: Fraction) -> bool {
    a.numerator * b.denominator == b.numerator * a.denominator
}

/// Shorthand constructor for a ratio.
pub fn frac(numerator: Count, denominator: Count) -> (r: Fraction)
    ensures
        r.numerator == numerator,
        r.denominator == denominator,
{
    Fraction { numerator, denominator }
}

impl Fraction {
    /// Whether `self >= other` as rationals.  The cross products are formed
    /// in 128-bit arithmetic, which cannot overflow for 64-bit fields.
    pub fn ge(&self, other: &Fraction) -> (r: bool)
        ensures
            r == frac_le(*other, *self),
    {
        proof {
            lemma_cross_products_fit(*self, *other);
        }
        (self.numerator as u128) * (other.denominator as u128) >= (other.numerator as u128)
            * (self.denominator as u128)
    }

    /// Whether `self == other` as rationals (equal cross products).
    pub fn equals(&self, other: &Fraction) -> (r: bool)
        ensures
            r == frac_eq(*self, *other),
    {
        proof {
            lemma_cross_products_fit(*self, *other);
        }
        (self.numerator as u128) * (other.denominator as u128) == (other.numerator as u128)
            * (self.denominator as u128)
    }
}

/// The cross products of two ratios with 64-bit fields fit in 128 bits.
proof fn lemma_cross_products_fit(a: Fraction, b: Fraction)
    ensures
        a.numerator * b.denominator <= u128::MAX,
        b.numerator * a.denominator <= u128::MAX,
{
    assert(a.numerator * b.denominator <= u64::MAX * u64::MAX) by (nonlinear_arith)
        requires
            a.numerator <= u64::MAX,
            b.denominator <= u64::MAX,
    ;
    assert(b.numerator * a.denominator <= u64::MAX * u64::MAX) by (nonlinear_arith)
        requires
            b.numerator <= u64::MAX,
            a.denominator <= u64::MAX,
    ;
}

/// Rational comparison is transitive as long as the middle denominator is
/// positive.  All scores produced by the formula library have positive
/// denominators.
pub proof fn lemma_frac_le_trans(a: Fraction, b: Fraction, c: Fraction)
    requires
        frac_le(a, b),
        frac_le(b, c),
        b.denominator >= 1,
    ensures
        frac_le(a, c),
{
    assert(a.numerator * c.denominator <= c.numerator * a.denominator) by (nonlinear_arith)
        requires
            a.numerator * b.denominator <= b.numerator * a.denominator,
            b.numerator * c.denominator <= c.numerator * b.denominator,
            b.denominator >= 1,
            a.numerator >= 0,
            a.denominator >= 0,
            b.numerator >= 0,
            c.numerator >= 0,
            c.denominator >= 0,
    ;
}

/// The total of a sequence of vote counts.
pub open spec fn sum_votes(s: Seq<Votes>) -> int
    decreases s.len(),
{
    if s.len() == 0 {
        0
    } else {
        sum_votes(s.drop_last()) + s.last().0
    }
}

/// The total of the awarded counts of a sequence of seat counters.
pub open spec fn sum_counts(s: Seq<Seats>) -> int
    decreases s.len(),
{
    if s.len() == 0 {
        0
    } else {
        sum_counts(s.drop_last()) + s.last().spec_count()
    }
}

/// Every element of a vote sequence is bounded by the total.
pub proof fn lemma_vote_le_sum(s: Seq<Votes>, i: int)
    requires
        0 <= i < s.len(),
    ensures
        s[i].0 <= sum_votes(s),
        sum_votes(s) >= 0,
    decreases s.len(),
{
    if s.len() > 0 {
        lemma_sum_votes_nonneg(s.drop_last());
        if i < s.len() - 1 {
            lemma_vote_le_sum(s.drop_last(), i);
        }
    }
}

/// Two distinct parties' vote counts together are bounded by the total.
pub proof fn lemma_two_votes_le_sum(s: Seq<Votes>, i: int, j: int)
    requires
        0 <= i < s.len(),
        0 <= j < s.len(),
        i != j,
    ensures
        s[i].0 + s[j].0 <= sum_votes(s),
    decreases s.len(),
{
    let last = s.len() - 1;
    if i == last {
        lemma_vote_le_sum(s.drop_last(), j);
    } else if j == last {
        lemma_vote_le_sum(s.drop_last(), i);
    } else {
        lemma_two_votes_le_sum(s.drop_last(), i, j);
    }
}

/// A total of vote counts is non-negative.
pub proof fn lemma_sum_votes_nonneg(s: Seq<Votes>)
    ensures
        sum_votes(s) >= 0,
    decreases s.len(),
{
    if s.len() > 0 {
        lemma_sum_votes_nonneg(s.drop_last());
    }
}

/// A total of awarded counts is non-negative.
pub proof fn lemma_sum_counts_nonneg(s: Seq<Seats>)
    ensures
        sum_counts(s) >= 0,
    decreases s.len(),
{
    if s.len() > 0 {
        lemma_sum_counts_nonneg(s.drop_last());
    }
}

/// Every awarded count in a sequence is bounded by the total.
pub proof fn lemma_count_le_sum(s: Seq<Seats>, i: int)
    requires
        0 <= i < s.len(),
    ensures
        s[i].spec_count() <= sum_counts(s),
        sum_counts(s) >= 0,
    decreases s.len(),
{
    if s.len() > 0 {
        lemma_sum_counts_nonneg(s.drop_last());
        if i < s.len() - 1 {
            lemma_count_le_sum(s.drop_last(), i);
        }
    }
}

/// Updating one seat counter changes the total by the difference at that slot.
pub proof fn lemma_sum_counts_update(s: Seq<Seats>, i: int, v: Seats)
    requires
        0 <= i < s.len(),
    ensures
        sum_counts(s.update(i, v)) == sum_counts(s) - s[i].spec_count() + v.spec_count(),
    decreases s.len(),
{
    if s.len() > 0 {
        if i == s.len() - 1 {
            assert(s.update(i, v).drop_last() =~= s.drop_last());
        } else {
            assert(s.update(i, v).drop_last() =~= s.drop_last().update(i, v));
            lemma_sum_counts_update(s.drop_last(), i, v);
        }
    }
}

/// The running total of the first `k` vote counts.
pub open spec fn sum_votes_prefix(s: Seq<Votes>, k: int) -> int {
    sum_votes(s.take(k))
}

/// Extending a prefix by one element adds that element to the total.
pub proof fn lemma_sum_votes_prefix_step(s: Seq<Votes>, k: int)
    requires
        0 <= k < s.len(),
    ensures
        sum_votes_prefix(s, k + 1) == sum_votes_prefix(s, k) + s[k].0,
{
    assert(s.take(k + 1).drop_last() =~= s.take(k));
}

/// The full prefix is the whole sequence.
pub proof fn lemma_sum_votes_prefix_all(s: Seq<Votes>)
    ensures
        sum_votes_prefix(s, s.len() as int) == sum_votes(s),
{
    assert(s.take(s.len() as int) =~= s);
}

/// The running total of the first `k` awarded counts.
pub open spec fn sum_counts_prefix(s: Seq<Seats>, k: int) -> int {
    sum_counts(s.take(k))
}

/// Extending a prefix by one element adds that element to the total.
pub proof fn lemma_sum_counts_prefix_step(s: Seq<Seats>, k: int)
    requires
        0 <= k < s.len(),
    ensures
        sum_counts_prefix(s, k + 1) == sum_counts_prefix(s, k) + s[k].spec_count(),
{
    assert(s.take(k + 1).drop_last() =~= s.take(k));
}

/// The full prefix is the whole sequence.
pub proof fn lemma_sum_counts_prefix_all(s: Seq<Seats>)
    ensures
        sum_counts_prefix(s, s.len() as int) == sum_counts(s),
{
    assert(s.take(s.len() as int) =~= s);
}

/// Total votes of a slice of parties, as an executable function.
pub fn total_votes(votes: &Vec<Votes>) -> (r: Count)
    requires
        sum_votes(votes@) <= Count::MAX,
    ensures
        r == sum_votes(votes@),
{
    let mut total: Count = 0;
    let mut i: usize = 0;
    proof {
        lemma_sum_votes_prefix_all(votes@);
    }
    while i < votes.len()
        invariant
            0 <= i <= votes@.len(),
            total == sum_votes_prefix(votes@, i as int),
            sum_votes_prefix(votes@, votes@.len() as int) == sum_votes(votes@),
            sum_votes(votes@) <= Count::MAX,
        decreases votes@.len() - i,
    {
        proof {
            lemma_sum_votes_prefix_step(votes@, i as int);
            lemma_sum_prefix_votes_bound(votes@, i as int + 1);
        }
        total = total + votes[i].0;
        i = i + 1;
    }
    total
}

/// A prefix total of votes never exceeds the full total.
pub proof fn lemma_sum_prefix_votes_bound(s: Seq<Votes>, k: int)
    requires
        0 <= k <= s.len(),
    ensures
        sum_votes_prefix(s, k) <= sum_votes(s),
        sum_votes_prefix(s, k) >= 0,
    decreases s.len() - k,
{
    lemma_sum_votes_nonneg(s.take(k));
    if k < s.len() {
        lemma_sum_votes_prefix_step(s, k);
        lemma_sum_prefix_votes_bound(s, k + 1);
    } else {
        lemma_sum_votes_prefix_all(s);
    }
}

/// A prefix total of awarded counts never exceeds the full total.
pub proof fn lemma_sum_prefix_counts_bound(s: Seq<Seats>, k: int)
    requires
        0 <= k <= s.len(),
    ensures
        sum_counts_prefix(s, k) <= sum_counts(s),
        sum_counts_prefix(s, k) >= 0,
    decreases s.len() - k,
{
    lemma_sum_counts_nonneg(s.take(k));
    if k < s.len() {
        lemma_sum_counts_prefix_step(s, k);
        lemma_sum_prefix_counts_bound(s, k + 1);
    } else {
        lemma_sum_counts_prefix_all(s);
    }
}

/// Total seats awarded so far in a slice of seat counters, as an executable
/// function.
pub fn total_counts(seats: &Vec<Seats>) -> (r: Count)
    requires
        sum_counts(seats@) <= Count::MAX,
    ensures
        r == sum_counts(seats@),
{
    let mut total: Count = 0;
    let mut i: usize = 0;
    proof {
        lemma_sum_counts_prefix_all(seats@);
    }
    while i < seats.len()
        invariant
            0 <= i <= seats@.len(),
            total == sum_counts_prefix(seats@, i as int),
            sum_counts_prefix(seats@, seats@.len() as int) == sum_counts(seats@),
            sum_counts(seats@) <= Count::MAX,
        decreases seats@.len() - i,
    {
        proof {
            lemma_sum_counts_prefix_step(seats@, i as int);
            lemma_sum_prefix_counts_bound(seats@, i as int + 1);
        }
        total = total + seats[i].count();
        i = i + 1;
    }
    total
}

} // verus!
