//! The formula library: one scoring rule per historical apportionment
//! method.  A scoring rule assigns each party an optional quality — `None`
//! marks the party as ineligible for the next seat — and the engine awards
//! the next seat(s) to the parties of maximal quality.
//!
//! Every quality is an exact rational with a positive denominator, so the
//! qualities of one rule are totally preordered by cross-multiplication.

use vstd::prelude::*;

use crate::data::Count;
use crate::data::Fraction;
use crate::data::Seats;
use crate::data::Votes;
use crate::data::frac_le;

verus! {

/// A scoring rule, together with the totals it was derived from:
/// `vote_count` is the election's total vote count and `seat_count` the
/// total number of seats the current pass started from.
///
/// - `HighestAverage`: D'Hondt, quality `v / (s + 1)`.
/// - `NationalThreshold`: D'Hondt gated by a threshold of one whole seat.
/// - `SurplusFirst`: largest surplus `v - s*V/N`, gated by the surplus test
///   and a threshold of 75% of a whole seat.
/// - `SurplusSecond`: D'Hondt refinement after the surplus pass, granting at
///   most one extra seat beyond the surplus entitlement.
/// - `BongaertsFirst`: largest scaled surplus `v*N - s*V`, gated by the
///   surplus test and a 75%-average threshold on `v / (s + 1)`.
/// - `BongaertsSecond`: D'Hondt refinement with the 75%-average test on
///   `v / s`.
/// - `ArchaicRound`: one round of the 1918/1922 method; `threshold` is the
///   round's vote threshold (already scaled to a number of votes), `offset`
///   the round's seat offset, and `meet` tells whether the round serves the
///   parties that meet the threshold or those that fail it.
#[derive(Clone, Copy)]
pub enum Method {
    HighestAverage,
    NationalThreshold { vote_count: Count, seat_count: Count },
    SurplusFirst { vote_count: Count, seat_count: Count },
    SurplusSecond { vote_count: Count, seat_count: Count },
    BongaertsFirst { vote_count: Count, seat_count: Count },
    BongaertsSecond { vote_count: Count, seat_count: Count },
    ArchaicRound {
        threshold: Fraction,
        vote_count: Count,
        seat_count: Count,
        offset: Count,
        meet: bool,
    },
}

/// The surplus test: the party's votes reach `s` times the general average
/// `V/N`, compared exactly as `v*N >= s*V`.
pub open spec fn spec_has_surplus(v: int, s: int, vote_count: int, seat_count: int) -> bool {
    v * seat_count >= s * vote_count
}

/// What a scoring rule demands of a single vote count before it can be
/// evaluated without overflow: products with the pass totals must fit the
/// working width.
pub open spec fn score_pre(m: Method, v: Votes) -> bool {
    match m {
        Method::HighestAverage => true,
        Method::NationalThreshold { .. } => true,
        Method::SurplusFirst { vote_count, seat_count } => seat_count >= 1 && 3 * vote_count
            <= Count::MAX && 4 * seat_count <= Count::MAX,
        Method::SurplusSecond { vote_count, seat_count } => 3 * vote_count <= Count::MAX && 4
            * seat_count <= Count::MAX,
        Method::BongaertsFirst { vote_count, seat_count } => v.0 * seat_count <= Count::MAX && 3
            * vote_count <= Count::MAX && 4 * seat_count <= Count::MAX,
        Method::BongaertsSecond { vote_count, seat_count } => 3 * vote_count <= Count::MAX && 4
            * seat_count <= Count::MAX,
        Method::ArchaicRound { seat_count, .. } => v.0 * seat_count <= Count::MAX,
    }
}

/// The quality a scoring rule assigns to a party with votes `v` that holds
/// `s` seats, or `None` if the rule leaves the party ineligible.
pub open spec fn spec_score(m: Method, v: Votes, s: Seats) -> Option<Fraction> {
    let seat: int = s.spec_count() as int;
    let vote: int = v.0 as int;
    match m {
        Method::HighestAverage => Some(spec_average(v, s)),
        Method::NationalThreshold { vote_count, seat_count } => if vote * seat_count
            >= vote_count {
            Some(spec_average(v, s))
        } else {
            None
        },
        Method::SurplusFirst { vote_count, seat_count } => if spec_has_surplus(
            vote,
            seat,
            vote_count as int,
            seat_count as int,
        ) && vote * (4 * seat_count) >= 3 * vote_count {
            Some(
                Fraction {
                    numerator: (vote - (seat * vote_count) / (seat_count as int)) as Count,
                    denominator: 1,
                },
            )
        } else {
            None
        },
        Method::SurplusSecond { vote_count, seat_count } => {
            let entitled = if vote * (4 * seat_count) >= 3 * vote_count {
                seat >= 1 && spec_has_surplus(vote, seat - 1, vote_count as int, seat_count as int)
            } else {
                spec_has_surplus(vote, seat, vote_count as int, seat_count as int)
            };
            if entitled {
                Some(spec_average(v, s))
            } else {
                None
            }
        },
        Method::BongaertsFirst { vote_count, seat_count } => if spec_has_surplus(
            vote,
            seat,
            vote_count as int,
            seat_count as int,
        ) && vote * (4 * seat_count) >= 3 * vote_count * (seat + 1) {
            Some(
                Fraction {
                    numerator: (vote * seat_count - seat * vote_count) as Count,
                    denominator: 1,
                },
            )
        } else {
            None
        },
        Method::BongaertsSecond { vote_count, seat_count } => {
            let entitled = if seat >= 1 && vote * (4 * seat_count) >= 3 * vote_count * seat {
                spec_has_surplus(vote, seat - 1, vote_count as int, seat_count as int)
            } else {
                spec_has_surplus(vote, seat, vote_count as int, seat_count as int)
            };
            if entitled {
                Some(spec_average(v, s))
            } else {
                None
            }
        },
        Method::ArchaicRound { threshold, vote_count, seat_count, offset, meet } => if ((vote
            * threshold.denominator >= threshold.numerator) == meet) && seat >= offset
            && spec_has_surplus(
            vote,
            seat - offset,
            vote_count as int,
            seat_count as int,
        ) {
            Some(
                Fraction {
                    numerator: (vote * seat_count - (seat - offset) * vote_count) as Count,
                    denominator: 1,
                },
            )
        } else {
            None
        },
    }
}

/// The D'Hondt average `v / (s + 1)`.
pub open spec fn spec_average(v: Votes, s: Seats) -> Fraction {
    Fraction { numerator: v.0, denominator: (s.spec_count() + 1) as Count }
}

/// Every quality a rule assigns has a positive denominator, which makes the
/// comparison by cross products a total preorder.
pub proof fn lemma_score_wf(m: Method, v: Votes, s: Seats)
    requires
        s.spec_count() < Count::MAX,
    ensures
        spec_score(m, v, s) matches Some(f) ==> f.denominator >= 1,
{
}

/// Evaluate a scoring rule.  The comparisons are carried out in 128-bit
/// arithmetic, exactly as the cross-multiplication specification says.
pub fn score(m: &Method, v: Votes, s: Seats) -> (r: Option<Fraction>)
    requires
        score_pre(*m, v),
        s.spec_count() < Count::MAX,
    ensures
        r == spec_score(*m, v, s),
{
    let seat: Count = s.count();
    let vote: Count = v.0;
    match *m {
        Method::HighestAverage => Some(
            Fraction { numerator: vote, denominator: seat + 1 },
        ),
        Method::NationalThreshold { vote_count, seat_count } => {
            if wide_mul(vote, seat_count) >= vote_count as u128 {
                Some(Fraction { numerator: vote, denominator: seat + 1 })
            } else {
                None
            }
        },
        Method::SurplusFirst { vote_count, seat_count } => {
            let three_v: Count = 3 * vote_count;
            let four_n: Count = 4 * seat_count;
            if has_surplus(vote, seat, vote_count, seat_count) && wide_mul(vote, four_n)
                >= three_v as u128 {
                let entitlement: u128 = wide_mul(seat, vote_count) / (seat_count as u128);
                proof {
                    lemma_entitlement_le_vote(
                        vote as int,
                        seat as int,
                        vote_count as int,
                        seat_count as int,
                    );
                }
                Some(
                    Fraction { numerator: vote - ((entitlement) as Count), denominator: 1 },
                )
            } else {
                None
            }
        },
        Method::SurplusSecond { vote_count, seat_count } => {
            let three_v: Count = 3 * vote_count;
            let four_n: Count = 4 * seat_count;
            let entitled = if wide_mul(vote, four_n) >= three_v as u128 {
                seat >= 1 && has_surplus(vote, seat - 1, vote_count, seat_count)
            } else {
                has_surplus(vote, seat, vote_count, seat_count)
            };
            if entitled {
                Some(Fraction { numerator: vote, denominator: seat + 1 })
            } else {
                None
            }
        },
        Method::BongaertsFirst { vote_count, seat_count } => {
            let three_v: Count = 3 * vote_count;
            let four_n: Count = 4 * seat_count;
            if has_surplus(vote, seat, vote_count, seat_count) && wide_mul(vote, four_n)
                >= wide_mul(three_v, seat + 1) {
                proof {
                    lemma_products_fit(vote as int, seat as int, vote_count as int,
                        seat_count as int);
                }
                Some(
                    Fraction { numerator: vote * seat_count - seat * vote_count, denominator: 1 },
                )
            } else {
                None
            }
        },
        Method::BongaertsSecond { vote_count, seat_count } => {
            let three_v: Count = 3 * vote_count;
            let four_n: Count = 4 * seat_count;
            let entitled = if seat >= 1 && wide_mul(vote, four_n) >= wide_mul(three_v, seat) {
                has_surplus(vote, seat - 1, vote_count, seat_count)
            } else {
                has_surplus(vote, seat, vote_count, seat_count)
            };
            if entitled {
                Some(Fraction { numerator: vote, denominator: seat + 1 })
            } else {
                None
            }
        },
        Method::ArchaicRound { threshold, vote_count, seat_count, offset, meet } => {
            let meets = wide_mul(vote, threshold.denominator) >= threshold.numerator as u128;
            if meets == meet && seat >= offset && has_surplus(
                vote,
                seat - offset,
                vote_count,
                seat_count,
            ) {
                proof {
                    lemma_products_fit(
                        vote as int,
                        (seat - offset) as int,
                        vote_count as int,
                        seat_count as int,
                    );
                }
                Some(
                    Fraction {
                        numerator: vote * seat_count - (seat - offset) * vote_count,
                        denominator: 1,
                    },
                )
            } else {
                None
            }
        },
    }
}

/// The product of two 64-bit counts, formed exactly in 128 bits.
pub fn wide_mul(a: Count, b: Count) -> (r: u128)
    ensures
        r == a * b,
{
    proof {
        assert(a * b <= u64::MAX * u64::MAX) by (nonlinear_arith)
            requires
                0 <= a <= u64::MAX,
                0 <= b <= u64::MAX,
        ;
    }
    (a as u128) * (b as u128)
}

/// The executable surplus test, by 128-bit cross products.
fn has_surplus(vote: Count, seat: Count, vote_count: Count, seat_count: Count) -> (r: bool)
    ensures
        r == spec_has_surplus(vote as int, seat as int, vote_count as int, seat_count as int),
{
    wide_mul(vote, seat_count) >= wide_mul(seat, vote_count)
}

/// With a surplus in hand, the integer entitlement `s*V/N` does not exceed
/// the party's own vote count.
proof fn lemma_entitlement_le_vote(vote: int, seat: int, vote_count: int, seat_count: int)
    requires
        vote >= 0,
        seat >= 0,
        vote_count >= 0,
        seat_count >= 1,
        vote * seat_count >= seat * vote_count,
    ensures
        0 <= (seat * vote_count) / seat_count <= vote,
{
    assert(seat * vote_count >= 0) by (nonlinear_arith)
        requires
            seat >= 0,
            vote_count >= 0,
    ;
    vstd::arithmetic::div_mod::lemma_div_pos_is_pos(seat * vote_count, seat_count);
    vstd::arithmetic::div_mod::lemma_div_is_ordered(
        seat * vote_count,
        vote * seat_count,
        seat_count,
    );
    vstd::arithmetic::div_mod::lemma_div_multiples_vanish(vote, seat_count);
    assert(vote * seat_count == seat_count * vote) by (nonlinear_arith);
}

/// With a surplus in hand and `v*N` within the working width, the scaled
/// surplus `v*N - s*V` fits the working width too.
proof fn lemma_products_fit(vote: int, seat: int, vote_count: int, seat_count: int)
    requires
        vote >= 0,
        seat >= 0,
        vote_count >= 0,
        seat_count >= 0,
        vote * seat_count >= seat * vote_count,
        vote * seat_count <= Count::MAX,
    ensures
        0 <= seat * vote_count <= Count::MAX,
        0 <= vote * seat_count - seat * vote_count <= Count::MAX,
{
    assert(seat * vote_count >= 0) by (nonlinear_arith)
        requires
            seat >= 0,
            vote_count >= 0,
    ;
    assert(vote * seat_count >= 0) by (nonlinear_arith)
        requires
            vote >= 0,
            seat_count >= 0,
    ;
}

/// A quality `None` never ranks above a quality `Some`, and qualities
/// `Some` rank by their rational value.
pub open spec fn opt_le(a: Option<Fraction>, b: Option<Fraction>) -> bool {
    match (a, b) {
        (Option::None, _) => true,
        (Option::Some(_), Option::None) => false,
        (Option::Some(x), Option::Some(y)) => frac_le(x, y),
    }
}

} // verus!
