//! The public apportionment entry points, one per electoral rule: they
//! derive the pass totals from the input, pick the scoring rules, and run
//! the engine one or more times.

use vstd::prelude::*;

use crate::ballot::Ballot;
use crate::data::Count;
use crate::data::Fraction;
use crate::data::Seats;
use crate::data::Votes;
use crate::data::lemma_vote_le_sum;
use crate::data::sum_counts;
use crate::data::sum_votes;
use crate::data::total_votes;
use crate::engine::allocate_seats;
use crate::engine::awards_justified;
use crate::engine::awards_maximal;
use crate::engine::engine_outcome;
use crate::engine::held_quality_le;
use crate::engine::quality_at;
use crate::engine::first_qualifying;
use crate::engine::is_loser_candidate;
use crate::engine::lemma_first_qualifying_sound;
use crate::engine::lemma_no_eligible_monotone;
use crate::engine::spec_quality;
use crate::method::opt_le;
use crate::method::spec_score;
use crate::engine::limits_unchanged;
use crate::engine::no_party_eligible;
use crate::engine::seats_wf;
use crate::method::Method;

verus! {

/// The common frame of every apportionment run: party list and limits are
/// unchanged, counters stay well formed, no party loses a seat, and the
/// seats handed out are between zero and the size of the pool.
pub open spec fn allocation_frame(
    old_seats: Seq<Seats>,
    new_seats: Seq<Seats>,
    total: Seats,
) -> bool {
    &&& limits_unchanged(old_seats, new_seats)
    &&& seats_wf(new_seats)
    &&& sum_counts(old_seats) <= sum_counts(new_seats) <= sum_counts(old_seats)
        + total.spec_count()
    &&& forall|i: int|
        0 <= i < old_seats.len() ==> new_seats[i].spec_count() >= old_seats[i].spec_count()
}

/// The inputs every apportionment run needs: parallel party sequences,
/// well-formed counters, and totals within the working integer width.
pub open spec fn allocation_pre(votes: Seq<Votes>, seats: Seq<Seats>, total: Seats) -> bool {
    &&& votes.len() == seats.len()
    &&& seats_wf(seats)
    &&& sum_counts(seats) + total.spec_count() < Count::MAX
    &&& sum_votes(votes) <= Count::MAX
}

/// D'Hondt optimality of the allocation `mid`, relative to the run's
/// entry state: for any party `i` that was awarded a seat and any party
/// `j` with an unseated candidate left, `i`'s last average is at least
/// `j`'s next average, compared exactly: `v_j * s_i <= v_i * (s_j + 1)`.
/// No exchange of an awarded seat could raise the smallest average used.
pub open spec fn averages_optimal(votes: Seq<Votes>, entry: Seq<Seats>, mid: Seq<Seats>) -> bool {
    forall|i: int, j: int|
        #![trigger mid[i].spec_count(), mid[j].spec_count()]
        0 <= i < mid.len() && 0 <= j < mid.len() && mid[i].spec_count() > entry[i].spec_count()
            && mid[j].spec_count() < mid[j].limit ==> votes[j].0 * mid[i].spec_count() <= votes[i].0
            * (mid[j].spec_count() + 1)
}

/// The same D'Hondt optimality, restricted to the parties that reach the
/// one-whole-seat threshold of the national rule.
pub open spec fn national_optimal(
    votes: Seq<Votes>,
    entry: Seq<Seats>,
    mid: Seq<Seats>,
    vote_count: Count,
    seat_count: Count,
) -> bool {
    forall|i: int, j: int|
        #![trigger mid[i].spec_count(), mid[j].spec_count()]
        0 <= i < mid.len() && 0 <= j < mid.len() && mid[i].spec_count() > entry[i].spec_count()
            && mid[j].spec_count() < mid[j].limit && votes[j].0 * seat_count >= vote_count
            ==> votes[j].0 * mid[i].spec_count() <= votes[i].0 * (mid[j].spec_count() + 1)
}

/// From the engine's award record, derive D'Hondt optimality: whenever a
/// score under the rule is the plain average `v / (s + 1)`, a party with
/// capacity left was outscored at some earlier count, and its average has
/// only fallen since.
proof fn lemma_awards_give_optimality(
    m: Method,
    votes: Seq<Votes>,
    entry: Seq<Seats>,
    mid: Seq<Seats>,
    i: int,
    j: int,
)
    requires
        m is HighestAverage || m is NationalThreshold,
        votes.len() == entry.len(),
        mid.len() == entry.len(),
        limits_unchanged(entry, mid),
        awards_maximal(m, votes, entry, mid),
        awards_justified(m, votes, entry, mid),
        0 <= i < mid.len(),
        0 <= j < mid.len(),
        mid[i].spec_count() > entry[i].spec_count(),
        mid[j].spec_count() < mid[j].limit,
        m matches Method::NationalThreshold { vote_count, seat_count } ==> votes[j].0 * seat_count
            >= vote_count,
    ensures
        votes[j].0 * mid[i].spec_count() <= votes[i].0 * (mid[j].spec_count() + 1),
{
    let c = (mid[i].spec_count() - 1) as Count;
    assert(spec_score(m, votes[i], entry[i].with_count(c)) is Some);
    let x = spec_score(m, votes[i], entry[i].with_count(c))->Some_0;
    assert(x.numerator == votes[i].0 && x.denominator == mid[i].spec_count());
    assert(held_quality_le(m, votes, entry, mid, j, x));
    let cj = choose|cj: Count|
        entry[j].spec_count() <= cj <= mid[j].spec_count() && opt_le(
            #[trigger] quality_at(m, votes, entry, j, cj),
            Some(x),
        );
    assert(cj < entry[j].limit);
    let q = quality_at(m, votes, entry, j, cj);
    assert(q == Some(Fraction { numerator: votes[j].0, denominator: (cj + 1) as Count }));
    assert(votes[j].0 * mid[i].spec_count() <= votes[i].0 * (cj + 1));
    assert(votes[i].0 * (cj + 1) <= votes[i].0 * (mid[j].spec_count() + 1)) by (nonlinear_arith)
        requires
            cj + 1 <= mid[j].spec_count() + 1,
            votes[i].0 >= 0,
    ;
}

/// Apportion by the D'Hondt highest-averages method: every seat in the
/// pool goes, one step at a time, to a party with the greatest average
/// `v / (s + 1)`.  Used in the Netherlands for bodies of 19 seats or more.
/// If seats are left over, every party has exhausted its candidate list.
pub fn allocate_per_average(
    total_seats: Seats,
    votes: &Vec<Votes>,
    seats: &mut Vec<Seats>,
    ballot: Ballot,
)
    requires
        allocation_pre(votes@, old(seats)@, total_seats),
    ensures
        allocation_frame(old(seats)@, final(seats)@, total_seats),
        sum_counts(final(seats)@) < sum_counts(old(seats)@) + total_seats.spec_count()
            ==> forall|i: int|
            0 <= i < final(seats)@.len() ==> #[trigger] final(seats)@[i].spec_count()
                == final(seats)@[i].limit,
        exists|mid: Seq<Seats>, prev: Seq<Seats>, left: Count|
            #[trigger] engine_outcome(
                Method::HighestAverage,
                votes@,
                old(seats)@,
                mid,
                prev,
                final(seats)@,
                total_seats.spec_count(),
                left,
            ) && averages_optimal(votes@, old(seats)@, mid),
        old(seats)@.len() >= 1 && (forall|i: int|
            0 <= i < old(seats)@.len() ==> #[trigger] old(seats)@[i].limit == Count::MAX)
            ==> sum_counts(final(seats)@) == sum_counts(old(seats)@) + total_seats.spec_count(),
{
    let ghost entry = seats@;
    let mut pool: Seats = total_seats;
    allocate_seats(votes, seats, &mut pool, &Method::HighestAverage, ballot);
    proof {
        // With unlimited lists no party is ever full, so the pool always
        // empties: a party with an unseated candidate always has an
        // average.
        if entry.len() >= 1 && (forall|i: int|
            0 <= i < entry.len() ==> #[trigger] entry[i].limit == Count::MAX) && pool.spec_count()
            > 0 {
            crate::data::lemma_count_le_sum(seats@, 0);
            assert(seats@[0].limit == Count::MAX);
            assert(seats@[0].spec_count() < seats@[0].limit);
            assert(spec_quality(Method::HighestAverage, votes@, seats@, 0) is None);
            assert(false);
        }
        let (mid, prev) = choose|mid: Seq<Seats>, prev: Seq<Seats>|
            #[trigger] engine_outcome(
                Method::HighestAverage,
                votes@,
                entry,
                mid,
                prev,
                seats@,
                total_seats.spec_count(),
                pool.spec_count(),
            );
        assert forall|i: int, j: int|
            #![trigger mid[i].spec_count(), mid[j].spec_count()]
            0 <= i < mid.len() && 0 <= j < mid.len() && mid[i].spec_count() > entry[i].spec_count()
                && mid[j].spec_count() < mid[j].limit implies votes@[j].0 * mid[i].spec_count()
            <= votes@[i].0 * (mid[j].spec_count() + 1) by {
            lemma_awards_give_optimality(
                Method::HighestAverage,
                votes@,
                entry,
                mid,
                i,
                j,
            );
        }
        assert(engine_outcome(
            Method::HighestAverage,
            votes@,
            entry,
            mid,
            prev,
            seats@,
            total_seats.spec_count(),
            pool.spec_count(),
        ) && averages_optimal(votes@, entry, mid));
    }
    proof {
        if pool.spec_count() > 0 {
            assert forall|i: int| 0 <= i < seats@.len() implies #[trigger] seats@[i].spec_count()
                == seats@[i].limit by {
                assert(crate::engine::spec_quality(
                    Method::HighestAverage,
                    votes@,
                    seats@,
                    i,
                ) is None);
                assert(seats@[i].wf());
                if seats@[i].spec_count() < seats@[i].limit {
                    assert(crate::engine::spec_quality(Method::HighestAverage, votes@, seats@, i)
                        == crate::method::spec_score(Method::HighestAverage, votes@[i], seats@[i]));
                    assert(false);
                }
            }
        }
    }
}

/// A sequence of exhausted counters sums to zero.
proof fn lemma_zero_counts_sum(s: Seq<Seats>)
    requires
        forall|i: int| 0 <= i < s.len() ==> #[trigger] s[i].spec_count() == 0,
    ensures
        sum_counts(s) == 0,
    decreases s.len(),
{
    if s.len() > 0 {
        lemma_zero_counts_sum(s.drop_last());
    }
}

/// Summing a strict pointwise bound `v_i * n < c_i * t` over at least one
/// party keeps it strict: `V * n < C * t`.
proof fn lemma_pointwise_sum_lt(votes: Seq<Votes>, fins: Seq<Seats>, n: int, t: int)
    requires
        votes.len() == fins.len(),
        votes.len() >= 1,
        forall|i: int|
            0 <= i < votes.len() ==> votes[i].0 * n < #[trigger] fins[i].spec_count() * t,
    ensures
        sum_votes(votes) * n < sum_counts(fins) * t,
    decreases votes.len(),
{
    let vp = sum_votes(votes.drop_last());
    let cp = sum_counts(fins.drop_last());
    let vl = votes.last().0 as int;
    let cl = fins.last().spec_count() as int;
    assert((vp + vl) * n == vp * n + vl * n) by (nonlinear_arith);
    assert((cp + cl) * t == cp * t + cl * t) by (nonlinear_arith);
    if votes.len() == 1 {
        assert(votes.drop_last() =~= Seq::<Votes>::empty());
        assert(fins.drop_last() =~= Seq::<Seats>::empty());
        assert(vp == 0 && cp == 0);
        assert(vp * n == 0 && cp * t == 0) by (nonlinear_arith)
            requires
                vp == 0,
                cp == 0,
        ;
    } else {
        lemma_pointwise_sum_lt(votes.drop_last(), fins.drop_last(), n, t);
    }
}

/// A complete two-pass run: the engine follows the first rule until the
/// pool empties or nobody is eligible, and — only if seats remain — runs
/// again under the second rule on the allocation the first pass left.
/// Each pass carries the engine's full outcome record: which awards its
/// rule justified, their maximality, and the majority correction.
pub open spec fn two_pass_outcome(
    m1: Method,
    m2: Method,
    votes: Seq<Votes>,
    entry: Seq<Seats>,
    fin: Seq<Seats>,
    total: Count,
) -> bool {
    exists|mid1: Seq<Seats>, prev1: Seq<Seats>, stage: Seq<Seats>, left1: Count|
        #[trigger] engine_outcome(m1, votes, entry, mid1, prev1, stage, total, left1) && if left1
            == 0 {
            fin == stage
        } else {
            exists|mid2: Seq<Seats>, prev2: Seq<Seats>, left2: Count|
                #[trigger] engine_outcome(m2, votes, stage, mid2, prev2, fin, left1, left2)
        }
}

/// Apportion by the largest-surplus method used for Dutch bodies under 19
/// seats: a first pass hands rest seats to parties whose votes exceed
/// their seat entitlement `s*V/N` and reach 75% of a whole seat; if seats
/// remain, a second highest-averages pass follows, gated so that a party
/// that met the threshold gets at most one seat beyond its entitlement.
pub fn allocate_per_surplus(
    total_seats: Seats,
    votes: &Vec<Votes>,
    seats: &mut Vec<Seats>,
    ballot: Ballot,
)
    requires
        allocation_pre(votes@, old(seats)@, total_seats),
        3 * sum_votes(votes@) <= Count::MAX,
        4 * total_seats.spec_count() <= Count::MAX,
    ensures
        allocation_frame(old(seats)@, final(seats)@, total_seats),
        sum_counts(final(seats)@) < sum_counts(old(seats)@) + total_seats.spec_count()
            ==> no_party_eligible(
            Method::SurplusFirst {
                vote_count: sum_votes(votes@) as Count,
                seat_count: total_seats.spec_count(),
            },
            votes@,
            final(seats)@,
        ),
        sum_counts(final(seats)@) < sum_counts(old(seats)@) + total_seats.spec_count()
            ==> no_party_eligible(
            Method::SurplusSecond {
                vote_count: sum_votes(votes@) as Count,
                seat_count: total_seats.spec_count(),
            },
            votes@,
            final(seats)@,
        ),
        two_pass_outcome(
            Method::SurplusFirst {
                vote_count: sum_votes(votes@) as Count,
                seat_count: total_seats.spec_count(),
            },
            Method::SurplusSecond {
                vote_count: sum_votes(votes@) as Count,
                seat_count: total_seats.spec_count(),
            },
            votes@,
            old(seats)@,
            final(seats)@,
            total_seats.spec_count(),
        ),
        old(seats)@.len() >= 1 && (forall|i: int|
            0 <= i < old(seats)@.len() ==> #[trigger] old(seats)@[i].spec_count() == 0 && old(
                seats,
            )@[i].limit == Count::MAX) ==> sum_counts(final(seats)@) == total_seats.spec_count(),
{
    let ghost entry = seats@;
    let vote_count: Count = total_votes(votes);
    let seat_count: Count = total_seats.count();
    let mut pool: Seats = total_seats;

    allocate_seats(
        votes,
        seats,
        &mut pool,
        &Method::SurplusFirst { vote_count, seat_count },
        ballot,
    );
    let ghost first_pass = seats@;
    let ghost left1 = pool.spec_count();

    if pool.count() > 0 {
        allocate_seats(
            votes,
            seats,
            &mut pool,
            &Method::SurplusSecond { vote_count, seat_count },
            ballot,
        );
    }

    proof {
        // Seats left over mean the first pass already found nobody
        // eligible, and first-pass eligibility cannot return as counts
        // grow.
        if pool.spec_count() > 0 {
            lemma_no_eligible_monotone(
                Method::SurplusFirst { vote_count, seat_count },
                votes@,
                first_pass,
                seats@,
            );
        }
        let m1 = Method::SurplusFirst { vote_count, seat_count };
        let m2 = Method::SurplusSecond { vote_count, seat_count };
        let (mid1, prev1) = choose|mid1: Seq<Seats>, prev1: Seq<Seats>|
            #[trigger] engine_outcome(
                m1,
                votes@,
                entry,
                mid1,
                prev1,
                first_pass,
                total_seats.spec_count(),
                left1,
            );
        if left1 == 0 {
            assert(engine_outcome(
                m1,
                votes@,
                entry,
                mid1,
                prev1,
                first_pass,
                total_seats.spec_count(),
                left1,
            ) && seats@ == first_pass);
        } else {
            let (mid2, prev2) = choose|mid2: Seq<Seats>, prev2: Seq<Seats>|
                #[trigger] engine_outcome(
                    m2,
                    votes@,
                    first_pass,
                    mid2,
                    prev2,
                    seats@,
                    left1,
                    pool.spec_count(),
                );
            assert(engine_outcome(
                m2,
                votes@,
                first_pass,
                mid2,
                prev2,
                seats@,
                left1,
                pool.spec_count(),
            ));
            assert(engine_outcome(
                m1,
                votes@,
                entry,
                mid1,
                prev1,
                first_pass,
                total_seats.spec_count(),
                left1,
            ));
        }
        assert(two_pass_outcome(m1, m2, votes@, entry, seats@, total_seats.spec_count()));

        // With fresh unlimited counters every seat is handed out: while a
        // seat remains, some party sits below its exact share and is
        // eligible in one of the two passes.
        if entry.len() >= 1 && (forall|i: int|
            0 <= i < entry.len() ==> #[trigger] entry[i].spec_count() == 0 && entry[i].limit
                == Count::MAX) {
            lemma_zero_counts_sum(entry);
        }
        if entry.len() >= 1 && (forall|i: int|
            0 <= i < entry.len() ==> #[trigger] entry[i].spec_count() == 0 && entry[i].limit
                == Count::MAX) && pool.spec_count() > 0 {
            let n_seats = seat_count as int;
            let v_total = vote_count as int;
            assert forall|i: int| 0 <= i < votes@.len() implies votes@[i].0 * n_seats
                < #[trigger] seats@[i].spec_count() * v_total by {
                crate::data::lemma_count_le_sum(seats@, i);
                assert(seats@[i].limit == Count::MAX);
                assert(seats@[i].spec_count() < seats@[i].limit);
                assert(spec_quality(m1, votes@, seats@, i) is None);
                assert(spec_quality(m2, votes@, seats@, i) is None);
            }
            if v_total == 0 {
                assert(votes@[0].0 * n_seats < seats@[0].spec_count() * 0);
                assert(seats@[0].spec_count() * 0 == 0) by (nonlinear_arith);
                assert(votes@[0].0 * n_seats >= 0) by (nonlinear_arith)
                    requires
                        votes@[0].0 >= 0,
                        n_seats >= 0,
                ;
                assert(false);
            }
            lemma_pointwise_sum_lt(votes@, seats@, n_seats, v_total);
            assert(v_total * n_seats < sum_counts(seats@) * v_total);
            assert(n_seats < sum_counts(seats@)) by (nonlinear_arith)
                requires
                    v_total * n_seats < sum_counts(seats@) * v_total,
                    v_total > 0,
            ;
            assert(false);
        }
    }
}

/// Apportion as Dutch law directs for a body of the given size: by
/// highest averages from 19 seats up, by largest surpluses below that.
pub fn allocate(total_seats: Seats, votes: &Vec<Votes>, seats: &mut Vec<Seats>, ballot: Ballot)
    requires
        allocation_pre(votes@, old(seats)@, total_seats),
        3 * sum_votes(votes@) <= Count::MAX,
        4 * total_seats.spec_count() <= Count::MAX,
    ensures
        allocation_frame(old(seats)@, final(seats)@, total_seats),
        total_seats.spec_count() >= 19 && sum_counts(final(seats)@) < sum_counts(old(seats)@)
            + total_seats.spec_count() ==> forall|i: int|
            0 <= i < final(seats)@.len() ==> #[trigger] final(seats)@[i].spec_count()
                == final(seats)@[i].limit,
        total_seats.spec_count() < 19 && sum_counts(final(seats)@) < sum_counts(old(seats)@)
            + total_seats.spec_count() ==> no_party_eligible(
            Method::SurplusFirst {
                vote_count: sum_votes(votes@) as Count,
                seat_count: total_seats.spec_count(),
            },
            votes@,
            final(seats)@,
        ),
        total_seats.spec_count() < 19 && sum_counts(final(seats)@) < sum_counts(old(seats)@)
            + total_seats.spec_count() ==> no_party_eligible(
            Method::SurplusSecond {
                vote_count: sum_votes(votes@) as Count,
                seat_count: total_seats.spec_count(),
            },
            votes@,
            final(seats)@,
        ),
        old(seats)@.len() >= 1 && (forall|i: int|
            0 <= i < old(seats)@.len() ==> #[trigger] old(seats)@[i].spec_count() == 0 && old(
                seats,
            )@[i].limit == Count::MAX) ==> sum_counts(final(seats)@) == total_seats.spec_count(),
        total_seats.spec_count() >= 19 ==> exists|mid: Seq<Seats>, prev: Seq<Seats>, left: Count|
            #[trigger] engine_outcome(
                Method::HighestAverage,
                votes@,
                old(seats)@,
                mid,
                prev,
                final(seats)@,
                total_seats.spec_count(),
                left,
            ) && averages_optimal(votes@, old(seats)@, mid),
        total_seats.spec_count() < 19 ==> two_pass_outcome(
            Method::SurplusFirst {
                vote_count: sum_votes(votes@) as Count,
                seat_count: total_seats.spec_count(),
            },
            Method::SurplusSecond {
                vote_count: sum_votes(votes@) as Count,
                seat_count: total_seats.spec_count(),
            },
            votes@,
            old(seats)@,
            final(seats)@,
            total_seats.spec_count(),
        ),
{
    let ghost entry = seats@;
    if total_seats.count() >= 19 {
        allocate_per_average(total_seats, votes, seats, ballot);
    } else {
        allocate_per_surplus(total_seats, votes, seats, ballot);
    }
    proof {
        if entry.len() >= 1 && (forall|i: int|
            0 <= i < entry.len() ==> #[trigger] entry[i].spec_count() == 0 && entry[i].limit
                == Count::MAX) {
            lemma_zero_counts_sum(entry);
        }
    }
}

/// Apportion by D'Hondt with a voting threshold of one whole seat
/// (`v >= V/N`), as used for the Dutch national parliament and the
/// European Parliament elections.
pub fn allocate_national(
    total_seats: Seats,
    votes: &Vec<Votes>,
    seats: &mut Vec<Seats>,
    ballot: Ballot,
)
    requires
        allocation_pre(votes@, old(seats)@, total_seats),
    ensures
        allocation_frame(old(seats)@, final(seats)@, total_seats),
        sum_counts(final(seats)@) < sum_counts(old(seats)@) + total_seats.spec_count()
            ==> no_party_eligible(
            Method::NationalThreshold {
                vote_count: sum_votes(votes@) as Count,
                seat_count: total_seats.spec_count(),
            },
            votes@,
            final(seats)@,
        ),
        forall|i: int|
            0 <= i < old(seats)@.len() && votes@[i].0 * total_seats.spec_count() < sum_votes(votes@)
                ==> #[trigger] final(seats)@[i].spec_count() == old(seats)@[i].spec_count(),
        exists|mid: Seq<Seats>, prev: Seq<Seats>, left: Count|
            #[trigger] engine_outcome(
                Method::NationalThreshold {
                    vote_count: sum_votes(votes@) as Count,
                    seat_count: total_seats.spec_count(),
                },
                votes@,
                old(seats)@,
                mid,
                prev,
                final(seats)@,
                total_seats.spec_count(),
                left,
            ) && national_optimal(
                votes@,
                old(seats)@,
                mid,
                sum_votes(votes@) as Count,
                total_seats.spec_count(),
            ),
        (forall|i: int|
            0 <= i < old(seats)@.len() ==> #[trigger] old(seats)@[i].limit == Count::MAX) && (
        exists|j: int|
            0 <= j < old(seats)@.len() && #[trigger] votes@[j].0 * total_seats.spec_count()
                >= sum_votes(votes@)) ==> sum_counts(final(seats)@) == sum_counts(old(seats)@)
            + total_seats.spec_count(),
{
    let ghost entry = seats@;
    let vote_count: Count = total_votes(votes);
    let seat_count: Count = total_seats.count();
    let mut pool: Seats = total_seats;
    allocate_seats(
        votes,
        seats,
        &mut pool,
        &Method::NationalThreshold { vote_count, seat_count },
        ballot,
    );
    proof {
        // With unlimited lists, a party that reaches the threshold stays
        // eligible until the pool is empty, so every seat is handed out.
        if (forall|i: int|
            0 <= i < entry.len() ==> #[trigger] entry[i].limit == Count::MAX) && (exists|j: int|
            0 <= j < entry.len() && #[trigger] votes@[j].0 * seat_count >= vote_count) && pool.spec_count()
            > 0 {
            let j = choose|j: int|
                0 <= j < entry.len() && #[trigger] votes@[j].0 * seat_count >= vote_count;
            crate::data::lemma_count_le_sum(seats@, j);
            assert(seats@[j].limit == Count::MAX);
            assert(seats@[j].spec_count() < seats@[j].limit);
            assert(spec_quality(
                Method::NationalThreshold { vote_count, seat_count },
                votes@,
                seats@,
                j,
            ) is None);
            assert(false);
        }
        lemma_national_threshold_respected(
            Method::NationalThreshold { vote_count, seat_count },
            votes@,
            entry,
            seats@,
            total_seats.spec_count(),
            pool.spec_count(),
        );
        let m = Method::NationalThreshold { vote_count, seat_count };
        let (mid, prev) = choose|mid: Seq<Seats>, prev: Seq<Seats>|
            #[trigger] engine_outcome(
                m,
                votes@,
                entry,
                mid,
                prev,
                seats@,
                total_seats.spec_count(),
                pool.spec_count(),
            );
        assert forall|i: int, j: int|
            #![trigger mid[i].spec_count(), mid[j].spec_count()]
            0 <= i < mid.len() && 0 <= j < mid.len() && mid[i].spec_count() > entry[i].spec_count()
                && mid[j].spec_count() < mid[j].limit && votes@[j].0 * seat_count
                >= vote_count implies votes@[j].0 * mid[i].spec_count() <= votes@[i].0 * (
        mid[j].spec_count() + 1) by {
            lemma_awards_give_optimality(m, votes@, entry, mid, i, j);
        }
        assert(engine_outcome(
            m,
            votes@,
            entry,
            mid,
            prev,
            seats@,
            total_seats.spec_count(),
            pool.spec_count(),
        ) && national_optimal(votes@, entry, mid, vote_count, seat_count));
    }
}

/// A party whose votes fall below one whole seat (`v*N < V`) never gains a
/// seat under the national rule: the loop only awards scored seats, the
/// rule scores no below-threshold party, and the majority correction can
/// only favour a party holding more than half the votes, which with a
/// seat handed to some threshold-reaching party forces `N >= 3` and so a
/// vote count far above the threshold.
proof fn lemma_national_threshold_respected(
    m: Method,
    votes: Seq<Votes>,
    entry: Seq<Seats>,
    fin: Seq<Seats>,
    pool_entry: Count,
    pool_fin: Count,
)
    requires
        m matches Method::NationalThreshold { vote_count, seat_count } && vote_count == sum_votes(
            votes,
        ) && seat_count == pool_entry,
        sum_votes(votes) <= Count::MAX,
        votes.len() == entry.len(),
        exists|mid: Seq<Seats>, prev: Seq<Seats>|
            #[trigger] engine_outcome(m, votes, entry, mid, prev, fin, pool_entry, pool_fin),
    ensures
        forall|i: int|
            0 <= i < entry.len() && votes[i].0 * pool_entry < sum_votes(votes)
                ==> #[trigger] fin[i].spec_count() == entry[i].spec_count(),
{
    let total = sum_votes(votes);
    let n = pool_entry as int;
    let (mid, prev) = choose|mid: Seq<Seats>, prev: Seq<Seats>|
        #[trigger] engine_outcome(m, votes, entry, mid, prev, fin, pool_entry, pool_fin);
    assert forall|i: int| 0 <= i < entry.len() && votes[i].0 * pool_entry < total implies mid[i].spec_count()
        == entry[i].spec_count() by {
        assert(entry[i].spec_count() <= prev[i].spec_count() <= mid[i].spec_count());
        if mid[i].spec_count() != entry[i].spec_count() {
            assert(spec_score(m, votes[i], entry[i].with_count(entry[i].spec_count())) is Some);
            assert(false);
        }
    }
    if pool_fin > 0 {
        assert(fin == mid);
    } else {
        let fq = first_qualifying(votes, mid);
        if fq is Some {
            let w = fq->Some_0;
            if exists|j: int| is_loser_candidate(mid, prev, w, j) {
                let j = choose|j: int|
                    #[trigger] is_loser_candidate(mid, prev, w, j) && fin == mid.update(
                        w,
                        mid[w].with_count((mid[w].spec_count() + 1) as Count),
                    ).update(j, mid[j].with_count((mid[j].spec_count() - 1) as Count));
                lemma_first_qualifying_sound(votes, mid, 0, w);
                // The losing party gained in the loop, so it reached the
                // threshold.
                assert(entry[j].spec_count() <= prev[j].spec_count() <= mid[j].spec_count());
                assert(mid[j].spec_count() > entry[j].spec_count());
                assert(spec_score(m, votes[j], entry[j].with_count(entry[j].spec_count())) is Some);
                let vw = votes[w].0 as int;
                let vj = votes[j].0 as int;
                // A below-threshold majority party is impossible once some
                // other party reached the threshold.
                if vw * n < total {
                    crate::data::lemma_two_votes_le_sum(votes, w, j);
                    assert(2 * vj < total);
                    assert(vj * n >= total);
                    assert(vj >= 1) by {
                        if vj == 0 {
                            assert(vj * n == 0) by (nonlinear_arith)
                                requires
                                    vj == 0,
                            ;
                        }
                    }
                    assert(n >= 3) by (nonlinear_arith)
                        requires
                            vj * n >= total,
                            total > 2 * vj,
                            vj >= 1,
                    ;
                    assert(vw * n >= 3 * vw) by (nonlinear_arith)
                        requires
                            n >= 3,
                            vw >= 0,
                    ;
                    assert(false);
                }
                assert forall|i: int|
                    0 <= i < entry.len() && votes[i].0 * pool_entry < total implies #[trigger] fin[i].spec_count()
                    == entry[i].spec_count() by {
                    assert(i != w);
                    if i == j {
                        assert(mid[j].spec_count() > entry[j].spec_count());
                        assert(spec_score(
                            m,
                            votes[j],
                            entry[j].with_count(entry[j].spec_count()),
                        ) is Some);
                        assert(false);
                    }
                    assert(fin[i] == mid[i]);
                }
            } else {
                assert(fin == mid);
            }
        } else {
            assert(fin == mid);
        }
    }
}

/// Apportion by the method proposed by Bongaerts and in force 1925–1933:
/// a largest-scaled-surplus pass gated by a 75%-average threshold, then a
/// highest-averages pass with matching gates for the seats that remain.
pub fn allocate_bongaerts(
    total_seats: Seats,
    votes: &Vec<Votes>,
    seats: &mut Vec<Seats>,
    ballot: Ballot,
)
    requires
        allocation_pre(votes@, old(seats)@, total_seats),
        3 * sum_votes(votes@) <= Count::MAX,
        4 * total_seats.spec_count() <= Count::MAX,
        sum_votes(votes@) * total_seats.spec_count() <= Count::MAX,
    ensures
        allocation_frame(old(seats)@, final(seats)@, total_seats),
        sum_counts(final(seats)@) < sum_counts(old(seats)@) + total_seats.spec_count()
            ==> no_party_eligible(
            Method::BongaertsSecond {
                vote_count: sum_votes(votes@) as Count,
                seat_count: total_seats.spec_count(),
            },
            votes@,
            final(seats)@,
        ),
        two_pass_outcome(
            Method::BongaertsFirst {
                vote_count: sum_votes(votes@) as Count,
                seat_count: total_seats.spec_count(),
            },
            Method::BongaertsSecond {
                vote_count: sum_votes(votes@) as Count,
                seat_count: total_seats.spec_count(),
            },
            votes@,
            old(seats)@,
            final(seats)@,
            total_seats.spec_count(),
        ),
        old(seats)@.len() >= 1 && (forall|i: int|
            0 <= i < old(seats)@.len() ==> #[trigger] old(seats)@[i].spec_count() == 0 && old(
                seats,
            )@[i].limit == Count::MAX) ==> sum_counts(final(seats)@) == total_seats.spec_count(),
{
    let ghost entry = seats@;
    let vote_count: Count = total_votes(votes);
    let seat_count: Count = total_seats.count();
    let mut pool: Seats = total_seats;

    proof {
        lemma_method_pre_products(votes@, vote_count as int, seat_count as int);
    }
    allocate_seats(
        votes,
        seats,
        &mut pool,
        &Method::BongaertsFirst { vote_count, seat_count },
        ballot,
    );
    let ghost first_pass = seats@;
    let ghost left1 = pool.spec_count();

    if pool.count() > 0 {
        allocate_seats(
            votes,
            seats,
            &mut pool,
            &Method::BongaertsSecond { vote_count, seat_count },
            ballot,
        );
    }

    proof {
        let m1 = Method::BongaertsFirst { vote_count, seat_count };
        let m2 = Method::BongaertsSecond { vote_count, seat_count };
        let (mid1, prev1) = choose|mid1: Seq<Seats>, prev1: Seq<Seats>|
            #[trigger] engine_outcome(
                m1,
                votes@,
                entry,
                mid1,
                prev1,
                first_pass,
                total_seats.spec_count(),
                left1,
            );
        if left1 == 0 {
            assert(engine_outcome(
                m1,
                votes@,
                entry,
                mid1,
                prev1,
                first_pass,
                total_seats.spec_count(),
                left1,
            ) && seats@ == first_pass);
        } else {
            let (mid2, prev2) = choose|mid2: Seq<Seats>, prev2: Seq<Seats>|
                #[trigger] engine_outcome(
                    m2,
                    votes@,
                    first_pass,
                    mid2,
                    prev2,
                    seats@,
                    left1,
                    pool.spec_count(),
                );
            assert(engine_outcome(
                m2,
                votes@,
                first_pass,
                mid2,
                prev2,
                seats@,
                left1,
                pool.spec_count(),
            ));
            assert(engine_outcome(
                m1,
                votes@,
                entry,
                mid1,
                prev1,
                first_pass,
                total_seats.spec_count(),
                left1,
            ));
        }
        assert(two_pass_outcome(m1, m2, votes@, entry, seats@, total_seats.spec_count()));

        // With fresh unlimited counters every seat is handed out: while a
        // seat remains, some party sits below its exact share and the
        // second pass still serves it.
        if entry.len() >= 1 && (forall|i: int|
            0 <= i < entry.len() ==> #[trigger] entry[i].spec_count() == 0 && entry[i].limit
                == Count::MAX) {
            lemma_zero_counts_sum(entry);
            if pool.spec_count() > 0 {
                let n_seats = seat_count as int;
                let v_total = vote_count as int;
                assert forall|i: int| 0 <= i < votes@.len() implies votes@[i].0 * n_seats
                    < #[trigger] seats@[i].spec_count() * v_total by {
                    crate::data::lemma_count_le_sum(seats@, i);
                    assert(seats@[i].limit == Count::MAX);
                    assert(seats@[i].spec_count() < seats@[i].limit);
                    assert(spec_quality(m2, votes@, seats@, i) is None);
                    let c = seats@[i].spec_count() as int;
                    assert((c - 1) * v_total <= c * v_total) by (nonlinear_arith)
                        requires
                            v_total >= 0,
                    ;
                }
                if v_total == 0 {
                    assert(votes@[0].0 * n_seats < seats@[0].spec_count() * 0);
                    assert(seats@[0].spec_count() * 0 == 0) by (nonlinear_arith);
                    assert(votes@[0].0 * n_seats >= 0) by (nonlinear_arith)
                        requires
                            votes@[0].0 >= 0,
                            n_seats >= 0,
                    ;
                    assert(false);
                }
                lemma_pointwise_sum_lt(votes@, seats@, n_seats, v_total);
                assert(v_total * n_seats < sum_counts(seats@) * v_total);
                assert(n_seats < sum_counts(seats@)) by (nonlinear_arith)
                    requires
                        v_total * n_seats < sum_counts(seats@) * v_total,
                        v_total > 0,
                ;
                assert(false);
            }
        }
    }
}

/// Each party's votes, scaled by the pool size, fit the working width
/// whenever the scaled vote total does.
proof fn lemma_method_pre_products(votes: Seq<Votes>, vote_count: int, seat_count: int)
    requires
        vote_count == sum_votes(votes),
        seat_count >= 0,
        vote_count * seat_count <= Count::MAX,
    ensures
        forall|i: int| 0 <= i < votes.len() ==> #[trigger] (votes[i].0 * seat_count) <= Count::MAX,
{
    assert forall|i: int| 0 <= i < votes.len() implies #[trigger] (votes[i].0 * seat_count)
        <= Count::MAX by {
        lemma_vote_le_sum(votes, i);
        assert(votes[i].0 * seat_count <= vote_count * seat_count) by (nonlinear_arith)
            requires
                0 <= votes[i].0 <= vote_count,
                seat_count >= 0,
        ;
    }
}

/// The seat apportionment of the very first Dutch election held under
/// proportional representation, with a vote threshold of half a seat.
pub fn allocate_1918(
    total_seats: Seats,
    votes: &Vec<Votes>,
    seats: &mut Vec<Seats>,
    ballot: Ballot,
)
    requires
        allocation_pre(votes@, old(seats)@, total_seats),
        2 * total_seats.spec_count() <= Count::MAX,
        sum_votes(votes@) * total_seats.spec_count() <= Count::MAX,
    ensures
        allocation_frame(old(seats)@, final(seats)@, total_seats),
        sum_counts(final(seats)@) < sum_counts(old(seats)@) + total_seats.spec_count()
            ==> no_party_eligible(
            archaic_round_method(crate::data::Fraction { numerator: 1, denominator: 2 }, votes@, total_seats, 0, true),
            votes@,
            final(seats)@,
        ),
        sum_counts(final(seats)@) < sum_counts(old(seats)@) + total_seats.spec_count()
            ==> no_party_eligible(
            archaic_round_method(crate::data::Fraction { numerator: 1, denominator: 2 }, votes@, total_seats, 1, true),
            votes@,
            final(seats)@,
        ),
        sum_counts(final(seats)@) < sum_counts(old(seats)@) + total_seats.spec_count()
            ==> no_party_eligible(
            archaic_round_method(crate::data::Fraction { numerator: 1, denominator: 2 }, votes@, total_seats, 0, false),
            votes@,
            final(seats)@,
        ),
{
    allocate_archaic(crate::data::frac(1, 2), total_seats, votes, seats, ballot);
}

/// The seat apportionment of the 1922 election: the same archaic method
/// with the vote threshold raised from half a seat to three quarters.
pub fn allocate_1922(
    total_seats: Seats,
    votes: &Vec<Votes>,
    seats: &mut Vec<Seats>,
    ballot: Ballot,
)
    requires
        allocation_pre(votes@, old(seats)@, total_seats),
        3 * sum_votes(votes@) <= Count::MAX,
        4 * total_seats.spec_count() <= Count::MAX,
        sum_votes(votes@) * total_seats.spec_count() <= Count::MAX,
    ensures
        allocation_frame(old(seats)@, final(seats)@, total_seats),
        sum_counts(final(seats)@) < sum_counts(old(seats)@) + total_seats.spec_count()
            ==> no_party_eligible(
            archaic_round_method(crate::data::Fraction { numerator: 3, denominator: 4 }, votes@, total_seats, 0, true),
            votes@,
            final(seats)@,
        ),
        sum_counts(final(seats)@) < sum_counts(old(seats)@) + total_seats.spec_count()
            ==> no_party_eligible(
            archaic_round_method(crate::data::Fraction { numerator: 3, denominator: 4 }, votes@, total_seats, 1, true),
            votes@,
            final(seats)@,
        ),
        sum_counts(final(seats)@) < sum_counts(old(seats)@) + total_seats.spec_count()
            ==> no_party_eligible(
            archaic_round_method(crate::data::Fraction { numerator: 3, denominator: 4 }, votes@, total_seats, 0, false),
            votes@,
            final(seats)@,
        ),
{
    allocate_archaic(crate::data::frac(3, 4), total_seats, votes, seats, ballot);
}

/// A complete three-round run of the archaic method: each round runs only
/// while seats remain, and each carries the engine's full outcome record.
pub open spec fn three_round_outcome(
    m1: Method,
    m2: Method,
    m3: Method,
    votes: Seq<Votes>,
    entry: Seq<Seats>,
    fin: Seq<Seats>,
    total: Count,
) -> bool {
    if total == 0 {
        fin == entry
    } else {
        exists|mid1: Seq<Seats>, prev1: Seq<Seats>, stage1: Seq<Seats>, left1: Count|
            #[trigger] engine_outcome(m1, votes, entry, mid1, prev1, stage1, total, left1) && if left1
                == 0 {
                fin == stage1
            } else {
                exists|mid2: Seq<Seats>, prev2: Seq<Seats>, stage2: Seq<Seats>, left2: Count|
                    #[trigger] engine_outcome(m2, votes, stage1, mid2, prev2, stage2, left1, left2)
                        && if left2 == 0 {
                        fin == stage2
                    } else {
                        exists|mid3: Seq<Seats>, prev3: Seq<Seats>, left3: Count|
                            #[trigger] engine_outcome(
                                m3,
                                votes,
                                stage2,
                                mid3,
                                prev3,
                                fin,
                                left2,
                                left3,
                            )
                    }
            }
    }
}

/// One round of the archaic method, with the vote threshold already
/// scaled: the round's eligibility threshold in votes is
/// `threshold * V / N`, compared by cross-multiplication.
pub open spec fn archaic_round_method(
    threshold: Fraction,
    votes: Seq<Votes>,
    total: Seats,
    offset: Count,
    meet: bool,
) -> Method {
    Method::ArchaicRound {
        threshold: Fraction {
            numerator: (threshold.numerator * sum_votes(votes)) as Count,
            denominator: (threshold.denominator * total.spec_count()) as Count,
        },
        vote_count: sum_votes(votes) as Count,
        seat_count: total.spec_count(),
        offset,
        meet,
    }
}

/// The three-round method selected around 1916 for the introduction of
/// proportional representation and abandoned in 1922.  The threshold
/// fraction of a whole seat is scaled to a number of votes; the first
/// round serves the parties that meet it, the second serves them again
/// with their seat count discounted by one, and the last round serves the
/// parties that fail the threshold.
pub fn allocate_archaic(
    threshold: Fraction,
    total_seats: Seats,
    votes: &Vec<Votes>,
    seats: &mut Vec<Seats>,
    ballot: Ballot,
)
    requires
        allocation_pre(votes@, old(seats)@, total_seats),
        threshold.numerator * sum_votes(votes@) <= Count::MAX,
        threshold.denominator * total_seats.spec_count() <= Count::MAX,
        sum_votes(votes@) * total_seats.spec_count() <= Count::MAX,
    ensures
        allocation_frame(old(seats)@, final(seats)@, total_seats),
        sum_counts(final(seats)@) < sum_counts(old(seats)@) + total_seats.spec_count()
            ==> no_party_eligible(
            archaic_round_method(threshold, votes@, total_seats, 0, true),
            votes@,
            final(seats)@,
        ),
        sum_counts(final(seats)@) < sum_counts(old(seats)@) + total_seats.spec_count()
            ==> no_party_eligible(
            archaic_round_method(threshold, votes@, total_seats, 1, true),
            votes@,
            final(seats)@,
        ),
        sum_counts(final(seats)@) < sum_counts(old(seats)@) + total_seats.spec_count()
            ==> no_party_eligible(
            archaic_round_method(threshold, votes@, total_seats, 0, false),
            votes@,
            final(seats)@,
        ),
        three_round_outcome(
            archaic_round_method(threshold, votes@, total_seats, 0, true),
            archaic_round_method(threshold, votes@, total_seats, 1, true),
            archaic_round_method(threshold, votes@, total_seats, 0, false),
            votes@,
            old(seats)@,
            final(seats)@,
            total_seats.spec_count(),
        ),
{
    let ghost entry = seats@;
    let vote_count: Count = total_votes(votes);
    let seat_count: Count = total_seats.count();
    let scaled: Fraction = Fraction {
        numerator: threshold.numerator * vote_count,
        denominator: threshold.denominator * seat_count,
    };
    let mut pool: Seats = total_seats;

    proof {
        lemma_method_pre_products(votes@, vote_count as int, seat_count as int);
    }

    let ghost m1 = archaic_round_method(threshold, votes@, total_seats, 0, true);
    let ghost m2 = archaic_round_method(threshold, votes@, total_seats, 1, true);
    let ghost m3 = archaic_round_method(threshold, votes@, total_seats, 0, false);
    proof {
        assert(Method::ArchaicRound {
            threshold: scaled,
            vote_count,
            seat_count,
            offset: 0,
            meet: true,
        } == m1);
        assert(Method::ArchaicRound {
            threshold: scaled,
            vote_count,
            seat_count,
            offset: 1,
            meet: true,
        } == m2);
        assert(Method::ArchaicRound {
            threshold: scaled,
            vote_count,
            seat_count,
            offset: 0,
            meet: false,
        } == m3);
    }

    if pool.count() > 0 {
        allocate_seats(
            votes,
            seats,
            &mut pool,
            &Method::ArchaicRound { threshold: scaled, vote_count, seat_count, offset: 0, meet: true },
            ballot,
        );
    }
    let ghost round1 = seats@;
    let ghost left1 = pool.spec_count();
    if pool.count() > 0 {
        allocate_seats(
            votes,
            seats,
            &mut pool,
            &Method::ArchaicRound { threshold: scaled, vote_count, seat_count, offset: 1, meet: true },
            ballot,
        );
    }
    let ghost round2 = seats@;
    let ghost pool_before_last = pool.spec_count();
    if pool.count() > 0 {
        allocate_seats(
            votes,
            seats,
            &mut pool,
            &Method::ArchaicRound {
                threshold: scaled,
                vote_count,
                seat_count,
                offset: 0,
                meet: false,
            },
            ballot,
        );
    }

    proof {
        if total_seats.spec_count() > 0 {
            let (mid1, prev1) = choose|mid1: Seq<Seats>, prev1: Seq<Seats>|
                #[trigger] engine_outcome(
                    m1,
                    votes@,
                    entry,
                    mid1,
                    prev1,
                    round1,
                    total_seats.spec_count(),
                    left1,
                );
            if left1 == 0 {
                assert(engine_outcome(
                    m1,
                    votes@,
                    entry,
                    mid1,
                    prev1,
                    round1,
                    total_seats.spec_count(),
                    left1,
                ) && seats@ == round1);
            } else {
                let (mid2, prev2) = choose|mid2: Seq<Seats>, prev2: Seq<Seats>|
                    #[trigger] engine_outcome(
                        m2,
                        votes@,
                        round1,
                        mid2,
                        prev2,
                        round2,
                        left1,
                        pool_before_last,
                    );
                if pool_before_last == 0 {
                    assert(engine_outcome(
                        m2,
                        votes@,
                        round1,
                        mid2,
                        prev2,
                        round2,
                        left1,
                        pool_before_last,
                    ) && seats@ == round2);
                } else {
                    let (mid3, prev3) = choose|mid3: Seq<Seats>, prev3: Seq<Seats>|
                        #[trigger] engine_outcome(
                            m3,
                            votes@,
                            round2,
                            mid3,
                            prev3,
                            seats@,
                            pool_before_last,
                            pool.spec_count(),
                        );
                    assert(engine_outcome(
                        m3,
                        votes@,
                        round2,
                        mid3,
                        prev3,
                        seats@,
                        pool_before_last,
                        pool.spec_count(),
                    ));
                    assert(engine_outcome(
                        m2,
                        votes@,
                        round1,
                        mid2,
                        prev2,
                        round2,
                        left1,
                        pool_before_last,
                    ));
                }
                assert(engine_outcome(
                    m1,
                    votes@,
                    entry,
                    mid1,
                    prev1,
                    round1,
                    total_seats.spec_count(),
                    left1,
                ));
            }
        }
        assert(three_round_outcome(
            m1,
            m2,
            m3,
            votes@,
            entry,
            seats@,
            total_seats.spec_count(),
        ));
        if pool.spec_count() > 0 {
            // Seats remain, so every round that ran stopped for want of an
            // eligible party.  Offset-zero ineligibility persists as the
            // counts grow, which settles the first round.
            lemma_no_eligible_monotone(m1, votes@, round1, seats@);

            // The last round stopped early, so the correction never ran
            // and its gains are all justified by its own rule — which
            // serves only the parties that fail the threshold.  A party
            // that meets it is therefore untouched since the second round
            // and stays ineligible there.
            let (mid, prev) = choose|mid: Seq<Seats>, prev: Seq<Seats>|
                #[trigger] engine_outcome(
                    m3,
                    votes@,
                    round2,
                    mid,
                    prev,
                    seats@,
                    pool_before_last,
                    pool.spec_count(),
                );
            assert(seats@ == mid);
            assert(no_party_eligible(m2, votes@, round2));
            assert forall|i: int| 0 <= i < seats@.len() implies #[trigger] spec_quality(
                m2,
                votes@,
                seats@,
                i,
            ) is None by {
                let v = votes@[i].0;
                if v * scaled.denominator >= scaled.numerator {
                    if seats@[i].spec_count() != round2[i].spec_count() {
                        assert(spec_score(
                            m3,
                            votes@[i],
                            round2[i].with_count(round2[i].spec_count()),
                        ) is Some);
                        assert(false);
                    }
                    assert(seats@[i] == round2[i]);
                    assert(spec_quality(m2, votes@, round2, i) is None);
                }
            }
        }
    }
}

} // verus!
