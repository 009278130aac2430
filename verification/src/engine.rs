//! The apportionment engine: the single-seat allocation step, the
//! iterative loop, and the absolute-majority correction.

use vstd::prelude::*;

use crate::ballot::Ballot;
use crate::ballot::draw;
use crate::ballot::lemma_submultiset_no_duplicates;
use crate::data::Count;
use crate::data::Fraction;
use crate::data::Seats;
use crate::data::Votes;
use crate::data::frac_eq;
use crate::data::lemma_count_le_sum;
use crate::data::lemma_frac_le_trans;
use crate::data::lemma_sum_counts_update;
use crate::data::sum_votes;
use crate::data::sum_votes_prefix;
use crate::data::sum_counts;
use crate::method::Method;
use crate::method::lemma_score_wf;
use crate::method::opt_le;
use crate::method::score;
use crate::method::score_pre;
use crate::method::spec_score;

verus! {

/// Every seat counter in the sequence is well formed.
pub open spec fn seats_wf(s: Seq<Seats>) -> bool {
    forall|i: int| 0 <= i < s.len() ==> #[trigger] s[i].wf()
}

/// The two sequences list the same parties with the same capacity limits.
pub open spec fn limits_unchanged(a: Seq<Seats>, b: Seq<Seats>) -> bool {
    a.len() == b.len() && forall|i: int| 0 <= i < a.len() ==> #[trigger] b[i].limit == a[i].limit
}

/// What a scoring rule demands of every party's vote count.
pub open spec fn method_pre(m: Method, votes: Seq<Votes>) -> bool {
    forall|i: int| 0 <= i < votes.len() ==> #[trigger] score_pre(m, votes[i])
}

/// The quality of party `i` in the current state: its score under the rule,
/// or `None` when the party has no unseated candidate left.
pub open spec fn spec_quality(m: Method, votes: Seq<Votes>, seats: Seq<Seats>, i: int) -> Option<
    Fraction,
> {
    if seats[i].spec_count() < seats[i].limit {
        spec_score(m, votes[i], seats[i])
    } else {
        None
    }
}

/// No party is eligible for another seat: every quality is `None`.
pub open spec fn no_party_eligible(m: Method, votes: Seq<Votes>, seats: Seq<Seats>) -> bool {
    forall|i: int| 0 <= i < seats.len() ==> #[trigger] spec_quality(m, votes, seats, i) is None
}

/// Party `i` is a winner of the step: it has a quality and no party has a
/// strictly greater one.
pub open spec fn is_winner(m: Method, votes: Seq<Votes>, seats: Seq<Seats>, i: int) -> bool {
    &&& 0 <= i < seats.len()
    &&& spec_quality(m, votes, seats, i) is Some
    &&& forall|j: int|
        0 <= j < seats.len() ==> opt_le(
            #[trigger] spec_quality(m, votes, seats, j),
            spec_quality(m, votes, seats, i),
        )
}

/// The number of winners among the first `k` parties.
pub open spec fn count_winners(m: Method, votes: Seq<Votes>, seats: Seq<Seats>, k: int) -> int
    decreases k,
{
    if k <= 0 {
        0
    } else {
        count_winners(m, votes, seats, k - 1) + if is_winner(m, votes, seats, k - 1) {
            1int
        } else {
            0int
        }
    }
}

/// A winner count is never negative.
proof fn lemma_count_winners_nonneg(m: Method, votes: Seq<Votes>, seats: Seq<Seats>, k: int)
    ensures
        count_winners(m, votes, seats, k) >= 0,
    decreases k,
{
    if k > 0 {
        lemma_count_winners_nonneg(m, votes, seats, k - 1);
    }
}

/// If some party is a winner, the winner count over all parties is positive.
proof fn lemma_count_winners_pos(m: Method, votes: Seq<Votes>, seats: Seq<Seats>, t: int, k: int)
    requires
        is_winner(m, votes, seats, t),
        t < k,
    ensures
        count_winners(m, votes, seats, k) >= 1,
    decreases k,
{
    if t < k - 1 {
        lemma_count_winners_pos(m, votes, seats, t, k - 1);
    } else {
        lemma_count_winners_nonneg(m, votes, seats, k - 1);
    }
}

/// One step of the apportionment: score every party, find the maximal
/// quality, and award one seat to each winner the ballot selects, at most
/// as many as the pool still holds.  Returns `None`, changing nothing, when
/// no party is eligible.
///
/// The step preserves the conservation invariant: the seats held by the
/// parties plus the seats left in the pool is constant.
pub fn allocate_single_step(
    votes: &Vec<Votes>,
    seats: &mut Vec<Seats>,
    available_seats: &mut Seats,
    method: &Method,
    ballot: Ballot,
) -> (r: Option<()>)
    requires
        votes@.len() == old(seats)@.len(),
        method_pre(*method, votes@),
        seats_wf(old(seats)@),
        sum_counts(old(seats)@) + old(available_seats).spec_count() < Count::MAX,
    ensures
        seats_wf(final(seats)@),
        limits_unchanged(old(seats)@, final(seats)@),
        sum_counts(final(seats)@) + final(available_seats).spec_count() == sum_counts(old(seats)@)
            + old(available_seats).spec_count(),
        final(available_seats).limit == old(available_seats).limit,
        final(available_seats).spec_count() <= old(available_seats).spec_count(),
        r is None <==> no_party_eligible(*method, votes@, old(seats)@),
        r is None ==> final(seats)@ == old(seats)@ && *final(available_seats) == *old(
            available_seats,
        ),
        forall|i: int|
            0 <= i < old(seats)@.len() ==> #[trigger] final(seats)@[i] == old(seats)@[i] || (
            final(seats)@[i] == old(seats)@[i].with_count(
                (old(seats)@[i].spec_count() + 1) as Count,
            ) && is_winner(*method, votes@, old(seats)@, i)),
        r is Some ==> old(available_seats).spec_count() - final(available_seats).spec_count()
            == vstd::math::min(
            count_winners(*method, votes@, old(seats)@, old(seats)@.len() as int),
            old(available_seats).spec_count() as int,
        ),
        r is Some && old(available_seats).spec_count() > 0 ==> final(available_seats).spec_count()
            < old(available_seats).spec_count(),
{
    let ghost m = *method;
    let ghost votes_view = votes@;
    let ghost seats0 = seats@;
    let n: usize = seats.len();

    // Find the maximal quality, remembering a party that attains it.
    let mut best: Option<Fraction> = None;
    let ghost mut best_idx: int = 0int;
    let mut i: usize = 0;
    while i < n
        invariant
            n == seats0.len(),
            votes_view.len() == seats0.len(),
            seats@ == seats0,
            votes@ == votes_view,
            0 <= i <= n,
            method_pre(m, votes_view),
            seats_wf(seats0),
            sum_counts(seats0) + available_seats.spec_count() < Count::MAX,
            m == *method,
            best is None ==> forall|j: int|
                0 <= j < i ==> #[trigger] spec_quality(m, votes_view, seats0, j) is None,
            best matches Some(b) ==> {
                &&& 0 <= best_idx < i
                &&& spec_quality(m, votes_view, seats0, best_idx) == Some(b)
                &&& b.denominator >= 1
                &&& forall|j: int|
                    0 <= j < i ==> opt_le(
                        #[trigger] spec_quality(m, votes_view, seats0, j),
                        Some(b),
                    )
            },
        decreases n - i,
    {
        proof {
            lemma_count_le_sum(seats0, i as int);
            lemma_score_wf(m, votes_view[i as int], seats0[i as int]);
        }
        let q: Option<Fraction> = if seats[i].has_candidates() {
            score(method, votes[i], seats[i])
        } else {
            None
        };
        assert(q == spec_quality(m, votes_view, seats0, i as int));
        match q {
            Option::None => {},
            Option::Some(x) => {
                let replace: bool = match best {
                    Option::None => true,
                    Option::Some(b) => x.ge(&b),
                };
                if replace {
                    proof {
                        if best is Some {
                            let b = best->Some_0;
                            assert forall|j: int| 0 <= j < i + 1 implies opt_le(
                                #[trigger] spec_quality(m, votes_view, seats0, j),
                                Some(x),
                            ) by {
                                if j < i && spec_quality(m, votes_view, seats0, j) is Some {
                                    let qj = spec_quality(m, votes_view, seats0, j)->Some_0;
                                    lemma_frac_le_trans(qj, b, x);
                                }
                            }
                        }
                        best_idx = i as int;
                    }
                    best = Some(x);
                }
            },
        }
        i = i + 1;
    }

    let max = match best {
        Option::None => {
            return None;
        },
        Option::Some(b) => b,
    };

    proof {
        assert(is_winner(m, votes_view, seats0, best_idx));
    }

    // Collect the winners: every party whose quality equals the maximum.
    let mut winners: Vec<usize> = Vec::new();
    let mut i: usize = 0;
    while i < n
        invariant
            n == seats0.len(),
            votes_view.len() == seats0.len(),
            seats@ == seats0,
            votes@ == votes_view,
            0 <= i <= n,
            method_pre(m, votes_view),
            seats_wf(seats0),
            sum_counts(seats0) + available_seats.spec_count() < Count::MAX,
            m == *method,
            max.denominator >= 1,
            spec_quality(m, votes_view, seats0, best_idx) == Some(max),
            0 <= best_idx < n,
            forall|j: int|
                0 <= j < n ==> opt_le(#[trigger] spec_quality(m, votes_view, seats0, j), Some(max)),
            forall|a: int, b: int|
                0 <= a < b < winners@.len() ==> #[trigger] winners@[a] < #[trigger] winners@[b],
            forall|a: int|
                0 <= a < winners@.len() ==> (#[trigger] winners@[a] < i && is_winner(
                    m,
                    votes_view,
                    seats0,
                    winners@[a] as int,
                )),
            winners@.len() == count_winners(m, votes_view, seats0, i as int),
        decreases n - i,
    {
        proof {
            lemma_count_le_sum(seats0, i as int);
            lemma_score_wf(m, votes_view[i as int], seats0[i as int]);
        }
        let q: Option<Fraction> = if seats[i].has_candidates() {
            score(method, votes[i], seats[i])
        } else {
            None
        };
        assert(q == spec_quality(m, votes_view, seats0, i as int));
        let is_max: bool = match q {
            Option::None => false,
            Option::Some(x) => x.equals(&max),
        };
        proof {
            if is_max {
                let x = q->Some_0;
                assert forall|j: int| 0 <= j < n implies opt_le(
                    #[trigger] spec_quality(m, votes_view, seats0, j),
                    Some(x),
                ) by {
                    if spec_quality(m, votes_view, seats0, j) is Some {
                        let qj = spec_quality(m, votes_view, seats0, j)->Some_0;
                        lemma_frac_le_trans(qj, max, x);
                    }
                }
                assert(is_winner(m, votes_view, seats0, i as int));
            } else {
                if is_winner(m, votes_view, seats0, i as int) {
                    // A winner's quality equals the maximum, so it would
                    // have been recognised.
                    let x = spec_quality(m, votes_view, seats0, i as int)->Some_0;
                    assert(opt_le(Some(max), Some(x)));
                    assert(opt_le(Some(x), Some(max)));
                    assert(frac_eq(x, max));
                    assert(false);
                }
            }
        }
        if is_max {
            winners.push(i);
        }
        i = i + 1;
    }

    let ghost winner_count = count_winners(m, votes_view, seats0, n as int);
    proof {
        lemma_count_winners_pos(m, votes_view, seats0, best_idx, n as int);
    }

    // Let the ballot decide which winners receive a seat; if enough seats
    // remain in the pool, all of them do.
    let limit: Count = available_seats.count();
    let ghost winners_view = winners@;
    let chosen: Vec<usize> = draw(ballot, winners, limit);
    proof {
        lemma_submultiset_no_duplicates(chosen@, winners_view);
    }

    // Transfer one seat from the pool to each selected winner.
    let mut k: usize = 0;
    let ghost pool0 = *available_seats;
    while k < chosen.len()
        invariant
            n == seats0.len(),
            votes_view.len() == seats0.len(),
            seats@.len() == seats0.len(),
            0 <= k <= chosen@.len(),
            chosen@.len() <= pool0.spec_count(),
            chosen@.no_duplicates(),
            forall|a: int|
                0 <= a < chosen@.len() ==> is_winner(
                    m,
                    votes_view,
                    seats0,
                    #[trigger] chosen@[a] as int,
                ),
            *available_seats == pool0.with_count((pool0.spec_count() - k) as Count),
            seats_wf(seats0),
            seats_wf(seats@),
            limits_unchanged(seats0, seats@),
            sum_counts(seats@) == sum_counts(seats0) + k,
            forall|i2: int|
                0 <= i2 < n ==> #[trigger] seats@[i2] == if chosen@.take(k as int).contains(
                    i2 as usize,
                ) {
                    seats0[i2].with_count((seats0[i2].spec_count() + 1) as Count)
                } else {
                    seats0[i2]
                },
            sum_counts(seats0) + pool0.spec_count() < Count::MAX,
        decreases chosen@.len() - k,
    {
        let idx: usize = chosen[k];
        proof {
            assert(is_winner(m, votes_view, seats0, idx as int));
            assert(spec_quality(m, votes_view, seats0, idx as int) is Some);
            assert(seats0[idx as int].spec_count() < seats0[idx as int].limit);
            // This winner has not been served yet in this step.
            assert(!chosen@.take(k as int).contains(idx)) by {
                if chosen@.take(k as int).contains(idx) {
                    let a = choose|a: int| #![auto] 0 <= a < k && chosen@.take(k as int)[a] == idx;
                    assert(chosen@[a] == chosen@[k as int]);
                }
            }
            assert(seats@[idx as int] == seats0[idx as int]);
            lemma_count_le_sum(seats@, idx as int);
        }
        let mut entry: Seats = seats[idx];
        entry.transfer(available_seats);
        let ghost seats_before = seats@;
        seats[idx] = entry;
        proof {
            lemma_sum_counts_update(seats_before, idx as int, entry);
            assert(chosen@.take(k as int + 1) =~= chosen@.take(k as int).push(idx));
            assert forall|i2: int| 0 <= i2 < n implies #[trigger] seats@[i2] == if chosen@.take(
                k as int + 1,
            ).contains(i2 as usize) {
                seats0[i2].with_count((seats0[i2].spec_count() + 1) as Count)
            } else {
                seats0[i2]
            } by {
                vstd::seq_lib::lemma_seq_contains_after_push(
                    chosen@.take(k as int),
                    idx,
                    i2 as usize,
                );
            }
        }
        k = k + 1;
    }

    proof {
        assert(chosen@.take(chosen@.len() as int) =~= chosen@);
        assert forall|i2: int| 0 <= i2 < n implies #[trigger] seats@[i2] == seats0[i2] || (
        seats@[i2] == seats0[i2].with_count((seats0[i2].spec_count() + 1) as Count) && is_winner(
            m,
            votes_view,
            seats0,
            i2,
        )) by {
            if chosen@.contains(i2 as usize) {
                let a = choose|a: int|
                    #![auto]
                    0 <= a < chosen@.len() && chosen@[a] == i2 as usize;
                assert(is_winner(m, votes_view, seats0, i2));
            }
        }
    }

    Some(())
}

/// A copy of the current seat allocation, taken before each step so that
/// the majority correction can see who gained in the final step.
fn snapshot(seats: &Vec<Seats>) -> (r: Vec<Seats>)
    ensures
        r@ == seats@,
{
    let mut r: Vec<Seats> = Vec::new();
    let mut i: usize = 0;
    while i < seats.len()
        invariant
            0 <= i <= seats@.len(),
            r@ == seats@.take(i as int),
        decreases seats@.len() - i,
    {
        proof {
            assert(seats@.take(i as int + 1) =~= seats@.take(i as int).push(seats@[i as int]));
        }
        r.push(seats[i]);
        i = i + 1;
    }
    proof {
        assert(seats@.take(seats@.len() as int) =~= seats@);
    }
    r
}

/// How the absolute-majority correction turns the post-loop allocation
/// `mid` into the final one, given the snapshot `prev` taken before the
/// last step: the first qualifying party gains one seat and one other
/// party that gained in the final step loses one; with no qualifying
/// party or no such gainer, nothing changes.
pub open spec fn correction_outcome(
    votes: Seq<Votes>,
    mid: Seq<Seats>,
    prev: Seq<Seats>,
    fin: Seq<Seats>,
) -> bool {
    match first_qualifying(votes, mid) {
        Option::None => fin == mid,
        Option::Some(w) => {
            if exists|j: int| is_loser_candidate(mid, prev, w, j) {
                exists|j: int|
                    #[trigger] is_loser_candidate(mid, prev, w, j) && fin == mid.update(
                        w,
                        mid[w].with_count((mid[w].spec_count() + 1) as Count),
                    ).update(j, mid[j].with_count((mid[j].spec_count() - 1) as Count))
            } else {
                fin == mid
            }
        },
    }
}

/// Every seat the loop hands out is justified by the scoring rule: a
/// party that grew from `entry` to `mid` was scored `Some` at each count
/// it passed through, with capacity to spare.  In particular a party the
/// rule never scores cannot gain a seat from the loop.
pub open spec fn awards_justified(
    m: Method,
    votes: Seq<Votes>,
    entry: Seq<Seats>,
    mid: Seq<Seats>,
) -> bool {
    forall|i: int, c: Count|
        0 <= i < entry.len() && entry[i].spec_count() <= c < mid[i].spec_count() ==> c
            < entry[i].limit && (#[trigger] spec_score(m, votes[i], entry[i].with_count(c))) is Some
}

/// The quality party `j` would show at seat count `cj`, judged from the
/// entry state: its score there, or `None` once `cj` exhausts its list.
pub open spec fn quality_at(
    m: Method,
    votes: Seq<Votes>,
    entry: Seq<Seats>,
    j: int,
    cj: Count,
) -> Option<Fraction> {
    if cj < entry[j].limit {
        spec_score(m, votes[j], entry[j].with_count(cj))
    } else {
        None
    }
}

/// At some count between its entry and final value, party `j` showed a
/// quality no greater than `x`.
pub open spec fn held_quality_le(
    m: Method,
    votes: Seq<Votes>,
    entry: Seq<Seats>,
    mid: Seq<Seats>,
    j: int,
    x: Fraction,
) -> bool {
    exists|cj: Count|
        entry[j].spec_count() <= cj <= mid[j].spec_count() && opt_le(
            #[trigger] quality_at(m, votes, entry, j, cj),
            Some(x),
        )
}

/// Every seat the loop hands out goes to a party of maximal quality: when
/// party `i` received the seat that took it from count `c` to `c + 1`,
/// every party's quality at its then seat count was no greater than `i`'s
/// score at `c`.
pub open spec fn awards_maximal(
    m: Method,
    votes: Seq<Votes>,
    entry: Seq<Seats>,
    mid: Seq<Seats>,
) -> bool {
    forall|i: int, c: Count, j: int|
        0 <= i < entry.len() && 0 <= j < entry.len() && entry[i].spec_count() <= c
            < mid[i].spec_count() ==> #[trigger] held_quality_le(
            m,
            votes,
            entry,
            mid,
            j,
            spec_score(m, votes[i], entry[i].with_count(c))->Some_0,
        )
}

/// Everything a finished run promises, through the unseen intermediate
/// states: `mid` is the allocation when the loop stopped and `prev` the
/// snapshot taken before the last step.  Either the loop stopped early
/// with seats left and no eligible party, and the correction was skipped;
/// or the pool was exhausted and the final state is the correction of
/// `mid` with respect to `prev`.
pub open spec fn engine_outcome(
    m: Method,
    votes: Seq<Votes>,
    entry: Seq<Seats>,
    mid: Seq<Seats>,
    prev: Seq<Seats>,
    fin: Seq<Seats>,
    pool_entry: Count,
    pool_fin: Count,
) -> bool {
    &&& mid.len() == entry.len()
    &&& prev.len() == entry.len()
    &&& limits_unchanged(entry, mid)
    &&& seats_wf(mid)
    &&& forall|i: int|
        0 <= i < entry.len() ==> entry[i].spec_count() <= #[trigger] prev[i].spec_count()
            <= mid[i].spec_count()
    &&& awards_justified(m, votes, entry, mid)
    &&& awards_maximal(m, votes, entry, mid)
    &&& sum_counts(mid) + pool_fin == sum_counts(entry) + pool_entry
    &&& if pool_fin > 0 {
        fin == mid && no_party_eligible(m, votes, mid)
    } else {
        correction_outcome(votes, mid, prev, fin)
    }
}

/// Ineligibility under the first surplus pass, or under an archaic round
/// with seat offset zero, is preserved as seat counts grow: the surplus
/// test `v*N >= s*V` is anti-monotone in the seat count, capacity cannot
/// return once exhausted, and the rules' other gates ignore the count.
pub proof fn lemma_no_eligible_monotone(
    m: Method,
    votes: Seq<Votes>,
    s1: Seq<Seats>,
    s2: Seq<Seats>,
)
    requires
        m is SurplusFirst || (m matches Method::ArchaicRound { offset, .. } && offset == 0),
        votes.len() == s1.len(),
        s1.len() == s2.len(),
        limits_unchanged(s1, s2),
        seats_wf(s2),
        forall|i: int| 0 <= i < s1.len() ==> s1[i].spec_count() <= #[trigger] s2[i].spec_count(),
        no_party_eligible(m, votes, s1),
    ensures
        no_party_eligible(m, votes, s2),
{
    assert forall|i: int| 0 <= i < s2.len() implies #[trigger] spec_quality(m, votes, s2, i)
        is None by {
        assert(spec_quality(m, votes, s1, i) is None);
        if s2[i].spec_count() < s2[i].limit {
            assert(s1[i].spec_count() < s1[i].limit);
            let v = votes[i].0 as int;
            let c1 = s1[i].spec_count() as int;
            let c2 = s2[i].spec_count() as int;
            match m {
                Method::SurplusFirst { vote_count, seat_count } => {
                    if v * seat_count >= c2 * vote_count {
                        assert(c1 * vote_count <= c2 * vote_count) by (nonlinear_arith)
                            requires
                                c1 <= c2,
                                vote_count >= 0,
                        ;
                    }
                },
                Method::ArchaicRound { threshold, vote_count, seat_count, offset, meet } => {
                    if v * seat_count >= (c2 - offset) * vote_count {
                        assert((c1 - offset) * vote_count <= (c2 - offset) * vote_count)
                            by (nonlinear_arith)
                            requires
                                c1 <= c2,
                                vote_count >= 0,
                        ;
                    }
                },
                _ => {},
            }
        }
    }
}

/// Run the apportionment to completion: repeat the single step until the
/// pool is exhausted or no party is eligible, then apply the
/// absolute-majority correction.  If the loop stops early the seats that
/// remain in the pool stay unawarded, which is a legitimate outcome, and
/// the correction is skipped.
///
/// Seat conservation holds from start to finish: what the parties gained
/// is exactly what the pool lost, and no party ever exceeds its limit.
pub fn allocate_seats(
    votes: &Vec<Votes>,
    seats: &mut Vec<Seats>,
    available_seats: &mut Seats,
    method: &Method,
    ballot: Ballot,
)
    requires
        votes@.len() == old(seats)@.len(),
        old(available_seats).spec_count() > 0 ==> method_pre(*method, votes@),
        seats_wf(old(seats)@),
        sum_counts(old(seats)@) + old(available_seats).spec_count() < Count::MAX,
        sum_votes(votes@) <= Count::MAX,
    ensures
        limits_unchanged(old(seats)@, final(seats)@),
        seats_wf(final(seats)@),
        sum_counts(final(seats)@) + final(available_seats).spec_count() == sum_counts(old(seats)@)
            + old(available_seats).spec_count(),
        final(available_seats).spec_count() <= old(available_seats).spec_count(),
        final(available_seats).limit == old(available_seats).limit,
        forall|i: int|
            0 <= i < old(seats)@.len() ==> final(seats)@[i].spec_count() >= old(
                seats,
            )@[i].spec_count(),
        final(available_seats).spec_count() > 0 ==> no_party_eligible(
            *method,
            votes@,
            final(seats)@,
        ),
        exists|mid: Seq<Seats>, prev: Seq<Seats>|
            #[trigger] engine_outcome(
                *method,
                votes@,
                old(seats)@,
                mid,
                prev,
                final(seats)@,
                old(available_seats).spec_count(),
                final(available_seats).spec_count(),
            ),
{
    let ghost seats_entry = seats@;
    let ghost pool_entry = *available_seats;
    let mut last_winners: Vec<Seats> = snapshot(seats);
    while available_seats.count() > 0
        invariant
            seats_entry == old(seats)@,
            pool_entry == *old(available_seats),
            sum_counts(seats_entry) + pool_entry.spec_count() < Count::MAX,
            votes@.len() == seats_entry.len(),
            seats@.len() == seats_entry.len(),
            last_winners@.len() == seats_entry.len(),
            available_seats.spec_count() > 0 ==> method_pre(*method, votes@),
            seats_wf(seats@),
            limits_unchanged(seats_entry, seats@),
            sum_counts(seats@) + available_seats.spec_count() == sum_counts(seats_entry)
                + pool_entry.spec_count(),
            available_seats.spec_count() <= pool_entry.spec_count(),
            available_seats.limit == pool_entry.limit,
            sum_votes(votes@) <= Count::MAX,
            forall|i: int|
                0 <= i < seats_entry.len() ==> seats_entry[i].spec_count()
                    <= #[trigger] last_winners@[i].spec_count(),
            forall|i: int|
                0 <= i < seats_entry.len() ==> last_winners@[i].spec_count()
                    <= #[trigger] seats@[i].spec_count(),
            awards_justified(*method, votes@, seats_entry, seats@),
            awards_maximal(*method, votes@, seats_entry, seats@),
        decreases available_seats.spec_count(),
    {
        last_winners = snapshot(seats);
        let ghost before = seats@;
        let progressed = allocate_single_step(votes, seats, available_seats, method, ballot);
        proof {
            assert forall|i: int, c: Count|
                0 <= i < seats_entry.len() && seats_entry[i].spec_count() <= c
                    < seats@[i].spec_count() implies c < seats_entry[i].limit && (
            #[trigger] spec_score(*method, votes@[i], seats_entry[i].with_count(c))) is Some by {
                if c < before[i].spec_count() {
                } else {
                    assert(seats@[i] == before[i].with_count(
                        (before[i].spec_count() + 1) as Count,
                    ) && is_winner(*method, votes@, before, i));
                    assert(c == before[i].spec_count());
                    assert(spec_quality(*method, votes@, before, i) is Some);
                    assert(before[i] == seats_entry[i].with_count(c));
                }
            }
            assert forall|i: int, c: Count, j: int|
                0 <= i < seats_entry.len() && 0 <= j < seats_entry.len()
                    && seats_entry[i].spec_count() <= c < seats@[i].spec_count() implies #[trigger] held_quality_le(
                *method,
                votes@,
                seats_entry,
                seats@,
                j,
                spec_score(*method, votes@[i], seats_entry[i].with_count(c))->Some_0,
            ) by {
                let x = spec_score(*method, votes@[i], seats_entry[i].with_count(c))->Some_0;
                if c < before[i].spec_count() {
                    // Recorded earlier in the loop; the admissible range of
                    // counts has only grown since.
                    assert(held_quality_le(*method, votes@, seats_entry, before, j, x));
                    let cj = choose|cj: Count|
                        seats_entry[j].spec_count() <= cj <= before[j].spec_count() && opt_le(
                            #[trigger] quality_at(*method, votes@, seats_entry, j, cj),
                            Some(x),
                        );
                    assert(before[j].spec_count() <= seats@[j].spec_count());
                } else {
                    // Awarded in this very step: `i` was a winner, so every
                    // party's quality at its current count was no greater.
                    assert(is_winner(*method, votes@, before, i));
                    let cj = before[j].spec_count();
                    assert(before[j] == seats_entry[j].with_count(cj));
                    assert(quality_at(*method, votes@, seats_entry, j, cj) == spec_quality(
                        *method,
                        votes@,
                        before,
                        j,
                    ));
                    assert(before[i] == seats_entry[i].with_count(c));
                    assert(spec_quality(*method, votes@, before, i) == Some(x));
                    assert(opt_le(
                        quality_at(*method, votes@, seats_entry, j, cj),
                        Some(x),
                    ));
                    assert(before[j].spec_count() <= seats@[j].spec_count());
                }
            }
        }
        if progressed.is_none() {
            proof {
                assert(engine_outcome(
                    *method,
                    votes@,
                    seats_entry,
                    seats@,
                    last_winners@,
                    seats@,
                    pool_entry.spec_count(),
                    available_seats.spec_count(),
                ));
            }
            return ;
        }
    }

    let ghost seats_mid = seats@;
    let ghost prev_view = last_winners@;
    absolute_majority_check(votes, seats, last_winners, ballot);
    proof {
        let fq = first_qualifying(votes@, seats_mid);
        if fq is Some && exists|j: int|
            is_loser_candidate(seats_mid, prev_view, fq->Some_0, j) {
            let w = fq->Some_0;
            lemma_first_qualifying_sound(votes@, seats_mid, 0, w);
            let j = choose|j: int|
                #[trigger] is_loser_candidate(seats_mid, prev_view, w, j) && seats@
                    == seats_mid.update(
                    w,
                    seats_mid[w].with_count((seats_mid[w].spec_count() + 1) as Count),
                ).update(j, seats_mid[j].with_count((seats_mid[j].spec_count() - 1) as Count));
            assert(seats@[j].spec_count() >= prev_view[j].spec_count());
        }
        assert forall|i: int| 0 <= i < seats_entry.len() implies seats@[i].spec_count()
            >= seats_entry[i].spec_count() by {}
        assert(engine_outcome(
            *method,
            votes@,
            seats_entry,
            seats_mid,
            prev_view,
            seats@,
            pool_entry.spec_count(),
            available_seats.spec_count(),
        ));
    }
}

/// Whether some party's next average `v / (s + 1)` still reaches the
/// general average `V / S`, where `S` counts the seats already held plus
/// those still in the pool.  While this holds, the next seat to be handed
/// out is a "whole" seat rather than a rest seat.
pub fn whole_seats_available(votes: &Vec<Votes>, seats: &Vec<Seats>, seats_awarded: Seats) -> (r:
    bool)
    requires
        votes@.len() == seats@.len(),
        sum_votes(votes@) <= Count::MAX,
        sum_counts(seats@) + seats_awarded.spec_count() < Count::MAX,
    ensures
        r == exists|i: int|
            0 <= i < votes@.len() && #[trigger] votes@[i].0 * (sum_counts(seats@)
                + seats_awarded.spec_count()) >= sum_votes(votes@) * (seats@[i].spec_count() + 1),
{
    let vote_total: Count = crate::data::total_votes(votes);
    let seat_total: Count = seats_awarded.count() + crate::data::total_counts(seats);
    let mut i: usize = 0;
    let mut found: bool = false;
    while i < seats.len()
        invariant
            votes@.len() == seats@.len(),
            0 <= i <= seats@.len(),
            vote_total == sum_votes(votes@),
            seat_total == sum_counts(seats@) + seats_awarded.spec_count(),
            sum_counts(seats@) + seats_awarded.spec_count() < Count::MAX,
            found == exists|j: int|
                0 <= j < i && #[trigger] votes@[j].0 * (sum_counts(seats@)
                    + seats_awarded.spec_count()) >= sum_votes(votes@) * (seats@[j].spec_count()
                    + 1),
        decreases seats@.len() - i,
    {
        proof {
            lemma_count_le_sum(seats@, i as int);
        }
        let here: bool = crate::method::wide_mul(votes[i].0, seat_total) >= crate::method::wide_mul(
            vote_total,
            seats[i].count() + 1,
        );
        proof {
            if here {
                assert(votes@[i as int].0 * (sum_counts(seats@) + seats_awarded.spec_count())
                    >= sum_votes(votes@) * (seats@[i as int].spec_count() + 1));
            }
        }
        found = found || here;
        i = i + 1;
    }
    found
}

/// The integer quota of whole seats a party with `v` votes can claim out
/// of `pool` seats when `total` votes were cast: `v * pool / total`.
pub open spec fn whole_quota(v: int, pool: int, total: int) -> int {
    (v * pool) / total
}

/// The number of whole seats the pre-pass hands a party: its quota, capped
/// by its remaining capacity.
pub open spec fn whole_gain(v: Votes, s: Seats, pool: int, total: int) -> int {
    vstd::math::min(whole_quota(v.0 as int, pool, total), s.limit - s.spec_count())
}

/// The integer quotas of the first `k` parties, taken together.
pub open spec fn sum_whole_quotas(votes: Seq<Votes>, pool: int, total: int, k: int) -> int
    decreases k,
{
    if k <= 0 {
        0
    } else {
        sum_whole_quotas(votes, pool, total, k - 1) + whole_quota(
            votes[k - 1].0 as int,
            pool,
            total,
        )
    }
}

/// The whole seats handed out to the first `k` parties.
pub open spec fn sum_whole_gains(
    votes: Seq<Votes>,
    seats: Seq<Seats>,
    pool: int,
    total: int,
    k: int,
) -> int
    decreases k,
{
    if k <= 0 {
        0
    } else {
        sum_whole_gains(votes, seats, pool, total, k - 1) + whole_gain(
            votes[k - 1],
            seats[k - 1],
            pool,
            total,
        )
    }
}

/// Floor division distributes sub-additively over addition.
proof fn lemma_div_superadd(a: int, b: int, d: int)
    requires
        a >= 0,
        b >= 0,
        d > 0,
    ensures
        a / d + b / d <= (a + b) / d,
{
    vstd::arithmetic::div_mod::lemma_fundamental_div_mod(a, d);
    vstd::arithmetic::div_mod::lemma_fundamental_div_mod(b, d);
    vstd::arithmetic::div_mod::lemma_mod_bound(a, d);
    vstd::arithmetic::div_mod::lemma_mod_bound(b, d);
    let q = a / d + b / d;
    assert(d * q <= a + b) by (nonlinear_arith)
        requires
            a >= d * (a / d),
            b >= d * (b / d),
            q == a / d + b / d,
    ;
    vstd::arithmetic::div_mod::lemma_div_multiples_vanish(q, d);
    vstd::arithmetic::div_mod::lemma_div_is_ordered(d * q, a + b, d);
}

/// The sum of the first `k` integer quotas is at most the joint quota of
/// the first `k` parties, because the floor function is super-additive.
proof fn lemma_sum_quotas_bound(votes: Seq<Votes>, pool: int, total: int, k: int)
    requires
        total > 0,
        pool >= 0,
        0 <= k <= votes.len(),
    ensures
        0 <= sum_whole_quotas(votes, pool, total, k) <= (sum_votes_prefix(votes, k) * pool)
            / total,
    decreases k,
{
    if k == 0 {
        assert(sum_votes_prefix(votes, 0) == 0) by {
            assert(votes.take(0) =~= Seq::<Votes>::empty());
        }
        vstd::arithmetic::div_mod::lemma_div_pos_is_pos(0, total);
    } else {
        lemma_sum_quotas_bound(votes, pool, total, k - 1);
        let v = votes[k - 1].0 as int;
        let prefix = sum_votes_prefix(votes, k - 1);
        crate::data::lemma_sum_prefix_votes_bound(votes, k - 1);
        assert(v * pool >= 0) by (nonlinear_arith)
            requires
                v >= 0,
                pool >= 0,
        ;
        assert(prefix * pool >= 0) by (nonlinear_arith)
            requires
                prefix >= 0,
                pool >= 0,
        ;
        vstd::arithmetic::div_mod::lemma_div_pos_is_pos(v * pool, total);
        lemma_div_superadd(prefix * pool, v * pool, total);
        assert((prefix + v) * pool == prefix * pool + v * pool) by (nonlinear_arith);
        crate::data::lemma_sum_votes_prefix_step(votes, k - 1);
    }
}

/// Taken together, the integer quotas never exceed the pool.
proof fn lemma_sum_quotas_le_pool(votes: Seq<Votes>, pool: int, total: int, k: int)
    requires
        total == sum_votes(votes),
        total > 0,
        pool >= 0,
        0 <= k <= votes.len(),
    ensures
        0 <= sum_whole_quotas(votes, pool, total, k) <= pool,
{
    lemma_sum_quotas_bound(votes, pool, total, k);
    crate::data::lemma_sum_prefix_votes_bound(votes, k);
    let prefix = sum_votes_prefix(votes, k);
    assert(prefix * pool <= total * pool) by (nonlinear_arith)
        requires
            0 <= prefix <= total,
            pool >= 0,
    ;
    vstd::arithmetic::div_mod::lemma_div_is_ordered(prefix * pool, total * pool, total);
    vstd::arithmetic::div_mod::lemma_div_multiples_vanish(pool, total);
}

/// A party is never handed more whole seats than its quota, and never a
/// negative number of them.
proof fn lemma_gains_le_quotas(votes: Seq<Votes>, seats: Seq<Seats>, pool: int, total: int, k: int)
    requires
        total > 0,
        pool >= 0,
        0 <= k <= votes.len(),
        votes.len() == seats.len(),
        seats_wf(seats),
    ensures
        0 <= sum_whole_gains(votes, seats, pool, total, k) <= sum_whole_quotas(
            votes,
            pool,
            total,
            k,
        ),
    decreases k,
{
    if k > 0 {
        lemma_gains_le_quotas(votes, seats, pool, total, k - 1);
        let v = votes[k - 1].0 as int;
        assert(v * pool >= 0) by (nonlinear_arith)
            requires
                v >= 0,
                pool >= 0,
        ;
        vstd::arithmetic::div_mod::lemma_div_pos_is_pos(v * pool, total);
        assert(seats[k - 1].wf());
    }
}

/// Hand out whole seats directly: each party receives its integer quota
/// `v * pool / total` of the pool, capped by its capacity, without going
/// through the iterative engine.  This pre-pass is criterion-agnostic.
pub fn allocate_whole_seats(votes: &Vec<Votes>, seats: &mut Vec<Seats>, available_seats: &mut Seats)
    requires
        votes@.len() == old(seats)@.len(),
        seats_wf(old(seats)@),
        sum_votes(votes@) > 0,
        sum_votes(votes@) <= Count::MAX,
        sum_votes(votes@) * old(available_seats).spec_count() <= Count::MAX,
        sum_counts(old(seats)@) + old(available_seats).spec_count() < Count::MAX,
    ensures
        limits_unchanged(old(seats)@, final(seats)@),
        seats_wf(final(seats)@),
        sum_counts(final(seats)@) + final(available_seats).spec_count() == sum_counts(old(seats)@)
            + old(available_seats).spec_count(),
        final(available_seats).limit == old(available_seats).limit,
        final(available_seats).spec_count() <= old(available_seats).spec_count(),
        forall|i: int|
            0 <= i < old(seats)@.len() ==> #[trigger] final(seats)@[i] == old(seats)@[i].with_count(
                (old(seats)@[i].spec_count() + whole_gain(
                    votes@[i],
                    old(seats)@[i],
                    old(available_seats).spec_count() as int,
                    sum_votes(votes@),
                )) as Count,
            ),
{
    let ghost seats0 = seats@;
    let ghost pool0 = *available_seats;
    let vote_count: Count = crate::data::total_votes(votes);
    let seat_count: Count = available_seats.count();
    let ghost pool_spec: int = pool0.spec_count() as int;
    let ghost total_spec: int = vote_count as int;

    let mut i: usize = 0;
    while i < seats.len()
        invariant
            seats0 == old(seats)@,
            pool0 == *old(available_seats),
            votes@.len() == seats0.len(),
            seats@.len() == seats0.len(),
            0 <= i <= seats0.len(),
            vote_count == sum_votes(votes@),
            vote_count > 0,
            seat_count == pool0.spec_count(),
            pool_spec == pool0.spec_count() as int,
            total_spec == vote_count as int,
            sum_votes(votes@) * pool0.spec_count() <= Count::MAX,
            sum_counts(seats0) + pool0.spec_count() < Count::MAX,
            seats_wf(seats0),
            seats_wf(seats@),
            limits_unchanged(seats0, seats@),
            *available_seats == pool0.with_count(
                (pool0.spec_count() - sum_whole_gains(
                    votes@,
                    seats0,
                    pool_spec,
                    total_spec,
                    i as int,
                )) as Count,
            ),
            sum_counts(seats@) == sum_counts(seats0) + sum_whole_gains(
                votes@,
                seats0,
                pool_spec,
                total_spec,
                i as int,
            ),
            forall|j: int|
                0 <= j < i ==> #[trigger] seats@[j] == seats0[j].with_count(
                    (seats0[j].spec_count() + whole_gain(
                        votes@[j],
                        seats0[j],
                        pool_spec,
                        total_spec,
                    )) as Count,
                ),
            forall|j: int| i <= j < seats0.len() ==> #[trigger] seats@[j] == seats0[j],
        decreases seats0.len() - i,
    {
        proof {
            lemma_gains_le_quotas(votes@, seats0, pool_spec, total_spec, i as int);
            lemma_gains_le_quotas(votes@, seats0, pool_spec, total_spec, i as int + 1);
            lemma_sum_quotas_le_pool(votes@, pool_spec, total_spec, i as int + 1);
            lemma_sum_quotas_bound(votes@, pool_spec, total_spec, i as int);
            crate::data::lemma_vote_le_sum(votes@, i as int);
            assert(votes@[i as int].0 * pool_spec <= sum_votes(votes@) * pool_spec)
                by (nonlinear_arith)
                requires
                    0 <= votes@[i as int].0 <= sum_votes(votes@),
                    pool_spec >= 0,
            ;
            assert(votes@[i as int].0 * pool_spec >= 0) by (nonlinear_arith)
                requires
                    votes@[i as int].0 >= 0,
                    pool_spec >= 0,
            ;
            vstd::arithmetic::div_mod::lemma_div_pos_is_pos(
                votes@[i as int].0 * pool_spec,
                total_spec,
            );
        }
        let quota: Count = votes[i].0 * seat_count / vote_count;
        let ghost gains_before = sum_whole_gains(votes@, seats0, pool_spec, total_spec, i as int);
        assert(gains_before + quota <= pool_spec);

        let mut entry: Seats = seats[i];
        let ghost entry0 = entry;
        proof {
            assert(seats@[i as int].wf());
            assert(entry0.limit - entry0.spec_count() >= 0);
            assert(vstd::math::min(0int, entry0.limit - entry0.spec_count()) == 0);
            assert(entry0.with_count((entry0.spec_count() + 0) as Count) == entry0);
        }

        let mut t: Count = 0;
        while t < quota
            invariant
                quota == whole_quota(votes@[i as int].0 as int, pool_spec, total_spec),
                0 <= t <= quota,
                entry0.wf(),
                entry == entry0.with_count(
                    (entry0.spec_count() + vstd::math::min(
                        t as int,
                        entry0.limit - entry0.spec_count(),
                    )) as Count,
                ),
                *available_seats == pool0.with_count(
                    (pool0.spec_count() - gains_before - vstd::math::min(
                        t as int,
                        entry0.limit - entry0.spec_count(),
                    )) as Count,
                ),
                0 <= gains_before,
                gains_before + quota <= pool0.spec_count(),
                pool0.limit == available_seats.limit,
            decreases quota - t,
        {
            if entry.count() < entry.limit {
                entry.transfer(available_seats);
            }
            t = t + 1;
        }
        let ghost seats_pre = seats@;
        seats[i] = entry;
        proof {
            let gain = whole_gain(votes@[i as int], seats0[i as int], pool_spec, total_spec);
            assert(entry == seats0[i as int].with_count(
                (seats0[i as int].spec_count() + gain) as Count,
            ));
            lemma_sum_counts_update(seats_pre, i as int, entry);
        }
        i = i + 1;
    }
    proof {
        lemma_gains_le_quotas(votes@, seats0, pool_spec, total_spec, seats0.len() as int);
        lemma_sum_quotas_le_pool(votes@, pool_spec, total_spec, seats0.len() as int);
    }
}

/// Party `i` holds a strict majority of the votes, lacks a strict majority
/// of the seats, and still has an unseated candidate: the absolute-majority
/// correction owes it a seat.
pub open spec fn is_qualifying(votes: Seq<Votes>, seats: Seq<Seats>, i: int) -> bool {
    &&& seats[i].spec_count() < seats[i].limit
    &&& 2 * votes[i].0 > sum_votes(votes)
    &&& 2 * seats[i].spec_count() <= sum_counts(seats)
}

/// The first qualifying party at or after position `k`, if any.
pub open spec fn first_qualifying_from(votes: Seq<Votes>, seats: Seq<Seats>, k: int) -> Option<int>
    decreases seats.len() - k,
{
    if k < 0 || k >= seats.len() {
        None
    } else if is_qualifying(votes, seats, k) {
        Some(k)
    } else {
        first_qualifying_from(votes, seats, k + 1)
    }
}

/// The first qualifying party, in stable party order.
pub open spec fn first_qualifying(votes: Seq<Votes>, seats: Seq<Seats>) -> Option<int> {
    first_qualifying_from(votes, seats, 0)
}

/// Party `j` may lose a seat to the qualifying party `w`: it is another
/// party, and it gained a seat in the final allocation step (its count
/// exceeds the snapshot taken before that step).
pub open spec fn is_loser_candidate(seats: Seq<Seats>, prev: Seq<Seats>, w: int, j: int) -> bool {
    &&& 0 <= j < seats.len()
    &&& j != w
    &&& seats[j].spec_count() > prev[j].spec_count()
}

/// A found first-qualifying index is indeed qualifying and in range.
pub proof fn lemma_first_qualifying_sound(votes: Seq<Votes>, seats: Seq<Seats>, k: int, w: int)
    requires
        first_qualifying_from(votes, seats, k) == Some(w),
    ensures
        k <= w < seats.len(),
        is_qualifying(votes, seats, w),
    decreases seats.len() - k,
{
    if !(k < 0 || k >= seats.len()) && !is_qualifying(votes, seats, k) {
        lemma_first_qualifying_sound(votes, seats, k + 1, w);
    }
}

/// The correction stipulated by Dutch law: a party holding an absolute
/// majority of the votes must not be denied an absolute majority of the
/// seats.  The first such party, if it was left without a seat majority,
/// receives one extra seat, and one other party that gained a seat in the
/// final allocation step — chosen by lot — gives one back, so the total is
/// unchanged.  `prev_seats` must hold the allocation of the penultimate
/// step, which determines who can lose a seat.  If no party gained a seat
/// in the final step, there is nobody to take the seat from and the
/// correction changes nothing.
#[verifier::rlimit(60)]
pub fn absolute_majority_check(
    votes: &Vec<Votes>,
    seats: &mut Vec<Seats>,
    prev_seats: Vec<Seats>,
    ballot: Ballot,
)
    requires
        votes@.len() == old(seats)@.len(),
        prev_seats@.len() == old(seats)@.len(),
        seats_wf(old(seats)@),
        sum_votes(votes@) <= Count::MAX,
        sum_counts(old(seats)@) <= Count::MAX,
    ensures
        limits_unchanged(old(seats)@, final(seats)@),
        seats_wf(final(seats)@),
        sum_counts(final(seats)@) == sum_counts(old(seats)@),
        correction_outcome(votes@, old(seats)@, prev_seats@, final(seats)@),
{
    let ghost seats0 = seats@;
    let ghost votes_view = votes@;
    let n: usize = seats.len();
    let vote_total: Count = crate::data::total_votes(votes);
    let seat_total: Count = crate::data::total_counts(seats);

    // Find the first party with a vote majority, spare capacity, and no
    // seat majority.
    let mut winner: Option<usize> = None;
    let mut i: usize = 0;
    while i < n
        invariant
            n == seats0.len(),
            votes_view.len() == seats0.len(),
            seats@ == seats0,
            votes@ == votes_view,
            0 <= i <= n,
            vote_total == sum_votes(votes_view),
            seat_total == sum_counts(seats0),
            match winner {
                Option::None => first_qualifying(votes_view, seats0) == first_qualifying_from(
                    votes_view,
                    seats0,
                    i as int,
                ),
                Option::Some(w) => first_qualifying(votes_view, seats0) == Some(w as int) && w < n,
            },
        decreases n - i,
    {
        if winner.is_none() {
            let s: Seats = seats[i];
            let v: Votes = votes[i];
            let qualifies: bool = s.has_candidates() && 2 * (v.0 as u128) > (vote_total as u128)
                && !(2 * (s.count() as u128) > (seat_total as u128));
            assert(qualifies == is_qualifying(votes_view, seats0, i as int));
            if qualifies {
                winner = Some(i);
            }
        }
        i = i + 1;
    }

    let w: usize = match winner {
        Option::None => {
            return ;
        },
        Option::Some(w) => w,
    };
    proof {
        lemma_first_qualifying_sound(votes_view, seats0, 0, w as int);
    }

    // Collect the parties that gained a seat in the final step and could
    // give one back.
    let mut gainers: Vec<usize> = Vec::new();
    let mut j: usize = 0;
    while j < n
        invariant
            n == seats0.len(),
            prev_seats@.len() == seats0.len(),
            seats@ == seats0,
            0 <= j <= n,
            w < n,
            forall|a: int| 0 <= a < gainers@.len() ==> #[trigger] gainers@[a] < j,
            forall|a: int, b: int|
                0 <= a < b < gainers@.len() ==> #[trigger] gainers@[a] < #[trigger] gainers@[b],
            forall|a: int|
                0 <= a < gainers@.len() ==> is_loser_candidate(
                    seats0,
                    prev_seats@,
                    w as int,
                    #[trigger] gainers@[a] as int,
                ),
            forall|c: int|
                0 <= c < j && is_loser_candidate(seats0, prev_seats@, w as int, c)
                    ==> gainers@.contains(c as usize),
        decreases n - j,
    {
        let ghost gain_pre = gainers@;
        let is_gainer: bool = j != w && seats[j].count() > prev_seats[j].count();
        if is_gainer {
            gainers.push(j);
        }
        proof {
            assert forall|c: int|
                0 <= c < j + 1 && is_loser_candidate(seats0, prev_seats@, w as int, c) implies gainers@.contains(
                c as usize,
            ) by {
                if c < j {
                    assert(gain_pre.contains(c as usize));
                    if is_gainer {
                        vstd::seq_lib::lemma_seq_contains_after_push(gain_pre, j, c as usize);
                    }
                } else {
                    assert(gainers@[gainers@.len() - 1] == c as usize);
                }
            }
        }
        j = j + 1;
    }

    if gainers.len() == 0 {
        proof {
            if exists|j2: int| is_loser_candidate(seats0, prev_seats@, w as int, j2) {
                let j2 = choose|j2: int| is_loser_candidate(seats0, prev_seats@, w as int, j2);
                assert(gainers@.contains(j2 as usize));
            }
        }
        return ;
    }

    // Draw the party that gives its seat back, and carry out the exchange
    // through a transient one-seat pool.
    let ghost gainers_view = gainers@;
    let chosen: Vec<usize> = draw(ballot, gainers, 1);
    proof {
        lemma_submultiset_no_duplicates(chosen@, gainers_view);
    }
    let loser: usize = chosen[0];
    proof {
        assert(gainers_view.contains(chosen@[0]));
        let a = choose|a: int| #![auto] 0 <= a < gainers_view.len() && gainers_view[a] == loser;
        assert(is_loser_candidate(seats0, prev_seats@, w as int, loser as int));
    }

    let mut correction: Seats = Seats::filled(1);
    let mut winner_seat: Seats = seats[w];
    winner_seat.transfer(&mut correction);
    seats[w] = winner_seat;
    let ghost seats1 = seats@;
    let mut loser_seat: Seats = seats[loser];
    correction.transfer(&mut loser_seat);
    seats[loser] = loser_seat;
    proof {
        lemma_sum_counts_update(seats0, w as int, winner_seat);
        lemma_sum_counts_update(seats1, loser as int, loser_seat);
        assert(is_loser_candidate(seats0, prev_seats@, w as int, loser as int) && seats@
            == seats0.update(
            w as int,
            seats0[w as int].with_count((seats0[w as int].spec_count() + 1) as Count),
        ).update(
            loser as int,
            seats0[loser as int].with_count((seats0[loser as int].spec_count() - 1) as Count),
        ));
        assert(exists|j2: int| is_loser_candidate(seats0, prev_seats@, w as int, j2));
        let fq = first_qualifying(votes_view, seats0);
        assert(fq == Some(w as int));
        let w2 = fq->Some_0;
        assert(w2 == w as int);
        assert(exists|j2: int|
            #[trigger] is_loser_candidate(seats0, prev_seats@, w2, j2) && seats@ == seats0.update(
                w2,
                seats0[w2].with_count((seats0[w2].spec_count() + 1) as Count),
            ).update(j2, seats0[j2].with_count((seats0[j2].spec_count() - 1) as Count)));
        assert forall|i2: int| 0 <= i2 < seats@.len() implies #[trigger] seats@[i2].wf() by {
            if i2 == w as int {
                assert(seats@[i2] == seats0[w as int].with_count(
                    (seats0[w as int].spec_count() + 1) as Count,
                ));
                assert(is_qualifying(votes_view, seats0, w as int));
            } else if i2 == loser as int {
                assert(seats@[i2] == seats0[loser as int].with_count(
                    (seats0[loser as int].spec_count() - 1) as Count,
                ));
                assert(seats0[loser as int].wf());
            } else {
                assert(seats@[i2] == seats0[i2]);
            }
        }
    }
}

} // verus!
