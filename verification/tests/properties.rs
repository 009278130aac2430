//! Cross-run properties: monotonicity under favorable perturbation,
//! determinism of the first-candidate ballot, conservation and capacity.

use kiesraad_model::Ballot;
use kiesraad_model::Seats;
use kiesraad_model::Votes;
use kiesraad_model::allocate;
use kiesraad_model::allocate_national;
use kiesraad_model::allocate_per_average;

fn votes_of(values: &[u64]) -> Vec<Votes> {
    values.iter().map(|v| Votes(*v)).collect()
}

fn unlimited_seats(n: usize) -> Vec<Seats> {
    (0..n).map(|_| Seats::unlimited()).collect()
}

fn counts(seats: &[Seats]) -> Vec<u64> {
    seats.iter().map(|s| s.count()).collect()
}

fn run_average(total: u64, values: &[u64]) -> Vec<u64> {
    let votes = votes_of(values);
    let mut seats = unlimited_seats(values.len());
    allocate_per_average(Seats::filled(total), &votes, &mut seats, Ballot::First);
    counts(&seats)
}

fn run_national(total: u64, values: &[u64]) -> Vec<u64> {
    let votes = votes_of(values);
    let mut seats = unlimited_seats(values.len());
    allocate_national(Seats::filled(total), &votes, &mut seats, Ballot::First);
    counts(&seats)
}

#[test]
fn averages_are_monotone_under_extra_votes() {
    let base = [40, 30, 20, 10];
    let reference = run_average(19, &base);
    for party in 0..base.len() {
        for extra in 1..40 {
            let mut perturbed = base;
            perturbed[party] += extra;
            let outcome = run_average(19, &perturbed);
            assert!(
                outcome[party] >= reference[party],
                "{} extra votes for party {} lost a seat",
                extra,
                party
            );
        }
    }
}

#[test]
fn national_is_monotone_under_extra_votes() {
    let base = [55, 25, 10, 6, 4];
    let reference = run_national(10, &base);
    for party in 0..base.len() {
        for extra in 1..30 {
            let mut perturbed = base;
            perturbed[party] += extra;
            let outcome = run_national(10, &perturbed);
            assert!(
                outcome[party] >= reference[party],
                "{} extra votes for party {} lost a seat",
                extra,
                party
            );
        }
    }
}

#[test]
fn first_ballot_runs_are_identical() {
    let values = [19, 19, 19, 19, 15, 9, 9];
    let first = {
        let votes = votes_of(&values);
        let mut seats = unlimited_seats(values.len());
        allocate(Seats::filled(5), &votes, &mut seats, Ballot::First);
        counts(&seats)
    };
    for _ in 0..5 {
        let votes = votes_of(&values);
        let mut seats = unlimited_seats(values.len());
        allocate(Seats::filled(5), &votes, &mut seats, Ballot::First);
        assert_eq!(counts(&seats), first);
    }
}

#[test]
fn random_ballot_varies_only_within_ties() {
    // Four equal parties, three seats: who wins varies, how many does not.
    let values = [10, 10, 10, 10];
    for _ in 0..20 {
        let votes = votes_of(&values);
        let mut seats = unlimited_seats(values.len());
        allocate_per_average(Seats::filled(3), &votes, &mut seats, Ballot::Uniform);
        let c = counts(&seats);
        let total: u64 = c.iter().sum();
        assert_eq!(total, 3);
        for s in &c {
            assert!(*s <= 1);
        }
    }
}

#[test]
fn conservation_holds_for_every_formula() {
    let values = [48, 27, 15, 8, 2];
    let totals = [0u64, 1, 5, 18, 19, 37];
    for &t in &totals {
        let votes = votes_of(&values);
        let mut seats = unlimited_seats(values.len());
        allocate(Seats::filled(t), &votes, &mut seats, Ballot::Uniform);
        let awarded: u64 = counts(&seats).iter().sum();
        assert_eq!(awarded, t);
    }
}

#[test]
fn capacity_is_respected_with_tight_limits() {
    let values = [100, 1, 1];
    let votes = votes_of(&values);
    let mut seats = vec![Seats::limited(2), Seats::limited(1), Seats::limited(1)];
    allocate(Seats::filled(10), &votes, &mut seats, Ballot::Uniform);
    for s in &seats {
        assert!(s.count() <= s.limit);
    }
    let awarded: u64 = counts(&seats).iter().sum();
    assert!(awarded <= 4);
}
