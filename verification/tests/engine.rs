//! The engine primitives: the single step, the majority correction, the
//! whole-seat pre-pass, and the value types.

use kiesraad_model::Ballot;
use kiesraad_model::Method;
use kiesraad_model::Seats;
use kiesraad_model::Votes;
use kiesraad_model::absolute_majority_check;
use kiesraad_model::allocate_single_step;
use kiesraad_model::allocate_whole_seats;
use kiesraad_model::frac;
use kiesraad_model::whole_seats_available;

fn votes_of(values: &[u64]) -> Vec<Votes> {
    values.iter().map(|v| Votes(*v)).collect()
}

fn unlimited_seats(n: usize) -> Vec<Seats> {
    (0..n).map(|_| Seats::unlimited()).collect()
}

fn counts(seats: &[Seats]) -> Vec<u64> {
    seats.iter().map(|s| s.count()).collect()
}

#[test]
fn single_step_awards_the_best_average() {
    let votes = votes_of(&[40, 30, 20, 10]);
    let mut seats = unlimited_seats(4);
    let mut pool = Seats::filled(3);
    let r = allocate_single_step(
        &votes,
        &mut seats,
        &mut pool,
        &Method::HighestAverage,
        Ballot::First,
    );
    assert!(r.is_some());
    assert_eq!(counts(&seats), vec![1, 0, 0, 0]);
    assert_eq!(pool.count(), 2);
}

#[test]
fn single_step_awards_all_tied_winners_at_once() {
    let votes = votes_of(&[20, 20, 10]);
    let mut seats = unlimited_seats(3);
    let mut pool = Seats::filled(5);
    allocate_single_step(&votes, &mut seats, &mut pool, &Method::HighestAverage, Ballot::First);
    assert_eq!(counts(&seats), vec![1, 1, 0]);
    assert_eq!(pool.count(), 3);
}

#[test]
fn single_step_awards_at_most_the_pool() {
    let votes = votes_of(&[20, 20, 20]);
    let mut seats = unlimited_seats(3);
    let mut pool = Seats::filled(2);
    allocate_single_step(&votes, &mut seats, &mut pool, &Method::HighestAverage, Ballot::First);
    let total: u64 = counts(&seats).iter().sum();
    assert_eq!(total, 2);
    assert_eq!(pool.count(), 0);
    assert_eq!(counts(&seats), vec![1, 1, 0]);
}

#[test]
fn single_step_reports_no_eligible_party() {
    let votes = votes_of(&[40, 30]);
    let mut seats = vec![Seats::limited(0), Seats::limited(0)];
    let mut pool = Seats::filled(2);
    let r = allocate_single_step(
        &votes,
        &mut seats,
        &mut pool,
        &Method::HighestAverage,
        Ballot::First,
    );
    assert!(r.is_none());
    assert_eq!(counts(&seats), vec![0, 0]);
    assert_eq!(pool.count(), 2);
}

#[test]
fn single_step_conserves_seats_under_random_ballot() {
    let votes = votes_of(&[10, 10, 10, 10]);
    for _ in 0..10 {
        let mut seats = unlimited_seats(4);
        let mut pool = Seats::filled(2);
        allocate_single_step(&votes, &mut seats, &mut pool, &Method::HighestAverage, Ballot::Uniform);
        let total: u64 = counts(&seats).iter().sum();
        assert_eq!(total + pool.count(), 2);
        assert_eq!(total, 2);
    }
}

#[test]
fn majority_check_moves_one_seat() {
    let votes = votes_of(&[51, 25, 25]);
    let mut seats = vec![Seats::filled(10), Seats::filled(5), Seats::filled(5)];
    let prev = vec![Seats::filled(10), Seats::filled(4), Seats::filled(5)];
    absolute_majority_check(&votes, &mut seats, prev, Ballot::First);
    assert_eq!(counts(&seats), vec![11, 4, 5]);
}

#[test]
fn majority_check_without_a_qualifying_party_is_a_no_op() {
    let votes = votes_of(&[40, 30, 30]);
    let mut seats = vec![Seats::filled(4), Seats::filled(3), Seats::filled(3)];
    let prev = vec![Seats::filled(4), Seats::filled(2), Seats::filled(3)];
    absolute_majority_check(&votes, &mut seats, prev, Ballot::First);
    assert_eq!(counts(&seats), vec![4, 3, 3]);
}

#[test]
fn majority_check_without_a_gainer_is_a_no_op() {
    let votes = votes_of(&[51, 25, 25]);
    let mut seats = vec![Seats::filled(1), Seats::filled(1), Seats::filled(1)];
    let prev = vec![Seats::filled(1), Seats::filled(1), Seats::filled(1)];
    absolute_majority_check(&votes, &mut seats, prev, Ballot::First);
    assert_eq!(counts(&seats), vec![1, 1, 1]);
}

#[test]
fn whole_seats_go_by_integer_quota() {
    let votes = votes_of(&[40, 30, 20, 10]);
    let mut seats = unlimited_seats(4);
    let mut pool = Seats::filled(10);
    allocate_whole_seats(&votes, &mut seats, &mut pool);
    assert_eq!(counts(&seats), vec![4, 3, 2, 1]);
    assert_eq!(pool.count(), 0);
}

#[test]
fn whole_seats_respect_candidate_limits() {
    let votes = votes_of(&[40, 30, 20, 10]);
    let mut seats = vec![
        Seats::limited(2),
        Seats::unlimited(),
        Seats::unlimited(),
        Seats::unlimited(),
    ];
    let mut pool = Seats::filled(10);
    allocate_whole_seats(&votes, &mut seats, &mut pool);
    assert_eq!(counts(&seats), vec![2, 3, 2, 1]);
    assert_eq!(pool.count(), 2);
}

#[test]
fn whole_seats_available_sees_a_whole_seat() {
    let votes = votes_of(&[40, 30, 20, 10]);
    let seats = unlimited_seats(4);
    assert!(whole_seats_available(&votes, &seats, Seats::filled(10)));
}

#[test]
fn whole_seats_available_sees_none_left() {
    let votes = votes_of(&[1, 1]);
    let seats = vec![Seats::filled(5), Seats::filled(5)];
    assert!(!whole_seats_available(&votes, &seats, Seats::filled(0)));
}

#[test]
fn seat_transfer_moves_one_seat() {
    let mut party = Seats::limited(3);
    let mut pool = Seats::filled(5);
    party.transfer(&mut pool);
    assert_eq!(party.count(), 1);
    assert_eq!(pool.count(), 4);
}

#[test]
fn seat_constructors() {
    assert_eq!(Seats::limited(7).count(), 0);
    assert_eq!(Seats::limited(7).limit, 7);
    assert!(Seats::limited(7).has_candidates());
    assert!(!Seats::limited(0).has_candidates());
    assert_eq!(Seats::filled(4).count(), 4);
    assert_eq!(Seats::unlimited().count(), 0);
    assert_eq!(Seats::unlimited().limit, u64::MAX);
}

#[test]
fn fractions_compare_exactly() {
    assert!(frac(1, 2).equals(&frac(2, 4)));
    assert!(!frac(1, 2).equals(&frac(2, 5)));
    assert!(frac(2, 3).ge(&frac(1, 2)));
    assert!(frac(1, 2).ge(&frac(1, 2)));
    assert!(!frac(1, 3).ge(&frac(1, 2)));
    // Huge operands do not overflow the comparison.
    assert!(frac(u64::MAX, 1).ge(&frac(u64::MAX - 1, 1)));
    assert!(frac(u64::MAX, u64::MAX).equals(&frac(1, 1)));
}
