//! Exact expected outcomes for each apportionment formula.

use kiesraad_model::Ballot;
use kiesraad_model::Seats;
use kiesraad_model::Votes;
use kiesraad_model::allocate;
use kiesraad_model::allocate_1918;
use kiesraad_model::allocate_1922;
use kiesraad_model::allocate_bongaerts;
use kiesraad_model::allocate_national;
use kiesraad_model::allocate_per_average;
use kiesraad_model::allocate_per_surplus;

fn votes_of(values: &[u64]) -> Vec<Votes> {
    values.iter().map(|v| Votes(*v)).collect()
}

fn unlimited_seats(n: usize) -> Vec<Seats> {
    (0..n).map(|_| Seats::unlimited()).collect()
}

fn counts(seats: &[Seats]) -> Vec<u64> {
    seats.iter().map(|s| s.count()).collect()
}

#[test]
fn averages_two_close_parties() {
    let votes = votes_of(&[21, 20]);
    let mut seats = unlimited_seats(2);
    allocate(Seats::filled(24), &votes, &mut seats, Ballot::First);
    assert_eq!(counts(&seats), vec![13, 11]);
}

#[test]
fn majority_correction_grants_the_extra_seat() {
    let votes = votes_of(&[51, 25, 25]);
    let mut seats = unlimited_seats(3);
    allocate(Seats::filled(20), &votes, &mut seats, Ballot::First);
    assert_eq!(counts(&seats), vec![11, 4, 5]);
    let total: u64 = counts(&seats).iter().sum();
    assert_eq!(total, 20);
}

#[test]
fn majority_of_votes_yields_majority_of_seats() {
    let votes = votes_of(&[26, 25]);
    let mut seats = unlimited_seats(2);
    allocate(Seats::filled(50), &votes, &mut seats, Ballot::First);
    assert_eq!(counts(&seats), vec![26, 24]);
}

#[test]
fn surplus_large_leader() {
    let votes = votes_of(&[100, 16, 6, 5, 5, 5, 5, 4]);
    let mut seats = unlimited_seats(8);
    allocate(Seats::filled(18), &votes, &mut seats, Ballot::First);
    assert_eq!(counts(&seats), vec![14, 3, 1, 0, 0, 0, 0, 0]);
}

#[test]
fn surplus_seven_seats() {
    let votes = votes_of(&[100, 60, 30, 10]);
    let mut seats = unlimited_seats(4);
    allocate_per_surplus(Seats::filled(7), &votes, &mut seats, Ballot::First);
    assert_eq!(counts(&seats), vec![4, 2, 1, 0]);
}

#[test]
fn averages_direct_call() {
    let votes = votes_of(&[40, 30, 20, 10]);
    let mut seats = unlimited_seats(4);
    allocate_per_average(Seats::filled(19), &votes, &mut seats, Ballot::First);
    assert_eq!(counts(&seats), vec![8, 6, 4, 1]);
}

#[test]
fn national_threshold_shuts_out_small_parties() {
    let votes = votes_of(&[55, 25, 10, 6, 4]);
    let mut seats = unlimited_seats(5);
    allocate_national(Seats::filled(10), &votes, &mut seats, Ballot::First);
    assert_eq!(counts(&seats), vec![6, 3, 1, 0, 0]);
}

#[test]
fn bongaerts_ten_seats() {
    let votes = votes_of(&[40, 30, 20, 10]);
    let mut seats = unlimited_seats(4);
    allocate_bongaerts(Seats::filled(10), &votes, &mut seats, Ballot::First);
    assert_eq!(counts(&seats), vec![4, 3, 2, 1]);
}

#[test]
fn bongaerts_seven_seats() {
    let votes = votes_of(&[100, 60, 30, 10]);
    let mut seats = unlimited_seats(4);
    allocate_bongaerts(Seats::filled(7), &votes, &mut seats, Ballot::First);
    assert_eq!(counts(&seats), vec![4, 2, 1, 0]);
}

#[test]
fn archaic_1918_ten_seats() {
    let votes = votes_of(&[40, 30, 20, 10]);
    let mut seats = unlimited_seats(4);
    allocate_1918(Seats::filled(10), &votes, &mut seats, Ballot::First);
    assert_eq!(counts(&seats), vec![4, 3, 2, 1]);
}

#[test]
fn archaic_1922_ten_seats() {
    let votes = votes_of(&[40, 30, 20, 10]);
    let mut seats = unlimited_seats(4);
    allocate_1922(Seats::filled(10), &votes, &mut seats, Ballot::First);
    assert_eq!(counts(&seats), vec![4, 3, 2, 1]);
}

#[test]
fn archaic_rounds_serve_threshold_parties_first() {
    // Two seats go to the leader in the first two rounds; the last seat
    // falls to a below-threshold party in the final round.
    let votes = votes_of(&[101, 79, 57, 73, 13]);
    let mut seats = unlimited_seats(5);
    allocate_1922(Seats::filled(3), &votes, &mut seats, Ballot::First);
    assert_eq!(counts(&seats), vec![2, 1, 0, 0, 0]);
}

#[test]
fn archaic_final_round_serves_parties_that_fail_the_threshold() {
    // Nobody reaches three quarters of a whole seat, so the first two
    // rounds award nothing and every seat is handed out in the last round.
    let votes = votes_of(&[98, 91, 116, 113, 58]);
    let mut seats = unlimited_seats(5);
    allocate_1922(Seats::filled(3), &votes, &mut seats, Ballot::First);
    assert_eq!(counts(&seats), vec![1, 0, 1, 1, 0]);
}

#[test]
fn surplus_second_pass_hands_out_remaining_seats() {
    let votes = votes_of(&[50, 30, 12, 8]);
    let mut seats = unlimited_seats(4);
    allocate_per_surplus(Seats::filled(6), &votes, &mut seats, Ballot::First);
    assert_eq!(counts(&seats), vec![4, 2, 0, 0]);
    let total: u64 = counts(&seats).iter().sum();
    assert_eq!(total, 6);
}
