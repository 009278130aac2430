//! Whole-run scenarios with the deterministic first-candidate ballot.

use kiesraad_model::Ballot;
use kiesraad_model::Seats;
use kiesraad_model::Votes;
use kiesraad_model::allocate;
use kiesraad_model::allocate_national;

fn votes_of(values: &[u64]) -> Vec<Votes> {
    values.iter().map(|v| Votes(*v)).collect()
}

fn unlimited_seats(n: usize) -> Vec<Seats> {
    (0..n).map(|_| Seats::unlimited()).collect()
}

fn counts(seats: &[Seats]) -> Vec<u64> {
    seats.iter().map(|s| s.count()).collect()
}

#[test]
fn dhondt_nineteen_seats() {
    let votes = votes_of(&[40, 30, 20, 10]);
    let mut seats = unlimited_seats(4);
    allocate(Seats::filled(19), &votes, &mut seats, Ballot::First);
    assert_eq!(counts(&seats), vec![8, 6, 4, 1]);
}

#[test]
fn surplus_five_seats_with_ties() {
    let votes = votes_of(&[19, 19, 19, 19, 15, 9, 9]);
    let mut seats = unlimited_seats(7);
    allocate(Seats::filled(5), &votes, &mut seats, Ballot::First);
    let total: u64 = counts(&seats).iter().sum();
    assert_eq!(total, 5);
    for s in &seats {
        assert!(s.count() <= s.limit);
    }
    assert_eq!(counts(&seats), vec![1, 1, 1, 1, 1, 0, 0]);
}

#[test]
fn surplus_ties_total_is_stable_under_random_ballot() {
    let votes = votes_of(&[19, 19, 19, 19, 15, 9, 9]);
    for _ in 0..20 {
        let mut seats = unlimited_seats(7);
        allocate(Seats::filled(5), &votes, &mut seats, Ballot::Uniform);
        let total: u64 = counts(&seats).iter().sum();
        assert_eq!(total, 5);
        for s in &seats {
            assert!(s.count() <= 1);
        }
    }
}

#[test]
fn national_parliament_distribution() {
    let votes = votes_of(&[
        2_450_878, 1_643_073, 1_589_519, 1_343_287, 656_292, 485_551, 345_822, 328_225, 246_765,
        235_148, 232_963, 217_270, 212_532, 178_802, 71_345, 52_913, 51_043, 44_253, 12_838,
        9_117, 5_487, 5_325, 5_122, 4_152, 3_966, 1_038,
    ]);
    let mut seats = unlimited_seats(votes.len());
    allocate_national(Seats::filled(150), &votes, &mut seats, Ballot::First);
    assert_eq!(
        counts(&seats),
        vec![
            37, 25, 24, 20, 9, 7, 5, 5, 3, 3, 3, 3, 3, 2, 1, 0, 0, 0, 0, 0, 0, 0, 0, 0, 0, 0
        ]
    );
    let total: u64 = counts(&seats).iter().sum();
    assert_eq!(total, 150);
}

#[test]
fn degenerate_single_party_no_seats() {
    let votes = votes_of(&[0]);
    let mut seats = unlimited_seats(1);
    allocate(Seats::filled(0), &votes, &mut seats, Ballot::First);
    assert_eq!(counts(&seats), vec![0]);
}

#[test]
fn candidate_limit_leaves_a_seat_unfilled() {
    let votes = votes_of(&[33, 7]);
    let mut seats = vec![Seats::limited(2), Seats::limited(13)];
    allocate(Seats::filled(4), &votes, &mut seats, Ballot::First);
    assert_eq!(counts(&seats), vec![2, 1]);
}

#[test]
fn zero_vote_party_can_still_receive_a_seat() {
    let votes = votes_of(&[33, 7, 0]);
    let mut seats = vec![Seats::limited(2), Seats::limited(12), Seats::limited(2)];
    allocate(Seats::filled(4), &votes, &mut seats, Ballot::First);
    assert_eq!(counts(&seats), vec![2, 1, 1]);
}

#[test]
fn no_parties_leaves_pool_untouched() {
    let votes: Vec<Votes> = Vec::new();
    let mut seats: Vec<Seats> = Vec::new();
    allocate(Seats::filled(3), &votes, &mut seats, Ballot::First);
    assert!(seats.is_empty());
}
