//! The tie-break ballot: drawn subsets have the right size and come from
//! the candidates, whatever the strategy.

use kiesraad_model::Ballot;
use kiesraad_model::ballotted;
use kiesraad_model::draw;

#[test]
fn ballotted_truncates_to_the_limit() {
    let drawn = ballotted(vec![10usize, 20, 30, 40, 50], 2);
    assert_eq!(drawn.len(), 2);
    for x in &drawn {
        assert!([10, 20, 30, 40, 50].contains(x));
    }
    assert_ne!(drawn[0], drawn[1]);
}

#[test]
fn ballotted_keeps_everything_under_a_large_limit() {
    let mut drawn = ballotted(vec![3u64, 1, 2], 10);
    drawn.sort();
    assert_eq!(drawn, vec![1, 2, 3]);
}

#[test]
fn ballotted_of_nothing_is_nothing() {
    let drawn: Vec<u64> = ballotted(Vec::new(), 4);
    assert!(drawn.is_empty());
}

#[test]
fn first_draw_takes_the_first_candidates() {
    let drawn = draw(Ballot::First, vec![7usize, 8, 9, 10], 3);
    assert_eq!(drawn, vec![7, 8, 9]);
}

#[test]
fn uniform_draw_has_the_right_size() {
    for _ in 0..10 {
        let drawn = draw(Ballot::Uniform, vec![1u64, 2, 3, 4, 5, 6], 4);
        assert_eq!(drawn.len(), 4);
        let mut sorted = drawn.clone();
        sorted.sort();
        sorted.dedup();
        assert_eq!(sorted.len(), 4);
    }
}
