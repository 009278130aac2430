//! Proportional seat apportionment for party-list elections.
//!
//! The crate reproduces the seat-assignment rules used in Dutch elections,
//! past and present: the highest-averages (D'Hondt) method, the
//! largest-surplus method for small councils, the national rule with a
//! one-whole-seat threshold, the Bongaerts method of 1925, and the archaic
//! three-round rules of 1918 and 1922.  All vote arithmetic is exact:
//! ratios are compared by cross-multiplication, never by division.

mod ballot;
mod data;
mod engine;
mod formulas;
mod method;

pub use ballot::Ballot;
pub use ballot::ballotted;
pub use ballot::draw;
pub use data::Count;
pub use data::Fraction;
pub use data::Seats;
pub use data::Votes;
pub use data::frac;
pub use data::frac_eq;
pub use data::frac_le;
pub use data::lemma_two_votes_le_sum;
pub use data::sum_counts;
pub use data::sum_votes;
pub use data::total_counts;
pub use data::total_votes;
pub use engine::absolute_majority_check;
pub use engine::allocate_seats;
pub use engine::awards_justified;
pub use engine::awards_maximal;
pub use engine::correction_outcome;
pub use engine::engine_outcome;
pub use engine::held_quality_le;
pub use engine::lemma_first_qualifying_sound;
pub use engine::lemma_no_eligible_monotone;
pub use engine::quality_at;
pub use engine::allocate_single_step;
pub use engine::allocate_whole_seats;
pub use engine::count_winners;
pub use engine::first_qualifying;
pub use engine::is_loser_candidate;
pub use engine::is_qualifying;
pub use engine::is_winner;
pub use engine::limits_unchanged;
pub use engine::method_pre;
pub use engine::no_party_eligible;
pub use engine::seats_wf;
pub use engine::spec_quality;
pub use engine::whole_gain;
pub use engine::whole_seats_available;
pub use formulas::allocate;
pub use formulas::allocate_1918;
pub use formulas::allocate_1922;
pub use formulas::allocate_archaic;
pub use formulas::allocate_bongaerts;
pub use formulas::allocate_national;
pub use formulas::allocate_per_average;
pub use formulas::allocate_per_surplus;
pub use formulas::allocation_frame;
pub use formulas::allocation_pre;
pub use formulas::archaic_round_method;
pub use formulas::averages_optimal;
pub use formulas::national_optimal;
pub use formulas::three_round_outcome;
pub use formulas::two_pass_outcome;
pub use method::Method;
pub use method::score_pre;
pub use method::spec_score;
