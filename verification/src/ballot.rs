//! Random tie-breaking: drawing an unordered subset of a candidate set.
//!
//! The engine draws lots whenever more parties are equally entitled to the
//! next seat than there are seats left, and when the absolute-majority
//! correction must pick one of several equally recent winners.  The draw is
//! the engine's only source of non-determinism; a deterministic strategy
//! (take the first candidates) is provided for reproducible runs.

use vstd::prelude::*;
use vstd::seq_lib::group_to_multiset_ensures;
use rand::seq::SliceRandom;

use crate::data::Count;

verus! {

/// Relies on rand's `SliceRandom::shuffle`: it permutes the slice in place,
/// so the multiset of elements is unchanged.
#[verifier::external_body]
fn shuffle_vec<T>(vec: &mut Vec<T>)
    ensures
        final(vec)@.to_multiset() == old(vec)@.to_multiset(),
{
    vec.shuffle(&mut rand::rng());
}

/// Draw `limit` elements from `vec` uniformly at random, without
/// replacement; if `vec` is shorter than `limit`, every element is drawn.
/// Only the multiset of drawn elements is meaningful: the order is an
/// artefact of the shuffle.
pub fn ballotted<T>(vec: Vec<T>, limit: Count) -> (r: Vec<T>)
    ensures
        r@.len() == vstd::math::min(limit as int, vec@.len() as int),
        r@.to_multiset().subset_of(vec@.to_multiset()),
{
    let mut drawn = vec;
    let ghost orig = drawn@;
    shuffle_vec(&mut drawn);
    proof {
        broadcast use group_to_multiset_ensures;

        assert(drawn@.to_multiset().len() == orig.to_multiset().len());
    }
    truncated(drawn, limit)
}

/// Drop elements from the back until at most `limit` remain.
fn truncated<T>(vec: Vec<T>, limit: Count) -> (r: Vec<T>)
    ensures
        r@.len() == vstd::math::min(limit as int, vec@.len() as int),
        r@.to_multiset().subset_of(vec@.to_multiset()),
        r@ == vec@.take(vstd::math::min(limit as int, vec@.len() as int)),
{
    let mut out = vec;
    let ghost orig = out@;
    proof {
        broadcast use group_to_multiset_ensures;

    }
    while (out.len() as u64) > limit
        invariant
            out@ == orig.take(out@.len() as int),
            out@.len() <= orig.len(),
            out@.len() >= vstd::math::min(limit as int, orig.len() as int),
            out@.to_multiset().subset_of(orig.to_multiset()),
        decreases out@.len(),
    {
        proof {
            broadcast use group_to_multiset_ensures;

            let last = out@.len() - 1;
            assert(out@.remove(last) =~= out@.drop_last());
            assert(out@.remove(last).to_multiset() == out@.to_multiset().remove(out@[last]));
            assert(orig.take(out@.len() as int).drop_last() =~= orig.take(out@.len() - 1));
        }
        out.pop();
    }
    proof {
        assert(orig.take(orig.len() as int) =~= orig);
    }
    out
}

/// A drawing strategy for the tie-break ballot: either a genuinely random
/// draw, or the deterministic choice of the first candidates, which makes a
/// whole apportionment run reproducible.
#[derive(Clone, Copy, PartialEq, Eq, Structural)]
pub enum Ballot {
    Uniform,
    First,
}

/// Draw at most `limit` of the given candidates according to the strategy.
/// Whatever the strategy, the result is a sub-multiset of the candidates of
/// size `min(limit, len)`; in particular distinct candidates stay distinct.
pub fn draw<T: Copy>(ballot: Ballot, vec: Vec<T>, limit: Count) -> (r: Vec<T>)
    ensures
        r@.len() == vstd::math::min(limit as int, vec@.len() as int),
        r@.to_multiset().subset_of(vec@.to_multiset()),
        ballot == Ballot::First ==> r@ == vec@.take(
            vstd::math::min(limit as int, vec@.len() as int),
        ),
{
    match ballot {
        Ballot::Uniform => ballotted(vec, limit),
        Ballot::First => truncated(vec, limit),
    }
}

/// A sub-multiset of a duplicate-free sequence is duplicate-free, and its
/// elements all occur in the larger sequence.
pub proof fn lemma_submultiset_no_duplicates<T>(sub: Seq<T>, sup: Seq<T>)
    requires
        sub.to_multiset().subset_of(sup.to_multiset()),
        sup.no_duplicates(),
    ensures
        sub.no_duplicates(),
        forall|i: int| 0 <= i < sub.len() ==> sup.contains(#[trigger] sub[i]),
{
    broadcast use group_to_multiset_ensures;

    sup.lemma_multiset_has_no_duplicates();
    assert forall|x: T| sub.to_multiset().contains(x) implies sub.to_multiset().count(x) == 1 by {
        assert(sup.to_multiset().count(x) >= sub.to_multiset().count(x));
    }
    sub.lemma_multiset_has_no_duplicates_conv();
    assert forall|i: int| 0 <= i < sub.len() implies sup.contains(#[trigger] sub[i]) by {
        assert(sub.to_multiset().count(sub[i]) > 0);
        assert(sup.to_multiset().count(sub[i]) > 0);
    }
}

} // verus!
