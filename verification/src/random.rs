//! Randomness from the rand crate: a generator, shuffling and random choice.
use vstd::prelude::*;

use rand::rngs::ThreadRng;
use rand::seq::SliceRandom;

verus! {

/// The generator that `rand::thread_rng` returns.
#[verifier::external_type_specification]
#[verifier::external_body]
pub struct ExThreadRng(ThreadRng);

/// `rand::thread_rng`: the random number generator of the current thread.
#[verifier::external_body]
pub(crate) fn thread_rng() -> ThreadRng {
    rand::thread_rng()
}

/// `SliceRandom::shuffle`: puts the elements of `v` in a random order. The rand
/// crate swaps elements (Fisher-Yates), so the result is a permutation of the
/// input; which one depends on chance and is not stated.
#[verifier::external_body]
pub(crate) fn shuffle<T>(v: &mut Vec<T>, rng: &mut ThreadRng)
    ensures
        final(v)@.len() == old(v)@.len(),
        final(v)@.to_multiset() == old(v)@.to_multiset(),
{
    v.shuffle(rng)
}

/// `SliceRandom::choose`: one element of `v` picked at random, `None` when `v`
/// is empty. Which element depends on chance and is not stated.
#[verifier::external_body]
pub(crate) fn pick_one<'a, T>(v: &'a Vec<T>, rng: &mut ThreadRng) -> (r: Option<&'a T>)
    ensures
        r is None <==> v@.len() == 0,
        r matches Some(x) ==> v@.contains(*x),
{
    v.as_slice().choose(rng)
}

} // verus!
