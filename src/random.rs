//! The random source of a playout, drawn from rand's thread-local generator.
use rand::rngs::ThreadRng;
use rand::seq::SliceRandom;
use rand::Rng;
use vstd::prelude::*;

verus! {

#[verifier::external_type_specification]
#[verifier::external_body]
pub struct ExThreadRng(ThreadRng);

/// Relies on rand's `SliceRandom::choose` on a slice: `None` when the slice is
/// empty, otherwise one of its elements.
#[verifier::external_body]
pub(crate) fn choose_move(moves: &Vec<usize>, rng: &mut ThreadRng) -> (r: Option<usize>)
    ensures
        r is None <==> moves@.len() == 0,
        r matches Some(m) ==> moves@.contains(m),
{
    moves.as_slice().choose(rng).copied()
}

/// Relies on rand's `Rng::gen_range` on `0..n`: a value of that range, which
/// must not be empty.
#[verifier::external_body]
pub(crate) fn gen_below(rng: &mut ThreadRng, n: usize) -> (r: usize)
    requires
        0 < n,
    ensures
        r < n,
{
    rng.gen_range(0..n)
}

} // verus!
