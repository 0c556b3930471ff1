//! The source of random draws.

use vstd::prelude::*;

verus! {

/// Draws an index from `macroquad::rand::gen_range(0, n)`, which takes the
/// next 32-bit number of the process-wide generator, scales it to a
/// fraction of one that is at least zero and less than one, multiplies `n`
/// by it and cuts off what follows the point; its documentation gives the
/// range as including the lower end and excluding the upper. The contract
/// claims what that gives for every state of the generator: a number below
/// `n`, where `n` is not zero. Which number is drawn depends on the seed and
/// on the draws made before, and is not stated.
#[verifier::external_body]
pub(crate) fn random_index(n: usize) -> (r: usize)
    ensures
        n > 0 ==> r < n,
{
    macroquad::rand::gen_range(0, n)
}

} // verus!
