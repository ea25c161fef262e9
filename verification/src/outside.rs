//! The calls that the engine makes into other crates. Their bodies are not
//! verified: what is stated of them here is taken from their sources and
//! their documentation.

use vstd::prelude::*;
use rand::seq::SliceRandom;

verus! {

/// `rand::random::<u8>()`: a byte from the generator of the thread. Nothing
/// is known of it but its type. It panics if the generator cannot be
/// seeded by the system.
#[verifier::external_body]
pub(crate) fn random_byte() -> u8 {
    rand::random::<u8>()
}

/// `SliceRandom::shuffle` with `rand::thread_rng()`: swaps elements of the
/// vector in place, so that it holds afterwards what it held before, in
/// some order. It panics if the generator cannot be seeded by the system.
#[verifier::external_body]
pub(crate) fn shuffle(values: &mut Vec<u8>)
    ensures
        final(values)@.to_multiset() == old(values)@.to_multiset(),
{
    let mut rng = rand::thread_rng();
    values.shuffle(&mut rng);
}

/// `num_cpus::get()`: the number of processors that the program can use,
/// which the documentation of the crate promises to be at least 1.
#[verifier::external_body]
pub(crate) fn available_cpus() -> (n: usize)
    ensures
        n >= 1,
{
    num_cpus::get()
}

} // verus!
