//! Random numbers from the thread-local generator of the `rand` crate.
use vstd::prelude::*;

verus! {

/// A random `u64` drawn with `rand::random`, which asks the thread-local
/// generator for one; nothing is stated of the value, which is chance. The
/// generator panics only if the operating system cannot seed it, which no
/// argument can rule out.
#[verifier::external_body]
pub(crate) fn random_u64() -> u64 {
    rand::random::<u64>()
}

} // verus!
