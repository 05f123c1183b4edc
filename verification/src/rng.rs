//! The random numbers the crawler draws.
use vstd::prelude::*;

verus! {

/// `rand::Rng::gen_range` on the thread-local generator over `lo..hi`:
/// a number at least `lo` and below `hi`. `gen_range` panics on an empty
/// range, which `requires` leaves out.
#[verifier::external_body]
pub(crate) fn random_in_range(lo: usize, hi: usize) -> (r: usize)
    requires
        lo < hi,
    ensures
        lo <= r < hi,
{
    rand::Rng::gen_range(&mut rand::thread_rng(), lo..hi)
}

/// `rand::random::<u8>()`: any byte; nothing is promised of which.
#[verifier::external_body]
pub(crate) fn random_byte() -> u8 {
    rand::random::<u8>()
}

} // verus!
