//! The random source: the thread-local generator of the `rand` crate.
//!
//! Nothing here is verified. The rest of the library relies only on what the
//! contracts below state, and is proved for every value a draw may return.

use rand::rngs::ThreadRng;
use rand::Rng;
use vstd::prelude::*;

verus! {

/// Makes `rand::rngs::ThreadRng` known to the verifier as an opaque type.
#[verifier::external_type_specification]
#[verifier::external_body]
pub struct ExThreadRng(ThreadRng);

/// `rand::thread_rng` hands out a handle to the thread-local generator.
/// Nothing is claimed of the handle. The call takes no argument; it fails
/// only where the operating system cannot seed the generator.
pub assume_specification[ rand::thread_rng ]() -> (rng: ThreadRng)
;

/// Draws one integer from the half-open range `low..high` with
/// `rand::Rng::gen_range`.
///
/// Trusted: the integer drawn lies in the range. `gen_range` panics on an
/// empty range, so the range is required to hold at least one integer.
/// Which integer comes back is left open.
#[verifier::external_body]
pub(crate) fn draw(rng: &mut ThreadRng, low: u128, high: u128) -> (drawn: u128)
    requires
        low < high,
    ensures
        low <= drawn < high,
{
    rng.gen_range(low..high)
}

} // verus!
