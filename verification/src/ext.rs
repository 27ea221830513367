//! The few outside calls the library relies on, each behind a stated contract.

use vstd::prelude::*;

verus! {

/// Relies on std's String::push: appends the given character to the
/// end of the string, and does nothing else.
pub assume_specification[ String::push ](s: &mut String, c: char)
    ensures
        final(s)@ == old(s)@.push(c),
;

/// Relies on rand's Rng::gen_range on the half-open range `0..bound`:
/// it returns a value of that range, and panics only when the range is
/// empty, which `bound > 0` rules out. Nothing is claimed about which
/// value comes back, so every caller must be correct for all of them.
#[verifier::external_body]
pub(crate) fn rand_below(bound: u128) -> (r: u128)
    requires
        bound > 0,
    ensures
        r < bound,
{
    rand::Rng::gen_range(&mut rand::thread_rng(), 0..bound)
}

} // verus!
