//! Randomness for the behaviours, behind trusted wrappers around the
//! `rand` crate.  Every verified caller states what holds of whatever
//! value comes back.

use vstd::prelude::*;
use rand::Rng;

verus! {

#[verifier::external_type_specification]
#[verifier::external_body]
pub struct ExThreadRng(rand::rngs::ThreadRng);

/// Relies on rand::thread_rng: a handle to the thread-local generator.
/// Nothing is assumed of the values it will produce.
#[verifier::external_body]
pub fn fresh_rng() -> rand::rngs::ThreadRng {
    rand::thread_rng()
}

/// Relies on rand::Rng::gen_range over `0..len`: it panics only on an
/// empty range and otherwise returns a member of the range.
#[verifier::external_body]
pub fn choose_index(rng: &mut rand::rngs::ThreadRng, len: usize) -> (r: usize)
    requires
        len > 0,
    ensures
        r < len,
{
    rng.gen_range(0..len)
}

/// Relies on rand::Rng::gen_ratio: true with probability `num` in
/// `den`; always false when `num` is zero, always true when `num`
/// equals `den`; panics only when `den` is zero or `num` exceeds `den`.
#[verifier::external_body]
pub fn draw_ratio(rng: &mut rand::rngs::ThreadRng, num: u32, den: u32) -> (r: bool)
    requires
        0 < den,
        num <= den,
    ensures
        num == 0 ==> !r,
        num == den ==> r,
{
    rng.gen_ratio(num, den)
}

} // verus!
