//! Random numbers for names that must not collide.

use vstd::prelude::*;

verus! {

/// `rand::random` as a `u64`. Nothing is promised of the number: it is drawn
/// anew by each call.
#[verifier::external_body]
pub(crate) fn random_u64() -> (res: u64) {
    rand::random::<u64>()
}

/// The low half of a number that `random_u64` draws: any `u32` may come.
pub(crate) fn random_u32() -> (res: u32) {
    low_half(random_u64())
}

/// The low half of a number.
fn low_half(n: u64) -> (res: u32)
    ensures
        res == n % 0x1_0000_0000,
{
    (n % 0x1_0000_0000) as u32
}

} // verus!
