//! Constant-time selection, from the `subtle` crate.
use subtle::{Choice, ConditionallySelectable};
use vstd::prelude::*;

verus! {

/// `subtle`'s `u64::conditional_select` (`ConditionallySelectable`): with
/// `Choice::from(choice)` it returns `a` when `choice` is 0 and `b` when it is 1,
/// through a mask, without branching. `Choice::from` debug-asserts that the byte
/// is 0 or 1, hence the `requires`.
#[verifier::external_body]
pub(crate) fn ct_select_u64(a: u64, b: u64, choice: u8) -> (r: u64)
    requires
        choice <= 1,
    ensures
        r == (if choice == 1 { b } else { a }),
{
    u64::conditional_select(&a, &b, Choice::from(choice))
}

/// `subtle`'s `u8::conditional_select`, the same mask selection on a byte:
/// `a` for choice 0, `b` for choice 1.
#[verifier::external_body]
pub(crate) fn ct_select_u8(a: u8, b: u8, choice: u8) -> (r: u8)
    requires
        choice <= 1,
    ensures
        r == (if choice == 1 { b } else { a }),
{
    u8::conditional_select(&a, &b, Choice::from(choice))
}

/// `std::hint::black_box`, the identity function that the optimiser may not see through.
#[verifier::external_body]
pub(crate) fn opaque_u64(x: u64) -> (r: u64)
    ensures
        r == x,
{
    std::hint::black_box(x)
}

} // verus!
