//! Conversions between sample values and the wider numbers that the
//! arithmetic runs in.

use vstd::prelude::*;

verus! {

/// `num_traits::ToPrimitive::to_usize` on a 16-bit sample. The contract
/// claims that it hands the same number back as a `usize`, which is at least
/// as wide, and never fails.
#[verifier::external_body]
pub(crate) fn index_of(sample: u16) -> (r: Option<usize>)
    ensures
        r == Some(sample as usize),
{
    num_traits::ToPrimitive::to_usize(&sample)
}

/// `num_traits::FromPrimitive::from_u128` for a 16-bit sample. The contract
/// claims that a number that a sample can hold comes back unchanged, and
/// that any larger number gives `None`.
#[verifier::external_body]
pub(crate) fn sample_of(value: u128) -> (r: Option<u16>)
    ensures
        value <= u16::MAX ==> r == Some(value as u16),
        value > u16::MAX ==> r is None,
{
    <u16 as num_traits::FromPrimitive>::from_u128(value)
}

} // verus!
