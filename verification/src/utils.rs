//! The checksum and the clock, both taken from the `iggy` crate.
//!
//! Nothing here is proved: each item states what the outside function does.

use vstd::prelude::*;

verus! {

/// The checksum (CRC-32) that `iggy::utils::checksum::calculate` gives for a
/// run of bytes.
pub uninterp spec fn checksum_of(data: Seq<u8>) -> u32;

/// `iggy::utils::checksum::calculate`: the checksum of `data`, which depends
/// on nothing but the bytes.
#[verifier::external_body]
pub(crate) fn calculate_checksum(data: &[u8]) -> (checksum: u32)
    ensures
        checksum == checksum_of(data@),
{
    iggy::utils::checksum::calculate(data)
}

/// `IggyTimestamp::now().to_micros()`: the system clock in microseconds since
/// the Unix epoch. Nothing is promised of the value: two readings may come in
/// any order. The outside function panics where the clock reads a time before
/// the epoch.
#[verifier::external_body]
pub(crate) fn now_micros() -> u64 {
    iggy::utils::timestamp::IggyTimestamp::now().to_micros()
}

} // verus!
