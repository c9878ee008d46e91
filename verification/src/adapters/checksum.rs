//! `crc64::crc64`.

use vstd::prelude::*;

verus! {

/// The checksum that `crc64::crc64` computes of the data, going on from a
/// checksum of what came before.
pub uninterp spec fn crc64_of(crc: u64, data: Seq<u8>) -> u64;

/// `crc64::crc64`: the checksum of the data, going on from another.
#[verifier::external_body]
pub(crate) fn crc64_from(crc: u64, data: &Vec<u8>) -> (r: u64)
    ensures
        r == crc64_of(crc, data@),
{
    crc64::crc64(crc, data)
}

} // verus!
