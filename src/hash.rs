use vstd::prelude::*;

verus! {

/// The 64-bit fingerprint of a raw key that identifies it to the waiter manager.
pub uninterp spec fn key_hash(raw: Seq<u8>) -> u64;

/// Relies on `farmhash::fingerprint64`: a fingerprint that depends on the bytes alone.
#[verifier::external_body]
pub(crate) fn fingerprint(raw: &Vec<u8>) -> (r: u64)
    ensures
        r == key_hash(raw@),
{
    farmhash::fingerprint64(raw.as_slice())
}

} // verus!
