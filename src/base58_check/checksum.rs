use vstd::prelude::*;
use crate::hashing_buffer_reader::{double_sha256, sha256};

verus! {

/// The checksum of a payload: the first four bytes of its double SHA-256.
pub open spec fn checksum_of(buffer: Seq<u8>) -> Seq<u8> {
    Seq::new(4, |i: int| double_sha256(buffer)[i])
}

pub fn compute_checksum(buffer: &[u8]) -> (r: [u8; 4])
    ensures
        r@ == checksum_of(buffer@),
{
    let first = sha256(buffer);
    let hash = sha256(&first);
    let r = [hash[0], hash[1], hash[2], hash[3]];
    assert(r@ =~= checksum_of(buffer@));
    r
}

} // verus!
