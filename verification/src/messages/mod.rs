//! The messages of the protocol, and the command ids that tag them.
//!
//! A response carries the command id of its request with the high bit set.

use vstd::prelude::*;

pub mod bind;
pub mod device_info;

verus! {

/// The command id of the response to command `cid`: the high bit set.
pub fn response_cid(cid: u8) -> (r: u8)
    ensures
        r == cid | 0x80,
{
    cid | 0x80
}

/// The command id of the request that command `cid` answers: the high bit cleared.
pub fn request_cid(cid: u8) -> (r: u8)
    ensures
        r == cid & 0x7f,
{
    cid & 0x7f
}

/// Whether command id `cid` is that of a response: its high bit is set.
pub fn is_response_cid(cid: u8) -> (r: bool)
    ensures
        r == (cid & 0x80 == 0x80),
{
    (cid & 0x80) == 0x80
}

/// Law: the response id of any command is a response id, its request id is not, and
/// the two conversions undo each other up to the high bit.
pub proof fn lemma_cid_roundtrip(cid: u8)
    ensures
        (cid | 0x80) & 0x80 == 0x80,
        (cid & 0x7f) & 0x80 == 0,
        (cid | 0x80) & 0x7f == cid & 0x7f,
        (cid & 0x7f) | 0x80 == cid | 0x80,
        (cid & 0x80 == 0x80) ==> (cid & 0x7f) | 0x80 == cid,
        (cid & 0x80 != 0x80) ==> cid & 0x7f == cid,
{
    assert((cid | 0x80) & 0x80 == 0x80) by (bit_vector);
    assert((cid & 0x7f) & 0x80 == 0) by (bit_vector);
    assert((cid | 0x80) & 0x7f == cid & 0x7f) by (bit_vector);
    assert((cid & 0x7f) | 0x80 == cid | 0x80) by (bit_vector);
    assert((cid & 0x80 == 0x80) ==> (cid & 0x7f) | 0x80 == cid) by (bit_vector);
    assert((cid & 0x80 != 0x80) ==> cid & 0x7f == cid) by (bit_vector);
}

} // verus!
