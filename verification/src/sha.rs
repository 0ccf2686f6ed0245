//! The hashing primitive. The digest itself is outside code; its value is
//! only ever named, never restated.
use vstd::prelude::*;

verus! {

/// The SHA-256 digest of a byte string, as a 32-byte sequence. Its value is
/// determined by the input alone; nothing else is assumed of it.
pub uninterp spec fn sha256_of(bytes: Seq<u8>) -> Seq<u8>;

/// Relies on sha2::Sha256::digest: the 32-byte digest is a function of the
/// input bytes alone.
#[verifier::external_body]
pub fn sha256(bytes: &Vec<u8>) -> (r: [u8; 32])
    ensures
        r@ == sha256_of(bytes@),
{
    let d = <sha2::Sha256 as sha2::Digest>::digest(bytes.as_slice());
    d.into()
}

} // verus!
