//! Reading a hexadecimal genesis hash. The decoder is outside code with an
//! exactly stated contract.
use vstd::prelude::*;

verus! {

pub open spec fn is_hex_digit(c: char) -> bool {
    (48 <= c as u32 && c as u32 <= 57) || (97 <= c as u32 && c as u32 <= 102) || (65 <= c as u32
        && c as u32 <= 70)
}

pub open spec fn hex_val(c: char) -> u8 {
    if 48 <= c as u32 && c as u32 <= 57 {
        (c as u32 - 48) as u8
    } else if 97 <= c as u32 && c as u32 <= 102 {
        (c as u32 - 87) as u8
    } else {
        (c as u32 - 55) as u8
    }
}

/// The bytes named by a hex string, two digits per byte.
pub open spec fn hex_bytes(s: Seq<char>) -> Seq<u8>
    decreases s.len(),
{
    if s.len() < 2 {
        Seq::empty()
    } else {
        seq![(hex_val(s[0]) * 16 + hex_val(s[1])) as u8] + hex_bytes(s.skip(2))
    }
}

/// Relies on hex::decode: it yields the named bytes exactly when the input
/// has even length and holds only hexadecimal digits (either case), and
/// reports an error otherwise.
#[verifier::external_body]
pub fn hex_decode(s: &String) -> (r: Option<Vec<u8>>)
    ensures
        r matches Some(v) ==> s@.len() % 2 == 0 && (forall|i: int|
            0 <= i < s@.len() ==> is_hex_digit(s@[i])) && v@ == hex_bytes(s@),
        r is None ==> !(s@.len() % 2 == 0 && (forall|i: int|
            0 <= i < s@.len() ==> is_hex_digit(s@[i]))),
{
    hex::decode(s.as_str()).ok()
}

} // verus!
