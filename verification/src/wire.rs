//! The acknowledgement that a shard sends back for each envelope, as it
//! stands on the wire.

use vstd::prelude::*;

verus! {

/// The reason for which `bincode` could not decode its input.
#[verifier::external_type_specification]
#[verifier::external_body]
pub struct ExErrorKind(bincode::ErrorKind);

/// The number whose little-endian bytes are the first eight bytes of `s`.
pub open spec fn le_u64(s: Seq<u8>) -> int
    recommends
        s.len() >= 8,
{
    s[0] as int + s[1] as int * 0x100 + s[2] as int * 0x1_0000 + s[3] as int * 0x100_0000 + s[4] as int
        * 0x1_0000_0000 + s[5] as int * 0x100_0000_0000 + s[6] as int * 0x1_0000_0000_0000 + s[7] as int
        * 0x100_0000_0000_0000
}

/// The signed number whose little-endian two's complement bytes are the
/// first eight bytes of `s`.
pub open spec fn le_i64(s: Seq<u8>) -> int
    recommends
        s.len() >= 8,
{
    if le_u64(s) < 0x8000_0000_0000_0000 {
        le_u64(s)
    } else {
        le_u64(s) - 0x1_0000_0000_0000_0000
    }
}

/// The acknowledgement that the bytes `frame` encode, if they encode one.
///
/// The first four bytes are the little-endian number of the variant: 0 for
/// success, which is followed by the eight bytes of the sequence number, and
/// 1 for failure, which is followed by nothing. Bytes after the
/// acknowledgement are ignored.
pub open spec fn ack_of(frame: Seq<u8>) -> Option<Result<i64, ()>> {
    if frame.len() >= 4 && frame[1] == 0 && frame[2] == 0 && frame[3] == 0 {
        if frame[0] == 0 && frame.len() >= 12 {
            Some(Ok(le_i64(frame.subrange(4, 12)) as i64))
        } else if frame[0] == 1 {
            Some(Err(()))
        } else {
            None
        }
    } else {
        None
    }
}

/// `bincode::deserialize` at the type of an acknowledgement. With the
/// configuration of that function (fixed-width little-endian integers,
/// trailing bytes allowed) it reads the variant as four bytes and the
/// sequence number of a success as eight, and fails where the bytes run out
/// or the variant is neither 0 nor 1.
#[verifier::external_body]
fn deserialize_ack(frame: &[u8]) -> (r: Result<Result<i64, ()>, Box<bincode::ErrorKind>>)
    ensures
        match r {
            Ok(ack) => ack_of(frame@) == Some(ack),
            Err(_) => ack_of(frame@).is_none(),
        },
{
    bincode::deserialize(frame)
}

/// Decodes one acknowledgement; `None` if the bytes do not encode one.
pub fn read_ack(frame: &[u8]) -> (r: Option<Result<i64, ()>>)
    ensures
        r == ack_of(frame@),
{
    match deserialize_ack(frame) {
        Ok(ack) => Some(ack),
        Err(_) => None,
    }
}

} // verus!
