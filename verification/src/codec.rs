use crate::bytes::{le_bytes, le_value};
use vstd::prelude::*;

verus! {

/// The error type of the `bcs` crate. Its values are only carried, never looked into.
#[verifier::external_type_specification]
#[verifier::external_body]
pub struct ExBcsError(bcs::Error);

/// The length of a serialized pair of an object id and a number.
pub const PAIR_LENGTH: usize = 40;

/// Whether `contents` is a serialized pair of an object id and a number.
pub open spec fn is_pair(contents: Seq<u8>) -> bool {
    contents.len() == PAIR_LENGTH
}

/// The id of a serialized pair.
pub open spec fn pair_id(contents: Seq<u8>) -> Seq<u8> {
    contents.take(32)
}

/// The number of a serialized pair.
pub open spec fn pair_number(contents: Seq<u8>) -> nat {
    le_value(contents.skip(32))
}

/// `bcs::from_bytes` at the type of a 32-byte array and a `u64`: it succeeds on exactly the inputs
/// of 40 bytes, and then gives the first 32 bytes as they stand and the last eight read as a
/// little-endian number. Which error it gives otherwise is not stated.
#[verifier::external_body]
pub(crate) fn decode_pair(contents: &Vec<u8>) -> (decoded: Result<([u8; 32], u64), bcs::Error>)
    ensures
        decoded is Ok <==> is_pair(contents@),
        decoded matches Ok(pair) ==> pair.0@ == pair_id(contents@) && pair.1 == pair_number(
            contents@,
        ),
{
    bcs::from_bytes::<([u8; 32], u64)>(contents)
}

/// `bcs::to_bytes` of a 32-byte array and a `u64`: it always succeeds, and gives the bytes of the
/// array followed by the eight bytes of the number, the lowest first.
#[verifier::external_body]
pub(crate) fn encode_pair(id: [u8; 32], number: u64) -> (encoded: Result<Vec<u8>, bcs::Error>)
    ensures
        encoded is Ok,
        encoded matches Ok(bytes) ==> bytes@ == id@ + le_bytes(number as nat, 8),
{
    bcs::to_bytes(&(id, number))
}

} // verus!
