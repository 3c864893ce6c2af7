//! Outcome payload encoding. A submit outcome carries the assigned order id,
//! a cancel outcome a boolean acknowledgement; both are encoded with bincode
//! under its standard configuration, whose byte layout is specified here.

use vstd::prelude::*;

verus! {

/// The `n` little-endian bytes of a value.
pub open spec fn le_bytes(v: int, n: nat) -> Seq<u8>
    decreases n,
{
    if n == 0 {
        Seq::empty()
    } else {
        seq![(v % 256) as u8] + le_bytes(v / 256, (n - 1) as nat)
    }
}

/// bincode's variable-length encoding of a u64 under the standard
/// configuration: a single byte below 251, otherwise a width marker byte
/// followed by the value's little-endian bytes in the marked width.
pub open spec fn varint_u64(v: u64) -> Seq<u8> {
    if v < 251 {
        seq![v as u8]
    } else if v < 0x10000 {
        seq![251u8] + le_bytes(v as int, 2)
    } else if v < 0x100000000 {
        seq![252u8] + le_bytes(v as int, 4)
    } else {
        seq![253u8] + le_bytes(v as int, 8)
    }
}

/// bincode's encoding of a bool: one byte, 1 for true and 0 for false.
pub open spec fn bool_byte(v: bool) -> Seq<u8> {
    seq![
        if v {
            1u8
        } else {
            0u8
        },
    ]
}

/// Relies on `bincode::encode_to_vec` with the standard configuration: a u64
/// is written in bincode's variable-length integer form. Encoding an integer
/// into a vector cannot fail, so the error arm is unreachable.
#[verifier::external_body]
fn bincode_encode_u64(v: u64) -> (r: Vec<u8>)
    ensures
        r@ == varint_u64(v),
{
    match bincode::encode_to_vec(v, bincode::config::standard()) {
        Ok(bytes) => bytes,
        Err(_) => Vec::new(),
    }
}

/// Relies on `bincode::encode_to_vec` with the standard configuration: a
/// bool is written as a single 0 or 1 byte. Encoding a bool into a vector
/// cannot fail, so the error arm is unreachable.
#[verifier::external_body]
fn bincode_encode_bool(v: bool) -> (r: Vec<u8>)
    ensures
        r@ == bool_byte(v),
{
    match bincode::encode_to_vec(v, bincode::config::standard()) {
        Ok(bytes) => bytes,
        Err(_) => Vec::new(),
    }
}

/// Relies on `bincode::decode_from_slice` with the standard configuration:
/// on the variable-length encoding of a u64 it returns that value.
#[verifier::external_body]
fn bincode_decode_u64(bytes: &Vec<u8>) -> (r: Option<u64>)
    ensures
        forall|v: u64| bytes@ == varint_u64(v) ==> r == Some(v),
{
    match bincode::decode_from_slice::<u64, _>(bytes.as_slice(), bincode::config::standard()) {
        Ok((v, _)) => Some(v),
        Err(_) => None,
    }
}

/// Relies on `bincode::decode_from_slice` with the standard configuration:
/// on a 0 or 1 byte it returns the matching bool.
#[verifier::external_body]
fn bincode_decode_bool(bytes: &Vec<u8>) -> (r: Option<bool>)
    ensures
        forall|v: bool| bytes@ == bool_byte(v) ==> r == Some(v),
{
    match bincode::decode_from_slice::<bool, _>(bytes.as_slice(), bincode::config::standard()) {
        Ok((v, _)) => Some(v),
        Err(_) => None,
    }
}

/// Encode a submit outcome payload: the assigned order id.
pub fn encode_order_id(id: u64) -> (r: Vec<u8>)
    ensures
        r@ == varint_u64(id),
{
    bincode_encode_u64(id)
}

/// Decode a submit outcome payload back into the assigned order id.
pub fn decode_order_id(bytes: &Vec<u8>) -> (r: Option<u64>)
    ensures
        forall|v: u64| bytes@ == varint_u64(v) ==> r == Some(v),
{
    bincode_decode_u64(bytes)
}

/// Encode a cancel outcome payload: the acknowledgement flag.
pub fn encode_cancel_ack(ack: bool) -> (r: Vec<u8>)
    ensures
        r@ == bool_byte(ack),
{
    bincode_encode_bool(ack)
}

/// Decode a cancel outcome payload back into the acknowledgement flag.
pub fn decode_cancel_ack(bytes: &Vec<u8>) -> (r: Option<bool>)
    ensures
        forall|v: bool| bytes@ == bool_byte(v) ==> r == Some(v),
{
    bincode_decode_bool(bytes)
}

} // verus!
