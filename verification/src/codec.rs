//! The needle codec: the on-disk shape of one stored object.
//!
//! A needle record is a fixed four-byte header holding the body length as a
//! little-endian unsigned integer, followed by the raw body bytes. The codec
//! performs no compression, no checksum and no padding.

use vstd::bytes::*;
use vstd::prelude::*;

verus! {

/// Number of bytes in the fixed needle header.
pub const NEEDLE_HEADER_LENGTH: u64 = 4;

/// The header bytes that announce a body of `body_length` bytes.
pub open spec fn spec_encode_header(body_length: u32) -> Seq<u8> {
    spec_u32_to_le_bytes(body_length)
}

/// The body length announced by four header bytes.
pub open spec fn spec_decode_header(bytes: Seq<u8>) -> u32
    recommends
        bytes.len() == NEEDLE_HEADER_LENGTH,
{
    spec_u32_from_le_bytes(bytes)
}

/// The full record for a body of `body` bytes: header, then the body.
pub open spec fn spec_encode_needle(body: Seq<u8>) -> Seq<u8>
    recommends
        body.len() <= u32::MAX,
{
    spec_encode_header(body.len() as u32) + body
}

/// Bytes taken by a whole needle record whose header announces
/// `body_length` body bytes.
pub open spec fn spec_total_length(body_length: u32) -> int {
    NEEDLE_HEADER_LENGTH + body_length
}

/// Encode a needle header.
pub fn encode_header(body_length: u32) -> (r: Vec<u8>)
    ensures
        r@ == spec_encode_header(body_length),
        r@.len() == NEEDLE_HEADER_LENGTH,
{
    u32_to_le_bytes(body_length)
}

/// Decode a needle header back into the announced body length.
pub fn decode_header(bytes: &[u8]) -> (r: u32)
    requires
        bytes@.len() == NEEDLE_HEADER_LENGTH,
    ensures
        r == spec_decode_header(bytes@),
{
    u32_from_le_bytes(bytes)
}

/// Decoding a header always recovers the length it was encoded from, and
/// an encoded record carries its body verbatim after the header.
pub proof fn lemma_header_round_trip(body_length: u32)
    ensures
        spec_encode_header(body_length).len() == NEEDLE_HEADER_LENGTH,
        spec_decode_header(spec_encode_header(body_length)) == body_length,
{
    lemma_auto_spec_u32_to_from_le_bytes();
    assert(spec_u32_to_le_bytes(body_length).len() == 4);
    assert(spec_u32_from_le_bytes(spec_u32_to_le_bytes(body_length)) == body_length);
}

/// The record of a body holds exactly that body after its header.
pub proof fn lemma_needle_round_trip(body: Seq<u8>)
    requires
        body.len() <= u32::MAX,
    ensures
        spec_encode_needle(body).len() == spec_total_length(body.len() as u32),
        spec_decode_header(spec_encode_needle(body).subrange(0, NEEDLE_HEADER_LENGTH as int))
            == body.len() as u32,
        spec_encode_needle(body).subrange(
            NEEDLE_HEADER_LENGTH as int,
            spec_encode_needle(body).len() as int,
        ) == body,
{
    lemma_auto_spec_u32_to_from_le_bytes();
    let record = spec_encode_needle(body);
    assert(record.subrange(0, NEEDLE_HEADER_LENGTH as int)
        =~= spec_encode_header(body.len() as u32));
    assert(record.subrange(NEEDLE_HEADER_LENGTH as int, record.len() as int) =~= body);
}

} // verus!
