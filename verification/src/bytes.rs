//! Little-endian views of a 32-bit word as four bytes, shared by the
//! machine's memory instructions and the binary program codec.
use vstd::prelude::*;

verus! {

/// The least significant byte of `v`.
pub open spec fn le_byte0(v: u32) -> u8 {
    (v & 0xff) as u8
}

pub open spec fn le_byte1(v: u32) -> u8 {
    ((v >> 8u32) & 0xff) as u8
}

pub open spec fn le_byte2(v: u32) -> u8 {
    ((v >> 16u32) & 0xff) as u8
}

/// The most significant byte of `v`.
pub open spec fn le_byte3(v: u32) -> u8 {
    ((v >> 24u32) & 0xff) as u8
}

/// The four little-endian bytes of `v`, least significant first.
pub open spec fn le_bytes_of(v: u32) -> Seq<u8> {
    seq![le_byte0(v), le_byte1(v), le_byte2(v), le_byte3(v)]
}

/// The word whose little-endian bytes are `b0, b1, b2, b3`.
pub open spec fn word_of_le_bytes(b0: u8, b1: u8, b2: u8, b3: u8) -> u32 {
    (b0 as u32) | ((b1 as u32) << 8u32) | ((b2 as u32) << 16u32) | ((b3 as u32) << 24u32)
}

/// Splitting a word into its four little-endian bytes and reassembling
/// them gives the word back.
pub proof fn lemma_le_bytes_round_trip(v: u32)
    ensures
        word_of_le_bytes(le_byte0(v), le_byte1(v), le_byte2(v), le_byte3(v)) == v,
{
    assert(((v & 0xff) as u8 as u32) | ((((v >> 8u32) & 0xff) as u8 as u32) << 8u32) | ((((v
        >> 16u32) & 0xff) as u8 as u32) << 16u32) | ((((v >> 24u32) & 0xff) as u8 as u32)
        << 24u32) == v) by (bit_vector);
}

/// Extracts the four little-endian bytes of a word.
pub fn u32_to_le_bytes(v: u32) -> (r: (u8, u8, u8, u8))
    ensures
        r.0 == le_byte0(v),
        r.1 == le_byte1(v),
        r.2 == le_byte2(v),
        r.3 == le_byte3(v),
{
    proof {
        assert((v & 0xff) <= 0xff && ((v >> 8u32) & 0xff) <= 0xff && ((v >> 16u32) & 0xff) <= 0xff
            && ((v >> 24u32) & 0xff) <= 0xff) by (bit_vector);
    }
    (
        (v & 0xff) as u8,
        ((v >> 8u32) & 0xff) as u8,
        ((v >> 16u32) & 0xff) as u8,
        ((v >> 24u32) & 0xff) as u8,
    )
}

/// Reassembles a word from its four little-endian bytes.
pub fn u32_from_le_bytes(b0: u8, b1: u8, b2: u8, b3: u8) -> (r: u32)
    ensures
        r == word_of_le_bytes(b0, b1, b2, b3),
{
    (b0 as u32) | ((b1 as u32) << 8u32) | ((b2 as u32) << 16u32) | ((b3 as u32) << 24u32)
}

} // verus!
