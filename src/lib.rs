//! LEB128: integers of up to 128 bits as sequences of seven-bit groups,
//! least significant first, with the top bit of each byte saying whether
//! another byte follows. Unsigned and two's complement signed forms.
//!
//! `write` encodes into a `stream::ByteSink`, `read` decodes from a
//! `stream::ByteSource`; `model` states the format, `laws` what holds of it.
use vstd::prelude::*;

pub mod cli;
pub mod laws;
pub mod model;
pub mod read;
pub mod stream;
pub mod write;

verus! {

/// Bit 7 of an encoded byte: set on every byte but the last one of a value.
pub const CONTINUATION_BIT: u8 = 0x80;

/// Bit 6 of an encoded byte: the sign of the last group of a signed value.
pub const SIGN_BIT: u8 = 0x40;

/// The seven payload bits of an encoded byte.
pub fn low_bits_of_byte(byte: u8) -> (r: u8)
    ensures
        r == byte % 128,
{
    let r = byte & !CONTINUATION_BIT;
    assert(byte & !0x80u8 == byte % 128) by (bit_vector);
    r
}

/// The lowest seven bits of a 128-bit value, as a byte.
pub fn low_bits_of_u128(val: u128) -> (r: u8)
    ensures
        r == val % 128,
{
    let byte = val & (u8::MAX as u128);
    assert(val & 0xffu128 == val % 256) by (bit_vector);
    low_bits_of_byte(byte as u8)
}

} // verus!
