//! Writing LEB128 values to a byte sink.
use vstd::prelude::*;
use crate::model::{
    lemma_pow2_128, lemma_signed_len, lemma_skip_step, lemma_unsigned_len, magnitude, signed_bytes,
    unsigned_bytes,
};
use crate::stream::ByteSink;
use crate::{low_bits_of_u128, CONTINUATION_BIT};

verus! {

/// Writes the shortest unsigned encoding of `value` and returns its length.
///
/// When the sink runs out of room, the bytes that fit stay written and its
/// error is returned.
pub fn unsigned<W: ByteSink + ?Sized>(w: &mut W, value: u128) -> (r: Result<usize, std::io::Error>)
    ensures
        old(w).room() >= unsigned_bytes(value as nat).len() ==> r == Ok::<usize, std::io::Error>(
            unsigned_bytes(value as nat).len() as usize,
        ) && final(w).written() == old(w).written() + unsigned_bytes(value as nat),
        old(w).room() < unsigned_bytes(value as nat).len() ==> r is Err && final(w).written()
            == old(w).written() + unsigned_bytes(value as nat).take(old(w).room() as int),
{
    let ghost enc = unsigned_bytes(value as nat);
    proof {
        lemma_unsigned_len(value as nat, 19);
        lemma_pow2_128();
    }
    let mut val: u128 = value;
    let mut bytes_written: usize = 0;
    loop
        invariant
            enc == unsigned_bytes(value as nat),
            1 <= enc.len() <= 19,
            bytes_written < enc.len(),
            enc.skip(bytes_written as int) == unsigned_bytes(val as nat),
            w.written() == old(w).written() + enc.take(bytes_written as int),
            w.room() == old(w).room() - bytes_written,
            old(w).room() >= bytes_written,
        decreases val,
    {
        let ghost before = val;
        let mut byte = low_bits_of_u128(val);
        val >>= 7;
        if val != 0 {
            // More bytes to come, so set the continuation bit.
            byte |= CONTINUATION_BIT;
        }
        proof {
            lemma_unsigned_group(before, byte, val);
            lemma_unsigned_len(val as nat, 19);
            let tail = if val != 0 { unsigned_bytes(val as nat) } else { Seq::empty() };
            lemma_skip_step(enc, bytes_written as int, byte, tail);
            if val == 0 {
                assert(enc.skip(bytes_written + 1).len() == 0);
            }
        }
        match w.write_byte(byte) {
            Ok(()) => {},
            Err(e) => {
                assert(bytes_written == old(w).room());
                assert(w.written() == old(w).written() + enc.take(old(w).room() as int));
                return Err(e);
            },
        }
        bytes_written += 1;

        if val == 0 {
            assert(enc.take(bytes_written as int) =~= enc);
            assert(w.written() == old(w).written() + enc);
            return Ok(bytes_written);
        }
    }
}

/// Writes the shortest signed encoding of `value` and returns its length.
///
/// When the sink runs out of room, the bytes that fit stay written and its
/// error is returned.
pub fn signed<W: ByteSink + ?Sized>(w: &mut W, value: i128) -> (r: Result<usize, std::io::Error>)
    ensures
        old(w).room() >= signed_bytes(value as int).len() ==> r == Ok::<usize, std::io::Error>(
            signed_bytes(value as int).len() as usize,
        ) && final(w).written() == old(w).written() + signed_bytes(value as int),
        old(w).room() < signed_bytes(value as int).len() ==> r is Err && final(w).written()
            == old(w).written() + signed_bytes(value as int).take(old(w).room() as int),
{
    let ghost enc = signed_bytes(value as int);
    proof {
        lemma_pow2_128();
        lemma_signed_len(value as int, 19);
    }
    let mut val: i128 = value;
    let mut bytes_written: usize = 0;
    loop
        invariant
            enc == signed_bytes(value as int),
            1 <= enc.len() <= 19,
            bytes_written < enc.len(),
            enc.skip(bytes_written as int) == signed_bytes(val as int),
            w.written() == old(w).written() + enc.take(bytes_written as int),
            w.room() == old(w).room() - bytes_written,
            old(w).room() >= bytes_written,
        decreases magnitude(val as int),
    {
        let ghost before = val;
        let mut byte = val as u8;
        // Keep the sign bit for testing.
        val >>= 6;
        let ghost mid = val;
        let done = val == 0 || val == -1;
        if done {
            byte &= !CONTINUATION_BIT;
        } else {
            // Drop the sign bit; more bytes to come, so set the continuation bit.
            val >>= 1;
            byte |= CONTINUATION_BIT;
        }
        proof {
            lemma_signed_group(before, mid, val, byte, done);
            let tail = if done { Seq::empty() } else { signed_bytes(val as int) };
            lemma_skip_step(enc, bytes_written as int, byte, tail);
            if !done {
                lemma_pow2_128();
                lemma_signed_len(val as int, 19);
            } else {
                assert(enc.skip(bytes_written + 1).len() == 0);
            }
        }
        match w.write_byte(byte) {
            Ok(()) => {},
            Err(e) => {
                assert(bytes_written == old(w).room());
                assert(w.written() == old(w).written() + enc.take(old(w).room() as int));
                return Err(e);
            },
        }
        bytes_written += 1;

        if done {
            assert(enc.take(bytes_written as int) =~= enc);
            assert(w.written() == old(w).written() + enc);
            return Ok(bytes_written);
        }
    }
}

/// One step of the signed writer: the byte it emits and the value left are
/// the head and the rest of the encoding.
proof fn lemma_signed_group(before: i128, mid: i128, after: i128, byte: u8, done: bool)
    requires
        mid == before >> 6,
        done == (mid == 0 || mid == -1),
        done ==> byte == (before as u8) & !CONTINUATION_BIT,
        !done ==> after == mid >> 1 && byte == (before as u8) | CONTINUATION_BIT,
    ensures
        done ==> signed_bytes(before as int) == seq![byte],
        !done ==> signed_bytes(before as int) == seq![byte] + signed_bytes(after as int),
        !done ==> magnitude(after as int) < magnitude(before as int),
{
    reveal(signed_bytes);
    assert(done == (-64 <= before && before < 64)) by (bit_vector)
        requires
            mid == before >> 6,
            done == (mid == 0 || mid == -1),
    ;
    assert(before == (before >> 7) * 128 + (before & 127) && 0 <= (before & 127) < 128)
        by (bit_vector);
    assert((before >> 6) >> 1 == before >> 7) by (bit_vector);
    assert(((before as u8) & !0x80u8) as i128 == before & 127) by (bit_vector);
    assert(((before as u8) | 0x80u8) as i128 == (before & 127) + 128) by (bit_vector);
    let q = (before >> 7) as int;
    let r = (before & 127) as int;
    vstd::arithmetic::div_mod::lemma_fundamental_div_mod_converse(before as int, 128, q, r);
}

/// One step of the unsigned writer: the byte it emits and the value left
/// are the head and the rest of the encoding.
proof fn lemma_unsigned_group(before: u128, byte: u8, after: u128)
    requires
        after == before >> 7,
        after != 0 ==> byte == ((before % 128) as u8 | CONTINUATION_BIT),
        after == 0 ==> byte == before % 128,
    ensures
        after != 0 ==> unsigned_bytes(before as nat) == seq![byte] + unsigned_bytes(after as nat),
        after == 0 ==> unsigned_bytes(before as nat) == seq![byte],
        after != 0 ==> after < before,
{
    reveal(unsigned_bytes);
    assert(before >> 7 == before / 128) by (bit_vector);
    let low = (before % 128) as u8;
    assert(low < 128 ==> low | 0x80u8 == low + 128) by (bit_vector);
}

} // verus!
