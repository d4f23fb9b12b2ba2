//! Reading LEB128 values from a byte source.
use vstd::prelude::*;
use vstd::arithmetic::power2::pow2;
use crate::model::{
    digits, lemma_digits_bound, lemma_digits_push, lemma_pow2_128, lemma_pow2_group, low7,
    signed_digits, signed_outcome, terminal_from, unsigned_outcome, Outcome, LAST_GROUP,
};
use crate::stream::ByteSource;
use crate::{low_bits_of_byte, CONTINUATION_BIT, SIGN_BIT};

verus! {

/// What can go wrong while reading a value.
#[derive(Debug)]
pub enum Error {
    /// The source failed, most often because it ended inside a value.
    IoError(std::io::Error),
    /// The value does not fit in 128 bits.
    Overflow,
}

impl Error {
    /// A sentence that describes the error.
    pub fn message(&self) -> (r: String)
        ensures
            self is Overflow ==> r@ == OVERFLOW_MESSAGE@,
    {
        match self {
            Error::IoError(e) => io_error_message(e),
            Error::Overflow => OVERFLOW_MESSAGE.to_owned(),
        }
    }
}

/// What `Error::message` says of an overflow.
pub const OVERFLOW_MESSAGE: &'static str = "The number being read is larger than can be represented";

/// Relies on `<std::io::Error as Display>::fmt`, through `to_string`, for the
/// text of an I/O error.
#[verifier::external_body]
fn io_error_message(e: &std::io::Error) -> String {
    e.to_string()
}

impl From<std::io::Error> for Error {
    fn from(e: std::io::Error) -> (r: Error)
        ensures
            r == Error::IoError(e),
    {
        Error::IoError(e)
    }
}

impl vstd::std_specs::convert::FromSpecImpl<std::io::Error> for Error {
    open spec fn obeys_from_spec() -> bool {
        true
    }

    open spec fn from_spec(e: std::io::Error) -> Error {
        Error::IoError(e)
    }
}

/// Reads one unsigned value.
///
/// On success the source is left just past the value's last byte. When the
/// value does not fit in 128 bits, the rest of the value is still consumed,
/// so that the next read starts at the next value.
pub fn unsigned<R: ByteSource + ?Sized>(r: &mut R) -> (res: Result<u128, Error>)
    ensures
        match unsigned_outcome(old(r).pending()) {
            Outcome::Value { value, len } => res is Ok && res->Ok_0 == value && final(r).pending()
                == old(r).pending().skip(len as int),
            Outcome::Overflow { len } => res matches Err(Error::Overflow) && final(r).pending()
                == old(r).pending().skip(len as int),
            Outcome::Truncated => res matches Err(Error::IoError(_)) && final(r).pending().len()
                == 0,
        },
{
    let ghost s = r.pending();
    let ghost mut i: nat = 0;
    let mut result: u128 = 0;
    let mut shift: u32 = 0;
    proof {
        lemma_pow2_group(0);
        assert(s.skip(0) =~= s);
        assert(s.take(0) =~= Seq::<u8>::empty());
    }
    loop
        invariant
            s == old(r).pending(),
            i <= LAST_GROUP,
            shift == 7 * i,
            i <= s.len(),
            r.pending() == s.skip(i as int),
            terminal_from(s, 0) == terminal_from(s, i),
            result == digits(s.take(i as int)),
        decreases r.pending().len(),
    {
        let byte = match r.read_byte() {
            Ok(b) => b,
            Err(e) => {
                return Err(Error::IoError(e));
            },
        };
        proof {
            assert(byte == s[i as int]);
            assert(r.pending() == s.skip((i + 1) as int)) by {
                assert(s.skip(i as int).drop_first() =~= s.skip((i + 1) as int));
            }
            lemma_continues(byte);
        }

        if shift == 126 && byte != 0x00 && byte != 0x01 {
            let ghost mut j: nat = i;
            let mut last = byte;
            while last & CONTINUATION_BIT != 0
                invariant
                    s == old(r).pending(),
                    j < s.len(),
                    last == s[j as int],
                    r.pending() == s.skip((j + 1) as int),
                    terminal_from(s, 0) == terminal_from(s, j),
                    LAST_GROUP <= j,
                    j == LAST_GROUP ==> last == s[LAST_GROUP as int],
                decreases r.pending().len(),
            {
                proof {
                    lemma_continues(last);
                }
                last = match r.read_byte() {
                    Ok(b) => b,
                    Err(e) => {
                        return Err(Error::IoError(e));
                    },
                };
                proof {
                    assert(s.skip((j + 1) as int).drop_first() =~= s.skip((j + 2) as int));
                    j = j + 1;
                }
            }
            proof {
                lemma_continues(last);
            }
            return Err(Error::Overflow);
        }

        let low_bits = low_bits_of_byte(byte) as u128;
        proof {
            lemma_digits_push(s, i);
            lemma_digits_bound(s.take(i as int));
            lemma_add_group(result, low_bits, i);
        }
        result |= low_bits << shift;

        if byte & CONTINUATION_BIT == 0 {
            return Ok(result);
        }

        shift += 7;
        proof {
            i = i + 1;
        }
    }
}

/// Reads one signed (two's complement) value.
///
/// On success the source is left just past the value's last byte. When the
/// value does not fit in 128 bits, the rest of the value is still consumed,
/// so that the next read starts at the next value.
pub fn signed<R: ByteSource + ?Sized>(r: &mut R) -> (res: Result<i128, Error>)
    ensures
        match signed_outcome(old(r).pending()) {
            Outcome::Value { value, len } => res is Ok && res->Ok_0 == value && final(r).pending()
                == old(r).pending().skip(len as int),
            Outcome::Overflow { len } => res matches Err(Error::Overflow) && final(r).pending()
                == old(r).pending().skip(len as int),
            Outcome::Truncated => res matches Err(Error::IoError(_)) && final(r).pending().len()
                == 0,
        },
{
    let ghost s = r.pending();
    let ghost mut i: nat = 0;
    // The groups are gathered as bits of an unsigned word, which is read as
    // two's complement once the sign is settled.
    let mut result: u128 = 0;
    let mut shift: u32 = 0;
    let size: u32 = 128;
    let mut byte: u8;
    proof {
        lemma_pow2_group(0);
        assert(s.skip(0) =~= s);
        assert(s.take(0) =~= Seq::<u8>::empty());
    }
    loop
        invariant_except_break
            i <= LAST_GROUP,
            shift == 7 * i,
            r.pending() == s.skip(i as int),
            terminal_from(s, 0) == terminal_from(s, i),
            result == digits(s.take(i as int)),
        invariant
            s == old(r).pending(),
            i <= s.len(),
        ensures
            i < s.len(),
            i <= LAST_GROUP,
            terminal_from(s, 0) == Some(i),
            byte == s[i as int],
            r.pending() == s.skip((i + 1) as int),
            shift == 7 * (i + 1),
            i < LAST_GROUP ==> result == digits(s.take((i + 1) as int)),
            i == LAST_GROUP ==> (byte == 0 || byte == 0x7f) && result == (digits(
                s.take(LAST_GROUP as int),
            ) as u128) | ((byte as u128) << 126u128),
        decreases r.pending().len(),
    {
        byte = match r.read_byte() {
            Ok(b) => b,
            Err(e) => {
                return Err(Error::IoError(e));
            },
        };
        proof {
            assert(byte == s[i as int]);
            assert(r.pending() == s.skip((i + 1) as int)) by {
                assert(s.skip(i as int).drop_first() =~= s.skip((i + 1) as int));
            }
            lemma_continues(byte);
        }

        if shift == 126 && byte != 0x00 && byte != 0x7f {
            let ghost mut j: nat = i;
            let mut last = byte;
            while last & CONTINUATION_BIT != 0
                invariant
                    s == old(r).pending(),
                    j < s.len(),
                    last == s[j as int],
                    r.pending() == s.skip((j + 1) as int),
                    terminal_from(s, 0) == terminal_from(s, j),
                    LAST_GROUP <= j,
                    j == LAST_GROUP ==> last == s[LAST_GROUP as int],
                decreases r.pending().len(),
            {
                proof {
                    lemma_continues(last);
                }
                last = match r.read_byte() {
                    Ok(b) => b,
                    Err(e) => {
                        return Err(Error::IoError(e));
                    },
                };
                proof {
                    assert(s.skip((j + 1) as int).drop_first() =~= s.skip((j + 2) as int));
                    j = j + 1;
                }
            }
            proof {
                lemma_continues(last);
            }
            return Err(Error::Overflow);
        }

        let low_bits = low_bits_of_byte(byte) as u128;
        proof {
            lemma_digits_push(s, i);
            lemma_digits_bound(s.take(i as int));
            if i < LAST_GROUP {
                lemma_add_group(result, low_bits, i);
            }
        }
        result |= low_bits << shift;
        shift += 7;

        if byte & CONTINUATION_BIT == 0 {
            break;
        }
        proof {
            i = i + 1;
        }
    }

    proof {
        lemma_digits_push(s, i);
        lemma_digits_bound(s.take(i as int));
        lemma_sign_bit(byte);
    }
    if shift < size && (SIGN_BIT & byte) == SIGN_BIT {
        // Sign extend the result.
        proof {
            lemma_digits_bound(s.take((i + 1) as int));
            lemma_sign_extend(result, i + 1);
        }
        result |= !0 << shift;
        return Ok(result as i128);
    }
    proof {
        lemma_signed_fits(s, i, result, byte);
    }
    Ok(result as i128)
}

/// The sign bit, read with a mask.
proof fn lemma_sign_bit(b: u8)
    ensures
        ((SIGN_BIT & b) == SIGN_BIT) == (b % 128 >= 64),
{
    assert(((0x40u8 & b) == 0x40u8) == (b % 128 >= 64)) by (bit_vector);
}

/// Filling the bits from position 7n up with ones subtracts 2^(7n).
proof fn lemma_sign_extend(acc: u128, n: nat)
    requires
        1 <= n <= LAST_GROUP,
        acc < pow2(7 * n),
    ensures
        (acc | (!0u128 << (7 * n) as u32)) as i128 == acc - pow2(7 * n),
{
    lemma_shl_group(1, n);
    let s = (7 * n) as u32;
    let t = (7 * n) as u128;
    assert(1u128 << t == 1u128 << s) by (bit_vector)
        requires t == s as u128, s < 128;
    assert(acc < (1u128 << s) ==> (acc | (!0u128 << s)) as i128 == acc - (1u128 << s)) by (bit_vector)
        requires 7 <= s <= 126;
}

/// The value read, when no sign extension applies, is what the groups stand
/// for in two's complement.
proof fn lemma_signed_fits(s: Seq<u8>, i: nat, result: u128, byte: u8)
    requires
        i < s.len(),
        i <= LAST_GROUP,
        byte == s[i as int],
        i < LAST_GROUP ==> result == digits(s.take((i + 1) as int)) && byte % 128 < 64,
        i == LAST_GROUP ==> (byte == 0 || byte == 0x7f) && result == (digits(
            s.take(LAST_GROUP as int),
        ) as u128) | ((byte as u128) << 126u128),
        digits(s.take((i + 1) as int)) == digits(s.take(i as int)) + low7(s[i as int]) * pow2(7 * i),
        digits(s.take(i as int)) < pow2(7 * i),
    ensures
        result as i128 == signed_digits(s.take((i + 1) as int)),
{
    let g = s.take((i + 1) as int);
    assert(g.last() == byte);
    lemma_pow2_128();
    let d = digits(s.take(i as int));
    if i < LAST_GROUP {
        let p = pow2(7 * i);
        assert(pow2(7 * i) <= pow2(119)) by {
            if i < 17 {
                vstd::arithmetic::power2::lemma_pow2_strictly_increases(7 * i, 119);
            }
        }
        assert(d + low7(byte) * p < 64 * p) by (nonlinear_arith)
            requires d < p, low7(byte) < 64;
        assert(64 * p <= 64 * pow2(119)) by (nonlinear_arith)
            requires p <= pow2(119);
        assert(result < 0x8000_0000_0000_0000_0000_0000_0000_0000);
        assert(result < 0x8000_0000_0000_0000_0000_0000_0000_0000 ==> result as i128 == result) by (bit_vector);
    } else {
        assert(7 * i == 126);
        let acc = digits(s.take(LAST_GROUP as int)) as u128;
        lemma_pow2_group(LAST_GROUP as nat);
        assert(7 * 19 == 126 + 7);
        if byte == 0 {
            assert(acc < 0x4000_0000_0000_0000_0000_0000_0000_0000 ==> (acc | (0u128 << 126u128)) as i128 == acc) by (bit_vector);
        } else {
            assert(acc < 0x4000_0000_0000_0000_0000_0000_0000_0000 ==> (acc | (0x7fu128 << 126u128)) as i128
                == acc - 0x4000_0000_0000_0000_0000_0000_0000_0000) by (bit_vector);
        }
    }
}

/// The continuation bit, read with a mask.
proof fn lemma_continues(b: u8)
    ensures
        (b & CONTINUATION_BIT != 0) == (b >= 128),
{
    assert((b & 0x80u8 != 0) == (b >= 128)) by (bit_vector);
}

/// Shifting a group into place multiplies it by 2^(7i).
proof fn lemma_shl_group(x: u128, i: nat)
    requires
        i <= LAST_GROUP,
        x < 128,
        i == LAST_GROUP ==> x <= 1,
    ensures
        x << (7 * i) as u128 == x * pow2(7 * i),
        x * pow2(7 * i) < pow2(7 * i + 7),
    decreases i,
{
    lemma_pow2_group(i);
    assert(7 * (i + 1) == 7 * i + 7);
    assert(x * pow2(7 * i) < 128 * pow2(7 * i)) by (nonlinear_arith)
        requires x < 128, pow2(7 * i) > 0;
    if i == 0 {
        assert(x << 0u128 == x) by (bit_vector);
        vstd::arithmetic::power2::lemma2_to64();
        assert((7 * i) as u128 == 0u128);
        assert(7 * i == 0);
        assert(pow2(7 * i) == 1);
        assert(x * pow2(7 * i) == x) by (nonlinear_arith)
            requires pow2(7 * i) == 1;
        assert(x << (7 * i) as u128 == x);
    } else {
        let m = (i - 1) as nat;
        lemma_shl_group(x, m);
        lemma_pow2_group(m);
        lemma_pow2_128();
        let s = (7 * m) as u128;
        let y = x << s;
        assert(7 * i == 7 * m + 7);
        let t = (7 * i) as u128;
        assert(t == s + 7);
        assert(x << t == y << 7u128) by (bit_vector)
            requires s < 126, t == s + 7, y == x << s;
        assert(y < 0x200_0000_0000_0000_0000_0000_0000_0000 ==> y << 7u128 == y * 128)
            by (bit_vector);
        assert(x * pow2(7 * i) == (x * pow2(7 * m)) * 128) by (nonlinear_arith)
            requires pow2(7 * i) == 128 * pow2(7 * m);
        assert(y <= pow2(119)) by {
            if m < 16 {
                vstd::arithmetic::power2::lemma_pow2_strictly_increases(7 * m + 7, 119);
            } else if m == 17 {
                assert(7 * m == 119);
                assert(x * pow2(119) <= pow2(119)) by (nonlinear_arith)
                    requires x <= 1;
            }
        }
        assert(y << 7u128 == y * 128);
        assert(x << t == x * pow2(7 * i));
    }
}

/// Putting group `i` on top of the first `i` groups adds it at its position.
proof fn lemma_add_group(acc: u128, low: u128, i: nat)
    requires
        i <= LAST_GROUP,
        low < 128,
        i == LAST_GROUP ==> low <= 1,
        acc < pow2(7 * i),
    ensures
        acc | (low << (7 * i) as u128) == acc + low * pow2(7 * i),
        acc + low * pow2(7 * i) < pow2(7 * i + 7),
{
    lemma_shl_group(low, i);
    lemma_shl_group(1, i);
    let s = (7 * i) as u128;
    assert(acc < (1u128 << s) ==> acc | (low << s) == acc + (low << s)) by (bit_vector)
        requires s < 128;
    lemma_pow2_group(i);
    assert(acc + low * pow2(7 * i) < pow2(7 * i + 7)) by (nonlinear_arith)
        requires acc < pow2(7 * i), low < 128, pow2(7 * i + 7) == 128 * pow2(7 * i);
}

} // verus!
