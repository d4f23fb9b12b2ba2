//! Mathematical description of the LEB128 wire format.
use vstd::prelude::*;
use vstd::arithmetic::power2::{lemma2_to64, lemma2_to64_rest, lemma_pow2_adds, lemma_pow2_pos, pow2};

verus! {

/// Number of groups that a 128-bit value may span; the group at index
/// `LAST_GROUP` carries bits 126 and up.
pub const LAST_GROUP: usize = 18;

/// The payload of an encoded byte.
pub open spec fn low7(b: u8) -> nat {
    (b % 128) as nat
}

/// Whether an encoded byte is followed by another byte of the same value.
pub open spec fn continues(b: u8) -> bool {
    b >= 128
}

/// The number that a run of groups stands for, least significant group first.
pub open spec fn digits(s: Seq<u8>) -> nat
    decreases s.len(),
{
    if s.len() == 0 {
        0
    } else {
        low7(s[0]) + 128 * digits(s.drop_first())
    }
}

/// The number that a run of groups stands for in two's complement: when bit 6
/// of the last group is set, the run is extended with ones.
pub open spec fn signed_digits(s: Seq<u8>) -> int {
    if s.len() > 0 && low7(s.last()) >= 64 {
        digits(s) - pow2(7 * s.len())
    } else {
        digits(s) as int
    }
}

/// The shortest unsigned encoding of `v`.
#[verifier::opaque]
pub open spec fn unsigned_bytes(v: nat) -> Seq<u8>
    decreases v,
{
    if v < 128 {
        seq![v as u8]
    } else {
        seq![(v % 128 + 128) as u8] + unsigned_bytes(v / 128)
    }
}

/// The magnitude used to bound the recursion of `signed_bytes`.
pub open spec fn magnitude(v: int) -> nat {
    if v < 0 { (-v) as nat } else { v as nat }
}

/// The shortest signed (two's complement) encoding of `v`.
#[verifier::opaque]
pub open spec fn signed_bytes(v: int) -> Seq<u8>
    decreases magnitude(v),
{
    if -64 <= v < 64 {
        seq![(v % 128) as u8]
    } else {
        seq![(v % 128 + 128) as u8] + signed_bytes(v / 128)
    }
}

/// Index of the first byte at or after `i` whose continuation bit is clear.
pub open spec fn terminal_from(s: Seq<u8>, i: nat) -> Option<nat>
    decreases s.len() - i,
{
    if i >= s.len() {
        None
    } else if !continues(s[i as int]) {
        Some(i)
    } else {
        terminal_from(s, i + 1)
    }
}

/// What reading one value from a stream that holds `s` comes to.
pub enum Outcome {
    /// A value, taken from the first `len` bytes.
    Value { value: int, len: nat },
    /// The value does not fit; its `len` bytes have been consumed.
    Overflow { len: nat },
    /// The stream ended before the last byte of the value.
    Truncated,
}

/// Reading an unsigned value: the byte at `LAST_GROUP` may only be 0x00 or 0x01.
pub open spec fn unsigned_outcome(s: Seq<u8>) -> Outcome {
    match terminal_from(s, 0) {
        None => Outcome::Truncated,
        Some(j) => if j < LAST_GROUP || (j == LAST_GROUP && s[j as int] <= 1) {
            Outcome::Value { value: digits(s.take((j + 1) as int)) as int, len: j + 1 }
        } else {
            Outcome::Overflow { len: j + 1 }
        },
    }
}

/// Reading a signed value: the byte at `LAST_GROUP` may only be 0x00 or 0x7f.
pub open spec fn signed_outcome(s: Seq<u8>) -> Outcome {
    match terminal_from(s, 0) {
        None => Outcome::Truncated,
        Some(j) => if j < LAST_GROUP || (j == LAST_GROUP && (s[j as int] == 0 || s[j as int] == 0x7f)) {
            Outcome::Value { value: signed_digits(s.take((j + 1) as int)), len: j + 1 }
        } else {
            Outcome::Overflow { len: j + 1 }
        },
    }
}

/// 2^(7(n+1)) is 128 times 2^(7n).
pub proof fn lemma_pow2_group(n: nat)
    ensures
        pow2(7 * (n + 1)) == 128 * pow2(7 * n),
        pow2(7 * n) > 0,
{
    lemma_pow2_adds(7 * n, 7);
    lemma2_to64();
    assert(7 * (n + 1) == 7 * n + 7) by (nonlinear_arith);
    lemma_pow2_pos(7 * n);
}

/// 2^128, the first power of two that no 128-bit value reaches.
pub proof fn lemma_pow2_128()
    ensures
        pow2(128) == 0x1_0000_0000_0000_0000_0000_0000_0000_0000,
        pow2(126) == 0x4000_0000_0000_0000_0000_0000_0000_0000,
        pow2(119) == 0x80_0000_0000_0000_0000_0000_0000_0000,
        pow2(127) == 0x8000_0000_0000_0000_0000_0000_0000_0000,
        pow2(7 * 19) == 0x20_0000_0000_0000_0000_0000_0000_0000_0000,
{
    lemma2_to64();
    lemma2_to64_rest();
    lemma_pow2_adds(64, 64);
    lemma_pow2_adds(64, 62);
    lemma_pow2_adds(64, 55);
    lemma_pow2_adds(64, 63);
    lemma_pow2_adds(128, 5);
}

/// The unsigned encoding of `v` is at most `n` bytes long exactly when `v`
/// fits in `n` groups.
pub proof fn lemma_unsigned_len(v: nat, n: nat)
    requires
        n >= 1,
    ensures
        (unsigned_bytes(v).len() <= n) == (v < pow2(7 * n)),
        unsigned_bytes(v).len() >= 1,
    decreases v,
{
    reveal(unsigned_bytes);
    let m = (n - 1) as nat;
    lemma_pow2_group(m);
    assert(7 * n == 7 * m + 7);
    let p = pow2(7 * m);
    if v >= 128 {
        assert(unsigned_bytes(v).len() == 1 + unsigned_bytes(v / 128).len());
        if n >= 2 {
            lemma_unsigned_len(v / 128, m);
        } else {
            lemma2_to64();
        }
        assert((v / 128 < p) == (v < 128 * p)) by (nonlinear_arith);
    } else {
        assert(unsigned_bytes(v).len() == 1);
    }
}

/// Splitting a sequence after position `k`, where the rest starts with `b`.
pub proof fn lemma_skip_step(s: Seq<u8>, k: int, b: u8, tail: Seq<u8>)
    requires
        0 <= k < s.len(),
        s.skip(k) == seq![b] + tail,
    ensures
        s[k] == b,
        s.skip(k + 1) == tail,
        s.take(k + 1) == s.take(k).push(b),
{
    assert(s.skip(k)[0] == s[k]);
    assert(s.skip(k + 1) =~= s.skip(k).drop_first());
    assert(s.skip(k).drop_first() =~= tail);
    assert(s.take(k + 1) =~= s.take(k).push(b));
}

/// The signed encoding of `v` is at most `n` bytes long when `v` fits in
/// `n` groups of two's complement.
pub proof fn lemma_signed_len(v: int, n: nat)
    requires
        n >= 1,
        -64 * pow2(7 * (n - 1) as nat) <= v < 64 * pow2(7 * (n - 1) as nat),
    ensures
        1 <= signed_bytes(v).len() <= n,
    decreases n,
{
    reveal(signed_bytes);
    if !(-64 <= v < 64) {
        let m = (n - 1) as nat;
        if m == 0 {
            lemma2_to64();
        } else {
            lemma_pow2_group((m - 1) as nat);
            assert(7 * m == 7 * (m - 1) as nat + 7);
            let p = pow2(7 * (m - 1) as nat);
            let a = v / 128;
            assert(v == 128 * a + v % 128 && 0 <= v % 128 < 128);
            assert(-64 * p <= a < 64 * p);
            lemma_signed_len(a, m);
        }
    } else {
        assert(signed_bytes(v).len() == 1);
    }
}

/// Adding one more group to a run adds its payload at the next position.
pub proof fn lemma_digits_push(s: Seq<u8>, i: nat)
    requires
        i < s.len(),
    ensures
        digits(s.take((i + 1) as int)) == digits(s.take(i as int)) + low7(s[i as int]) * pow2(7 * i),
    decreases i,
{
    lemma_pow2_group(i);
    if i == 0 {
        lemma2_to64();
        assert(s.take(1).drop_first() =~= Seq::<u8>::empty());
        assert(s.take(0) =~= Seq::<u8>::empty());
    } else {
        let t = s.drop_first();
        lemma_digits_push(t, (i - 1) as nat);
        assert(s.take((i + 1) as int).drop_first() =~= t.take(i as int));
        assert(s.take(i as int).drop_first() =~= t.take(i - 1));
        lemma_pow2_group((i - 1) as nat);
        assert(7 * i == 7 * (i - 1) as nat + 7);
        let p = pow2(7 * (i - 1) as nat);
        let x = low7(s[i as int]);
        assert(128 * (x * p) == x * (128 * p)) by (nonlinear_arith);
    }
}

/// A run of `n` groups stands for a number below 2^(7n).
pub proof fn lemma_digits_bound(s: Seq<u8>)
    ensures
        digits(s) < pow2(7 * s.len()),
    decreases s.len(),
{
    if s.len() == 0 {
        lemma2_to64();
    } else {
        let t = s.drop_first();
        lemma_digits_bound(t);
        lemma_pow2_group(t.len());
        assert(7 * s.len() == 7 * t.len() + 7);
    }
}

} // verus!
