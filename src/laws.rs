//! Properties of the wire format that hold across encoders and decoders.
use vstd::prelude::*;
use vstd::arithmetic::power2::pow2;
use crate::model::{
    continues, digits, lemma_digits_bound, lemma_digits_push, lemma_pow2_128, lemma_pow2_group,
    lemma_signed_len, lemma_unsigned_len, low7, signed_bytes, signed_outcome,
    terminal_from, unsigned_bytes, unsigned_outcome, Outcome, LAST_GROUP,
};

verus! {

/// Every byte of an unsigned encoding but the last has its continuation bit
/// set; the last does not.
pub proof fn lemma_unsigned_flags(v: nat)
    ensures
        forall|k: int| 0 <= k < unsigned_bytes(v).len() - 1 ==> continues(#[trigger] unsigned_bytes(v)[k]),
        !continues(unsigned_bytes(v).last()),
    decreases v,
{
    reveal(unsigned_bytes);
    if v >= 128 {
        let t = unsigned_bytes(v / 128);
        lemma_unsigned_flags(v / 128);
        lemma_unsigned_len(v / 128, 1);
        assert forall|k: int| 0 <= k < unsigned_bytes(v).len() - 1 implies continues(
            #[trigger] unsigned_bytes(v)[k],
        ) by {
            if k > 0 {
                assert(unsigned_bytes(v)[k] == t[k - 1]);
            }
        }
        assert(unsigned_bytes(v).last() == t.last());
    }
}

/// Every byte of a signed encoding but the last has its continuation bit set;
/// the last does not.
pub proof fn lemma_signed_flags(v: int)
    ensures
        forall|k: int| 0 <= k < signed_bytes(v).len() - 1 ==> continues(#[trigger] signed_bytes(v)[k]),
        !continues(signed_bytes(v).last()),
    decreases crate::model::magnitude(v),
{
    reveal(signed_bytes);
    if !(-64 <= v < 64) {
        let t = signed_bytes(v / 128);
        lemma_signed_flags(v / 128);
        assert(t.len() >= 1) by {
            reveal(signed_bytes);
        }
        assert forall|k: int| 0 <= k < signed_bytes(v).len() - 1 implies continues(
            #[trigger] signed_bytes(v)[k],
        ) by {
            if k > 0 {
                assert(signed_bytes(v)[k] == t[k - 1]);
            }
        }
        assert(signed_bytes(v).last() == t.last());
    }
}

/// The first byte without a continuation bit is found where it stands.
proof fn lemma_terminal_at(s: Seq<u8>, i: nat, j: nat)
    requires
        i <= j < s.len(),
        forall|k: int| i <= k < j ==> continues(#[trigger] s[k]),
        !continues(s[j as int]),
    ensures
        terminal_from(s, i) == Some(j),
    decreases j - i,
{
    if i < j {
        lemma_terminal_at(s, i + 1, j);
    }
}

/// Where the first byte without a continuation bit stands.
pub proof fn lemma_terminal_facts(s: Seq<u8>, i: nat)
    ensures
        terminal_from(s, i) matches Some(j) ==> i <= j < s.len() && !continues(s[j as int]) && (
        forall|k: int| i <= k < j ==> continues(#[trigger] s[k])),
        terminal_from(s, i) is None ==> forall|k: int| i <= k < s.len() ==> continues(
            #[trigger] s[k],
        ),
    decreases s.len() - i,
{
    if i < s.len() && continues(s[i as int]) {
        lemma_terminal_facts(s, i + 1);
    }
}

/// The groups of an unsigned encoding stand for the value encoded.
proof fn lemma_unsigned_digits(v: nat)
    ensures
        digits(unsigned_bytes(v)) == v,
    decreases v,
{
    reveal(unsigned_bytes);
    let e = unsigned_bytes(v);
    if v >= 128 {
        lemma_unsigned_digits(v / 128);
        assert(e.drop_first() =~= unsigned_bytes(v / 128));
        assert(e[0] == (v % 128 + 128) as u8);
        assert(low7(e[0]) == v % 128);
    } else {
        assert(e.drop_first() =~= Seq::<u8>::empty());
        assert(e[0] == v as u8);
    }
    assert(digits(e) == low7(e[0]) + 128 * digits(e.drop_first()));
}

/// The groups of a signed encoding stand for the value encoded, in two's
/// complement: as an unsigned number they are `v` modulo 2^(7n), and bit 6 of
/// the last group is the sign.
proof fn lemma_signed_digits(v: int)
    ensures
        digits(signed_bytes(v)) == if v < 0 { v + pow2(7 * signed_bytes(v).len()) } else { v },
        (low7(signed_bytes(v).last()) >= 64) == (v < 0),
        signed_bytes(v).len() >= 1,
    decreases crate::model::magnitude(v),
{
    reveal(signed_bytes);
    vstd::arithmetic::power2::lemma2_to64();
    if !(-64 <= v < 64) {
        let a = v / 128;
        let t = signed_bytes(a);
        lemma_signed_digits(a);
        assert(signed_bytes(v).drop_first() =~= t);
        assert(signed_bytes(v).last() == t.last());
        assert(signed_bytes(v)[0] == (v % 128 + 128) as u8);
        assert(low7(signed_bytes(v)[0]) == v % 128);
        assert(digits(signed_bytes(v)) == v % 128 + 128 * digits(t));
        lemma_pow2_group(t.len());
        assert(7 * signed_bytes(v).len() == 7 * t.len() + 7);
        assert(v == 128 * a + v % 128);
    } else {
        assert(signed_bytes(v).drop_first() =~= Seq::<u8>::empty());
        assert(7 * signed_bytes(v).len() == 7);
        let e = signed_bytes(v);
        assert(e[0] == (v % 128) as u8);
        assert(low7(e[0]) == v % 128);
        assert(digits(e.drop_first()) == 0);
        assert(digits(e) == low7(e[0]) + 128 * digits(e.drop_first()));
    }
}

/// Decoding what the unsigned encoder wrote gives the value back and stops
/// right after it, whatever follows. This holds for every value below 2^127:
/// the decoder takes at most one bit from the nineteenth group.
pub proof fn lemma_unsigned_round_trip(v: nat, rest: Seq<u8>)
    requires
        v < pow2(127),
    ensures
        unsigned_outcome(unsigned_bytes(v) + rest) == (Outcome::Value {
            value: v as int,
            len: unsigned_bytes(v).len(),
        }),
{
    let e = unsigned_bytes(v);
    let s = e + rest;
    let n = e.len();
    lemma_pow2_128();
    lemma_unsigned_len(v, 19);
    vstd::arithmetic::power2::lemma_pow2_strictly_increases(127, 133);
    lemma_unsigned_flags(v);
    assert forall|k: int| 0 <= k < n - 1 implies continues(#[trigger] s[k]) by {
        assert(s[k] == e[k]);
    }
    lemma_terminal_at(s, 0, (n - 1) as nat);
    assert(s.take(n as int) =~= e);
    lemma_unsigned_digits(v);
    if n == 19 {
        lemma_digits_push(e, 18);
        lemma_digits_bound(e.take(18));
        assert(e.take(19) =~= e);
        assert(7 * 18 == 126);
        assert(low7(e[18]) <= 1) by (nonlinear_arith)
            requires
                digits(e) == digits(e.take(18)) + low7(e[18]) * pow2(126),
                digits(e) < pow2(127),
                pow2(127) == 2 * pow2(126),
                pow2(126) > 0,
        ;
    }
}

/// Decoding what the signed encoder wrote gives the value back and stops
/// right after it, whatever follows. This holds for every value of 127
/// significant bits, that is in [-2^126, 2^126): the decoder takes only sign
/// bits from the nineteenth group.
pub proof fn lemma_signed_round_trip(v: int, rest: Seq<u8>)
    requires
        -pow2(126) <= v < pow2(126),
    ensures
        signed_outcome(signed_bytes(v) + rest) == (Outcome::Value {
            value: v,
            len: signed_bytes(v).len(),
        }),
{
    let e = signed_bytes(v);
    let s = e + rest;
    let n = e.len();
    lemma_pow2_128();
    lemma_pow2_group(18);
    assert(7 * 19 == 7 * 18 + 7);
    lemma_signed_len(v, 19);
    lemma_signed_flags(v);
    assert forall|k: int| 0 <= k < n - 1 implies continues(#[trigger] s[k]) by {
        assert(s[k] == e[k]);
    }
    lemma_terminal_at(s, 0, (n - 1) as nat);
    assert(s.take(n as int) =~= e);
    lemma_signed_digits(v);
    if n == 19 {
        lemma_digits_push(e, 18);
        lemma_digits_bound(e.take(18));
        assert(e.take(19) =~= e);
        assert(7 * 18 == 126);
        let d = digits(e.take(18));
        let x = low7(e[18]);
        assert(e[18] == x);
        if v < 0 {
            assert(x == 0x7f) by (nonlinear_arith)
                requires
                    d + x * pow2(126) == v + 128 * pow2(126),
                    v >= -pow2(126),
                    0 <= d < pow2(126),
                    x < 128,
            ;
        } else {
            assert(x == 0) by (nonlinear_arith)
                requires
                    d + x * pow2(126) == v,
                    v < pow2(126),
                    0 <= d,
                    x >= 0,
            ;
        }
    }
}

/// Minimal length: the unsigned encoding of `v` is at most `n` bytes long
/// exactly when `v < 2^(7n)`, so its length is the number of seven-bit groups
/// that `v` needs, and one for zero.
pub proof fn lemma_unsigned_minimal_len(v: nat, n: nat)
    requires
        n >= 1,
    ensures
        (unsigned_bytes(v).len() <= n) == (v < pow2(7 * n)),
        unsigned_bytes(v).len() >= 1,
{
    lemma_unsigned_len(v, n);
}

/// No encoding shorter than the encoder's decodes to the same value.
pub proof fn lemma_unsigned_no_shorter(s: Seq<u8>, value: int, len: nat)
    requires
        unsigned_outcome(s) == (Outcome::Value { value, len }),
    ensures
        unsigned_bytes(value as nat).len() <= len,
{
    lemma_terminal_facts(s, 0);
    lemma_digits_bound(s.take(len as int));
    lemma_unsigned_len(value as nat, len);
}

/// Two values written back to back are read back in order, each read taking
/// exactly its own bytes.
pub proof fn lemma_unsigned_back_to_back(a: nat, b: nat)
    requires
        a < pow2(127),
        b < pow2(127),
    ensures
        ({
            let s = unsigned_bytes(a) + unsigned_bytes(b);
            &&& unsigned_outcome(s) == (Outcome::Value {
                value: a as int,
                len: unsigned_bytes(a).len(),
            })
            &&& unsigned_outcome(s.skip(unsigned_bytes(a).len() as int)) == (Outcome::Value {
                value: b as int,
                len: unsigned_bytes(b).len(),
            })
        }),
{
    let s = unsigned_bytes(a) + unsigned_bytes(b);
    lemma_unsigned_round_trip(a, unsigned_bytes(b));
    lemma_unsigned_round_trip(b, Seq::empty());
    assert(s.skip(unsigned_bytes(a).len() as int) =~= unsigned_bytes(b) + Seq::empty());
}

/// Two signed values written back to back are read back in order, each read
/// taking exactly its own bytes.
pub proof fn lemma_signed_back_to_back(a: int, b: int)
    requires
        -pow2(126) <= a < pow2(126),
        -pow2(126) <= b < pow2(126),
    ensures
        ({
            let s = signed_bytes(a) + signed_bytes(b);
            &&& signed_outcome(s) == (Outcome::Value { value: a, len: signed_bytes(a).len() })
            &&& signed_outcome(s.skip(signed_bytes(a).len() as int)) == (Outcome::Value {
                value: b,
                len: signed_bytes(b).len(),
            })
        }),
{
    let s = signed_bytes(a) + signed_bytes(b);
    lemma_signed_round_trip(a, signed_bytes(b));
    lemma_signed_round_trip(b, Seq::empty());
    assert(s.skip(signed_bytes(a).len() as int) =~= signed_bytes(b) + Seq::empty());
}

/// A value whose first nineteen bytes all carry the continuation bit does not
/// fit in 128 bits: both decoders report overflow once its last byte is read.
pub proof fn lemma_overflow_detected(s: Seq<u8>, j: nat)
    requires
        LAST_GROUP < j < s.len(),
        forall|k: int| 0 <= k < j ==> continues(#[trigger] s[k]),
        !continues(s[j as int]),
    ensures
        unsigned_outcome(s) == (Outcome::Overflow { len: j + 1 }),
        signed_outcome(s) == (Outcome::Overflow { len: j + 1 }),
{
    lemma_terminal_at(s, 0, j);
}

/// After an overflow the decoders stand at the first byte of the next value,
/// which then reads as written.
pub proof fn lemma_overflow_resync(bad: Seq<u8>, v: nat)
    requires
        LAST_GROUP + 1 < bad.len(),
        forall|k: int| 0 <= k < bad.len() - 1 ==> continues(#[trigger] bad[k]),
        !continues(bad.last()),
        v < pow2(127),
    ensures
        unsigned_outcome(bad + unsigned_bytes(v)) == (Outcome::Overflow { len: bad.len() }),
        (bad + unsigned_bytes(v)).skip(bad.len() as int) == unsigned_bytes(v),
        unsigned_outcome(unsigned_bytes(v)) == (Outcome::Value {
            value: v as int,
            len: unsigned_bytes(v).len(),
        }),
{
    let s = bad + unsigned_bytes(v);
    assert forall|k: int| 0 <= k < bad.len() - 1 implies continues(#[trigger] s[k]) by {
        assert(s[k] == bad[k]);
    }
    assert(s[bad.len() - 1] == bad.last());
    lemma_overflow_detected(s, (bad.len() - 1) as nat);
    assert(s.skip(bad.len() as int) =~= unsigned_bytes(v));
    lemma_unsigned_round_trip(v, Seq::empty());
    assert(unsigned_bytes(v) + Seq::empty() =~= unsigned_bytes(v));
}

/// After an overflow the signed decoder stands at the first byte of the next
/// value, which then reads as written.
pub proof fn lemma_signed_overflow_resync(bad: Seq<u8>, v: int)
    requires
        LAST_GROUP + 1 < bad.len(),
        forall|k: int| 0 <= k < bad.len() - 1 ==> continues(#[trigger] bad[k]),
        !continues(bad.last()),
        -pow2(126) <= v < pow2(126),
    ensures
        signed_outcome(bad + signed_bytes(v)) == (Outcome::Overflow { len: bad.len() }),
        (bad + signed_bytes(v)).skip(bad.len() as int) == signed_bytes(v),
        signed_outcome(signed_bytes(v)) == (Outcome::Value { value: v, len: signed_bytes(v).len() }),
{
    let s = bad + signed_bytes(v);
    assert forall|k: int| 0 <= k < bad.len() - 1 implies continues(#[trigger] s[k]) by {
        assert(s[k] == bad[k]);
    }
    assert(s[bad.len() - 1] == bad.last());
    lemma_overflow_detected(s, (bad.len() - 1) as nat);
    assert(s.skip(bad.len() as int) =~= signed_bytes(v));
    lemma_signed_round_trip(v, Seq::empty());
    assert(signed_bytes(v) + Seq::empty() =~= signed_bytes(v));
}

} // verus!
