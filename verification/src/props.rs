//! Laws of the two decoders, stated over the stream model that their
//! contracts use: a field of set bits reads as the all-ones value, a
//! zero-width field reads nothing, and the non-symmetric code round-trips
//! through a companion encoder.

use vstd::prelude::*;
use crate::bits::{
    be_val, be_bits, pow2, floor_log2, lemma_be_val_push, lemma_be_val_be_bits,
    lemma_be_bits_len, lemma_take_succ, lemma_pow2_pos, lemma_floor_log2_bounds,
};
use crate::bitio::{ns_width, ns_short_count, ns_decode};

verus! {

/// The codeword the non-symmetric code assigns to `value` in `0 .. n`: a
/// value below the short-codeword count is written as a `(w-1)`-bit field;
/// any other value, plus the short-codeword count, as a `w`-bit field.
pub open spec fn ns_encode(n: nat, value: nat) -> Seq<u8>
    recommends
        1 <= n,
        value < n,
{
    let w = ns_width(n);
    let m = ns_short_count(n);
    if value < m {
        be_bits(value, (w - 1) as nat)
    } else {
        be_bits((value + m) as nat, w)
    }
}

/// Law: a field of set bits reads as the all-ones value. A stream whose
/// first `n` bits are all 1 takes the value 2^n - 1, so by `f`'s contract
/// `f(n)` on such a stream returns 2^n - 1, truncated to the width of the
/// caller's result type.
pub proof fn lemma_f_all_ones(s: Seq<u8>, n: int)
    requires
        0 <= n <= s.len(),
        forall|i: int| 0 <= i < n ==> s[i] == 1,
    ensures
        be_val(s.take(n)) == pow2(n as nat) - 1,
    decreases n,
{
    if n == 0 {
        assert(s.take(0) =~= Seq::<u8>::empty());
    } else {
        lemma_f_all_ones(s, n - 1);
        lemma_take_succ(s, n - 1);
        lemma_be_val_push(s.take(n - 1), s[n - 1]);
        lemma_pow2_pos((n - 1) as nat);
    }
}

/// Law: a byte budget of 0 leaves nothing to read, whatever the source
/// holds: by `new`'s contract such a reader's stream is the bits of an
/// empty byte prefix (none) and its exhaustion reports `EndOfBudget`,
/// so by `read_bit`'s contract the very first read fails with it.
pub proof fn lemma_budget_zero(data: Seq<u8>)
    ensures
        crate::bits::bytes_bits(data.take(0)).len() == 0,
{
    assert(data.take(0) =~= Seq::<u8>::empty());
}

/// Law: a zero-width field reads the value 0 from nothing. The empty
/// prefix takes the value 0 and skipping nothing is the identity, so by
/// `f`'s contract `f(0)` always returns 0 and leaves the stream unchanged.
pub proof fn lemma_f_zero_width(s: Seq<u8>)
    ensures
        be_val(s.take(0)) == 0,
        s.skip(0) == s,
{
    assert(s.take(0) =~= Seq::<u8>::empty());
    assert(s.skip(0) =~= s);
}

/// Law: for a range of one value the non-symmetric code reads zero field
/// bits and always decodes 0, whatever the stream holds, so by `ns`'s
/// contract `ns(1)` returns 0 without consuming a bit.
pub proof fn lemma_ns_one(s: Seq<u8>)
    ensures
        ns_decode(s, 1) == Some((0nat, 0nat)),
{
    assert(floor_log2(1) == 0);
    assert(pow2(0) == 1);
    assert(pow2(1) == 2);
    assert(s.take(0) =~= Seq::<u8>::empty());
    assert(be_val(s.take(0)) == 0);
}

/// Law: encoding and decoding round-trip. For every `n >= 1` in range and
/// every `value` below `n`, a stream that starts with the codeword of
/// `value` decodes to `value`, consuming exactly the codeword, whatever
/// follows it.
pub proof fn lemma_ns_round_trip(n: nat, value: nat, rest: Seq<u8>)
    requires
        1 <= n < 0x8000_0000,
        value < n,
    ensures
        ns_decode(ns_encode(n, value) + rest, n) == Some((value, ns_encode(n, value).len())),
{
    let w = ns_width(n);
    let m = ns_short_count(n);
    lemma_floor_log2_bounds(n);
    assert(pow2(w) == 2 * pow2((w - 1) as nat));
    if value < m {
        let code = be_bits(value, (w - 1) as nat);
        lemma_be_bits_len(value, (w - 1) as nat);
        let s = code + rest;
        assert(s.take(w - 1) =~= code);
        lemma_be_val_be_bits(value, (w - 1) as nat);
    } else {
        let c = (value + m) as nat;
        let code = be_bits(c, w);
        lemma_be_bits_len(c, w);
        lemma_be_bits_len(c / 2, (w - 1) as nat);
        let s = code + rest;
        assert(code == be_bits(c / 2, (w - 1) as nat).push((c % 2) as u8));
        assert(s.take(w - 1) =~= be_bits(c / 2, (w - 1) as nat));
        assert(c < pow2(w));
        assert(c / 2 < pow2((w - 1) as nat));
        lemma_be_val_be_bits(c / 2, (w - 1) as nat);
        assert(c / 2 >= m);
        assert(s[w - 1] == (c % 2) as u8);
        assert((2 * (c / 2) + c % 2 - m) as nat == value);
    }
}

} // verus!
