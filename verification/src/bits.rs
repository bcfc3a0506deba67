//! The mathematical model of bit streams: the bits of a byte (most
//! significant first), big-endian values of bit sequences, powers of two,
//! and the base-two logarithm.

use vstd::prelude::*;

verus! {

/// Bit `k` of byte `b`, counting from the least significant end.
pub open spec fn bit_of(b: u8, k: u8) -> u8 {
    (b >> k) & 1
}

/// The eight bits of a byte, most significant first.
pub open spec fn byte_bits(b: u8) -> Seq<u8> {
    Seq::new(8, |i: int| bit_of(b, (7 - i) as u8))
}

/// The bits of a byte sequence, in stream order: each byte contributes its
/// bits most significant first.
pub open spec fn bytes_bits(s: Seq<u8>) -> Seq<u8>
    decreases s.len(),
{
    if s.len() == 0 {
        Seq::empty()
    } else {
        byte_bits(s.first()) + bytes_bits(s.drop_first())
    }
}

/// Every element of the sequence is a single bit, 0 or 1.
pub open spec fn is_bits(s: Seq<u8>) -> bool {
    forall|i: int| 0 <= i < s.len() ==> s[i] <= 1
}

/// The value of a bit sequence read as a big-endian integer: the first
/// element is the most significant bit.
pub open spec fn be_val(s: Seq<u8>) -> nat
    decreases s.len(),
{
    if s.len() == 0 {
        0
    } else {
        (2 * be_val(s.drop_last()) + s.last()) as nat
    }
}

/// 2 to the power `e`.
pub open spec fn pow2(e: nat) -> nat
    decreases e,
{
    if e == 0 {
        1
    } else {
        2 * pow2((e - 1) as nat)
    }
}

/// floor(log2(x)) for x >= 1: the position of the highest set bit.
pub open spec fn floor_log2(x: nat) -> nat
    recommends
        x >= 1,
    decreases x,
{
    if x < 2 {
        0
    } else {
        (1 + floor_log2(x / 2)) as nat
    }
}

/// The `width`-bit big-endian representation of `value`: the inverse of
/// `be_val` for values below 2^width.
pub open spec fn be_bits(value: nat, width: nat) -> Seq<u8>
    decreases width,
{
    if width == 0 {
        Seq::empty()
    } else {
        be_bits(value / 2, (width - 1) as nat).push((value % 2) as u8)
    }
}

/// The bits of a byte are single bits.
pub proof fn lemma_byte_bits_are_bits(b: u8)
    ensures
        is_bits(byte_bits(b)),
{
    assert forall|i: int| 0 <= i < byte_bits(b).len() implies byte_bits(b)[i] <= 1 by {
        let k = (7 - i) as u8;
        assert((b >> k) & 1 <= 1) by (bit_vector);
    }
}

/// A byte sequence contributes eight bits per byte.
pub proof fn lemma_bytes_bits_len(s: Seq<u8>)
    ensures
        bytes_bits(s).len() == 8 * s.len(),
    decreases s.len(),
{
    if s.len() > 0 {
        lemma_bytes_bits_len(s.drop_first());
    }
}

/// The bits of a byte sequence are single bits.
pub proof fn lemma_bytes_bits_are_bits(s: Seq<u8>)
    ensures
        is_bits(bytes_bits(s)),
    decreases s.len(),
{
    if s.len() > 0 {
        lemma_byte_bits_are_bits(s.first());
        lemma_bytes_bits_are_bits(s.drop_first());
    }
}

/// Powers of two are positive.
pub proof fn lemma_pow2_pos(e: nat)
    ensures
        pow2(e) >= 1,
    decreases e,
{
    if e > 0 {
        lemma_pow2_pos((e - 1) as nat);
    }
}

/// Powers of two grow monotonically.
pub proof fn lemma_pow2_monotone(a: nat, b: nat)
    requires
        a <= b,
    ensures
        pow2(a) <= pow2(b),
    decreases b,
{
    if a < b {
        lemma_pow2_monotone(a, (b - 1) as nat);
        lemma_pow2_pos((b - 1) as nat);
    }
}

/// A sequence of single bits, read big-endian, is below 2 to its length.
pub proof fn lemma_be_val_bound(s: Seq<u8>)
    requires
        is_bits(s),
    ensures
        be_val(s) < pow2(s.len()),
    decreases s.len(),
{
    if s.len() > 0 {
        assert(is_bits(s.drop_last()));
        lemma_be_val_bound(s.drop_last());
        assert(s.last() <= 1);
    }
}

/// A single-element sequence reads as its one element.
pub proof fn lemma_be_val_single(s: Seq<u8>)
    requires
        s.len() == 1,
    ensures
        be_val(s) == s[0],
{
    assert(s.drop_last() =~= Seq::<u8>::empty());
    assert(be_val(s.drop_last()) == 0);
    assert(s.last() == s[0]);
}

/// Appending a bit doubles the big-endian value and adds the bit.
pub proof fn lemma_be_val_push(s: Seq<u8>, b: u8)
    ensures
        be_val(s.push(b)) == 2 * be_val(s) + b,
{
    assert(s.push(b).drop_last() =~= s);
    assert(s.push(b).last() == b);
}

/// Taking one more element appends the element at the boundary.
pub proof fn lemma_take_succ(s: Seq<u8>, i: int)
    requires
        0 <= i < s.len(),
    ensures
        s.take(i + 1) == s.take(i).push(s[i]),
{
    assert(s.take(i + 1) =~= s.take(i).push(s[i]));
}

/// Skipping twice skips the sum.
pub proof fn lemma_skip_skip(s: Seq<u8>, a: int, b: int)
    requires
        0 <= a,
        0 <= b,
        a + b <= s.len(),
    ensures
        s.skip(a).skip(b) == s.skip(a + b),
{
    assert(s.skip(a).skip(b) =~= s.skip(a + b));
}

/// The powers of two at the edge of the 32-bit range.
pub proof fn lemma_pow2_values()
    ensures
        pow2(31) == 0x8000_0000,
        pow2(32) == 0x1_0000_0000,
{
    reveal_with_fuel(pow2, 33);
}

/// Shifting 1 left by `w` computes 2 to the power `w`.
pub proof fn lemma_shl1_is_pow2(w: u32)
    requires
        w < 32,
    ensures
        (1u32 << w) == pow2(w as nat),
    decreases w,
{
    if w == 0 {
        assert(1u32 << 0u32 == 1) by (bit_vector);
    } else {
        let wm1 = (w - 1) as u32;
        lemma_shl1_is_pow2(wm1);
        assert((1u32 << w) == 2 * (1u32 << wm1)) by (bit_vector)
            requires
                1 <= w < 32 && wm1 == w - 1,
        ;
    }
}

/// `be_bits` produces `width` single bits.
pub proof fn lemma_be_bits_len(value: nat, width: nat)
    ensures
        be_bits(value, width).len() == width,
        is_bits(be_bits(value, width)),
    decreases width,
{
    if width > 0 {
        lemma_be_bits_len(value / 2, (width - 1) as nat);
        let tail = be_bits(value / 2, (width - 1) as nat);
        let whole = tail.push((value % 2) as u8);
        assert forall|i: int| 0 <= i < whole.len() implies whole[i] <= 1 by {
            if i < tail.len() {
                assert(whole[i] == tail[i]);
            }
        }
    }
}

/// Reading back the `width`-bit representation of a value below 2^width
/// recovers the value.
pub proof fn lemma_be_val_be_bits(value: nat, width: nat)
    requires
        value < pow2(width),
    ensures
        be_val(be_bits(value, width)) == value,
    decreases width,
{
    if width > 0 {
        lemma_be_val_be_bits(value / 2, (width - 1) as nat);
        lemma_be_val_push(be_bits(value / 2, (width - 1) as nat), (value % 2) as u8);
    }
}

/// x lies between 2^floor_log2(x) inclusive and 2^(floor_log2(x)+1) exclusive.
pub proof fn lemma_floor_log2_bounds(x: nat)
    requires
        x >= 1,
    ensures
        pow2(floor_log2(x)) <= x,
        x < pow2(floor_log2(x) + 1),
    decreases x,
{
    if x >= 2 {
        lemma_floor_log2_bounds(x / 2);
    }
}

} // verus!
