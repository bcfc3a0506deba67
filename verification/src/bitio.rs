//! The bit-level reader: single-bit reads over an in-memory byte source with
//! a byte budget, fixed-width field reads, and the non-symmetric
//! (minimal-redundancy) variable-length decode.

use vstd::prelude::*;
use crate::bits::{
    bit_of, byte_bits, bytes_bits, is_bits, be_val, pow2, floor_log2,
    lemma_bytes_bits_len, lemma_bytes_bits_are_bits, lemma_pow2_monotone,
    lemma_be_val_bound, lemma_be_val_push, lemma_take_succ, lemma_skip_skip,
    lemma_floor_log2_bounds,
};

verus! {

/// Why a read could not be served.
#[derive(Clone, Copy, Debug, PartialEq, Eq, Structural)]
pub enum BitError {
    /// The byte budget was exhausted before the requested bits could be read.
    EndOfBudget,
    /// The underlying byte source ran out before the budget did.
    SourceExhausted,
}

/// Conversion of the 32-bit read accumulator into the caller's result type:
/// truncating for narrower types, zero-extending for wider ones, and
/// "nonzero" for `bool`.
pub trait FromU32: Sized {
    /// The value `from_u32` returns for `v`.
    spec fn from_u32_spec(v: u32) -> Self;

    /// Convert the accumulator value `v`.
    fn from_u32(v: u32) -> (r: Self)
        ensures
            r == Self::from_u32_spec(v),
    ;
}

impl FromU32 for bool {
    open spec fn from_u32_spec(v: u32) -> bool {
        v != 0
    }

    fn from_u32(v: u32) -> (r: bool) {
        v != 0
    }
}

impl FromU32 for u8 {
    open spec fn from_u32_spec(v: u32) -> u8 {
        v as u8
    }

    fn from_u32(v: u32) -> (r: u8) {
        #[verifier::truncate] (v as u8)
    }
}

impl FromU32 for u16 {
    open spec fn from_u32_spec(v: u32) -> u16 {
        v as u16
    }

    fn from_u32(v: u32) -> (r: u16) {
        #[verifier::truncate] (v as u16)
    }
}

impl FromU32 for u32 {
    open spec fn from_u32_spec(v: u32) -> u32 {
        v
    }

    fn from_u32(v: u32) -> (r: u32) {
        v
    }
}

impl FromU32 for u64 {
    open spec fn from_u32_spec(v: u32) -> u64 {
        v as u64
    }

    fn from_u32(v: u32) -> (r: u64) {
        v as u64
    }
}

impl FromU32 for usize {
    open spec fn from_u32_spec(v: u32) -> usize {
        v as usize
    }

    fn from_u32(v: u32) -> (r: usize) {
        v as usize
    }
}

/// The bit width of the non-symmetric code for a range of `n` values: the
/// least number of bits able to represent `n - 1`.
pub open spec fn ns_width(n: nat) -> nat
    recommends
        n >= 1,
{
    floor_log2(n) + 1
}

/// How many of the `n` values get the one-bit-shorter codeword.
pub open spec fn ns_short_count(n: nat) -> nat
    recommends
        n >= 1,
{
    (pow2(ns_width(n)) - n) as nat
}

/// The non-symmetric decode of the bit stream `s` for a range of `n`
/// values: the decoded value and the number of bits consumed, or `None`
/// when `s` is too short. A `(w-1)`-bit field below the short-codeword
/// count decodes as itself; otherwise one extra bit completes a `w`-bit
/// codeword whose value, less the short-codeword count, is the result.
pub open spec fn ns_decode(s: Seq<u8>, n: nat) -> Option<(nat, nat)>
    recommends
        n >= 1,
{
    let w = ns_width(n);
    let m = ns_short_count(n);
    if s.len() < w - 1 {
        None
    } else {
        let v = be_val(s.take(w - 1));
        if v < m {
            Some((v, (w - 1) as nat))
        } else if s.len() < w {
            None
        } else {
            Some((((2 * v + s[w - 1]) - m) as nat, w))
        }
    }
}

/// Reads bits, most significant first within each byte, from an in-memory
/// byte source. A one-byte cache holds the byte being consumed; the byte
/// budget bounds how many bytes may ever be pulled from the source.
pub struct BitReader {
    data: Vec<u8>,
    pos: usize,
    bbuf: u8,
    bpos: u8,
    limit: u32,
}

impl BitReader {
    /// The byte source.
    pub closed spec fn src(self) -> Seq<u8> {
        self.data@
    }

    /// How many more bytes can still be pulled: bounded by both the budget
    /// and the bytes the source still holds.
    pub closed spec fn pullable(self) -> int {
        vstd::math::min(self.limit as int, self.data@.len() - self.pos)
    }

    /// The bits still cached from the byte currently being consumed.
    pub closed spec fn cached(self) -> Seq<u8> {
        Seq::new(self.bpos as nat, |i: int| bit_of(self.bbuf, (self.bpos - 1 - i) as u8))
    }

    /// The whole sequence of bits this reader can still deliver: the cached
    /// bits, then the bits of every byte that may still be pulled.
    pub closed spec fn stream(self) -> Seq<u8> {
        self.cached() + bytes_bits(self.data@.subrange(self.pos as int, self.pos + self.pullable()))
    }

    /// The failure that reading past the end of the stream reports: the
    /// budget runs out first unless the source is shorter than the budget.
    pub closed spec fn exhaust_error(self) -> BitError {
        if self.limit <= self.data@.len() - self.pos {
            BitError::EndOfBudget
        } else {
            BitError::SourceExhausted
        }
    }

    /// Internal well-formedness: the bit cache holds fewer than 8 bits and
    /// the source position is in range.
    pub closed spec fn wf(self) -> bool {
        self.bpos < 8 && self.pos <= self.data@.len()
    }

    /// The stream is made of single bits.
    pub proof fn lemma_stream_is_bits(self)
        ensures
            is_bits(self.stream()),
    {
        let tail = self.data@.subrange(self.pos as int, self.pos + self.pullable());
        lemma_bytes_bits_are_bits(tail);
        assert forall|i: int| 0 <= i < self.stream().len() implies self.stream()[i] <= 1 by {
            if i < self.cached().len() {
                let b = self.bbuf;
                let k = (self.bpos - 1 - i) as u8;
                assert((b >> k) & 1 <= 1) by (bit_vector);
            }
        }
    }

    /// Create a reader over `data` that may consume at most `limit` bytes.
    pub fn new(data: Vec<u8>, limit: u32) -> (r: BitReader)
        ensures
            r.wf(),
            r.src() == data@,
            r.stream() == bytes_bits(
                if limit <= data@.len() {
                    data@.take(limit as int)
                } else {
                    data@
                },
            ),
            r.exhaust_error() == (if limit <= data@.len() {
                BitError::EndOfBudget
            } else {
                BitError::SourceExhausted
            }),
    {
        let r = BitReader { data, pos: 0, bbuf: 0, bpos: 0, limit };
        proof {
            assert(r.cached() =~= Seq::<u8>::empty());
            if limit <= r.data@.len() {
                assert(r.data@.subrange(0, r.pullable()) =~= r.data@.take(limit as int));
            } else {
                assert(r.data@.subrange(0, r.pullable()) =~= r.data@);
            }
            assert(r.stream() =~= bytes_bits(r.data@.subrange(0, r.pullable())));
        }
        r
    }

    /// Read the next bit of the stream, most significant bit of each byte
    /// first. Pulls one byte from the source when the cache is empty, which
    /// costs one unit of budget; fails, leaving the reader unchanged, when
    /// no bit is left.
    pub fn read_bit(&mut self) -> (r: Result<u8, BitError>)
        requires
            old(self).wf(),
        ensures
            final(self).wf(),
            final(self).src() == old(self).src(),
            final(self).exhaust_error() == old(self).exhaust_error(),
            old(self).stream().len() > 0 ==> r == Ok::<u8, BitError>(old(self).stream()[0])
                && final(self).stream() == old(self).stream().drop_first(),
            old(self).stream().len() == 0 ==> r == Err::<u8, BitError>(old(self).exhaust_error())
                && *final(self) == *old(self),
    {
        if self.bpos == 0 {
            if self.limit == 0 {
                proof {
                    assert(self.cached() =~= Seq::<u8>::empty());
                    lemma_bytes_bits_len(
                        self.data@.subrange(self.pos as int, self.pos + self.pullable()),
                    );
                }
                return Err(BitError::EndOfBudget);
            }
            if self.pos >= self.data.len() {
                proof {
                    assert(self.cached() =~= Seq::<u8>::empty());
                    lemma_bytes_bits_len(
                        self.data@.subrange(self.pos as int, self.pos + self.pullable()),
                    );
                }
                return Err(BitError::SourceExhausted);
            }
            self.bbuf = self.data[self.pos];
            self.pos = self.pos + 1;
            self.bpos = 8;
            self.limit = self.limit - 1;
        }
        self.bpos = self.bpos - 1;
        proof {
            let prev = *old(self);
            if prev.bpos > 0 {
                assert(self.cached() =~= prev.cached().drop_first());
                assert(self.stream() =~= prev.stream().drop_first());
                assert(prev.stream()[0] == prev.cached()[0]);
            } else {
                prev.lemma_pull_byte_step(*self);
            }
        }
        Ok((self.bbuf >> self.bpos) & 1)
    }

    /// Read an `nbit`-wide unsigned field, `0 <= nbit <= 32`: the first bit
    /// read becomes the most significant bit of the result. The 32-bit
    /// accumulator is converted to the caller's result type, truncating when
    /// that type is narrower than `nbit` bits. `nbit == 0` returns 0 and
    /// consumes nothing; a failed bit read propagates and no value is
    /// returned.
    pub fn f<T: FromU32>(&mut self, nbit: usize) -> (r: Result<T, BitError>)
        requires
            old(self).wf(),
            nbit <= 32,
        ensures
            final(self).wf(),
            final(self).src() == old(self).src(),
            final(self).exhaust_error() == old(self).exhaust_error(),
            old(self).stream().len() >= nbit ==> r == Ok::<T, BitError>(
                T::from_u32_spec(be_val(old(self).stream().take(nbit as int)) as u32),
            ) && final(self).stream() == old(self).stream().skip(nbit as int),
            old(self).stream().len() < nbit ==> r == Err::<T, BitError>(
                old(self).exhaust_error(),
            ) && final(self).stream().len() == 0,
    {
        let ghost orig = *old(self);
        let ghost s = orig.stream();
        let mut x: u32 = 0;
        let mut i: usize = 0;
        proof {
            orig.lemma_stream_is_bits();
            assert(s.take(0) =~= Seq::<u8>::empty());
            assert(s.skip(0) =~= s);
        }
        while i < nbit
            invariant
                self.wf(),
                i <= nbit,
                nbit <= 32,
                i <= s.len(),
                is_bits(s),
                orig == *old(self),
                s == orig.stream(),
                self.src() == orig.src(),
                self.exhaust_error() == orig.exhaust_error(),
                self.stream() == s.skip(i as int),
                x == be_val(s.take(i as int)),
                x < pow2(i as nat),
            decreases nbit - i,
        {
            match self.read_bit() {
                Ok(bit) => {
                    proof {
                        assert(s.skip(i as int)[0] == s[i as int]);
                        assert(s.skip(i as int).drop_first() =~= s.skip(i + 1));
                        lemma_take_succ(s, i as int);
                        lemma_be_val_push(s.take(i as int), s[i as int]);
                        lemma_pow2_monotone(i as nat, 31);
                        crate::bits::lemma_pow2_values();
                    }
                    x = 2 * x + (bit as u32);
                    i = i + 1;
                }
                Err(e) => {
                    proof {
                        lemma_pow2_monotone(i as nat, 31);
                    }
                    return Err(e);
                }
            }
        }
        Ok(T::from_u32(x))
    }

    /// Decode a value uniformly distributed over `0 .. n` from its
    /// non-symmetric (minimal-redundancy) codeword: a `(w-1)`-bit field,
    /// where `w` is the least width able to represent `n - 1`, decodes as
    /// itself when below the short-codeword count, and one extra bit
    /// completes the longer codewords. The result is always below `n`; a
    /// failed field read propagates and no value is returned.
    pub fn ns(&mut self, n: u32) -> (r: Result<u32, BitError>)
        requires
            old(self).wf(),
            1 <= n < 0x8000_0000,
        ensures
            final(self).wf(),
            final(self).src() == old(self).src(),
            final(self).exhaust_error() == old(self).exhaust_error(),
            match ns_decode(old(self).stream(), n as nat) {
                Some(d) => r == Ok::<u32, BitError>(d.0 as u32) && d.0 < n
                    && final(self).stream() == old(self).stream().skip(d.1 as int),
                None => r == Err::<u32, BitError>(old(self).exhaust_error())
                    && final(self).stream().len() == 0,
            },
    {
        let ghost orig = *old(self);
        let ghost s = orig.stream();
        let w: u32 = Self::floor_log2(n) + 1;
        proof {
            lemma_floor_log2_bounds(n as nat);
            crate::bits::lemma_pow2_values();
            if floor_log2(n as nat) >= 31 {
                lemma_pow2_monotone(31, floor_log2(n as nat));
            }
            assert(w <= 31);
            crate::bits::lemma_shl1_is_pow2(w);
            assert(pow2(w as nat) == 2 * pow2((w - 1) as nat));
            orig.lemma_stream_is_bits();
        }
        let m: u32 = (1u32 << w) - n;
        let v: u32 = match self.f::<u32>((w - 1) as usize) {
            Ok(got) => got,
            Err(e) => {
                return Err(e);
            },
        };
        proof {
            assert(is_bits(s.take(w - 1)));
            lemma_be_val_bound(s.take(w - 1));
        }
        if v < m {
            return Ok(v);
        }
        let extra: u32 = match self.f::<u32>(1) {
            Ok(got) => got,
            Err(e) => {
                return Err(e);
            },
        };
        proof {
            let s1 = s.skip(w - 1);
            assert(s1.len() >= 1);
            crate::bits::lemma_be_val_single(s1.take(1));
            assert(s1[0] == s[w - 1]);
            assert(be_val(s1.take(1)) == s[w - 1]);
            lemma_skip_skip(s, w - 1, 1);
            assert(s[w - 1] <= 1);
            lemma_pow2_monotone(w as nat, 31);
            assert(v == be_val(s.take(w - 1)));
            assert(extra == s[w - 1]);
            assert(m == ns_short_count(n as nat));
            assert(2 * v - m + extra < n);
        }
        Ok(2 * v - m + extra)
    }

    /// The position of the highest set bit of `x`, for `x >= 1`.
    fn floor_log2(x: u32) -> (r: u32)
        requires
            x >= 1,
        ensures
            r == floor_log2(x as nat),
            r <= 31,
    {
        proof {
            lemma_floor_log2_bounds(x as nat);
            crate::bits::lemma_pow2_values();
            if floor_log2(x as nat) >= 32 {
                lemma_pow2_monotone(32, floor_log2(x as nat));
            }
            assert(floor_log2(x as nat) <= 31);
        }
        let mut v: u32 = x;
        let mut s: u32 = 0;
        while v != 0
            invariant
                floor_log2(x as nat) <= 31,
                v > 0 ==> s + floor_log2(v as nat) == floor_log2(x as nat),
                v == 0 ==> s == floor_log2(x as nat) + 1,
            decreases v,
        {
            v = v / 2;
            s = s + 1;
        }
        s - 1
    }

    /// When the cache is empty and a byte can be pulled: pulling it turns
    /// the stream's leading byte into seven cached bits plus the returned
    /// most-significant bit, so the stream just loses its first element.
    proof fn lemma_pull_byte_step(self, next: BitReader)
        requires
            self.wf(),
            self.bpos == 0,
            self.limit > 0,
            self.pos < self.data@.len(),
            next.data == self.data,
            next.pos == self.pos + 1,
            next.bbuf == self.data@[self.pos as int],
            next.bpos == 7,
            next.limit == self.limit - 1,
        ensures
            next.wf(),
            next.stream() == self.stream().drop_first(),
            self.stream().len() > 0,
            self.stream()[0] == (self.data@[self.pos as int] >> 7) & 1,
            next.exhaust_error() == self.exhaust_error(),
    {
        let b = self.data@[self.pos as int];
        let p = self.pullable();
        let sub = self.data@.subrange(self.pos as int, self.pos + p);
        assert(p >= 1);
        assert(self.cached() =~= Seq::<u8>::empty());
        assert(self.stream() =~= bytes_bits(sub));
        // One unfolding of bytes_bits on the leading byte.
        assert(sub.first() == b);
        assert(sub.drop_first() =~= self.data@.subrange(self.pos + 1, self.pos + p));
        assert(bytes_bits(sub) == byte_bits(b) + bytes_bits(sub.drop_first()));
        lemma_bytes_bits_len(sub.drop_first());
        // The new state's pullable range is exactly the old one minus the byte pulled.
        assert(next.pullable() == p - 1);
        assert(next.data@.subrange(next.pos as int, next.pos + next.pullable()) =~= sub.drop_first());
        // The seven cached bits are the tail of the pulled byte's bits.
        assert(next.cached() =~= byte_bits(b).drop_first());
        assert(next.stream() =~= self.stream().drop_first());
        assert(self.stream()[0] == byte_bits(b)[0]);
        assert(byte_bits(b)[0] == bit_of(b, 7));
    }
}

} // verus!
