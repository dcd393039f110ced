//! A cursor that takes bits from a run of bytes.

use vstd::prelude::*;
use vstd::arithmetic::power2::{pow2, lemma2_to64, lemma_pow2_unfold, lemma_pow2_strictly_increases};
use vstd::bits::lemma_u8_shr_is_div;
use crate::bits::{lemma_bits_of_index, padding, unpack, value_of};

verus! {

/// Takes bits, most significant first, from a run of bytes.
pub struct BitReader<'a> {
    /// The bytes that are read.
    bytes: &'a [u8],
    /// The index of the byte that holds the next bit.
    byte: usize,
    /// The place of the next bit in that byte, counted from its most
    /// significant bit: less than eight.
    bit: u8,
}

impl<'a> BitReader<'a> {
    /// The whole stream that the reader goes through: eight bits for each
    /// byte it was made from.
    pub closed spec fn stream(&self) -> Seq<bool> {
        unpack(self.bytes@)
    }

    /// The number of bits taken so far.
    pub closed spec fn position(&self) -> nat {
        (8 * self.byte + self.bit) as nat
    }

    /// The cursor stands inside the stream or at its end.
    pub closed spec fn wf(&self) -> bool {
        &&& self.bit < 8
        &&& self.byte <= self.bytes@.len()
        &&& self.byte == self.bytes@.len() ==> self.bit == 0
    }

    /// A well-formed cursor has not gone past the end of its stream.
    pub proof fn lemma_position_in_stream(&self)
        requires
            self.wf(),
        ensures
            self.position() <= self.stream().len(),
    {
    }

    /// A reader at the start of `bytes`.
    pub fn new(bytes: &'a [u8]) -> (reader: BitReader<'a>)
        ensures
            reader.wf(),
            reader.stream() == unpack(bytes@),
            reader.position() == 0,
    {
        BitReader { bytes, byte: 0, bit: 0 }
    }

    /// Whether `n` more bits can be taken.
    pub fn has_bits(&self, n: u128) -> (enough: bool)
        requires
            self.wf(),
        ensures
            enough <==> self.position() + n <= self.stream().len(),
    {
        let left: u128 = (self.bytes.len() - self.byte) as u128 * 8 - self.bit as u128;
        n <= left
    }

    /// Takes one bit, if one is left.
    pub fn read_bit(&mut self) -> (taken: Option<bool>)
        requires
            old(self).wf(),
        ensures
            final(self).wf(),
            final(self).stream() == old(self).stream(),
            old(self).position() < old(self).stream().len() ==> taken == Some(
                old(self).stream()[old(self).position() as int],
            ) && final(self).position() == old(self).position() + 1,
            old(self).position() >= old(self).stream().len() ==> taken is None
                && final(self).position() == old(self).position(),
    {
        if self.byte >= self.bytes.len() {
            return None;
        }
        let current: u8 = self.bytes[self.byte];
        let shift: u8 = 7 - self.bit;
        let moved: u8 = current >> shift;
        let bit: bool = (moved & 1) == 1;
        proof {
            let place = (8 * self.byte + self.bit) as int;
            assert(place / 8 == self.byte as int);
            assert(place % 8 == self.bit as int);
            lemma_bits_of_index(current as nat, 8, self.bit as int);
            lemma_u8_shr_is_div(current, shift);
            assert(moved & 1 == moved % 2) by (bit_vector);
        }
        if self.bit == 7 {
            self.byte = self.byte + 1;
            self.bit = 0;
        } else {
            self.bit = self.bit + 1;
        }
        Some(bit)
    }

    /// Takes `n` bits, if that many are left, and gives the number they
    /// spell, most significant bit first. Takes nothing otherwise.
    pub fn read_bits(&mut self, n: u8) -> (taken: Option<u32>)
        requires
            old(self).wf(),
            n <= 32,
        ensures
            final(self).wf(),
            final(self).stream() == old(self).stream(),
            old(self).position() + n <= old(self).stream().len() ==> final(self).position()
                == old(self).position() + n && (taken matches Some(value) && value as nat
                == value_of(
                old(self).stream().subrange(old(self).position() as int, old(self).position() + n),
            )),
            old(self).position() + n > old(self).stream().len() ==> taken is None
                && final(self).position() == old(self).position(),
            taken matches Some(value) ==> value < pow2(n as nat),
    {
        if !self.has_bits(n as u128) {
            return None;
        }
        let ghost stream = self.stream();
        let ghost start = self.position() as int;
        let mut value: u64 = 0;
        let mut i: u8 = 0;
        proof {
            lemma2_to64();
            assert(stream.subrange(start, start + 0).len() == 0);
        }
        while i < n
            invariant
                self.wf(),
                self.stream() == stream,
                i <= n <= 32,
                0 <= start,
                start + n <= stream.len(),
                self.position() == start + i,
                value as nat == value_of(stream.subrange(start, start + i)),
                (value as nat) < pow2(i as nat),
            decreases n - i,
        {
            proof {
                lemma_pow2_unfold((i + 1) as nat);
                if i < 31 {
                    lemma_pow2_strictly_increases((i + 1) as nat, 32);
                }
                lemma2_to64();
            }
            let taken = self.read_bit();
            let bit: bool = taken.unwrap();
            proof {
                let longer = stream.subrange(start, start + i + 1);
                assert(longer.drop_last() =~= stream.subrange(start, start + i));
                assert(longer.last() == bit);
            }
            value = value * 2 + if bit {
                1
            } else {
                0
            };
            i = i + 1;
        }
        proof {
            lemma2_to64();
            if n < 32 {
                lemma_pow2_strictly_increases(n as nat, 32);
            }
        }
        Some(value as u32)
    }

    /// Passes over the bits that are left of a byte already begun, so that
    /// the next bit taken is the first of a byte.
    pub fn align(&mut self)
        requires
            old(self).wf(),
        ensures
            final(self).wf(),
            final(self).stream() == old(self).stream(),
            final(self).position() == old(self).position() + padding(old(self).position()),
            final(self).position() % 8 == 0,
    {
        if self.bit != 0 && self.byte < self.bytes.len() {
            self.byte = self.byte + 1;
            self.bit = 0;
        }
    }
}

} // verus!
