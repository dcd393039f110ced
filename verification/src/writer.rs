//! A cursor that appends bits to a growing run of bytes.

use vstd::prelude::*;
use vstd::arithmetic::power2::{
    lemma2_to64, lemma_pow2_pos, lemma_pow2_strictly_increases, lemma_pow2_unfold, pow2,
};
use vstd::arithmetic::div_mod::lemma_div_denominator;
use vstd::bits::lemma_u32_shr_is_div;
use crate::bits::{
    bits_of, lemma_bits_of_len, lemma_pack_unpack, pack, padded, padding, unpack, zeros,
};

verus! {

/// Appends bits, most significant first, and hands out the bytes that hold
/// them.
pub struct BitWriter {
    /// The bytes that are complete.
    bytes: Vec<u8>,
    /// The number spelled by the bits written after the last complete byte.
    partial: u8,
    /// How many bits those are: fewer than eight.
    filled: u8,
}

impl View for BitWriter {
    type V = Seq<bool>;

    /// Every bit written so far, in the order of writing.
    closed spec fn view(&self) -> Seq<bool> {
        unpack(self.bytes@) + bits_of(self.partial as nat, self.filled as nat)
    }
}

/// The stream of a run of bytes with one more byte is the stream of the run
/// followed by the eight bits of that byte.
pub proof fn lemma_unpack_push(bytes: Seq<u8>, byte: u8)
    ensures
        unpack(bytes.push(byte)) == unpack(bytes) + bits_of(byte as nat, 8),
{
    lemma_bits_of_len(byte as nat, 8);
    let longer = unpack(bytes.push(byte));
    let joined = unpack(bytes) + bits_of(byte as nat, 8);
    assert forall|i: int| 0 <= i < longer.len() implies longer[i] == joined[i] by {
        if i >= 8 * bytes.len() {
            assert(i / 8 == bytes.len());
            assert(i % 8 == i - 8 * bytes.len());
        } else {
            assert(i / 8 < bytes.len());
        }
    }
    assert(longer =~= joined);
}

impl BitWriter {
    /// The bits after the last complete byte are fewer than eight, and the
    /// number kept for them has no other bit set.
    pub closed spec fn wf(&self) -> bool {
        &&& self.filled < 8
        &&& (self.partial as nat) < pow2(self.filled as nat)
    }

    /// A writer that holds no bit.
    pub fn new() -> (writer: BitWriter)
        ensures
            writer.wf(),
            writer@ == Seq::<bool>::empty(),
    {
        let writer = BitWriter { bytes: Vec::new(), partial: 0, filled: 0 };
        proof {
            lemma2_to64();
            assert(writer@ =~= Seq::<bool>::empty());
        }
        writer
    }

    /// Appends one bit.
    pub fn push_bit(&mut self, bit: bool)
        requires
            old(self).wf(),
        ensures
            final(self).wf(),
            final(self)@ == old(self)@.push(bit),
    {
        let ghost before = self@;
        let ghost whole = unpack(self.bytes@);
        let ghost tail = bits_of(self.partial as nat, self.filled as nat);
        proof {
            lemma2_to64();
            if self.filled < 7 {
                lemma_pow2_strictly_increases(self.filled as nat, 7);
            }
            lemma_pow2_unfold((self.filled + 1) as nat);
        }
        let next: u8 = self.partial * 2 + if bit {
            1
        } else {
            0
        };
        proof {
            assert(next as nat / 2 == self.partial as nat);
            assert((next as nat % 2 == 1) == bit);
            assert(bits_of(next as nat, (self.filled + 1) as nat) == tail.push(bit));
            assert(whole + tail.push(bit) =~= before.push(bit));
        }
        if self.filled == 7 {
            proof {
                lemma_unpack_push(self.bytes@, next);
            }
            self.bytes.push(next);
            self.partial = 0;
            self.filled = 0;
            proof {
                assert(self@ =~= whole + tail.push(bit));
            }
        } else {
            self.partial = next;
            self.filled = self.filled + 1;
        }
    }

    /// Appends the `n` low bits of `value`, most significant first.
    pub fn write_bits(&mut self, value: u32, n: u8)
        requires
            old(self).wf(),
            n <= 32,
        ensures
            final(self).wf(),
            final(self)@ == old(self)@ + bits_of(value as nat, n as nat),
    {
        let ghost before = self@;
        let mut i: u8 = 0;
        proof {
            lemma_bits_of_len(value as nat / pow2(n as nat), 0);
            assert(before + bits_of(value as nat / pow2(n as nat), 0) =~= before);
        }
        while i < n
            invariant
                self.wf(),
                i <= n <= 32,
                self@ == before + bits_of(value as nat / pow2((n - i) as nat), i as nat),
            decreases n - i,
        {
            let shift: u32 = (n - 1 - i) as u32;
            let moved: u32 = value >> shift;
            let bit: bool = (moved & 1) == 1;
            proof {
                let upper = value as nat / pow2((n - i) as nat);
                let lower = pow2(shift as nat);
                lemma_u32_shr_is_div(value, shift);
                assert(moved & 1 == moved % 2) by (bit_vector);
                lemma_pow2_unfold((n - i) as nat);
                lemma_pow2_pos(shift as nat);
                lemma_div_denominator(value as int, lower as int, 2);
                assert(moved as nat / 2 == upper) by {
                    assert((value as int / lower as int) / 2 == value as int / (lower as int * 2));
                }
                assert(bits_of(moved as nat, (i + 1) as nat) == bits_of(upper, i as nat).push(bit));
                assert(before + bits_of(upper, i as nat).push(bit) =~= (before + bits_of(
                    upper,
                    i as nat,
                )).push(bit));
            }
            self.push_bit(bit);
            i = i + 1;
        }
        proof {
            lemma2_to64();
            assert(value as nat / 1 == value as nat);
        }
    }

    /// Appends the bits of each byte of `bytes`, in order.
    pub fn write_bytes(&mut self, bytes: &[u8])
        requires
            old(self).wf(),
        ensures
            final(self).wf(),
            final(self)@ == old(self)@ + unpack(bytes@),
    {
        let ghost before = self@;
        let mut i: usize = 0;
        proof {
            assert(before + unpack(bytes@.take(0)) =~= before);
        }
        while i < bytes.len()
            invariant
                self.wf(),
                i <= bytes.len(),
                self@ == before + unpack(bytes@.take(i as int)),
            decreases bytes.len() - i,
        {
            let byte: u8 = bytes[i];
            proof {
                let done = bytes@.take(i as int);
                lemma_unpack_push(done, byte);
                assert(done.push(byte) =~= bytes@.take(i + 1));
                assert(before + (unpack(done) + bits_of(byte as nat, 8)) =~= (before + unpack(done))
                    + bits_of(byte as nat, 8));
            }
            self.write_bits(byte as u32, 8);
            i = i + 1;
        }
        proof {
            assert(bytes@.take(i as int) =~= bytes@);
        }
    }

    /// Appends zero bits until the stream is a whole number of bytes.
    pub fn align(&mut self)
        requires
            old(self).wf(),
        ensures
            final(self).wf(),
            final(self)@ == padded(old(self)@),
            final(self)@.len() % 8 == 0,
    {
        let ghost before = self@;
        let ghost start = self.filled as int;
        let ghost mut added: nat = 0;
        proof {
            lemma_bits_of_len(self.partial as nat, self.filled as nat);
            assert(before + zeros(0) =~= before);
        }
        while self.filled != 0
            invariant
                self.wf(),
                0 <= start < 8,
                before.len() % 8 == start,
                start + added <= 8,
                start == 0 ==> added == 0,
                self.filled as int == (start + added) % 8,
                self@ == before + zeros(added),
            decreases 8 - (start + added),
        {
            proof {
                assert((before + zeros(added)).push(false) =~= before + zeros(added + 1));
            }
            self.push_bit(false);
            proof {
                added = added + 1;
                lemma_bits_of_len(self.partial as nat, self.filled as nat);
                assert(self@.len() == 8 * self.bytes@.len() + self.filled);
            }
        }
        proof {
            assert(added == padding(before.len()));
        }
    }

    /// The bytes that hold everything written, the last one filled up with
    /// zero bits.
    pub fn finish(self) -> (bytes: Vec<u8>)
        requires
            self.wf(),
        ensures
            bytes@ == pack(self@),
    {
        let ghost written = self@;
        let mut writer = self;
        writer.align();
        proof {
            lemma_bits_of_len(writer.partial as nat, writer.filled as nat);
            assert(writer.filled == 0);
            assert(writer@ =~= unpack(writer.bytes@));
            lemma_pack_unpack(writer.bytes@);
            assert(padded(padded(written)) =~= padded(written));
        }
        writer.bytes
    }
}

} // verus!
