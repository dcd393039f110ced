//! Bit sequences, and how they are laid out in bytes.
//!
//! A run of bits is a `Seq<bool>`; a number is written as a run of bits with
//! its most significant bit first, and a byte holds eight bits of the stream,
//! the earliest in its most significant position.

use vstd::prelude::*;
use vstd::arithmetic::power2::{pow2, lemma2_to64, lemma_pow2_pos, lemma_pow2_unfold};
use vstd::arithmetic::div_mod::lemma_div_denominator;

verus! {

/// The `n` low bits of `value`, most significant first.
pub open spec fn bits_of(value: nat, n: nat) -> Seq<bool>
    decreases n,
{
    if n == 0 {
        Seq::empty()
    } else {
        bits_of(value / 2, (n - 1) as nat).push(value % 2 == 1)
    }
}

/// The number that a run of bits spells, most significant bit first.
pub open spec fn value_of(bits: Seq<bool>) -> nat
    decreases bits.len(),
{
    if bits.len() == 0 {
        0
    } else {
        2 * value_of(bits.drop_last()) + if bits.last() {
            1nat
        } else {
            0nat
        }
    }
}

/// A run of `n` zero bits.
pub open spec fn zeros(n: nat) -> Seq<bool> {
    Seq::new(n, |i: int| false)
}

/// The number of bits, from 0 to 7, that bring a stream of `len` bits to a
/// whole number of bytes.
pub open spec fn padding(len: nat) -> nat {
    ((8 - len % 8) % 8) as nat
}

/// The stream followed by the zero bits that fill its last byte.
pub open spec fn padded(bits: Seq<bool>) -> Seq<bool> {
    bits + zeros(padding(bits.len()))
}

/// The bytes that hold a stream: the stream is padded with zero bits to a
/// whole number of bytes, and each byte spells its eight bits.
pub open spec fn pack(bits: Seq<bool>) -> Seq<u8> {
    let whole = padded(bits);
    Seq::new(whole.len() / 8, |j: int| value_of(whole.subrange(8 * j, 8 * j + 8)) as u8)
}

/// The stream that a run of bytes holds: eight bits for each byte.
pub open spec fn unpack(bytes: Seq<u8>) -> Seq<bool> {
    Seq::new(8 * bytes.len(), |i: int| bits_of(bytes[i / 8] as nat, 8)[i % 8])
}

/// `bits_of` gives as many bits as were asked for.
pub proof fn lemma_bits_of_len(value: nat, n: nat)
    ensures
        bits_of(value, n).len() == n,
    decreases n,
{
    if n > 0 {
        lemma_bits_of_len(value / 2, (n - 1) as nat);
    }
}

/// A run of `n` bits spells a number below `2^n`.
pub proof fn lemma_value_of_bound(bits: Seq<bool>)
    ensures
        value_of(bits) < pow2(bits.len()),
    decreases bits.len(),
{
    if bits.len() == 0 {
        lemma2_to64();
    } else {
        lemma_value_of_bound(bits.drop_last());
        lemma_pow2_unfold(bits.len());
    }
}

/// A number below `2^n` is read back from its `n` bits unchanged.
pub proof fn lemma_value_of_bits_of(value: nat, n: nat)
    requires
        value < pow2(n),
    ensures
        value_of(bits_of(value, n)) == value,
    decreases n,
{
    if n == 0 {
        lemma2_to64();
    } else {
        let rest = bits_of(value / 2, (n - 1) as nat);
        lemma_pow2_unfold(n);
        lemma_value_of_bits_of(value / 2, (n - 1) as nat);
        assert(bits_of(value, n).drop_last() =~= rest);
    }
}

/// Writing out the number that a run of bits spells gives the run back.
pub proof fn lemma_bits_of_value_of(bits: Seq<bool>)
    ensures
        bits_of(value_of(bits), bits.len()) == bits,
    decreases bits.len(),
{
    if bits.len() > 0 {
        lemma_bits_of_value_of(bits.drop_last());
        assert(bits_of(value_of(bits), bits.len()) =~= bits);
    } else {
        assert(bits_of(value_of(bits), bits.len()) =~= bits);
    }
}

/// The bit at place `i` of the `n` low bits of a number.
pub proof fn lemma_bits_of_index(value: nat, n: nat, i: int)
    requires
        0 <= i < n,
    ensures
        bits_of(value, n).len() == n,
        bits_of(value, n)[i] == ((value / pow2((n - 1 - i) as nat)) % 2 == 1),
    decreases n,
{
    let rest = bits_of(value / 2, (n - 1) as nat);
    lemma_bits_of_len(value, n);
    lemma_bits_of_len(value / 2, (n - 1) as nat);
    assert(bits_of(value, n) == rest.push(value % 2 == 1));
    if i == n - 1 {
        lemma2_to64();
        assert(pow2((n - 1 - i) as nat) == 1);
        assert(value / 1 == value);
    } else {
        lemma_bits_of_index(value / 2, (n - 1) as nat, i);
        let e = (n - 1 - i) as nat;
        let lower = pow2((e - 1) as nat);
        lemma_pow2_unfold(e);
        lemma_pow2_pos((e - 1) as nat);
        lemma_div_denominator(value as int, 2, lower as int);
        assert(((n - 1) as nat - 1 - i) as nat == (e - 1) as nat);
        assert(rest[i] == (((value / 2) / lower) % 2 == 1));
        assert((value / 2) / lower == value / pow2(e)) by {
            assert(2 * (lower as int) == pow2(e) as int);
            assert((value as int / 2) / (lower as int) == value as int / (2 * (lower as int)));
        }
        assert(bits_of(value, n)[i] == rest[i]);
    }
}

/// The stream of a run of bytes has eight bits for each byte, and the bits of
/// byte `j` are the window that starts at bit `8 * j`.
pub proof fn lemma_unpack_window(bytes: Seq<u8>, j: int)
    requires
        0 <= j < bytes.len(),
    ensures
        unpack(bytes).len() == 8 * bytes.len(),
        unpack(bytes).subrange(8 * j, 8 * j + 8) == bits_of(bytes[j] as nat, 8),
{
    lemma_bits_of_len(bytes[j] as nat, 8);
    assert(unpack(bytes).subrange(8 * j, 8 * j + 8) =~= bits_of(bytes[j] as nat, 8)) by {
        assert forall|k: int| 0 <= k < 8 implies unpack(bytes).subrange(8 * j, 8 * j + 8)[k]
            == bits_of(bytes[j] as nat, 8)[k] by {
            assert((8 * j + k) / 8 == j);
            assert((8 * j + k) % 8 == k);
        }
    }
}

/// Packing the stream of a run of bytes gives the bytes back.
pub proof fn lemma_pack_unpack(bytes: Seq<u8>)
    ensures
        pack(unpack(bytes)) == bytes,
{
    let stream = unpack(bytes);
    assert(padding(stream.len()) == 0);
    assert(padded(stream) =~= stream);
    assert forall|j: int| 0 <= j < bytes.len() implies #[trigger] pack(stream)[j] == bytes[j] by {
        lemma_unpack_window(bytes, j);
        lemma2_to64();
        lemma_value_of_bits_of(bytes[j] as nat, 8);
    }
    assert(pack(stream) =~= bytes);
}

/// Unpacking the bytes of a stream gives the stream back, followed by the
/// zero bits that filled its last byte.
pub proof fn lemma_unpack_pack(bits: Seq<bool>)
    ensures
        unpack(pack(bits)) == padded(bits),
        padded(bits).len() % 8 == 0,
        pack(bits).len() * 8 == padded(bits).len(),
        pack(bits).len() == (bits.len() + 7) / 8,
{
    let whole = padded(bits);
    let bytes = pack(bits);
    assert(whole.len() % 8 == 0);
    assert forall|i: int| 0 <= i < whole.len() implies #[trigger] unpack(bytes)[i] == whole[i] by {
        let j = i / 8;
        let window = whole.subrange(8 * j, 8 * j + 8);
        lemma_value_of_bound(window);
        lemma2_to64();
        lemma_bits_of_value_of(window);
        assert(bytes[j] as nat == value_of(window));
        assert(window[i % 8] == whole[i]);
    }
    assert(unpack(bytes) =~= whole);
}

} // verus!
