//! The bit-level view of the packed stream: how bytes unfold into bits, and
//! how a run of bits corresponds to the integer value that the decoding
//! accumulator builds up.

use vstd::arithmetic::power2::{lemma2_to64, lemma_pow2_unfold, pow2};
use vstd::prelude::*;

verus! {

/// The eight bits of `b`, most significant first.
pub open spec fn byte_bits(b: u8) -> Seq<bool> {
    Seq::new(8, |i: int| (b >> ((7 - i) as u8)) & 1 == 1)
}

/// All bits of a byte sequence, each byte unfolded most significant bit
/// first.
pub open spec fn stream_bits(s: Seq<u8>) -> Seq<bool>
    decreases s.len(),
{
    if s.len() == 0 {
        Seq::empty()
    } else {
        byte_bits(s[0]) + stream_bits(s.drop_first())
    }
}

/// One accumulator step: shift the pattern left and append bit `b`.
pub open spec fn push_bit(bits: u64, b: bool) -> u64 {
    (bits << 1u64) | (if b {
        1u64
    } else {
        0u64
    })
}

/// Unsigned value of a bit sequence read most significant bit first.
pub open spec fn bits_value(s: Seq<bool>) -> nat
    decreases s.len(),
{
    if s.len() == 0 {
        0
    } else {
        2 * bits_value(s.drop_last()) + (if s.last() {
            1nat
        } else {
            0nat
        })
    }
}

/// The `len`-bit representation of `v`, most significant bit first.
pub open spec fn bits_of_nat(len: nat, v: nat) -> Seq<bool>
    decreases len,
{
    if len == 0 {
        Seq::empty()
    } else {
        bits_of_nat((len - 1) as nat, v / 2).push(v % 2 == 1)
    }
}

/// A bit sequence of length `n` holds a value below `pow2(n)`.
pub proof fn lemma_bits_value_bound(s: Seq<bool>)
    ensures
        bits_value(s) < pow2(s.len()),
    decreases s.len(),
{
    if s.len() == 0 {
        lemma2_to64();
    } else {
        lemma_bits_value_bound(s.drop_last());
        lemma_pow2_unfold(s.len());
    }
}

/// While the accumulator value still fits in 63 bits, the shift-and-or step
/// computes exactly the doubled value plus the new bit.
pub proof fn lemma_push_bit(bits: u64, b: bool)
    requires
        bits < 0x8000_0000_0000_0000,
    ensures
        push_bit(bits, b) == 2 * bits + (if b {
            1int
        } else {
            0int
        }),
{
    let c: u64 = if b {
        1u64
    } else {
        0u64
    };
    assert(((bits << 1u64) | c) == 2 * bits + c) by (bit_vector)
        requires
            bits < 0x8000_0000_0000_0000u64,
            c <= 1u64,
    ;
}

/// Appending a bit doubles the value and adds the bit.
pub proof fn lemma_bits_value_push(s: Seq<bool>, b: bool)
    ensures
        bits_value(s.push(b)) == 2 * bits_value(s) + (if b {
            1int
        } else {
            0int
        }),
{
    assert(s.push(b).drop_last() =~= s);
    assert(s.push(b).last() == b);
}

/// `bits_of_nat` produces a sequence of the requested length.
pub proof fn lemma_bits_of_nat_len(len: nat, v: nat)
    ensures
        bits_of_nat(len, v).len() == len,
    decreases len,
{
    if len > 0 {
        lemma_bits_of_nat_len((len - 1) as nat, v / 2);
    }
}

/// For a value that fits in `len` bits, `bits_of_nat` and `bits_value` are
/// mutually inverse.
pub proof fn lemma_bits_of_nat_value(len: nat, v: nat)
    requires
        v < pow2(len),
    ensures
        bits_value(bits_of_nat(len, v)) == v,
    decreases len,
{
    if len == 0 {
        lemma2_to64();
    } else {
        lemma_pow2_unfold(len);
        lemma_bits_of_nat_value((len - 1) as nat, v / 2);
        lemma_bits_value_push(bits_of_nat((len - 1) as nat, v / 2), v % 2 == 1);
    }
}

/// Two bit sequences of equal length with the same value are equal.
pub proof fn lemma_bits_value_injective(s1: Seq<bool>, s2: Seq<bool>)
    requires
        s1.len() == s2.len(),
        bits_value(s1) == bits_value(s2),
    ensures
        s1 =~= s2,
    decreases s1.len(),
{
    if s1.len() > 0 {
        assert(s1.last() == s2.last());
        lemma_bits_value_injective(s1.drop_last(), s2.drop_last());
        assert forall|i: int| 0 <= i < s1.len() implies s1[i] == s2[i] by {
            if i < s1.len() - 1 {
                assert(s1.drop_last()[i] == s2.drop_last()[i]);
            }
        }
    }
}

/// Unfolding the bit stream at byte boundary `j`.
pub proof fn lemma_stream_bits_skip(s: Seq<u8>, j: int)
    requires
        0 <= j < s.len(),
    ensures
        stream_bits(s.skip(j)) == byte_bits(s[j]) + stream_bits(s.skip(j + 1)),
{
    assert(s.skip(j).len() > 0);
    assert(s.skip(j)[0] == s[j]);
    assert(s.skip(j).drop_first() =~= s.skip(j + 1));
}

} // verus!
