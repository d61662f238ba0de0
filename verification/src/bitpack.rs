//! Bits in bytes: eight bits to a byte, most significant bit first.

use crate::codeword::{
    binary, binary_value, lemma_binary_index, lemma_binary_len, lemma_binary_of_binary_value,
    lemma_binary_value_of_binary, lemma_pow2_values,
};
use vstd::arithmetic::power2::pow2;
use vstd::prelude::*;

verus! {

/// The bits that `bytes` holds, in the order in which they are read.
pub open spec fn bytes_to_bits(bytes: Seq<u8>) -> Seq<bool> {
    Seq::new(8 * bytes.len(), |t: int| binary(bytes[t / 8] as nat, 8)[t % 8])
}

/// The bytes that hold `bits`. Bits behind the last full byte are left
/// out.
pub open spec fn pack(bits: Seq<bool>) -> Seq<u8> {
    Seq::new(bits.len() / 8, |i: int| binary_value(bits.subrange(8 * i, 8 * i + 8)) as u8)
}

/// Bit `j` of byte `i` is the binary digit of weight `2^(7 - j)`.
pub proof fn lemma_bit_of_byte(bytes: Seq<u8>, i: int, j: int)
    requires
        0 <= i < bytes.len(),
        0 <= j < 8,
    ensures
        bytes_to_bits(bytes)[8 * i + j] == ((bytes[i] as nat / pow2((7 - j) as nat)) % 2 == 1),
{
    lemma_binary_index(bytes[i] as nat, 8, j);
}

/// Unpacking what was packed gives the bits back, where they fill whole
/// bytes.
pub proof fn lemma_unpack_pack(bits: Seq<bool>)
    requires
        bits.len() % 8 == 0,
    ensures
        bytes_to_bits(pack(bits)) == bits,
{
    let unpacked = bytes_to_bits(pack(bits));
    assert forall|t: int| 0 <= t < bits.len() implies unpacked[t] == bits[t] by {
        let i = t / 8;
        let group = bits.subrange(8 * i, 8 * i + 8);
        lemma_binary_of_binary_value(group);
        lemma_pow2_values();
    }
}

/// Packing the bits of bytes gives the bytes back.
pub proof fn lemma_pack_unpack(bytes: Seq<u8>)
    ensures
        pack(bytes_to_bits(bytes)) == bytes,
{
    let bits = bytes_to_bits(bytes);
    let packed = pack(bits);
    assert forall|i: int| 0 <= i < bytes.len() implies packed[i] == bytes[i] by {
        lemma_binary_len(bytes[i] as nat, 8);
        assert(bits.subrange(8 * i, 8 * i + 8) =~= binary(bytes[i] as nat, 8));
        lemma_pow2_values();
        lemma_binary_value_of_binary(bytes[i] as nat, 8);
    }
}

/// The bits of a span of bytes are the matching span of the bits.
pub proof fn lemma_bits_of_subrange(bytes: Seq<u8>, from: int, to: int)
    requires
        0 <= from <= to <= bytes.len(),
    ensures
        bytes_to_bits(bytes.subrange(from, to)) == bytes_to_bits(bytes).subrange(
            8 * from,
            8 * to,
        ),
{
}

} // verus!
