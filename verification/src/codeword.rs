//! The code of a single rice index, and the decoding of a bit stream.
//!
//! With `rem_bits` bits for the remainder, an index is split into a
//! quotient `index / 2^rem_bits` and a remainder `index % 2^rem_bits`. The
//! codeword is the quotient in unary (that many `1` bits and one `0` bit)
//! followed by the remainder in binary, most significant bit first.

use vstd::arithmetic::div_mod::{
    lemma_div_denominator, lemma_div_is_ordered, lemma_div_pos_is_pos, lemma_fundamental_div_mod,
    lemma_mod_bound,
};
use vstd::arithmetic::mul::lemma_mul_is_commutative;
use vstd::arithmetic::power2::{lemma2_to64, lemma_pow2_pos, lemma_pow2_unfold, pow2};
use vstd::prelude::*;

verus! {

/// `n` bits that are all `1`.
pub open spec fn ones(n: nat) -> Seq<bool> {
    Seq::new(n, |i: int| true)
}

/// The unary code of `q`: `q` one bits and a terminating zero bit.
pub open spec fn unary(q: nat) -> Seq<bool> {
    ones(q).push(false)
}

/// The `width` lowest binary digits of `n`, most significant first.
pub open spec fn binary(n: nat, width: nat) -> Seq<bool>
    decreases width,
{
    if width == 0 {
        Seq::empty()
    } else {
        binary(n / 2, (width - 1) as nat).push(n % 2 == 1)
    }
}

/// The number that `bits` is the binary notation of, most significant
/// bit first.
pub open spec fn binary_value(bits: Seq<bool>) -> nat
    decreases bits.len(),
{
    if bits.len() == 0 {
        0
    } else {
        2 * binary_value(bits.drop_last()) + if bits.last() {
            1nat
        } else {
            0nat
        }
    }
}

/// The unary part of the code of `index`.
pub open spec fn quotient(index: u8, rem_bits: nat) -> nat {
    index as nat / pow2(rem_bits)
}

/// The binary part of the code of `index`.
pub open spec fn remainder(index: u8, rem_bits: nat) -> nat {
    index as nat % pow2(rem_bits)
}

/// The codeword of `index`.
pub open spec fn codeword(index: u8, rem_bits: nat) -> Seq<bool> {
    unary(quotient(index, rem_bits)) + binary(remainder(index, rem_bits), rem_bits)
}

/// Number of bits in the codeword of `index`.
pub open spec fn codeword_len(index: u8, rem_bits: nat) -> nat {
    quotient(index, rem_bits) + 1 + rem_bits
}

/// Number of bits in the longest codeword, that of index 255.
pub open spec fn max_codeword_len(rem_bits: nat) -> nat {
    255nat / pow2(rem_bits) + 1 + rem_bits
}

/// Number of one bits at the start of `bits`.
pub open spec fn leading_ones(bits: Seq<bool>) -> nat
    decreases bits.len(),
{
    if bits.len() > 0 && bits[0] {
        1 + leading_ones(bits.skip(1))
    } else {
        0
    }
}

/// The index that a quotient and a remainder stand for, kept to its low
/// eight bits. For every codeword this is the index itself.
pub open spec fn decoded_index(q: nat, rem: nat, rem_bits: nat) -> u8 {
    ((q * pow2(rem_bits) + rem) % 256) as u8
}

/// The indices that `bits` decodes to.
///
/// Codewords are read one after the other. Reading stops at the first
/// codeword that is not complete: a run of one bits that no zero bit ends,
/// or a remainder with fewer than `rem_bits` bits. Nothing is produced for
/// such a rest.
pub open spec fn decode_stream(bits: Seq<bool>, rem_bits: nat) -> Seq<u8>
    decreases bits.len(),
{
    let q = leading_ones(bits);
    let end = q + 1 + rem_bits;
    if end > bits.len() {
        Seq::empty()
    } else {
        seq![decoded_index(q, binary_value(bits.subrange(q as int + 1, end as int)), rem_bits)]
            + decode_stream(bits.skip(end as int), rem_bits)
    }
}

/// The powers of two that the code uses.
pub proof fn lemma_pow2_values()
    ensures
        pow2(0) == 1,
        pow2(1) == 2,
        pow2(2) == 4,
        pow2(3) == 8,
        pow2(4) == 16,
        pow2(5) == 32,
        pow2(6) == 64,
        pow2(7) == 128,
        pow2(8) == 256,
{
    lemma2_to64();
}

/// The length of the longest codeword for every remainder width.
pub proof fn lemma_max_codeword_len()
    ensures
        max_codeword_len(0) == 256,
        max_codeword_len(1) == 129,
        max_codeword_len(2) == 66,
        max_codeword_len(3) == 35,
        max_codeword_len(4) == 20,
        max_codeword_len(5) == 13,
        max_codeword_len(6) == 10,
        max_codeword_len(7) == 9,
{
    lemma_pow2_values();
}

/// `binary(n, width)` has `width` bits.
pub proof fn lemma_binary_len(n: nat, width: nat)
    ensures
        binary(n, width).len() == width,
    decreases width,
{
    if width > 0 {
        lemma_binary_len(n / 2, (width - 1) as nat);
    }
}

/// Bit `i` of `binary(n, width)` is the digit of weight `2^(width - 1 - i)`.
pub proof fn lemma_binary_index(n: nat, width: nat, i: int)
    requires
        0 <= i < width,
    ensures
        binary(n, width).len() == width,
        binary(n, width)[i] == ((n / pow2((width - 1 - i) as nat)) % 2 == 1),
    decreases width,
{
    lemma_binary_len(n, width);
    lemma_binary_len(n / 2, (width - 1) as nat);
    let shorter = binary(n / 2, (width - 1) as nat);
    assert(binary(n, width) == shorter.push(n % 2 == 1));
    if i == width - 1 {
        lemma_pow2_values();
        assert(binary(n, width)[i] == (n % 2 == 1));
        assert(n / pow2(0) == n);
    } else {
        lemma_binary_index(n / 2, (width - 1) as nat, i);
        let e = (width - 2 - i) as nat;
        lemma_pow2_unfold(e + 1);
        lemma_pow2_pos(e);
        lemma_div_denominator(n as int, 2, pow2(e) as int);
        assert(pow2(e + 1) == 2 * pow2(e));
        assert((n / 2) / pow2(e) == n / pow2(e + 1));
        assert((width - 1 - i) as nat == e + 1);
        assert(((width - 1) as nat - 1 - i) as nat == e);
        assert(binary(n, width)[i] == shorter[i]);
        assert(shorter[i] == (((n / 2) / pow2(e)) % 2 == 1));
    }
}

/// A number below `2^width` is the value of its `width` binary digits.
pub proof fn lemma_binary_value_of_binary(n: nat, width: nat)
    requires
        n < pow2(width),
    ensures
        binary_value(binary(n, width)) == n,
    decreases width,
{
    if width == 0 {
        lemma_pow2_values();
    } else {
        lemma_pow2_unfold(width);
        lemma_binary_value_of_binary(n / 2, (width - 1) as nat);
        let shorter = binary(n / 2, (width - 1) as nat);
        assert(binary(n, width).drop_last() =~= shorter);
    }
}

/// The value of a bit string is below `2^len`, and its binary digits are
/// the bit string.
pub proof fn lemma_binary_of_binary_value(bits: Seq<bool>)
    ensures
        binary_value(bits) < pow2(bits.len()),
        binary(binary_value(bits), bits.len()) == bits,
    decreases bits.len(),
{
    if bits.len() == 0 {
        lemma_pow2_values();
    } else {
        lemma_pow2_unfold(bits.len());
        lemma_binary_of_binary_value(bits.drop_last());
    }
}

/// Appending a bit doubles the value and adds the bit.
pub proof fn lemma_binary_value_push(bits: Seq<bool>, b: bool)
    ensures
        binary_value(bits.push(b)) == 2 * binary_value(bits) + if b {
            1nat
        } else {
            0nat
        },
{
    assert(bits.push(b).drop_last() =~= bits);
}

/// Where `bits` starts with `n` one bits that a zero bit or the end of the
/// stream follows, `n` is the number of leading ones.
pub proof fn lemma_leading_ones(bits: Seq<bool>, n: nat)
    requires
        n <= bits.len(),
        forall|i: int| 0 <= i < n ==> bits[i],
        n == bits.len() || !bits[n as int],
    ensures
        leading_ones(bits) == n,
    decreases n,
{
    if n > 0 {
        let rest = bits.skip(1);
        assert forall|i: int| 0 <= i < n - 1 implies rest[i] by {
            assert(rest[i] == bits[i + 1]);
        }
        lemma_leading_ones(rest, (n - 1) as nat);
    }
}

/// A stream of one bits decodes to nothing.
pub proof fn lemma_decode_ones(n: nat, rem_bits: nat)
    ensures
        decode_stream(ones(n), rem_bits) == Seq::<u8>::empty(),
{
    lemma_leading_ones(ones(n), n);
}

/// Quotient and remainder of an index give the index back, and the
/// codeword is no longer than the longest one.
pub proof fn lemma_codeword_parts(index: u8, rem_bits: nat)
    ensures
        remainder(index, rem_bits) < pow2(rem_bits),
        quotient(index, rem_bits) * pow2(rem_bits) + remainder(index, rem_bits) == index,
        decoded_index(quotient(index, rem_bits), remainder(index, rem_bits), rem_bits) == index,
        codeword(index, rem_bits).len() == codeword_len(index, rem_bits),
        1 <= codeword_len(index, rem_bits) <= max_codeword_len(rem_bits),
{
    let p = pow2(rem_bits) as int;
    lemma_pow2_pos(rem_bits);
    lemma_fundamental_div_mod(index as int, p);
    lemma_mod_bound(index as int, p);
    lemma_mul_is_commutative(p, index as int / p);
    lemma_binary_len(remainder(index, rem_bits), rem_bits);
    lemma_div_is_ordered(index as int, 255, p);
    lemma_div_pos_is_pos(index as int, p);
}

/// A codeword in front of a stream decodes to its index, followed by what
/// the rest of the stream decodes to.
pub proof fn lemma_decode_codeword(index: u8, rem_bits: nat, rest: Seq<bool>)
    ensures
        decode_stream(codeword(index, rem_bits) + rest, rem_bits) == seq![index] + decode_stream(
            rest,
            rem_bits,
        ),
{
    let q = quotient(index, rem_bits);
    let r = remainder(index, rem_bits);
    let cw = codeword(index, rem_bits);
    let bits = cw + rest;
    lemma_codeword_parts(index, rem_bits);
    lemma_binary_len(r, rem_bits);
    lemma_leading_ones(bits, q);
    let end = q + 1 + rem_bits;
    assert(bits.subrange(q as int + 1, end as int) =~= binary(r, rem_bits));
    assert(bits.skip(end as int) =~= rest);
    lemma_binary_value_of_binary(r, rem_bits);
}

/// Decoding a codeword gives its index: the code loses nothing.
pub proof fn lemma_codeword_roundtrip(index: u8, rem_bits: nat)
    ensures
        decode_stream(codeword(index, rem_bits), rem_bits) == seq![index],
{
    lemma_decode_codeword(index, rem_bits, Seq::empty());
    lemma_leading_ones(Seq::<bool>::empty(), 0);
}

/// Different indices have different codewords.
pub proof fn lemma_codeword_injective(a: u8, b: u8, rem_bits: nat)
    requires
        codeword(a, rem_bits) == codeword(b, rem_bits),
    ensures
        a == b,
{
    lemma_codeword_roundtrip(a, rem_bits);
    lemma_codeword_roundtrip(b, rem_bits);
    assert(seq![a][0] == seq![b][0]);
}

} // verus!
