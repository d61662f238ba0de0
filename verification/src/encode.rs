//! Encoding: from samples to the bytes of a TGIF file.

use crate::bitpack::pack;
use crate::codeword::{
    binary, binary_value, codeword, lemma_binary_len, lemma_binary_of_binary_value,
    lemma_binary_value_push, lemma_codeword_parts, lemma_pow2_values, max_codeword_len, ones,
    unary,
};
use crate::delta::{forward, forward_at, lemma_next_column, rows_len};
use crate::error::CodecError;
use crate::framing::{frame, payload_bits, valid_chunk_size};
use crate::grid::{GridView, SampleGrid};
use crate::header::{header_bytes, Header};
use crate::zigzag::{to_index, to_indices};
use vstd::arithmetic::div_mod::{lemma_div_denominator, lemma_mod_decreases, lemma_small_mod};
use vstd::arithmetic::power2::{lemma_pow2_pos, lemma_pow2_unfold, pow2};
use vstd::bits::{lemma_u8_shl_is_mul, lemma_u8_shr_is_div};
use vstd::prelude::*;

verus! {

/// Calculates the rice index of a residual.
pub fn rice_index(num: u8) -> (index: u8)
    ensures
        index == to_index(num),
{
    if num <= 127 {
        num * 2
    } else {
        (u8::MAX - num) * 2 + 1
    }
}

/// `2^rem_bits`, the number of values that a remainder can take.
pub fn remainder_range(rem_bits: u8) -> (range: u8)
    requires
        rem_bits <= 7,
    ensures
        range == pow2(rem_bits as nat),
        range >= 1,
{
    proof {
        lemma_pow2_values();
        lemma_pow2_pos(rem_bits as nat);
        lemma_u8_shl_is_mul(1u8, rem_bits);
    }
    1u8 << rem_bits
}

/// Appends the unary code of the quotient: `quot` one bits and a zero bit.
pub fn unary_coding(img: &mut Vec<bool>, quot: u8)
    ensures
        final(img)@ == old(img)@ + unary(quot as nat),
{
    let mut written: u8 = 0;
    while written < quot
        invariant
            written <= quot,
            img@ == old(img)@ + ones(written as nat),
        decreases quot - written,
    {
        img.push(true);
        written += 1;
    }
    img.push(false);
}

/// Appends the `rem_bits` lowest binary digits of the remainder, most
/// significant bit first.
pub fn remainder_coding(img: &mut Vec<bool>, rem: u8, rem_bits: u8)
    requires
        rem_bits <= 8,
    ensures
        final(img)@ == old(img)@ + binary(rem as nat, rem_bits as nat),
{
    let mut ind: u8 = rem_bits;
    proof {
        lemma_binary_len(rem as nat / pow2(ind as nat), 0);
        assert(binary(rem as nat / pow2(ind as nat), 0) =~= Seq::<bool>::empty());
    }
    while ind > 0
        invariant
            ind <= rem_bits <= 8,
            img@ == old(img)@ + binary(rem as nat / pow2(ind as nat), (rem_bits - ind) as nat),
        decreases ind,
    {
        ind -= 1;
        let shifted: u8 = rem >> ind;
        let bit = shifted & 1 == 1;
        proof {
            let digits = (rem_bits - ind) as nat;
            let upper = rem as nat / pow2(ind as nat);
            lemma_u8_shr_is_div(rem, ind);
            assert(shifted & 1 == shifted % 2) by (bit_vector);
            lemma_pow2_pos(ind as nat);
            lemma_pow2_unfold((ind + 1) as nat);
            lemma_div_denominator(rem as int, pow2(ind as nat) as int, 2);
            assert(binary(upper, digits) == binary(upper / 2, (digits - 1) as nat).push(
                upper % 2 == 1,
            ));
        }
        img.push(bit);
    }
    proof {
        lemma_pow2_values();
    }
}

/// The codeword of `index`: its quotient in unary, then its remainder in
/// `rem_bits` binary digits.
///
/// Fails exactly when `rem_bits` is more than 7.
pub fn encode_codeword(index: u8, rem_bits: u8) -> (code: Result<Vec<bool>, CodecError>)
    ensures
        match code {
            Ok(bits) => rem_bits <= 7 && bits@ == codeword(index, rem_bits as nat),
            Err(e) => rem_bits > 7 && e == CodecError::InvalidRemainderWidth,
        },
{
    if rem_bits > 7 {
        return Err(CodecError::InvalidRemainderWidth);
    }
    let range = remainder_range(rem_bits);
    let mut bits: Vec<bool> = Vec::new();
    unary_coding(&mut bits, index / range);
    remainder_coding(&mut bits, index % range, rem_bits);
    Ok(bits)
}

/// Appends `count` one bits.
pub fn pad_ones(img: &mut Vec<bool>, count: usize)
    ensures
        final(img)@ == old(img)@ + ones(count as nat),
{
    let mut written: usize = 0;
    assert(img@ =~= old(img)@ + ones(0));
    while written < count
        invariant
            written <= count,
            img@ == old(img)@ + ones(written as nat),
        decreases count - written,
    {
        img.push(true);
        written += 1;
    }
}

/// The forward transform: the residuals of `samples`, an image with rows
/// of `width` samples.
pub fn delta(samples: &[u8], width: usize) -> (residuals: Vec<u8>)
    ensures
        residuals@ == forward(samples@, width as nat),
{
    let len = samples.len();
    let rows_end = if width == 0 {
        0
    } else {
        proof {
            lemma_mod_decreases(len as nat, width as nat);
        }
        len - len % width
    };
    let mut residuals: Vec<u8> = Vec::with_capacity(len);
    let mut col: usize = 0;
    let mut i: usize = 0;
    proof {
        if width > 0 {
            lemma_small_mod(0, width as nat);
        }
    }
    while i < rows_end
        invariant
            i <= rows_end <= len,
            len == samples@.len(),
            rows_end == rows_len(len as nat, width as nat),
            rows_end > 0 ==> width > 0 && col == i as int % width as int,
            residuals@.len() == i,
            forall|t: int| 0 <= t < i ==> residuals@[t] == forward_at(samples@, width as nat, t),
        decreases rows_end - i,
    {
        proof {
            lemma_next_column(i as int, width as int);
            lemma_small_mod(0, width as nat);
        }
        let prediction = if col == 0 {
            0u8
        } else {
            samples[i - 1]
        };
        residuals.push(prediction.wrapping_sub(samples[i]));
        col += 1;
        if col == width {
            col = 0;
        }
        i += 1;
    }
    while i < len
        invariant
            rows_end <= i <= len,
            len == samples@.len(),
            rows_end == rows_len(len as nat, width as nat),
            residuals@.len() == i,
            forall|t: int| 0 <= t < i ==> residuals@[t] == forward_at(samples@, width as nat, t),
        decreases len - i,
    {
        residuals.push(samples[i]);
        i += 1;
    }
    residuals
}

/// Turns residuals into rice indices.
pub fn rice_indices(vec: Vec<u8>) -> (indices: Vec<u8>)
    ensures
        indices@ == to_indices(vec@),
{
    let mut vec = vec;
    let ghost residuals = vec@;
    let mut i: usize = 0;
    while i < vec.len()
        invariant
            i <= vec.len(),
            vec@.len() == residuals.len(),
            forall|t: int| 0 <= t < i ==> vec@[t] == to_index(residuals[t]),
            forall|t: int| i <= t < vec@.len() ==> vec@[t] == residuals[t],
        decreases vec.len() - i,
    {
        let index = rice_index(vec[i]);
        vec.set(i, index);
        i += 1;
    }
    assert(vec@ =~= to_indices(residuals));
    vec
}

/// Writes rice indices as codewords into chunks of `chunk_size` bits, so
/// that no codeword crosses the end of a chunk.
///
/// Before a codeword that does not fit into the current chunk, the chunk
/// is filled up with one bits.
pub fn frame_indices(indices: &[u8], remainder_bits: u8, chunk_size: usize) -> (img: Vec<bool>)
    requires
        remainder_bits <= 7,
        chunk_size >= max_codeword_len(remainder_bits as nat),
    ensures
        img@ == frame(indices@, remainder_bits as nat, chunk_size as nat, 0),
{
    let rem_max = remainder_range(remainder_bits);
    let ghost rem_bits = remainder_bits as nat;
    let ghost size = chunk_size as nat;
    let mut img: Vec<bool> = Vec::new();
    let mut chunk: usize = 0;
    let mut k: usize = 0;
    assert(img@ + frame(indices@.skip(0), rem_bits, size, 0) =~= frame(
        indices@,
        rem_bits,
        size,
        0,
    )) by {
        assert(indices@.skip(0) =~= indices@);
    }
    while k < indices.len()
        invariant
            k <= indices.len(),
            chunk <= chunk_size,
            remainder_bits <= 7,
            rem_max == pow2(rem_bits),
            rem_max >= 1,
            rem_bits == remainder_bits,
            size == chunk_size,
            size >= max_codeword_len(rem_bits),
            frame(indices@, rem_bits, size, 0) == img@ + frame(
                indices@.skip(k as int),
                rem_bits,
                size,
                chunk as nat,
            ),
        decreases indices.len() - k,
    {
        let rice = indices[k];
        let quotient = rice / rem_max;
        let remainder = rice % rem_max;
        let bits: usize = quotient as usize + 1 + remainder_bits as usize;
        let ghost before = img@;
        let ghost fill = chunk as nat;
        let ghost rest = indices@.skip(k as int);
        let ghost code = codeword(rice, rem_bits);
        proof {
            lemma_codeword_parts(rice, rem_bits);
            assert(rest[0] == rice);
            assert(rest.skip(1) =~= indices@.skip(k + 1));
        }
        if bits > chunk_size - chunk {
            pad_ones(&mut img, chunk_size - chunk);
            chunk = 0;
        }
        chunk += bits;
        unary_coding(&mut img, quotient);
        remainder_coding(&mut img, remainder, remainder_bits);
        k += 1;
        proof {
            let next = frame(indices@.skip(k as int), rem_bits, size, chunk as nat);
            if fill + code.len() > size {
                assert(img@ =~= before + ones((size - fill) as nat) + code);
                assert(frame(rest, rem_bits, size, fill) == ones((size - fill) as nat) + code
                    + next);
            } else {
                assert(img@ =~= before + code);
                assert(frame(rest, rem_bits, size, fill) == code + next);
            }
            assert(img@ + next =~= before + frame(rest, rem_bits, size, fill));
        }
    }
    assert(indices@.skip(k as int) =~= Seq::<u8>::empty());
    assert(img@ + Seq::<bool>::empty() =~= img@);
    img
}

/// Codes an image with rows of `width` samples into bits: the samples are
/// turned into residuals, these into rice indices, and the indices are
/// written as codewords into chunks.
pub fn rice_code(image: &[u8], width: usize, remainder_bits: u8, chunk_size: usize) -> (img: Vec<
    bool,
>)
    requires
        remainder_bits <= 7,
        chunk_size >= max_codeword_len(remainder_bits as nat),
    ensures
        img@ == frame(
            to_indices(forward(image@, width as nat)),
            remainder_bits as nat,
            chunk_size as nat,
            0,
        ),
{
    let indices = rice_indices(delta(image, width));
    frame_indices(indices.as_slice(), remainder_bits, chunk_size)
}

/// Packs bits into bytes, eight to a byte, most significant bit first.
/// Bits behind the last full byte are left out.
pub fn pack_bits(bits: &Vec<bool>) -> (bytes: Vec<u8>)
    ensures
        bytes@ == pack(bits@),
{
    let count = bits.len() / 8;
    let mut bytes: Vec<u8> = Vec::with_capacity(count);
    let mut i: usize = 0;
    while i < count
        invariant
            i <= count,
            count == bits@.len() / 8,
            bits@.len() <= usize::MAX,
            bytes@.len() == i,
            forall|t: int| 0 <= t < i ==> bytes@[t] == pack(bits@)[t],
        decreases count - i,
    {
        let mut value: u8 = 0;
        let mut j: usize = 0;
        while j < 8
            invariant
                j <= 8,
                i < count,
                count == bits@.len() / 8,
                bits@.len() <= usize::MAX,
                value == binary_value(bits@.subrange(8 * i, 8 * i + j)),
            decreases 8 - j,
        {
            let bit = bits[8 * i + j];
            proof {
                let group = bits@.subrange(8 * i, 8 * i + j);
                lemma_binary_of_binary_value(group);
                lemma_pow2_values();
                vstd::arithmetic::power2::lemma_pow2_strictly_increases(j as nat, 8);
                if j < 7 {
                    vstd::arithmetic::power2::lemma_pow2_strictly_increases(j as nat, 7);
                }
                lemma_binary_value_push(group, bit);
                assert(group.push(bit) =~= bits@.subrange(8 * i, 8 * i + j + 1));
            }
            value = value * 2 + if bit {
                1
            } else {
                0
            };
            j += 1;
        }
        bytes.push(value);
        i += 1;
    }
    bytes
}

/// What is wrong with the coding parameters, if anything: the remainder
/// width is looked at first.
pub open spec fn parameter_error(rem_bits: u8, chunk_size: u32) -> Option<CodecError> {
    if rem_bits > 7 {
        Some(CodecError::InvalidRemainderWidth)
    } else if !valid_chunk_size(chunk_size as nat, rem_bits as nat) {
        Some(CodecError::IncompatibleChunkSize)
    } else {
        None
    }
}

/// Checks the coding parameters: `rem_bits` is at most 7, and `chunk_size`
/// is a positive multiple of eight that holds the longest codeword.
pub fn check_parameters(rem_bits: u8, chunk_size: u32) -> (checked: Result<(), CodecError>)
    ensures
        match checked {
            Ok(_) => parameter_error(rem_bits, chunk_size) is None,
            Err(e) => parameter_error(rem_bits, chunk_size) == Some(e),
        },
{
    if rem_bits > 7 {
        return Err(CodecError::InvalidRemainderWidth);
    }
    proof {
        lemma_u8_shr_is_div(255u8, rem_bits);
    }
    let longest: u32 = (255u8 >> rem_bits) as u32 + 1 + rem_bits as u32;
    if chunk_size == 0 || chunk_size % 8 != 0 || chunk_size < longest {
        return Err(CodecError::IncompatibleChunkSize);
    }
    Ok(())
}

/// The bytes of the file for an image: the header, then the payload.
pub open spec fn encoded(grid: GridView, rem_bits: u8, chunk_size: u32) -> Seq<u8> {
    header_bytes(grid.height, grid.width, chunk_size, rem_bits) + pack(
        payload_bits(
            to_indices(forward(grid.samples, grid.width as nat)),
            rem_bits as nat,
            chunk_size as nat,
        ),
    )
}

/// Encodes an image into the bytes of a TGIF file.
///
/// The samples are transformed into residuals and these into rice
/// indices; the indices are written as codewords into chunks of
/// `chunk_size` bits; between one and eight one bits end the payload on
/// the next byte boundary; the header is put in front.
///
/// Fails, before any other work, when `rem_bits` is more than 7, or else
/// when `chunk_size` is not a positive multiple of eight that holds the
/// longest codeword.
pub fn encode(grid: &SampleGrid, rem_bits: u8, chunk_size: u32) -> (file: Result<
    Vec<u8>,
    CodecError,
>)
    ensures
        match file {
            Ok(bytes) => parameter_error(rem_bits, chunk_size) is None && bytes@ == encoded(
                grid@,
                rem_bits,
                chunk_size,
            ),
            Err(e) => parameter_error(rem_bits, chunk_size) == Some(e),
        },
{
    match check_parameters(rem_bits, chunk_size) {
        Err(e) => {
            return Err(e);
        },
        Ok(_) => {},
    }
    let width = grid.width();
    let height = grid.height();
    let mut img = rice_code(
        grid.samples().as_slice(),
        width as usize,
        rem_bits,
        chunk_size as usize,
    );
    let padding = 8 - img.len() % 8;
    pad_ones(&mut img, padding);
    let mut file = Header::new(width, height, chunk_size, rem_bits).to_u8();
    let mut payload = pack_bits(&img);
    file.append(&mut payload);
    Ok(file)
}

} // verus!
