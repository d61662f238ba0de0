//! Decoding: from the bytes of a TGIF file back to the samples.

use crate::bitpack::{
    bytes_to_bits, lemma_bit_of_byte, lemma_bits_of_subrange, lemma_unpack_pack, pack,
};
use crate::codeword::{
    binary_value, decode_stream, lemma_binary_value_push, lemma_leading_ones, lemma_pow2_values,
    max_codeword_len,
};
use crate::delta::{
    forward, inverse, inverse_at, lemma_inverse_forward, lemma_next_column, rows_len,
};
use crate::encode::{check_parameters, encoded, parameter_error};
use crate::error::CodecError;
use crate::framing::{decode_chunks, joined, lemma_payload_decodes, payload_bits};
use crate::grid::{GridView, SampleGrid};
use crate::header::{
    has_header, header_bytes, lemma_header_roundtrip, stored_chunk_size, stored_height,
    stored_rem_bits, stored_width, Header, STARTING_INDEX,
};
use crate::zigzag::{from_index, from_indices, lemma_indices_roundtrip, to_indices};
use vstd::arithmetic::div_mod::{lemma_mod_decreases, lemma_small_mod};
use vstd::arithmetic::power2::{lemma_pow2_unfold, pow2};
use vstd::bits::lemma_u8_shr_is_div;
use vstd::prelude::*;

verus! {

/// The residual that a rice index stands for.
pub fn rev_rice_index(index: u8) -> (residual: u8)
    ensures
        residual == from_index(index),
{
    if index % 2 == 0 {
        index / 2
    } else {
        255 - index / 2
    }
}

/// Turns rice indices back into residuals.
pub fn reverse_rice_index(vec: Vec<u8>) -> (residuals: Vec<u8>)
    ensures
        residuals@ == from_indices(vec@),
{
    let mut vec = vec;
    let ghost indices = vec@;
    let mut i: usize = 0;
    while i < vec.len()
        invariant
            i <= vec.len(),
            vec@.len() == indices.len(),
            forall|t: int| 0 <= t < i ==> vec@[t] == from_index(indices[t]),
            forall|t: int| i <= t < vec@.len() ==> vec@[t] == indices[t],
        decreases vec.len() - i,
    {
        let residual = rev_rice_index(vec[i]);
        vec.set(i, residual);
        i += 1;
    }
    assert(vec@ =~= from_indices(indices));
    vec
}

/// The inverse transform: turns the residuals of an image with rows of
/// `img_width` samples back into the samples.
pub fn reverse_delta(delta: Vec<u8>, img_width: usize) -> (samples: Vec<u8>)
    ensures
        samples@ == inverse(delta@, img_width as nat),
{
    let mut delta = delta;
    let ghost residuals = delta@;
    let ghost width = img_width as nat;
    let len = delta.len();
    let rows_end = if img_width == 0 {
        0
    } else {
        proof {
            lemma_mod_decreases(len as nat, width);
        }
        len - len % img_width
    };
    let mut col: usize = 0;
    let mut prev_num: u8 = 0;
    let mut i: usize = 0;
    proof {
        if img_width > 0 {
            lemma_small_mod(0, width);
        }
    }
    while i < rows_end
        invariant
            i <= rows_end <= len,
            len == residuals.len(),
            delta@.len() == len,
            width == img_width,
            rows_end == rows_len(len as nat, width),
            rows_end > 0 ==> img_width > 0 && col == i as int % img_width as int,
            col != 0 ==> i > 0 && prev_num == delta@[i - 1],
            forall|t: int| 0 <= t < i ==> delta@[t] == inverse_at(residuals, width, t),
            forall|t: int| i <= t < len ==> delta@[t] == residuals[t],
        decreases rows_end - i,
    {
        proof {
            lemma_next_column(i as int, img_width as int);
            lemma_small_mod(0, width);
        }
        if col == 0 {
            prev_num = 0;
        }
        prev_num = prev_num.wrapping_sub(delta[i]);
        delta.set(i, prev_num);
        col += 1;
        if col == img_width {
            col = 0;
        }
        i += 1;
    }
    delta
}

/// Bit `j` of `byte`, counted from the most significant bit.
fn bit_at(byte: u8, j: u8) -> (bit: bool)
    requires
        j < 8,
    ensures
        bit == ((byte as nat / pow2((7 - j) as nat)) % 2 == 1),
{
    let shift: u8 = 7 - j;
    let shifted: u8 = byte >> shift;
    proof {
        lemma_u8_shr_is_div(byte, shift);
        assert(shifted & 1 == shifted % 2) by (bit_vector);
    }
    shifted & 1 == 1
}

/// What a decoder knows in the middle of a stream: the codeword that
/// starts at `start` has been read up to `pos`. It has `q` one bits so far;
/// with `unary` unset its zero bit and `k` bits of its remainder have been
/// read as well. `num` is what has been read of the index, kept to its low
/// eight bits.
spec fn reading(
    bits: Seq<bool>,
    rem_bits: nat,
    pos: int,
    start: int,
    q: nat,
    unary: bool,
    k: nat,
    num: u8,
) -> bool {
    &&& 0 <= start <= pos <= bits.len()
    &&& forall|t: int| start <= t < start + q ==> bits[t]
    &&& if unary {
        &&& pos == start + q
        &&& k == 0
        &&& num == q % 256
    } else {
        &&& pos == start + q + 1 + k
        &&& !bits[start + q]
        &&& k < rem_bits
        &&& num == (q * pow2(k) + binary_value(bits.subrange(start + q + 1, pos))) % 256
    }
}

/// Reading one more one bit of the quotient.
proof fn lemma_read_one(bits: Seq<bool>, rem_bits: nat, pos: int, start: int, q: nat, num: u8)
    requires
        reading(bits, rem_bits, pos, start, q, true, 0, num),
        pos < bits.len(),
        bits[pos],
    ensures
        reading(
            bits,
            rem_bits,
            pos + 1,
            start,
            q + 1,
            true,
            0,
            if num == 255 {
                0u8
            } else {
                (num + 1) as u8
            },
        ),
{
}

/// Reading the zero bit that ends the quotient, where a remainder
/// follows.
proof fn lemma_read_zero(bits: Seq<bool>, rem_bits: nat, pos: int, start: int, q: nat, num: u8)
    requires
        reading(bits, rem_bits, pos, start, q, true, 0, num),
        pos < bits.len(),
        !bits[pos],
        rem_bits > 0,
    ensures
        reading(bits, rem_bits, pos + 1, start, q, false, 0, num),
{
    lemma_pow2_values();
}

/// Reading one more bit of the remainder, where it is not the last.
proof fn lemma_read_remainder(
    bits: Seq<bool>,
    rem_bits: nat,
    pos: int,
    start: int,
    q: nat,
    k: nat,
    num: u8,
)
    requires
        reading(bits, rem_bits, pos, start, q, false, k, num),
        pos < bits.len(),
    ensures
        next_num(num, bits[pos]) == (q * pow2(k + 1) + binary_value(
            bits.subrange(start + q + 1, pos + 1),
        )) % 256,
        k + 1 < rem_bits ==> reading(
            bits,
            rem_bits,
            pos + 1,
            start,
            q,
            false,
            k + 1,
            next_num(num, bits[pos]),
        ),
{
    let read = bits.subrange(start + q + 1, pos);
    let longer = bits.subrange(start + q + 1, pos + 1);
    let value = binary_value(read);
    let digit: int = if bits[pos] {
        1
    } else {
        0
    };
    lemma_binary_value_push(read, bits[pos]);
    assert(read.push(bits[pos]) =~= longer);
    assert(binary_value(longer) == 2 * value + digit);
    lemma_pow2_unfold(k + 1);
    let before: int = (q * pow2(k) + value) as int;
    let after: int = (q * pow2(k + 1) + binary_value(longer)) as int;
    assert(after == 2 * before + digit) by (nonlinear_arith)
        requires
            pow2(k + 1) == 2 * pow2(k),
            before == q * pow2(k) + value,
            after == q * pow2(k + 1) + (2 * value + digit),
    ;
    assert(before >= 0) by (nonlinear_arith)
        requires
            before == q * pow2(k) + value,
    ;
    lemma_shift_in(before, num as int, digit);
}

/// Doubling a number and adding a digit, modulo 256, needs only the
/// number modulo 256.
proof fn lemma_shift_in(before: int, num: int, digit: int)
    requires
        0 <= before,
        num == before % 256,
        0 <= digit <= 1,
    ensures
        (2 * num + digit) % 256 == (2 * before + digit) % 256,
{
}

/// The index so far, after one more bit of the remainder.
spec fn next_num(num: u8, bit: bool) -> u8 {
    ((2 * num + if bit {
        1int
    } else {
        0int
    }) % 256) as u8
}

/// A codeword that has been read to its end: the stream from its start
/// decodes to its index, followed by what the stream behind it decodes to.
proof fn lemma_read_codeword(
    bits: Seq<bool>,
    rem_bits: nat,
    pos: int,
    start: int,
    q: nat,
    num: u8,
)
    requires
        0 <= start,
        pos <= bits.len(),
        pos == start + q + 1 + rem_bits,
        forall|t: int| start <= t < start + q ==> bits[t],
        !bits[start + q],
        num == (q * pow2(rem_bits) + binary_value(bits.subrange(start + q + 1, pos))) % 256,
    ensures
        decode_stream(bits.skip(start), rem_bits) == seq![num] + decode_stream(
            bits.skip(pos),
            rem_bits,
        ),
{
    let stream = bits.skip(start);
    assert forall|i: int| 0 <= i < q implies stream[i] by {
        assert(stream[i] == bits[start + i]);
    }
    assert(stream[q as int] == bits[start + q]);
    lemma_leading_ones(stream, q);
    let end = q + 1 + rem_bits;
    assert(stream.subrange(q as int + 1, end as int) =~= bits.subrange(start + q + 1, pos));
    assert(stream.skip(end as int) =~= bits.skip(pos));
}

/// At the end of the stream, a codeword that is not complete decodes to
/// nothing.
proof fn lemma_read_end(
    bits: Seq<bool>,
    rem_bits: nat,
    start: int,
    q: nat,
    unary: bool,
    k: nat,
    num: u8,
)
    requires
        reading(bits, rem_bits, bits.len() as int, start, q, unary, k, num),
    ensures
        decode_stream(bits.skip(start), rem_bits) == Seq::<u8>::empty(),
{
    let stream = bits.skip(start);
    assert forall|i: int| 0 <= i < q implies stream[i] by {
        assert(stream[i] == bits[start + i]);
    }
    if !unary {
        assert(stream[q as int] == bits[start + q]);
    }
    lemma_leading_ones(stream, q);
}

/// Counts runs of one bits: decodes a chunk that was coded without
/// remainder bits, and appends the indices to `res`.
///
/// Every zero bit ends a run, and the length of the run is the index (its
/// low eight bits, where a run is longer than any codeword). One bits at the
/// end of the chunk that no zero bit follows are dropped.
pub fn decode_without_remainder(chunk: &[u8], res: &mut Vec<u8>)
    ensures
        final(res)@ == old(res)@ + decode_stream(bytes_to_bits(chunk@), 0),
{
    let ghost bits = bytes_to_bits(chunk@);
    let ghost mut start: int = 0;
    let ghost mut q: nat = 0;
    let mut unary: u8 = 0;
    let mut i: usize = 0;
    proof {
        assert(bits.skip(0) =~= bits);
    }
    while i < chunk.len()
        invariant
            i <= chunk.len(),
            bits == bytes_to_bits(chunk@),
            reading(bits, 0, 8 * i, start, q, true, 0, unary),
            old(res)@ + decode_stream(bits, 0) == res@ + decode_stream(bits.skip(start), 0),
        decreases chunk.len() - i,
    {
        let byte = chunk[i];
        let mut j: u8 = 0;
        while j < 8
            invariant
                j <= 8,
                i < chunk.len(),
                byte == chunk@[i as int],
                bits == bytes_to_bits(chunk@),
                reading(bits, 0, 8 * i + j, start, q, true, 0, unary),
                old(res)@ + decode_stream(bits, 0) == res@ + decode_stream(bits.skip(start), 0),
            decreases 8 - j,
        {
            let bit = bit_at(byte, j);
            let ghost pos = 8 * i + j;
            proof {
                lemma_bit_of_byte(chunk@, i as int, j as int);
            }
            if bit {
                proof {
                    lemma_read_one(bits, 0, pos, start, q, unary);
                    q = q + 1;
                }
                unary = if unary == 255 {
                    0
                } else {
                    unary + 1
                };
            } else {
                proof {
                    lemma_pow2_values();
                    lemma_read_codeword(bits, 0, pos + 1, start, q, unary);
                }
                res.push(unary);
                proof {
                    start = pos + 1;
                    q = 0;
                }
                unary = 0;
            }
            j += 1;
        }
        i += 1;
    }
    proof {
        lemma_read_end(bits, 0, start, q, true, 0, unary);
    }
}

/// Decodes a chunk that was coded with `rem_bits` remainder bits, and
/// appends the indices to `res`.
///
/// A codeword is a run of one bits, a zero bit, and `rem_bits` bits of
/// remainder; its index is the length of the run times `2^rem_bits`, plus
/// the remainder (the low eight bits of this, where a run is longer than
/// any codeword). A codeword that the end of the chunk cuts off is dropped.
pub fn decode_with_remainder(chunk: &[u8], res: &mut Vec<u8>, rem_bits: u8)
    requires
        rem_bits <= 7,
    ensures
        final(res)@ == old(res)@ + decode_stream(bytes_to_bits(chunk@), rem_bits as nat),
{
    let ghost bits = bytes_to_bits(chunk@);
    let ghost width = rem_bits as nat;
    let ghost mut start: int = 0;
    let ghost mut q: nat = 0;
    let mut num: u8 = 0;
    let mut remainder_index: u8 = 0;
    let mut code_unary = true;
    let mut i: usize = 0;
    proof {
        assert(bits.skip(0) =~= bits);
    }
    while i < chunk.len()
        invariant
            i <= chunk.len(),
            rem_bits <= 7,
            width == rem_bits,
            bits == bytes_to_bits(chunk@),
            reading(bits, width, 8 * i, start, q, code_unary, remainder_index as nat, num),
            old(res)@ + decode_stream(bits, width) == res@ + decode_stream(
                bits.skip(start),
                width,
            ),
        decreases chunk.len() - i,
    {
        let byte = chunk[i];
        let mut j: u8 = 0;
        while j < 8
            invariant
                j <= 8,
                i < chunk.len(),
                rem_bits <= 7,
                width == rem_bits,
                byte == chunk@[i as int],
                bits == bytes_to_bits(chunk@),
                reading(
                    bits,
                    width,
                    8 * i + j,
                    start,
                    q,
                    code_unary,
                    remainder_index as nat,
                    num,
                ),
                old(res)@ + decode_stream(bits, width) == res@ + decode_stream(
                    bits.skip(start),
                    width,
                ),
            decreases 8 - j,
        {
            let bit = bit_at(byte, j);
            let ghost pos = 8 * i + j;
            let mut complete = false;
            proof {
                lemma_bit_of_byte(chunk@, i as int, j as int);
            }
            if code_unary {
                if bit {
                    proof {
                        lemma_read_one(bits, width, pos, start, q, num);
                        q = q + 1;
                    }
                    num = if num == 255 {
                        0
                    } else {
                        num + 1
                    };
                } else if rem_bits == 0 {
                    proof {
                        lemma_pow2_values();
                    }
                    complete = true;
                } else {
                    proof {
                        lemma_read_zero(bits, width, pos, start, q, num);
                    }
                    code_unary = false;
                }
            } else {
                proof {
                    lemma_read_remainder(bits, width, pos, start, q, remainder_index as nat, num);
                }
                num = ((num as u16 * 2 + if bit {
                    1
                } else {
                    0
                }) % 256) as u8;
                remainder_index += 1;
                complete = remainder_index == rem_bits;
            }
            if complete {
                proof {
                    lemma_read_codeword(bits, width, pos + 1, start, q, num);
                }
                res.push(num);
                proof {
                    start = pos + 1;
                    q = 0;
                }
                num = 0;
                remainder_index = 0;
                code_unary = true;
            }
            j += 1;
        }
        i += 1;
    }
    proof {
        lemma_read_end(bits, width, start, q, code_unary, remainder_index as nat, num);
    }
}

/// Decodes one chunk on its own.
pub fn decode_chunk(chunk: &[u8], rem_bits: u8) -> (indices: Vec<u8>)
    requires
        rem_bits <= 7,
    ensures
        indices@ == decode_stream(bytes_to_bits(chunk@), rem_bits as nat),
{
    let mut indices: Vec<u8> = Vec::new();
    if rem_bits == 0 {
        decode_without_remainder(chunk, &mut indices);
    } else {
        decode_with_remainder(chunk, &mut indices, rem_bits);
    }
    indices
}

/// What the vectors hold, as sequences.
pub open spec fn parts_view(parts: Seq<Vec<u8>>) -> Seq<Seq<u8>> {
    Seq::new(parts.len(), |k: int| parts[k]@)
}

/// Joins what the chunks were decoded to, in the order of the chunks.
pub fn join_chunks(parts: Vec<Vec<u8>>) -> (indices: Vec<u8>)
    ensures
        indices@ == joined(parts_view(parts@)),
{
    let ghost all = parts_view(parts@);
    let mut indices: Vec<u8> = Vec::new();
    let mut k: usize = 0;
    proof {
        assert(all.skip(0) =~= all);
    }
    while k < parts.len()
        invariant
            k <= parts.len(),
            all == parts_view(parts@),
            joined(all) == indices@ + joined(all.skip(k as int)),
        decreases parts.len() - k,
    {
        let part = &parts[k];
        let ghost before = indices@;
        let mut i: usize = 0;
        while i < part.len()
            invariant
                i <= part.len(),
                indices@ == before + part@.take(i as int),
            decreases part.len() - i,
        {
            indices.push(part[i]);
            i += 1;
            assert(indices@ =~= before + part@.take(i as int));
        }
        proof {
            let rest = all.skip(k as int);
            assert(rest[0] == part@);
            assert(part@.take(part@.len() as int) =~= part@);
            assert(rest.skip(1) =~= all.skip(k + 1));
            assert(before + (part@ + joined(rest.skip(1))) =~= before + part@ + joined(
                rest.skip(1),
            ));
        }
        k += 1;
    }
    indices
}

/// Decodes a payload: every span of `chunk_size` bits is decoded on its
/// own, and the indices are joined in the order of the spans. The last
/// span may be shorter than a chunk.
pub fn decode_rice(img: &[u8], remainder_bits: u8, chunk_size: usize) -> (indices: Vec<u8>)
    requires
        remainder_bits <= 7,
        chunk_size > 0,
        chunk_size % 8 == 0,
    ensures
        indices@ == decode_chunks(
            bytes_to_bits(img@),
            remainder_bits as nat,
            chunk_size as nat,
        ),
{
    let chunk_bytes = chunk_size / 8;
    let ghost rem_bits = remainder_bits as nat;
    let ghost size = chunk_size as nat;
    let mut indices: Vec<u8> = Vec::new();
    let mut start: usize = 0;
    proof {
        assert(img@.skip(0) =~= img@);
        assert(indices@ + decode_chunks(bytes_to_bits(img@), rem_bits, size) =~= decode_chunks(
            bytes_to_bits(img@),
            rem_bits,
            size,
        ));
    }
    while img.len() - start > chunk_bytes
        invariant
            start <= img.len(),
            remainder_bits <= 7,
            rem_bits == remainder_bits,
            size == chunk_size,
            size == 8 * chunk_bytes,
            chunk_bytes > 0,
            decode_chunks(bytes_to_bits(img@), rem_bits, size) == indices@ + decode_chunks(
                bytes_to_bits(img@.skip(start as int)),
                rem_bits,
                size,
            ),
        decreases img.len() - start,
    {
        let end = start + chunk_bytes;
        let mut decoded = decode_chunk(&img[start..end], remainder_bits);
        proof {
            let rest = img@.skip(start as int);
            let bits = bytes_to_bits(rest);
            lemma_bits_of_subrange(rest, 0, chunk_bytes as int);
            lemma_bits_of_subrange(rest, chunk_bytes as int, rest.len() as int);
            assert(rest.subrange(0, chunk_bytes as int) =~= img@.subrange(
                start as int,
                end as int,
            ));
            assert(rest.subrange(chunk_bytes as int, rest.len() as int) =~= img@.skip(
                end as int,
            ));
            assert(bits.subrange(0, 8 * chunk_bytes) =~= bits.take(size as int));
            assert(bits.subrange(8 * chunk_bytes, 8 * (rest.len() as int)) =~= bits.skip(
                size as int,
            ));
            assert(indices@ + decoded@ + decode_chunks(
                bytes_to_bits(img@.skip(end as int)),
                rem_bits,
                size,
            ) =~= indices@ + decode_chunks(bits, rem_bits, size));
        }
        indices.append(&mut decoded);
        start = end;
    }
    let mut decoded = decode_chunk(&img[start..img.len()], remainder_bits);
    proof {
        assert(img@.subrange(start as int, img@.len() as int) =~= img@.skip(start as int));
    }
    indices.append(&mut decoded);
    indices
}

/// What decoding the bytes of a file gives: the image, or the first check
/// that fails. The checks are, in this order: the header is there; the
/// remainder width is at most 7; the chunk size fits; the payload decodes
/// to `width * height` indices.
pub open spec fn decode_outcome(bytes: Seq<u8>) -> Result<GridView, CodecError> {
    if !has_header(bytes) {
        Err(CodecError::MalformedHeader)
    } else {
        let width = stored_width(bytes) as u32;
        let height = stored_height(bytes) as u32;
        let chunk_size = stored_chunk_size(bytes) as u32;
        let rem_bits = stored_rem_bits(bytes);
        match parameter_error(rem_bits, chunk_size) {
            Some(e) => Err(e),
            None => {
                let indices = decode_chunks(
                    bytes_to_bits(bytes.skip(17)),
                    rem_bits as nat,
                    chunk_size as nat,
                );
                if indices.len() != width * height {
                    Err(CodecError::PixelCountMismatch)
                } else {
                    Ok(
                        GridView {
                            width,
                            height,
                            samples: inverse(from_indices(indices), width as nat),
                        },
                    )
                }
            },
        }
    }
}

/// Chunks of the payload are independent: where the bytes of the payload
/// for `indices` are cut into chunks and every chunk is decoded on its own,
/// the results joined in order are `indices`.
pub proof fn lemma_payload_chunks_decode(indices: Seq<u8>, rem_bits: nat, chunk_size: nat)
    requires
        chunk_size >= max_codeword_len(rem_bits),
    ensures
        decode_chunks(
            bytes_to_bits(pack(payload_bits(indices, rem_bits, chunk_size))),
            rem_bits,
            chunk_size,
        ) == indices,
{
    lemma_payload_decodes(indices, rem_bits, chunk_size);
    lemma_unpack_pack(payload_bits(indices, rem_bits, chunk_size));
}

/// The codec loses nothing: the file that an image is encoded to, with
/// parameters that the encoder accepts, decodes to the image.
pub proof fn lemma_decode_encoded(grid: GridView, rem_bits: u8, chunk_size: u32)
    requires
        grid.samples.len() == grid.width * grid.height,
        parameter_error(rem_bits, chunk_size) is None,
    ensures
        decode_outcome(encoded(grid, rem_bits, chunk_size)) == Ok::<GridView, CodecError>(grid),
{
    let residuals = forward(grid.samples, grid.width as nat);
    let indices = to_indices(residuals);
    let bits = payload_bits(indices, rem_bits as nat, chunk_size as nat);
    let payload = pack(bits);
    let bytes = encoded(grid, rem_bits, chunk_size);
    lemma_header_roundtrip(grid.height, grid.width, chunk_size, rem_bits, payload);
    lemma_payload_chunks_decode(indices, rem_bits as nat, chunk_size as nat);
    lemma_unpack_pack(bits);
    lemma_indices_roundtrip(residuals);
    lemma_inverse_forward(grid.samples, grid.width as nat);
    assert(bytes == header_bytes(grid.height, grid.width, chunk_size, rem_bits) + payload);
    assert(bytes_to_bits(bytes.skip(17)) == bits);
}

/// Builds the image from the rice indices of its samples: the indices are
/// turned into residuals, and the residuals, row by row, into samples.
///
/// Fails exactly when there are not `width * height` indices.
pub fn reconstruct(header: &Header, indices: Vec<u8>) -> (image: Result<SampleGrid, CodecError>)
    ensures
        match image {
            Ok(grid) => indices@.len() == header.width * header.height && grid@ == (GridView {
                width: header.width,
                height: header.height,
                samples: inverse(from_indices(indices@), header.width as nat),
            }),
            Err(e) => indices@.len() != header.width * header.height && e
                == CodecError::PixelCountMismatch,
        },
{
    let residuals = reverse_rice_index(indices);
    let samples = reverse_delta(residuals, header.width as usize);
    match SampleGrid::new(samples, header.width, header.height) {
        Some(grid) => Ok(grid),
        None => Err(CodecError::PixelCountMismatch),
    }
}

/// Decodes the bytes of a TGIF file into the image.
///
/// The chunk size is the one that the header gives.
pub fn decode(tgif: &[u8]) -> (image: Result<SampleGrid, CodecError>)
    ensures
        match image {
            Ok(grid) => decode_outcome(tgif@) == Ok::<GridView, CodecError>(grid@),
            Err(e) => decode_outcome(tgif@) == Err::<GridView, CodecError>(e),
        },
{
    let header = match Header::from_u8(tgif) {
        Ok(header) => header,
        Err(e) => {
            return Err(e);
        },
    };
    match check_parameters(header.rem_bits, header.chunk_size) {
        Err(e) => {
            return Err(e);
        },
        Ok(_) => {},
    }
    let payload = &tgif[STARTING_INDEX..tgif.len()];
    let indices = decode_rice(payload, header.rem_bits, header.chunk_size as usize);
    reconstruct(&header, indices)
}

} // verus!
