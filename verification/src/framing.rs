//! Chunks: spans of `chunk_size` bits that are decoded independently.
//!
//! The encoder never lets a codeword cross the end of a chunk. Where the
//! next codeword does not fit, the rest of the chunk is filled with one
//! bits and the codeword starts the next chunk. A decoder that reads a
//! chunk on its own meets these one bits as a run that nothing ends, and
//! drops them.

use crate::bitpack::{bytes_to_bits, lemma_bits_of_subrange};
use crate::codeword::{
    codeword, decode_stream, lemma_binary_len, lemma_codeword_parts, lemma_decode_codeword,
    lemma_decode_ones, lemma_pow2_values, max_codeword_len, ones, unary,
};
use crate::delta::forward;
use crate::zigzag::to_indices;
use vstd::arithmetic::div_mod::{
    lemma_mod_add_multiples_vanish, lemma_mod_self_0, lemma_small_mod,
};
use vstd::prelude::*;

verus! {

/// Whether chunks of `chunk_size` bits can be used with `rem_bits`
/// remainder bits: the size is a positive multiple of eight, and a chunk
/// holds the longest codeword.
pub open spec fn valid_chunk_size(chunk_size: nat, rem_bits: nat) -> bool {
    &&& chunk_size > 0
    &&& chunk_size % 8 == 0
    &&& chunk_size >= max_codeword_len(rem_bits)
}

/// The codewords of `indices`, one after the other.
pub open spec fn codewords(indices: Seq<u8>, rem_bits: nat) -> Seq<bool>
    decreases indices.len(),
{
    if indices.len() == 0 {
        Seq::empty()
    } else {
        codeword(indices[0], rem_bits) + codewords(indices.skip(1), rem_bits)
    }
}

/// The bits written for `indices` into chunks of `chunk_size` bits, where
/// the current chunk already holds `fill` bits.
pub open spec fn frame(indices: Seq<u8>, rem_bits: nat, chunk_size: nat, fill: nat) -> Seq<bool>
    decreases indices.len(),
{
    if indices.len() == 0 {
        Seq::empty()
    } else {
        let code = codeword(indices[0], rem_bits);
        if fill + code.len() > chunk_size {
            ones((chunk_size - fill) as nat) + code + frame(
                indices.skip(1),
                rem_bits,
                chunk_size,
                code.len(),
            )
        } else {
            code + frame(indices.skip(1), rem_bits, chunk_size, fill + code.len())
        }
    }
}

/// The position in `frame(indices, rem_bits, chunk_size, fill)` at which
/// the codeword of `indices[k]` starts.
pub open spec fn codeword_start(
    indices: Seq<u8>,
    rem_bits: nat,
    chunk_size: nat,
    fill: nat,
    k: int,
) -> nat
    decreases indices.len(),
{
    if indices.len() == 0 || k < 0 {
        0
    } else {
        let len = codeword(indices[0], rem_bits).len();
        let full = fill + len > chunk_size;
        let padding = if full {
            (chunk_size - fill) as nat
        } else {
            0
        };
        if k == 0 {
            padding
        } else {
            padding + len + codeword_start(
                indices.skip(1),
                rem_bits,
                chunk_size,
                if full {
                    len
                } else {
                    fill + len
                },
                k - 1,
            )
        }
    }
}

/// The indices that `bits` decodes to when every span of `chunk_size` bits
/// is decoded on its own, and the results are joined in the order of the
/// spans. The last span may be shorter.
pub open spec fn decode_chunks(bits: Seq<bool>, rem_bits: nat, chunk_size: nat) -> Seq<u8>
    decreases bits.len(),
{
    if chunk_size == 0 || bits.len() <= chunk_size {
        decode_stream(bits, rem_bits)
    } else {
        decode_stream(bits.take(chunk_size as int), rem_bits) + decode_chunks(
            bits.skip(chunk_size as int),
            rem_bits,
            chunk_size,
        )
    }
}

/// The spans of `chunk_bytes` bytes that `bytes` is cut into. The last
/// span may be shorter; no span is empty.
pub open spec fn byte_chunks(bytes: Seq<u8>, chunk_bytes: nat) -> Seq<Seq<u8>>
    decreases bytes.len(),
{
    if bytes.len() == 0 {
        Seq::empty()
    } else if chunk_bytes == 0 || bytes.len() <= chunk_bytes {
        seq![bytes]
    } else {
        seq![bytes.take(chunk_bytes as int)] + byte_chunks(
            bytes.skip(chunk_bytes as int),
            chunk_bytes,
        )
    }
}

/// What every one of `chunks` decodes to on its own.
pub open spec fn decoded_chunks(chunks: Seq<Seq<u8>>, rem_bits: nat) -> Seq<Seq<u8>> {
    Seq::new(chunks.len(), |k: int| decode_stream(bytes_to_bits(chunks[k]), rem_bits))
}

/// The parts one after the other, in their order.
pub open spec fn joined(parts: Seq<Seq<u8>>) -> Seq<u8>
    decreases parts.len(),
{
    if parts.len() == 0 {
        Seq::empty()
    } else {
        parts[0] + joined(parts.skip(1))
    }
}

/// Number of one bits that follow `len` bits to end on a byte: between
/// one and eight.
pub open spec fn byte_padding(len: nat) -> nat {
    (8 - len % 8) as nat
}

/// The bits of the payload for `indices`: the chunked codewords, then one
/// bits up to the next end of a byte.
pub open spec fn payload_bits(indices: Seq<u8>, rem_bits: nat, chunk_size: nat) -> Seq<bool> {
    let body = frame(indices, rem_bits, chunk_size, 0);
    body + ones(byte_padding(body.len()))
}

/// The codewords of a sequence with one more index are those of the
/// sequence, then the codeword of the index.
pub proof fn lemma_codewords_push(indices: Seq<u8>, index: u8, rem_bits: nat)
    ensures
        codewords(indices.push(index), rem_bits) == codewords(indices, rem_bits) + codeword(
            index,
            rem_bits,
        ),
    decreases indices.len(),
{
    let longer = indices.push(index);
    if indices.len() == 0 {
        assert(codewords(longer.skip(1), rem_bits) =~= Seq::<bool>::empty());
    } else {
        lemma_codewords_push(indices.skip(1), index, rem_bits);
        assert(longer.skip(1) =~= indices.skip(1).push(index));
    }
}

/// Codewords in front of a stream decode to their indices, followed by
/// what the rest of the stream decodes to.
pub proof fn lemma_decode_codewords(indices: Seq<u8>, rem_bits: nat, rest: Seq<bool>)
    ensures
        decode_stream(codewords(indices, rem_bits) + rest, rem_bits) == indices + decode_stream(
            rest,
            rem_bits,
        ),
    decreases indices.len(),
{
    if indices.len() > 0 {
        let first = codeword(indices[0], rem_bits);
        let others = codewords(indices.skip(1), rem_bits);
        assert(codewords(indices, rem_bits) + rest =~= first + (others + rest));
        lemma_decode_codeword(indices[0], rem_bits, others + rest);
        lemma_decode_codewords(indices.skip(1), rem_bits, rest);
    }
}

/// One bits decode to nothing, however many chunks they fill.
pub proof fn lemma_decode_chunks_ones(n: nat, rem_bits: nat, chunk_size: nat)
    ensures
        decode_chunks(ones(n), rem_bits, chunk_size) == Seq::<u8>::empty(),
    decreases n,
{
    lemma_decode_ones(n, rem_bits);
    if chunk_size != 0 && n > chunk_size {
        assert(ones(n).take(chunk_size as int) =~= ones(chunk_size));
        assert(ones(n).skip(chunk_size as int) =~= ones((n - chunk_size) as nat));
        lemma_decode_ones(chunk_size, rem_bits);
        lemma_decode_chunks_ones((n - chunk_size) as nat, rem_bits, chunk_size);
    }
}

/// No codeword crosses the end of a chunk: every codeword stands in the
/// written bits as it is, and ends within the chunk in which it starts.
/// Positions in a chunk are counted from the `fill` bits that the current
/// chunk held before.
pub proof fn lemma_codewords_within_chunks(
    indices: Seq<u8>,
    rem_bits: nat,
    chunk_size: nat,
    fill: nat,
    k: int,
)
    requires
        chunk_size >= max_codeword_len(rem_bits),
        fill <= chunk_size,
        0 <= k < indices.len(),
    ensures
        ({
            let start = codeword_start(indices, rem_bits, chunk_size, fill, k);
            let code = codeword(indices[k], rem_bits);
            let bits = frame(indices, rem_bits, chunk_size, fill);
            &&& start + code.len() <= bits.len()
            &&& bits.subrange(start as int, start as int + code.len()) == code
            &&& (fill + start) % chunk_size + code.len() <= chunk_size
        }),
    decreases indices.len(),
{
    let first = codeword(indices[0], rem_bits);
    let len = first.len();
    let size = chunk_size as int;
    let start = codeword_start(indices, rem_bits, chunk_size, fill, k);
    let code = codeword(indices[k], rem_bits);
    let bits = frame(indices, rem_bits, chunk_size, fill);
    lemma_codeword_parts(indices[0], rem_bits);
    lemma_codeword_parts(indices[k], rem_bits);
    let full = fill + len > chunk_size;
    let padding: nat = if full {
        (chunk_size - fill) as nat
    } else {
        0
    };
    let next_fill: nat = if full {
        len
    } else {
        fill + len
    };
    let rest = frame(indices.skip(1), rem_bits, chunk_size, next_fill);
    assert(bits =~= ones(padding) + first + rest);
    if k == 0 {
        assert(bits.subrange(start as int, start as int + code.len()) =~= code);
        if full {
            lemma_mod_self_0(size);
        } else {
            lemma_small_mod(fill, chunk_size);
        }
    } else {
        let others = indices.skip(1);
        lemma_codewords_within_chunks(others, rem_bits, chunk_size, next_fill, k - 1);
        let inner = codeword_start(others, rem_bits, chunk_size, next_fill, k - 1);
        assert(others[k - 1] == indices[k]);
        assert(start == padding + len + inner);
        assert(bits.subrange(start as int, start as int + code.len()) =~= rest.subrange(
            inner as int,
            inner as int + code.len(),
        ));
        if full {
            lemma_mod_add_multiples_vanish((next_fill + inner) as int, size);
        }
    }
}

/// Decoding by chunks gives back the indices that were written, whatever
/// codewords `head` the current chunk held before them and however many
/// one bits follow.
proof fn lemma_frame_decodes(
    head: Seq<u8>,
    indices: Seq<u8>,
    rem_bits: nat,
    chunk_size: nat,
    tail: nat,
)
    requires
        chunk_size >= max_codeword_len(rem_bits),
        codewords(head, rem_bits).len() <= chunk_size,
    ensures
        decode_chunks(
            codewords(head, rem_bits) + frame(
                indices,
                rem_bits,
                chunk_size,
                codewords(head, rem_bits).len(),
            ) + ones(tail),
            rem_bits,
            chunk_size,
        ) == head + indices,
    decreases indices.len(),
{
    let written = codewords(head, rem_bits);
    let fill = written.len();
    let body = frame(indices, rem_bits, chunk_size, fill);
    let bits = written + body + ones(tail);
    if indices.len() == 0 {
        assert(head + indices =~= head);
        assert(bits =~= written + ones(tail));
        if bits.len() <= chunk_size {
            lemma_decode_codewords(head, rem_bits, ones(tail));
            lemma_decode_ones(tail, rem_bits);
            assert(head + Seq::<u8>::empty() =~= head);
        } else {
            let pad = (chunk_size - fill) as nat;
            assert(bits.take(chunk_size as int) =~= written + ones(pad));
            assert(bits.skip(chunk_size as int) =~= ones((tail - pad) as nat));
            lemma_decode_codewords(head, rem_bits, ones(pad));
            lemma_decode_ones(pad, rem_bits);
            lemma_decode_chunks_ones((tail - pad) as nat, rem_bits, chunk_size);
            assert(head + Seq::<u8>::empty() + Seq::<u8>::empty() =~= head);
        }
    } else {
        let index = indices[0];
        let others = indices.skip(1);
        let code = codeword(index, rem_bits);
        lemma_codeword_parts(index, rem_bits);
        if fill + code.len() > chunk_size {
            let pad = (chunk_size - fill) as nat;
            let next = frame(others, rem_bits, chunk_size, code.len());
            assert(body == ones(pad) + code + next);
            assert(bits.take(chunk_size as int) =~= written + ones(pad));
            assert(bits.skip(chunk_size as int) =~= code + next + ones(tail));
            lemma_decode_codewords(head, rem_bits, ones(pad));
            lemma_decode_ones(pad, rem_bits);
            let single = seq![index];
            assert(single.skip(1) =~= Seq::<u8>::empty());
            assert(codewords(single.skip(1), rem_bits) =~= Seq::<bool>::empty());
            assert(codewords(single, rem_bits) =~= code);
            lemma_frame_decodes(single, others, rem_bits, chunk_size, tail);
            assert(head + Seq::<u8>::empty() + (single + others) =~= head + indices);
        } else {
            let next = frame(others, rem_bits, chunk_size, fill + code.len());
            assert(body == code + next);
            let longer = head.push(index);
            lemma_codewords_push(head, index, rem_bits);
            assert(bits =~= codewords(longer, rem_bits) + next + ones(tail));
            lemma_frame_decodes(longer, others, rem_bits, chunk_size, tail);
            assert(longer + others =~= head + indices);
        }
    }
}

/// Chunks are independent: where the chunked codewords of `indices`, with
/// any number of one bits behind them, are cut into spans of `chunk_size`
/// bits and every span is decoded on its own, the results joined in order
/// are `indices`.
pub proof fn lemma_chunks_decode(indices: Seq<u8>, rem_bits: nat, chunk_size: nat, tail: nat)
    requires
        chunk_size >= max_codeword_len(rem_bits),
    ensures
        decode_chunks(
            frame(indices, rem_bits, chunk_size, 0) + ones(tail),
            rem_bits,
            chunk_size,
        ) == indices,
{
    lemma_frame_decodes(Seq::<u8>::empty(), indices, rem_bits, chunk_size, tail);
}

/// The payload decodes, chunk by chunk, to the indices it was made from.
pub proof fn lemma_payload_decodes(indices: Seq<u8>, rem_bits: nat, chunk_size: nat)
    requires
        chunk_size >= max_codeword_len(rem_bits),
    ensures
        payload_bits(indices, rem_bits, chunk_size).len() % 8 == 0,
        decode_chunks(payload_bits(indices, rem_bits, chunk_size), rem_bits, chunk_size)
            == indices,
{
    let body = frame(indices, rem_bits, chunk_size, 0);
    lemma_chunks_decode(indices, rem_bits, chunk_size, byte_padding(body.len()));
}

/// Decoding by chunks is a map over the chunks and a join in their order:
/// where the bytes are cut into spans of `chunk_bytes` bytes, every span is
/// decoded on its own, in whatever order and by whatever worker, and the
/// results are joined in the order of the spans, the outcome is what the
/// payload decodes to.
pub proof fn lemma_joined_chunks(bytes: Seq<u8>, rem_bits: nat, chunk_bytes: nat)
    requires
        chunk_bytes > 0,
    ensures
        joined(decoded_chunks(byte_chunks(bytes, chunk_bytes), rem_bits)) == decode_chunks(
            bytes_to_bits(bytes),
            rem_bits,
            8 * chunk_bytes,
        ),
    decreases bytes.len(),
{
    let chunks = byte_chunks(bytes, chunk_bytes);
    let parts = decoded_chunks(chunks, rem_bits);
    let bits = bytes_to_bits(bytes);
    if bytes.len() == 0 {
        assert(joined(parts) =~= Seq::<u8>::empty());
    } else if bytes.len() <= chunk_bytes {
        assert(parts.skip(1) =~= Seq::<Seq<u8>>::empty());
        assert(joined(parts.skip(1)) =~= Seq::<u8>::empty());
        assert(joined(parts) =~= decode_stream(bits, rem_bits));
    } else {
        let first = bytes.take(chunk_bytes as int);
        let rest = bytes.skip(chunk_bytes as int);
        lemma_joined_chunks(rest, rem_bits, chunk_bytes);
        lemma_bits_of_subrange(bytes, 0, chunk_bytes as int);
        lemma_bits_of_subrange(bytes, chunk_bytes as int, bytes.len() as int);
        assert(bytes.subrange(0, chunk_bytes as int) =~= first);
        assert(bytes.subrange(chunk_bytes as int, bytes.len() as int) =~= rest);
        let cut = 8 * chunk_bytes as int;
        assert(bits.subrange(0, cut) =~= bits.take(cut));
        assert(bits.subrange(cut, 8 * (bytes.len() as int)) =~= bits.skip(cut));
        assert(parts.skip(1) =~= decoded_chunks(byte_chunks(rest, chunk_bytes), rem_bits));
    }
}

/// Without remainder bits the code is pure unary: the codeword of an
/// index is that many one bits and a zero bit.
pub proof fn lemma_codeword_unary(index: u8)
    ensures
        codeword(index, 0) == unary(index as nat),
{
    lemma_pow2_values();
    lemma_binary_len(index as nat % 1, 0);
}

/// An image of `count` samples that are all zero.
pub open spec fn zero_samples(count: nat) -> Seq<u8> {
    Seq::new(count, |i: int| 0u8)
}

/// `count` bits that are all `0`.
pub open spec fn zero_bits(count: nat) -> Seq<bool> {
    Seq::new(count, |i: int| false)
}

/// Zero indices without remainder bits are written as zero bits, and no
/// padding comes between them.
proof fn lemma_frame_zeros(count: nat, chunk_size: nat, fill: nat)
    requires
        chunk_size >= 1,
        fill <= chunk_size,
    ensures
        frame(zero_samples(count), 0, chunk_size, fill) == zero_bits(count),
    decreases count,
{
    if count > 0 {
        lemma_codeword_unary(0);
        assert(zero_samples(count).skip(1) =~= zero_samples((count - 1) as nat));
        if fill + 1 > chunk_size {
            lemma_frame_zeros((count - 1) as nat, chunk_size, 1);
        } else {
            lemma_frame_zeros((count - 1) as nat, chunk_size, fill + 1);
        }
    }
}

/// Without remainder bits, an image that is all zero is coded as one zero
/// bit for every sample, whatever its size, its width and the chunk size.
pub proof fn lemma_zero_image(count: nat, width: nat, chunk_size: nat)
    requires
        chunk_size >= 1,
    ensures
        frame(to_indices(forward(zero_samples(count), width)), 0, chunk_size, 0) == zero_bits(
            count,
        ),
{
    let samples = zero_samples(count);
    assert(forward(samples, width) =~= samples);
    assert(to_indices(samples) =~= samples);
    lemma_frame_zeros(count, chunk_size, 0);
}

} // verus!
