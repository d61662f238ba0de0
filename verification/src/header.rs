//! The fixed 17-byte header of a TGIF file.
//!
//! Layout: the magic bytes `TGIF`, then `height`, `width` and `chunk_size`
//! as big-endian 32-bit numbers (in this order), then one byte `rem_bits`.

use crate::error::CodecError;
use vstd::prelude::*;

verus! {

/// Number of header bytes; the payload starts at this offset.
pub const STARTING_INDEX: usize = 17;

/// The four magic bytes, `TGIF` in ASCII.
pub open spec fn magic() -> Seq<u8> {
    seq![0x54u8, 0x47u8, 0x49u8, 0x46u8]
}

/// The four bytes of `v`, most significant first.
pub open spec fn be32(v: u32) -> Seq<u8> {
    seq![
        (v / 0x100_0000) as u8,
        (v / 0x1_0000 % 0x100) as u8,
        (v / 0x100 % 0x100) as u8,
        (v % 0x100) as u8,
    ]
}

/// The number whose big-endian bytes are the first four bytes of `b`.
pub open spec fn be32_value(b: Seq<u8>) -> int {
    b[0] * 0x100_0000 + b[1] * 0x1_0000 + b[2] * 0x100 + b[3]
}

/// The serialized header.
pub open spec fn header_bytes(height: u32, width: u32, chunk_size: u32, rem_bits: u8) -> Seq<u8> {
    magic() + be32(height) + be32(width) + be32(chunk_size) + seq![rem_bits]
}

/// Whether `bytes` starts with a header: at least 17 bytes, the first four
/// being the magic bytes.
pub open spec fn has_header(bytes: Seq<u8>) -> bool {
    bytes.len() >= 17 && bytes.subrange(0, 4) == magic()
}

/// The height stored in the header at the start of `bytes`.
pub open spec fn stored_height(bytes: Seq<u8>) -> int {
    be32_value(bytes.subrange(4, 8))
}

/// The width stored in the header at the start of `bytes`.
pub open spec fn stored_width(bytes: Seq<u8>) -> int {
    be32_value(bytes.subrange(8, 12))
}

/// The chunk size stored in the header at the start of `bytes`.
pub open spec fn stored_chunk_size(bytes: Seq<u8>) -> int {
    be32_value(bytes.subrange(12, 16))
}

/// The remainder width stored in the header at the start of `bytes`.
pub open spec fn stored_rem_bits(bytes: Seq<u8>) -> u8 {
    bytes[16]
}

/// Reading the big-endian bytes of a number gives the number back, and
/// writing the number read from four bytes gives the bytes back.
pub proof fn lemma_be32_roundtrip(v: u32, b: Seq<u8>)
    requires
        b.len() == 4,
    ensures
        be32(v).len() == 4,
        be32_value(be32(v)) == v,
        0 <= be32_value(b) <= u32::MAX,
        be32(be32_value(b) as u32) == b,
{
    assert(be32(be32_value(b) as u32) =~= b);
}

/// A serialized header, followed by any payload, parses to the fields it
/// was made from, and the payload starts right behind it.
pub proof fn lemma_header_roundtrip(
    height: u32,
    width: u32,
    chunk_size: u32,
    rem_bits: u8,
    payload: Seq<u8>,
)
    ensures
        header_bytes(height, width, chunk_size, rem_bits).len() == 17,
        ({
            let bytes = header_bytes(height, width, chunk_size, rem_bits) + payload;
            &&& has_header(bytes)
            &&& stored_height(bytes) == height
            &&& stored_width(bytes) == width
            &&& stored_chunk_size(bytes) == chunk_size
            &&& stored_rem_bits(bytes) == rem_bits
            &&& bytes.skip(17) == payload
        }),
{
    let bytes = header_bytes(height, width, chunk_size, rem_bits) + payload;
    assert(bytes.subrange(0, 4) =~= magic());
    lemma_be32_roundtrip(height, be32(height));
    lemma_be32_roundtrip(width, be32(width));
    lemma_be32_roundtrip(chunk_size, be32(chunk_size));
}

/// The parameters of an encoded image.
#[derive(Debug, Clone)]
pub struct Header {
    /// Name of the format, always `TGIF`.
    pub name: String,
    /// Number of rows.
    pub height: u32,
    /// Number of samples in a row.
    pub width: u32,
    /// Number of bits in a chunk.
    pub chunk_size: u32,
    /// Number of bits in the remainder of a codeword.
    pub rem_bits: u8,
}

/// Appends the big-endian bytes of `v` to `bytes`.
fn push_u32_be(bytes: &mut Vec<u8>, v: u32)
    ensures
        final(bytes)@ == old(bytes)@ + be32(v),
{
    bytes.push((v / 0x100_0000) as u8);
    bytes.push((v / 0x1_0000 % 0x100) as u8);
    bytes.push((v / 0x100 % 0x100) as u8);
    bytes.push((v % 0x100) as u8);
}

impl Header {
    /// The bytes that this header is written as.
    pub open spec fn bytes(&self) -> Seq<u8> {
        header_bytes(self.height, self.width, self.chunk_size, self.rem_bits)
    }

    /// A header for an image of `width` by `height` samples.
    pub fn new(width: u32, height: u32, chunk_size: u32, rem_bits: u8) -> (header: Header)
        ensures
            header.name@ == "TGIF"@,
            header.height == height,
            header.width == width,
            header.chunk_size == chunk_size,
            header.rem_bits == rem_bits,
    {
        Header { name: "TGIF".to_owned(), height, width, chunk_size, rem_bits }
    }

    /// Serializes the header into its 17 bytes. The height comes before
    /// the width.
    pub fn to_u8(&self) -> (bytes: Vec<u8>)
        ensures
            bytes@ == self.bytes(),
            bytes@.len() == 17,
    {
        let mut bytes: Vec<u8> = Vec::with_capacity(STARTING_INDEX);
        bytes.push(0x54);
        bytes.push(0x47);
        bytes.push(0x49);
        bytes.push(0x46);
        push_u32_be(&mut bytes, self.height);
        push_u32_be(&mut bytes, self.width);
        push_u32_be(&mut bytes, self.chunk_size);
        bytes.push(self.rem_bits);
        bytes
    }

    /// Reads the header at the start of `img`.
    ///
    /// Fails exactly when `img` has fewer than 17 bytes or does not start
    /// with the magic bytes. The fields are not checked any further.
    pub fn from_u8(img: &[u8]) -> (parsed: Result<Header, CodecError>)
        ensures
            parsed is Ok <==> has_header(img@),
            parsed is Err ==> parsed == Err::<Header, CodecError>(CodecError::MalformedHeader),
            parsed matches Ok(header) ==> {
                &&& header.name@ == "TGIF"@
                &&& header.height == stored_height(img@)
                &&& header.width == stored_width(img@)
                &&& header.chunk_size == stored_chunk_size(img@)
                &&& header.rem_bits == stored_rem_bits(img@)
                &&& header.bytes() == img@.subrange(0, 17)
            },
    {
        if img.len() < STARTING_INDEX {
            return Err(CodecError::MalformedHeader);
        }
        if img[0] != 0x54 || img[1] != 0x47 || img[2] != 0x49 || img[3] != 0x46 {
            return Err(CodecError::MalformedHeader);
        }
        assert(img@.subrange(0, 4) =~= magic());
        let height = Self::slice_u8_as_u32_be(&img[4..8]);
        let width = Self::slice_u8_as_u32_be(&img[8..12]);
        let chunk_size = Self::slice_u8_as_u32_be(&img[12..16]);
        let header = Header {
            name: "TGIF".to_owned(),
            height,
            width,
            chunk_size,
            rem_bits: img[16],
        };
        Ok(header)
    }

    /// The number whose big-endian bytes are the four bytes of `array`.
    pub fn slice_u8_as_u32_be(array: &[u8]) -> (v: u32)
        requires
            array@.len() == 4,
        ensures
            v == be32_value(array@),
            be32(v) == array@,
    {
        let v = (array[0] as u32) * 0x100_0000 + (array[1] as u32) * 0x1_0000 + (array[2] as u32)
            * 0x100 + (array[3] as u32);
        proof {
            lemma_be32_roundtrip(v, array@);
        }
        v
    }
}

} // verus!
