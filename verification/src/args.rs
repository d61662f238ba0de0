//! The operation that the arguments of the command line ask for.
//!
//! A file is encoded where the destination has the extension `tgif` and
//! the source has another one, and decoded where it is the other way
//! round.

use crate::codeword::lemma_max_codeword_len;
use crate::encode::parameter_error;
use vstd::prelude::*;

verus! {

/// camino's `Utf8PathBuf`, a path that is valid UTF-8. Paths are handed on
/// as they are; nothing is read from them but their extension.
#[verifier::external_type_specification]
#[verifier::external_body]
pub struct ExUtf8PathBuf(camino::Utf8PathBuf);

/// Number of remainder bits where none is given.
pub const DEFAULT_REM_BITS: u8 = 2;

/// Size of a chunk in kibibytes where none is given.
pub const DEFAULT_CHUNK_SIZE: u32 = 128;

/// Number of bits in a kibibyte.
pub const BITS_PER_KIBIBYTE: u32 = 1024 * 8;

/// The arguments of the command line.
#[derive(Debug)]
pub struct Cli {
    /// Input image (eg: TGIF, PNG, ...)
    pub src: camino::Utf8PathBuf,
    /// Output image (eg: TGIF, PNG, ...)
    pub dst: camino::Utf8PathBuf,
    /// Number of bits used to encode the remainder.
    pub rem_bits: Option<u8>,
    /// Size of a chunk in kibibytes.
    pub chunk_size: Option<u32>,
}

/// What is to be done.
#[derive(Debug)]
pub enum Operation {
    /// Encode an image.
    ToTGIF(ToTGIF),
    /// Decode an image.
    FromTGIF(FromTGIF),
}

/// The encoding of an image.
#[derive(Debug)]
pub struct ToTGIF {
    /// Path to source file (eg: PNG or BMP)
    pub src: camino::Utf8PathBuf,
    /// Path to TGIF destination file
    pub dst: camino::Utf8PathBuf,
    /// Number of bits that are used for the remainder
    pub rem_bits: u8,
    /// Number of bits in a chunk
    pub chunk_size: u32,
}

/// The decoding of an image.
#[derive(Debug)]
pub struct FromTGIF {
    /// Path to TGIF source file
    pub src: camino::Utf8PathBuf,
    /// Path to destination file (eg: PNG or BMP)
    pub dst: camino::Utf8PathBuf,
}

/// Why the arguments ask for nothing that can be done.
#[derive(Debug, Clone, Copy, PartialEq, Eq, Structural)]
pub enum ArgumentError {
    /// Neither exactly the source nor exactly the destination is a TGIF
    /// file, or a path has no extension.
    UnsupportedConversion,
    /// More than seven remainder bits.
    RemainderTooWide,
    /// A chunk of no bits.
    ZeroChunkSize,
    /// The number of bits in a chunk does not fit into 32 bits.
    ChunkSizeTooLarge,
}

/// The extension of the path `path`, as camino's `Utf8Path::extension`
/// gives it. How a path is split into its parts depends on the platform,
/// so nothing is claimed of the result.
#[verifier::external_body]
fn extension(path: &camino::Utf8PathBuf) -> (ext: Option<String>) {
    match path.extension() {
        Some(ext) => Some(ext.to_owned()),
        None => None,
    }
}

/// Whether `ext` is the extension `tgif`.
pub open spec fn names_tgif(ext: Option<String>) -> bool {
    ext matches Some(e) && e@ == "tgif"@
}

/// Whether `ext` is an extension other than `tgif`.
pub open spec fn names_other(ext: Option<String>) -> bool {
    ext matches Some(e) && e@ != "tgif"@
}

/// The number of remainder bits that the arguments ask for.
pub open spec fn chosen_rem_bits(rem_bits: Option<u8>) -> u8 {
    match rem_bits {
        Some(rem_bits) => rem_bits,
        None => DEFAULT_REM_BITS,
    }
}

/// The size of a chunk in kibibytes that the arguments ask for.
pub open spec fn chosen_chunk_size(chunk_size: Option<u32>) -> u32 {
    match chunk_size {
        Some(chunk_size) => chunk_size,
        None => DEFAULT_CHUNK_SIZE,
    }
}

/// Whether `ext` is the extension `tgif`.
fn is_tgif(ext: &Option<String>) -> (tgif: bool)
    ensures
        tgif == names_tgif(*ext),
{
    match ext {
        Some(e) => *e == "tgif".to_owned(),
        None => false,
    }
}

impl Cli {
    /// The operation that the arguments ask for, where the paths have the
    /// extensions `src_ext` and `dst_ext`.
    ///
    /// From a TGIF file to another file is decoding; the coding parameters
    /// are not looked at. From another file to a TGIF file is encoding, with
    /// 2 remainder bits and chunks of 128 kibibytes where nothing else is
    /// given. The remainder bits are checked first, then the chunk size.
    pub fn choose_operation(self, src_ext: Option<String>, dst_ext: Option<String>) -> (op: Result<
        Operation,
        ArgumentError,
    >)
        ensures
            match op {
                Ok(Operation::FromTGIF(from)) => {
                    &&& names_tgif(src_ext) && names_other(dst_ext)
                    &&& from.src == self.src
                    &&& from.dst == self.dst
                },
                Ok(Operation::ToTGIF(to)) => {
                    &&& names_other(src_ext) && names_tgif(dst_ext)
                    &&& to.src == self.src
                    &&& to.dst == self.dst
                    &&& to.rem_bits == chosen_rem_bits(self.rem_bits)
                    &&& to.chunk_size == chosen_chunk_size(self.chunk_size) * BITS_PER_KIBIBYTE
                    &&& parameter_error(to.rem_bits, to.chunk_size) is None
                },
                Err(ArgumentError::UnsupportedConversion) => {
                    &&& !(names_tgif(src_ext) && names_other(dst_ext))
                    &&& !(names_other(src_ext) && names_tgif(dst_ext))
                },
                Err(ArgumentError::RemainderTooWide) => {
                    &&& names_other(src_ext) && names_tgif(dst_ext)
                    &&& chosen_rem_bits(self.rem_bits) >= 8
                },
                Err(ArgumentError::ZeroChunkSize) => {
                    &&& names_other(src_ext) && names_tgif(dst_ext)
                    &&& chosen_rem_bits(self.rem_bits) < 8
                    &&& chosen_chunk_size(self.chunk_size) == 0
                },
                Err(ArgumentError::ChunkSizeTooLarge) => {
                    &&& names_other(src_ext) && names_tgif(dst_ext)
                    &&& chosen_rem_bits(self.rem_bits) < 8
                    &&& chosen_chunk_size(self.chunk_size) * BITS_PER_KIBIBYTE > u32::MAX
                },
            },
    {
        let src_tgif = is_tgif(&src_ext);
        let dst_tgif = is_tgif(&dst_ext);
        if src_tgif && dst_ext.is_some() && !dst_tgif {
            return Ok(Operation::FromTGIF(FromTGIF { src: self.src, dst: self.dst }));
        }
        if !(dst_tgif && src_ext.is_some() && !src_tgif) {
            return Err(ArgumentError::UnsupportedConversion);
        }
        let rem_bits = match self.rem_bits {
            Some(rem_bits) => rem_bits,
            None => DEFAULT_REM_BITS,
        };
        let chunk_size = match self.chunk_size {
            Some(chunk_size) => chunk_size,
            None => DEFAULT_CHUNK_SIZE,
        };
        if rem_bits >= 8 {
            return Err(ArgumentError::RemainderTooWide);
        }
        if chunk_size == 0 {
            return Err(ArgumentError::ZeroChunkSize);
        }
        if chunk_size > u32::MAX / BITS_PER_KIBIBYTE {
            return Err(ArgumentError::ChunkSizeTooLarge);
        }
        proof {
            lemma_max_codeword_len();
        }
        Ok(
            Operation::ToTGIF(
                ToTGIF {
                    src: self.src,
                    dst: self.dst,
                    rem_bits,
                    chunk_size: chunk_size * BITS_PER_KIBIBYTE,
                },
            ),
        )
    }

    /// The operation that the arguments ask for, by the extensions of the
    /// two paths.
    ///
    /// Whatever the extensions are: an operation has the paths of the
    /// arguments, an encoding has parameters that the encoder accepts, and
    /// an error other than `UnsupportedConversion` comes only with the
    /// parameters that it names.
    pub fn verify_arguments(self) -> (op: Result<Operation, ArgumentError>)
        ensures
            match op {
                Ok(Operation::FromTGIF(from)) => from.src == self.src && from.dst == self.dst,
                Ok(Operation::ToTGIF(to)) => {
                    &&& to.src == self.src
                    &&& to.dst == self.dst
                    &&& to.rem_bits == chosen_rem_bits(self.rem_bits)
                    &&& to.chunk_size == chosen_chunk_size(self.chunk_size) * BITS_PER_KIBIBYTE
                    &&& parameter_error(to.rem_bits, to.chunk_size) is None
                },
                Err(ArgumentError::UnsupportedConversion) => true,
                Err(ArgumentError::RemainderTooWide) => chosen_rem_bits(self.rem_bits) >= 8,
                Err(ArgumentError::ZeroChunkSize) => chosen_chunk_size(self.chunk_size) == 0,
                Err(ArgumentError::ChunkSizeTooLarge) => chosen_chunk_size(self.chunk_size)
                    * BITS_PER_KIBIBYTE > u32::MAX,
            },
    {
        let src_ext = extension(&self.src);
        let dst_ext = extension(&self.dst);
        self.choose_operation(src_ext, dst_ext)
    }
}

} // verus!
