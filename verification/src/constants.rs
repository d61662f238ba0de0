//! Constants of the format.

use vstd::prelude::*;

verus! {

/// Size of a chunk of 32 kibibytes, in bits. A chunk of this size holds
/// every codeword.
pub const CHUNK_SIZE: usize = 1024 * 8 * 32;

} // verus!
