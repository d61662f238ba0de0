//! The mapping between prediction residuals and rice indices.
//!
//! A residual is a byte that stands for a signed number in `-128..=127`
//! (two's complement). Its rice index interleaves both signs by magnitude:
//! `0, -1, 1, -2, 2, ...` become `0, 1, 2, 3, 4, ...`.

use vstd::prelude::*;

verus! {

/// The signed number that the residual byte `b` stands for.
pub open spec fn signed_value(b: u8) -> int {
    if b <= 127 {
        b as int
    } else {
        b - 256
    }
}

/// The zigzag code of the signed number `n`.
pub open spec fn zigzag(n: int) -> int {
    if n >= 0 {
        2 * n
    } else {
        -2 * n - 1
    }
}

/// The rice index of the residual byte `residual`.
pub open spec fn to_index(residual: u8) -> u8 {
    zigzag(signed_value(residual)) as u8
}

/// The residual byte whose rice index is `index`.
pub open spec fn from_index(index: u8) -> u8 {
    if index % 2 == 0 {
        index / 2
    } else {
        (255 - index / 2) as u8
    }
}

/// The rice indices of a sequence of residuals.
pub open spec fn to_indices(residuals: Seq<u8>) -> Seq<u8> {
    Seq::new(residuals.len(), |i: int| to_index(residuals[i]))
}

/// The residuals that a sequence of rice indices stands for.
pub open spec fn from_indices(indices: Seq<u8>) -> Seq<u8> {
    Seq::new(indices.len(), |i: int| from_index(indices[i]))
}

/// The rice index as the arithmetic formula on bytes.
pub proof fn lemma_to_index_formula(residual: u8)
    ensures
        0 <= zigzag(signed_value(residual)) <= 255,
        to_index(residual) == if residual <= 127 {
            2 * residual
        } else {
            (255 - residual) * 2 + 1
        },
{
}

/// The two mappings are inverse to each other: each is a permutation of
/// the 256 byte values.
pub proof fn lemma_index_bijection(b: u8)
    ensures
        from_index(to_index(b)) == b,
        to_index(from_index(b)) == b,
{
}

/// Mapping a sequence to indices and back, or to residuals and back, gives
/// the sequence.
pub proof fn lemma_indices_roundtrip(values: Seq<u8>)
    ensures
        from_indices(to_indices(values)) == values,
        to_indices(from_indices(values)) == values,
{
    assert forall|i: int| 0 <= i < values.len() implies from_index(to_index(values[i]))
        == values[i] && to_index(from_index(values[i])) == values[i] by {
        lemma_index_bijection(values[i]);
    }
}

/// Different residuals have different rice indices.
pub proof fn lemma_to_index_injective(a: u8, b: u8)
    requires
        to_index(a) == to_index(b),
    ensures
        a == b,
{
    lemma_index_bijection(a);
    lemma_index_bijection(b);
}

} // verus!
