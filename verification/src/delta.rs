//! The predictive transform.
//!
//! Samples are laid out row by row. Within a row every sample is predicted
//! by the sample before it, and the first sample of a row by zero, so that
//! rows do not depend on each other. The residual is the prediction minus
//! the sample, modulo 256. Values behind the last complete row belong to no
//! row and pass through unchanged.

use vstd::prelude::*;

verus! {

/// Number of values that lie in complete rows, of `len` values in rows of
/// `width`.
pub open spec fn rows_len(len: nat, width: nat) -> nat {
    if width == 0 {
        0
    } else {
        (len - len % width) as nat
    }
}

/// Whether position `i` is the first of a row.
pub open spec fn starts_row(i: int, width: nat) -> bool {
    i == 0 || i % (width as int) == 0
}

/// The prediction for position `i`: zero at the start of a row, else the
/// value before it.
pub open spec fn prediction(values: Seq<u8>, width: nat, i: int) -> u8 {
    if starts_row(i, width) {
        0u8
    } else {
        values[i - 1]
    }
}

/// The residual at position `i` of the samples `samples`.
pub open spec fn forward_at(samples: Seq<u8>, width: nat, i: int) -> u8 {
    if 0 <= i < rows_len(samples.len(), width) {
        prediction(samples, width, i).wrapping_sub(samples[i])
    } else {
        samples[i]
    }
}

/// The residuals of `samples`.
pub open spec fn forward(samples: Seq<u8>, width: nat) -> Seq<u8> {
    Seq::new(samples.len(), |i: int| forward_at(samples, width, i))
}

/// The sample at position `i` that the residuals `residuals` stand for.
pub open spec fn inverse_at(residuals: Seq<u8>, width: nat, i: int) -> u8
    decreases i,
{
    if 0 <= i < rows_len(residuals.len(), width) {
        let previous = if starts_row(i, width) {
            0u8
        } else {
            inverse_at(residuals, width, i - 1)
        };
        previous.wrapping_sub(residuals[i])
    } else {
        residuals[i]
    }
}

/// The samples that `residuals` stand for.
pub open spec fn inverse(residuals: Seq<u8>, width: nat) -> Seq<u8> {
    Seq::new(residuals.len(), |i: int| inverse_at(residuals, width, i))
}

/// The column of the next position: one further, or back to zero at the
/// end of a row.
pub proof fn lemma_next_column(i: int, width: int)
    requires
        0 <= i,
        width > 0,
    ensures
        0 <= i % width < width,
        (i + 1) % width == if i % width + 1 == width {
            0
        } else {
            i % width + 1
        },
{
    vstd::arithmetic::div_mod::lemma_fundamental_div_mod(i, width);
    vstd::arithmetic::div_mod::lemma_mod_bound(i, width);
    let q = i / width;
    let r = i % width;
    if r + 1 == width {
        assert(i + 1 == (q + 1) * width + 0) by (nonlinear_arith)
            requires
                i == width * q + r,
                r + 1 == width,
        ;
        vstd::arithmetic::div_mod::lemma_fundamental_div_mod_converse(i + 1, width, q + 1, 0);
    } else {
        assert(i + 1 == q * width + (r + 1)) by (nonlinear_arith)
            requires
                i == width * q + r,
        ;
        vstd::arithmetic::div_mod::lemma_fundamental_div_mod_converse(i + 1, width, q, r + 1);
    }
}

/// The inverse transform of the residuals gives every sample back.
proof fn lemma_inverse_forward_at(samples: Seq<u8>, width: nat, i: int)
    requires
        0 <= i < samples.len(),
    ensures
        inverse_at(forward(samples, width), width, i) == samples[i],
    decreases i,
{
    if i < rows_len(samples.len(), width) && !starts_row(i, width) {
        lemma_inverse_forward_at(samples, width, i - 1);
    }
}

/// The forward transform of the decoded samples gives every residual back.
proof fn lemma_forward_inverse_at(residuals: Seq<u8>, width: nat, i: int)
    requires
        0 <= i < residuals.len(),
    ensures
        forward_at(inverse(residuals, width), width, i) == residuals[i],
{
}

/// The inverse transform undoes the forward transform, for every
/// sequence of samples and every width.
pub proof fn lemma_inverse_forward(samples: Seq<u8>, width: nat)
    ensures
        inverse(forward(samples, width), width) == samples,
{
    let back = inverse(forward(samples, width), width);
    assert forall|i: int| 0 <= i < samples.len() implies back[i] == samples[i] by {
        lemma_inverse_forward_at(samples, width, i);
    }
}

/// The forward transform undoes the inverse transform: the two are
/// inverse bijections on sequences of a given length.
pub proof fn lemma_forward_inverse(residuals: Seq<u8>, width: nat)
    ensures
        forward(inverse(residuals, width), width) == residuals,
{
    let again = forward(inverse(residuals, width), width);
    assert forall|i: int| 0 <= i < residuals.len() implies again[i] == residuals[i] by {
        lemma_forward_inverse_at(residuals, width, i);
    }
}

} // verus!
