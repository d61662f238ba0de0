//! Codebooks: the codeword of every residual, and the residual of every
//! codeword.

use crate::codeword::{codeword, lemma_codeword_injective};
use crate::encode::{remainder_coding, rice_index, unary_coding};
use crate::zigzag::{lemma_to_index_injective, to_index};
use std::collections::BTreeMap;
use vstd::arithmetic::power2::pow2;
use vstd::prelude::*;

verus! {

/// Bytes are ordered as the keys of a map need it.
proof fn lemma_byte_keys_ordered()
    ensures
        vstd::laws_cmp::obeys_cmp::<u8>(),
{
    broadcast use vstd::laws_cmp::group_laws_cmp;

}

/// The codeword of the residual `num`.
fn code_of(num: u8, remainder_bits: u8, remainder_range: u8) -> (code: Vec<bool>)
    requires
        remainder_bits <= 7,
        remainder_range == pow2(remainder_bits as nat),
        remainder_range >= 1,
    ensures
        code@ == codeword(to_index(num), remainder_bits as nat),
{
    let index = rice_index(num);
    let mut code: Vec<bool> = Vec::new();
    unary_coding(&mut code, index / remainder_range);
    remainder_coding(&mut code, index % remainder_range, remainder_bits);
    code
}

/// The codebook for `remainder_bits` remainder bits: it maps every
/// residual to the codeword of its rice index. `remainder_range` is
/// `2^remainder_bits`.
pub fn u8_to_vec_bool(remainder_bits: u8, remainder_range: u8) -> (codebook: BTreeMap<
    u8,
    Vec<bool>,
>)
    requires
        remainder_bits <= 7,
        remainder_range == pow2(remainder_bits as nat),
    ensures
        forall|num: u8| #[trigger]
            codebook@.contains_key(num) && codebook@[num]@ == codeword(
                to_index(num),
                remainder_bits as nat,
            ),
{
    proof {
        vstd::arithmetic::power2::lemma_pow2_pos(remainder_bits as nat);
    }
    let mut codebook: BTreeMap<u8, Vec<bool>> = BTreeMap::new();
    let mut next: u16 = 0;
    while next < 256
        invariant
            next <= 256,
            remainder_bits <= 7,
            remainder_range == pow2(remainder_bits as nat),
            remainder_range >= 1,
            forall|num: u8|
                num < next ==> #[trigger] codebook@.contains_key(num) && codebook@[num]@
                    == codeword(to_index(num), remainder_bits as nat),
        decreases 256 - next,
    {
        let num = next as u8;
        let code = code_of(num, remainder_bits, remainder_range);
        proof {
            lemma_byte_keys_ordered();
        }
        codebook.insert(num, code);
        next += 1;
    }
    codebook
}

/// The codewords of a code with the residual that each stands for, as a
/// table that is searched by codeword.
pub struct ReverseCodebook {
    codes: Vec<Vec<bool>>,
    values: Vec<u8>,
}

/// Whether two bit strings are the same.
fn same_bits(a: &Vec<bool>, b: &Vec<bool>) -> (same: bool)
    ensures
        same == (a@ == b@),
{
    if a.len() != b.len() {
        return false;
    }
    let mut i: usize = 0;
    while i < a.len()
        invariant
            i <= a.len(),
            a.len() == b.len(),
            forall|t: int| 0 <= t < i ==> a@[t] == b@[t],
        decreases a.len() - i,
    {
        if a[i] != b[i] {
            return false;
        }
        i += 1;
    }
    assert(a@ =~= b@);
    true
}

impl View for ReverseCodebook {
    type V = Seq<(Seq<bool>, u8)>;

    /// The entries: every codeword with its residual.
    closed spec fn view(&self) -> Seq<(Seq<bool>, u8)> {
        Seq::new(self.codes@.len(), |i: int| (self.codes@[i]@, self.values@[i]))
    }
}

impl ReverseCodebook {
    /// Every codeword has its value, and no codeword occurs twice.
    #[verifier::type_invariant]
    spec fn well_formed(self) -> bool {
        &&& self.codes@.len() == self.values@.len()
        &&& forall|i: int, j: int|
            0 <= i < j < self.codes@.len() ==> self.codes@[i]@ != self.codes@[j]@
    }

    /// Number of entries.
    pub fn len(&self) -> (len: usize)
        ensures
            len == self@.len(),
    {
        self.codes.len()
    }

    /// The residual that the codeword `code` stands for, if `code` is a
    /// codeword of this book. No codeword occurs twice: the entry found is
    /// the only one with this codeword.
    pub fn get(&self, code: &Vec<bool>) -> (found: Option<&u8>)
        ensures
            match found {
                Some(value) => exists|i: int|
                    0 <= i < self@.len() && #[trigger] self@[i] == (code@, *value),
                None => forall|i: int| 0 <= i < self@.len() ==> (#[trigger] self@[i]).0 != code@,
            },
            forall|i: int, j: int|
                0 <= i < j < self@.len() ==> (#[trigger] self@[i]).0 != (#[trigger] self@[j]).0,
    {
        proof {
            use_type_invariant(self);
        }
        let mut i: usize = 0;
        while i < self.codes.len()
            invariant
                i <= self.codes@.len(),
                self.codes@.len() == self.values@.len(),
                self@.len() == self.codes@.len(),
                forall|t: int| 0 <= t < self@.len() ==> (#[trigger] self@[t]) == (
                    self.codes@[t]@,
                    self.values@[t],
                ),
                forall|t: int| 0 <= t < i ==> (#[trigger] self@[t]).0 != code@,
                forall|a: int, b: int|
                    0 <= a < b < self.codes@.len() ==> self.codes@[a]@ != self.codes@[b]@,
            decreases self.codes@.len() - i,
        {
            if same_bits(&self.codes[i], code) {
                assert(self@[i as int] == (code@, self.values@[i as int]));
                return Some(&self.values[i]);
            }
            i += 1;
        }
        None
    }
}

/// The reverse codebook for `remainder_bits` remainder bits: entry `num`
/// holds the codeword of the residual `num`, and `num`. `remainder_range`
/// is `2^remainder_bits`.
pub fn _vec_bool_to_u8(remainder_bits: u8, remainder_range: u8) -> (rev_code_book: ReverseCodebook)
    requires
        remainder_bits <= 7,
        remainder_range == pow2(remainder_bits as nat),
    ensures
        rev_code_book@ == Seq::new(
            256,
            |num: int| (codeword(to_index(num as u8), remainder_bits as nat), num as u8),
        ),
{
    proof {
        vstd::arithmetic::power2::lemma_pow2_pos(remainder_bits as nat);
    }
    let ghost width = remainder_bits as nat;
    let mut codes: Vec<Vec<bool>> = Vec::new();
    let mut values: Vec<u8> = Vec::new();
    let mut next: u16 = 0;
    while next < 256
        invariant
            next <= 256,
            remainder_bits <= 7,
            width == remainder_bits,
            remainder_range == pow2(width),
            remainder_range >= 1,
            codes@.len() == next,
            values@.len() == next,
            forall|t: int|
                0 <= t < next ==> (#[trigger] codes@[t])@ == codeword(to_index(t as u8), width),
            forall|t: int| 0 <= t < next ==> #[trigger] values@[t] == t,
        decreases 256 - next,
    {
        let num = next as u8;
        let code = code_of(num, remainder_bits, remainder_range);
        codes.push(code);
        values.push(num);
        next += 1;
    }
    proof {
        assert forall|i: int, j: int| 0 <= i < j < codes@.len() implies codes@[i]@
            != codes@[j]@ by {
            if codes@[i]@ == codes@[j]@ {
                lemma_codeword_injective(to_index(i as u8), to_index(j as u8), width);
                lemma_to_index_injective(i as u8, j as u8);
            }
        }
    }
    let rev_code_book = ReverseCodebook { codes, values };
    rev_code_book
}

} // verus!
