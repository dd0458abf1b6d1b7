//! The gadget machinery and matrix helpers, specialized to the prime
//! field [`Fp`].
//!
//! These are thin, value-returning entry points over the generic,
//! in-place operations of [`crate::gsw::gsw`] and [`crate::linalg`];
//! their contracts restate the generic ones at the field.

use vstd::prelude::*;

use crate::field::Fp;
use crate::gsw::gsw::{
    bit_decomp_int,
    bit_decomp_inv_int,
    copy_vec,
    flatten_int,
    pow2_expand_int,
};
use crate::linalg::{col_int, cols_of, dot_int, is_rect, mat_reprs, reprs};
use crate::RingElement;

verus! {

use vstd::arithmetic::power2::pow2;

/// A random vector of field elements with representatives in
/// `[min, max]`.
pub fn rnd_fp_vec(size: u8, min: u64, max: u64) -> (r: Vec<Fp>)
    requires
        min <= max,
    ensures
        r@.len() == size,
        (max as int) < Fp::modulus() ==> forall|i: int|
            0 <= i < r@.len() ==> min as int <= (#[trigger] r@[i]).repr() <= max as int,
{
    crate::error_sampling::rnd_dvec::<Fp>(size as usize, min, max)
}

/// Copy a matrix of field elements row by row.
fn copy_matrix(a: &Vec<Vec<Fp>>) -> (r: Vec<Vec<Fp>>)
    ensures
        r@.len() == a@.len(),
        forall|i: int| 0 <= i < r@.len() ==> (#[trigger] r@[i])@ == a@[i]@,
{
    let n = a.len();
    let mut out: Vec<Vec<Fp>> = Vec::new();
    for i in 0..n
        invariant
            n == a@.len(),
            out@.len() == i,
            forall|k: int| 0 <= k < i ==> (#[trigger] out@[k])@ == a@[k]@,
    {
        out.push(copy_vec(&a[i]));
    }
    out
}

/// BitDecomp: expand every entry into its little-endian bit
/// representation, producing a vector of `len * 31` zero/one field
/// values.
pub fn bit_decomp(a: &Vec<Fp>) -> (r: Vec<Fp>)
    ensures
        reprs(r@) == bit_decomp_int(reprs(a@), Fp::bits()),
        r@.len() == a@.len() * Fp::bits(),
{
    let mut v = copy_vec(a);
    crate::gsw::gsw::bit_decomp(&mut v);
    proof {
        assert(v@.len() == reprs(v@).len());
        assert(bit_decomp_int(reprs(a@), Fp::bits()).len() == reprs(a@).len() * Fp::bits());
    }
    v
}

/// BitDecomp applied to every row of a matrix.
pub fn bit_decomp_matrix(a_matrix: &Vec<Vec<Fp>>) -> (r: Vec<Vec<Fp>>)
    ensures
        r@.len() == a_matrix@.len(),
        forall|i: int|
            0 <= i < r@.len() ==> reprs((#[trigger] r@[i])@) == bit_decomp_int(
                reprs(a_matrix@[i]@),
                Fp::bits(),
            ),
{
    let mut v = copy_matrix(a_matrix);
    crate::gsw::gsw::bit_decomp_matrix(&mut v);
    v
}

/// Inverse of BitDecomp: recompose chunks of 31 bit entries.
pub fn bit_decomp_inv(bits: &Vec<Fp>) -> (r: Vec<Fp>)
    requires
        bits@.len() % Fp::bits() == 0,
    ensures
        reprs(r@) == bit_decomp_inv_int(reprs(bits@), Fp::bits(), Fp::modulus()),
{
    let mut v = copy_vec(bits);
    crate::gsw::gsw::bit_decomp_inv(&mut v);
    v
}

/// BitDecompInverse applied to every row of a matrix.
pub fn bit_decomp_inv_matrix(a_matrix: &Vec<Vec<Fp>>) -> (r: Vec<Vec<Fp>>)
    requires
        forall|i: int|
            0 <= i < a_matrix@.len() ==> (#[trigger] a_matrix@[i]@).len() % Fp::bits() == 0,
    ensures
        r@.len() == a_matrix@.len(),
        forall|i: int|
            0 <= i < r@.len() ==> reprs((#[trigger] r@[i])@) == bit_decomp_inv_int(
                reprs(a_matrix@[i]@),
                Fp::bits(),
                Fp::modulus(),
            ),
{
    let mut v = copy_matrix(a_matrix);
    crate::gsw::gsw::bit_decomp_inv_matrix(&mut v);
    v
}

/// Flatten: recompose, then decompose again; the idempotent
/// normalization applied after homomorphic operations.
pub fn flatten(bits: &Vec<Fp>) -> (r: Vec<Fp>)
    requires
        bits@.len() % Fp::bits() == 0,
    ensures
        reprs(r@) == flatten_int(reprs(bits@), Fp::bits(), Fp::modulus()),
{
    let mut v = copy_vec(bits);
    crate::gsw::gsw::flatten(&mut v);
    v
}

/// Flatten applied to every row of a matrix.
pub fn flatten_matrix(a_matrix: &Vec<Vec<Fp>>) -> (r: Vec<Vec<Fp>>)
    requires
        forall|i: int|
            0 <= i < a_matrix@.len() ==> (#[trigger] a_matrix@[i]@).len() % Fp::bits() == 0,
    ensures
        r@.len() == a_matrix@.len(),
        forall|i: int|
            0 <= i < r@.len() ==> reprs((#[trigger] r@[i])@) == flatten_int(
                reprs(a_matrix@[i]@),
                Fp::bits(),
                Fp::modulus(),
            ),
{
    let mut v = copy_matrix(a_matrix);
    crate::gsw::gsw::flatten_matrix(&mut v);
    v
}

/// PowersOf2 over the field's own gadget vector:
/// `(b_1, 2 b_1, ..., 2^30 b_1, ..., b_k, ..., 2^30 b_k)`.
pub fn powers_of_2(b: &Vec<Fp>) -> (r: Vec<Fp>)
    ensures
        reprs(r@) == pow2_expand_int(reprs(b@), Fp::bits(), Fp::modulus()),
        r@.len() == b@.len() * Fp::bits(),
{
    let gadget = crate::gsw::gsw::build_gadget_vector::<Fp>();
    let out = crate::gsw::gsw::powers_of_2(b, &gadget);
    proof {
        assert(reprs(out@) =~= pow2_expand_int(reprs(b@), Fp::bits(), Fp::modulus())) by {
            assert forall|k: int| 0 <= k < out@.len() implies reprs(out@)[k] == pow2_expand_int(
                reprs(b@),
                Fp::bits(),
                Fp::modulus(),
            )[k] by {
                let wi = Fp::bits() as int;
                vstd::arithmetic::div_mod::lemma_mod_bound(k, wi);
                vstd::arithmetic::div_mod::lemma_div_pos_is_pos(k, wi);
                assert(out@.len() == wi * (b@.len() as int)) by (nonlinear_arith)
                    requires
                        out@.len() == b@.len() * Fp::bits() && wi == Fp::bits(),
                ;
                vstd::arithmetic::div_mod::lemma_multiply_divide_lt(k, wi, b@.len() as int);
                assert(gadget@[k % wi].repr() == pow2((k % wi) as nat));
            }
        }
    }
    out
}

/// Scalar product over field elements.
pub fn dot_product_fp(a: &Vec<Fp>, b: &Vec<Fp>) -> (r: Fp)
    requires
        a@.len() == b@.len(),
    ensures
        r.repr() == dot_int(reprs(a@), reprs(b@)) % Fp::modulus(),
{
    crate::linalg::dot_product(a, b)
}

/// Matrix-vector product over field elements.
pub fn matrix_vector_fp(matrix: &Vec<Vec<Fp>>, vector: &Vec<Fp>) -> (r: Vec<Fp>)
    requires
        forall|i: int| 0 <= i < matrix@.len() ==> (#[trigger] matrix@[i]@).len() == vector@.len(),
    ensures
        r@.len() == matrix@.len(),
        forall|i: int|
            0 <= i < r@.len() ==> (#[trigger] r@[i]).repr() == dot_int(
                mat_reprs(matrix@)[i],
                reprs(vector@),
            ) % Fp::modulus(),
{
    crate::linalg::matrix_vector(matrix, vector)
}

/// Pointwise sum of two field vectors.
pub fn vec_vec_fp_add(a: &Vec<Fp>, b: &Vec<Fp>) -> (r: Vec<Fp>)
    requires
        a@.len() == b@.len(),
    ensures
        r@.len() == a@.len(),
        forall|i: int|
            0 <= i < r@.len() ==> (#[trigger] r@[i]).repr() == (a@[i].repr() + b@[i].repr())
                % Fp::modulus(),
{
    crate::linalg::vec_add(a, b)
}

/// Matrix product over field elements.
pub fn matrix_matrix_fp(a: &Vec<Vec<Fp>>, b: &Vec<Vec<Fp>>) -> (r: Vec<Vec<Fp>>)
    requires
        is_rect(a@),
        is_rect(b@),
        cols_of(a@) == b@.len(),
    ensures
        r@.len() == a@.len(),
        forall|i: int| 0 <= i < r@.len() ==> (#[trigger] r@[i]@).len() == cols_of(b@),
        forall|i: int, j: int|
            0 <= i < r@.len() && 0 <= j < cols_of(b@) ==> (#[trigger] r@[i]@[j]).repr()
                == dot_int(mat_reprs(a@)[i], col_int(mat_reprs(b@), j)) % Fp::modulus(),
{
    crate::linalg::matrix_matrix(a, b)
}

/// Add `mu` to every diagonal entry (the efficient form of adding
/// `mu * I`).
pub fn add_to_diagonal(a: &Vec<Vec<Fp>>, mu: Fp) -> (r: Vec<Vec<Fp>>)
    requires
        forall|i: int| 0 <= i < a@.len() ==> i < (#[trigger] a@[i]@).len(),
    ensures
        r@.len() == a@.len(),
        forall|i: int| 0 <= i < r@.len() ==> (#[trigger] r@[i]@).len() == a@[i]@.len(),
        forall|i: int, j: int|
            0 <= i < r@.len() && 0 <= j < r@[i]@.len() ==> (#[trigger] r@[i]@[j]).repr() == (
            if i == j {
                (a@[i]@[j].repr() + mu.repr()) % Fp::modulus()
            } else {
                a@[i]@[j].repr()
            }),
{
    crate::linalg::add_to_diagonal(a, mu)
}

} // verus!
