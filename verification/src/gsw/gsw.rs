//! Gadget machinery: bit decomposition, its inverse, flatten and
//! powers-of-two expansion, together with the laws that make the GSW
//! multiplication trick work.
//!
//! The integer-level model: a vector of ring elements is a sequence of
//! representatives; `bit_decomp_int` expands each entry into its `w`
//! little-endian bits, `bit_decomp_inv_int` recomposes chunks of `w`
//! bits, `pow2_expand_int` multiplies each entry by the gadget powers
//! `1, 2, ..., 2^(w-1)`.

use vstd::prelude::*;

use crate::linalg::{dot_int, reprs};
use crate::RingElement;

verus! {

use vstd::arithmetic::div_mod::{
    lemma_add_mod_noop,
    lemma_div_denominator,
    lemma_fundamental_div_mod,
    lemma_fundamental_div_mod_converse,
    lemma_mod_bound,
    lemma_mul_mod_noop_right,
    lemma_small_mod,
};
use vstd::arithmetic::mul::{lemma_mul_inequality, lemma_mul_is_associative, lemma_mul_is_commutative};
use vstd::arithmetic::power2::{lemma_pow2_pos, lemma_pow2_unfold, pow2};
use crate::linalg::{lemma_dot_concat, lemma_dot_first};

/// Bit `i` of the nonnegative integer `x`, little-endian.
pub open spec fn bit_at(x: int, i: nat) -> int {
    (x / pow2(i) as int) % 2
}

/// The `w` little-endian bits of `x`.
pub open spec fn bits_of(x: int, w: nat) -> Seq<int> {
    Seq::new(w, |i: int| bit_at(x, i as nat))
}

/// Bit decomposition of a vector: each entry expanded into its `w`
/// little-endian bits.
pub open spec fn bit_decomp_int(a: Seq<int>, w: nat) -> Seq<int> {
    Seq::new(a.len() * w, |k: int| bit_at(a[k / (w as int)], (k % (w as int)) as nat))
}

/// Recompose a bit vector: entries equal to `1` contribute their power
/// of two, all other entries contribute nothing.
pub open spec fn recompose(c: Seq<int>) -> int
    decreases c.len(),
{
    if c.len() == 0 {
        0
    } else {
        (if c[0] == 1 {
            1int
        } else {
            0int
        }) + 2 * recompose(c.drop_first())
    }
}

/// Inverse bit decomposition: chunks of `w` entries recomposed and
/// reduced modulo `m`.
pub open spec fn bit_decomp_inv_int(c: Seq<int>, w: nat, m: int) -> Seq<int> {
    Seq::new(c.len() / w, |j: int| recompose(c.subrange(j * (w as int), (j + 1) * (w as int))) % m)
}

/// Flatten: recompose, then decompose again.
pub open spec fn flatten_int(c: Seq<int>, w: nat, m: int) -> Seq<int> {
    bit_decomp_int(bit_decomp_inv_int(c, w, m), w)
}

/// One gadget block: `y` multiplied by each power of two, reduced.
pub open spec fn pow2_row(y: int, w: nat, m: int) -> Seq<int> {
    Seq::new(w, |i: int| (y * pow2(i as nat) as int) % m)
}

/// Powers-of-two expansion of a vector.
pub open spec fn pow2_expand_int(b: Seq<int>, w: nat, m: int) -> Seq<int> {
    Seq::new(b.len() * w, |k: int| (b[k / (w as int)] * pow2((k % (w as int)) as nat) as int) % m)
}

/// The tail of a bit expansion is the bit expansion of the half.
proof fn lemma_bits_of_drop_first(x: int, w: nat)
    requires
        w >= 1,
        x >= 0,
    ensures
        bits_of(x, w).drop_first() =~= bits_of(x / 2, (w - 1) as nat),
{
    assert forall|i: int| 0 <= i < w - 1 implies bits_of(x, w).drop_first()[i] == bit_at(
        x / 2,
        i as nat,
    ) by {
        lemma_pow2_unfold((i + 1) as nat);
        lemma_pow2_pos(i as nat);
        lemma_div_denominator(x, 2, pow2(i as nat) as int);
        assert(pow2((i + 1) as nat) as int == 2 * pow2(i as nat) as int);
        assert(x / (2 * pow2(i as nat) as int) == (x / 2) / pow2(i as nat) as int);
    }
}

/// Recomposing the `w`-bit expansion of `x < 2^w` gives back `x`.
pub proof fn lemma_recompose_bits_of(x: int, w: nat)
    requires
        0 <= x < pow2(w),
    ensures
        recompose(bits_of(x, w)) == x,
    decreases w,
{
    if w == 0 {
        assert(pow2(0) == 1) by {
            vstd::arithmetic::power2::lemma2_to64();
        }
        assert(bits_of(x, 0).len() == 0);
    } else {
        lemma_pow2_unfold(w);
        lemma_bits_of_drop_first(x, w);
        lemma_recompose_bits_of(x / 2, (w - 1) as nat);
        assert(pow2(0) == 1) by {
            vstd::arithmetic::power2::lemma2_to64();
        }
        assert(bits_of(x, w)[0] == bit_at(x, 0));
        assert(bit_at(x, 0) == x % 2);
        lemma_fundamental_div_mod(x, 2);
        assert(recompose(bits_of(x, w)) == (if x % 2 == 1 {
            1int
        } else {
            0int
        }) + 2 * recompose(bits_of(x / 2, (w - 1) as nat)));
    }
}

/// Appending a bit adds its power of two to the recomposition.
pub proof fn lemma_recompose_push(c: Seq<int>, b: int)
    ensures
        recompose(c.push(b)) == recompose(c) + (if b == 1 {
            pow2(c.len()) as int
        } else {
            0int
        }),
    decreases c.len(),
{
    if c.len() == 0 {
        assert(pow2(0) == 1) by {
            vstd::arithmetic::power2::lemma2_to64();
        }
        assert(c.push(b)[0] == b);
        assert(c.push(b).drop_first() =~= Seq::<int>::empty());
        assert(recompose(c.push(b).drop_first()) == 0);
        assert(recompose(c.push(b)) == (if b == 1 {
            1int
        } else {
            0int
        }) + 2 * recompose(c.push(b).drop_first()));
    } else {
        assert(c.push(b).drop_first() =~= c.drop_first().push(b));
        lemma_recompose_push(c.drop_first(), b);
        lemma_pow2_unfold(c.len());
        assert(c.push(b)[0] == c[0]);
        assert(recompose(c.push(b)) == (if c[0] == 1 {
            1int
        } else {
            0int
        }) + 2 * recompose(c.drop_first().push(b)));
    }
}

/// Round trip (on the model): recomposing a bit decomposition of
/// reduced entries is the identity.
///
/// For every vector of canonical representatives (entries in
/// `[0, m)` with `m <= 2^w`), `bit_decomp_inv_int` inverts
/// `bit_decomp_int` exactly.
pub proof fn lemma_bit_decomp_round_trip(a: Seq<int>, w: nat, m: int)
    requires
        w >= 1,
        0 < m <= pow2(w),
        forall|i: int| 0 <= i < a.len() ==> 0 <= #[trigger] a[i] < m,
    ensures
        bit_decomp_inv_int(bit_decomp_int(a, w), w, m) =~= a,
{
    let bd = bit_decomp_int(a, w);
    assert(bd.len() == a.len() * w);
    assert(bd.len() % (w as nat) == 0) by {
        lemma_fundamental_div_mod_converse(a.len() as int * w as int, w as int, a.len() as int, 0);
    }
    assert(bd.len() / (w as nat) == a.len()) by {
        lemma_fundamental_div_mod_converse(a.len() as int * w as int, w as int, a.len() as int, 0);
    }
    assert forall|j: int| 0 <= j < a.len() implies bit_decomp_inv_int(bd, w, m)[j] == a[j] by {
        let wi = w as int;
        assert((j + 1) * wi == j * wi + wi) by (nonlinear_arith);
        assert(0 <= j * wi) by (nonlinear_arith)
            requires
                j >= 0 && wi >= 0,
        ;
        assert((j + 1) * wi <= a.len() as int * wi) by {
            lemma_mul_inequality(j + 1, a.len() as int, wi);
        }
        let chunk = bd.subrange(j * wi, (j + 1) * wi);
        assert(chunk =~= bits_of(a[j], w)) by {
            assert forall|i: int| 0 <= i < w implies chunk[i] == bit_at(a[j], i as nat) by {
                assert(chunk[i] == bd[j * wi + i]);
                lemma_fundamental_div_mod_converse(j * wi + i, wi, j, i);
            }
        }
        lemma_recompose_bits_of(a[j], w);
        lemma_small_mod(a[j] as nat, m as nat);
    }
}

/// Scalar gadget duality: pairing the bits of `x` with the gadget
/// powers of `y` reproduces the product `x * y` modulo `m`.
pub proof fn lemma_dual_scalar(x: int, y: int, w: nat, m: int)
    requires
        0 <= x < pow2(w),
        0 < m,
    ensures
        dot_int(bits_of(x, w), pow2_row(y, w, m)) % m == (x * y) % m,
    decreases w,
{
    if w == 0 {
        assert(pow2(0) == 1) by {
            vstd::arithmetic::power2::lemma2_to64();
        }
        assert(x == 0);
        assert(dot_int(bits_of(x, 0), pow2_row(y, 0, m)) == 0);
        assert(x * y == 0) by (nonlinear_arith)
            requires
                x == 0,
        ;
    } else {
        let bits = bits_of(x, w);
        let row = pow2_row(y, w, m);
        lemma_dot_first(bits, row);
        lemma_bits_of_drop_first(x, w);
        assert(row.drop_first() =~= pow2_row(2 * y, (w - 1) as nat, m)) by {
            assert forall|i: int| 0 <= i < w - 1 implies row.drop_first()[i] == (2 * y * pow2(
                i as nat,
            ) as int) % m by {
                lemma_pow2_unfold((i + 1) as nat);
                assert(y * (2 * pow2(i as nat) as int) == 2 * y * pow2(i as nat) as int)
                    by (nonlinear_arith);
            }
        }
        lemma_pow2_unfold(w);
        lemma_pow2_pos((w - 1) as nat);
        vstd::arithmetic::div_mod::lemma_multiply_divide_lt(x, 2, pow2((w - 1) as nat) as int);
        lemma_dual_scalar(x / 2, 2 * y, (w - 1) as nat, m);
        assert(pow2(0) == 1) by {
            vstd::arithmetic::power2::lemma2_to64();
        }
        vstd::arithmetic::div_mod::lemma_div_basics(x);
        assert(y * (pow2(0) as int) == y) by (nonlinear_arith)
            requires
                pow2(0) == 1,
        ;
        assert(row[0] == y % m);
        assert(bits[0] == x % 2);
        let b0 = x % 2;
        let d = dot_int(bits.drop_first(), row.drop_first());
        assert(d % m == ((x / 2) * (2 * y)) % m);
        lemma_fundamental_div_mod(x, 2);
        assert(b0 * y + (x / 2) * (2 * y) == x * y) by (nonlinear_arith)
            requires
                x == 2 * (x / 2) + b0,
        ;
        lemma_add_mod_noop(b0 * (y % m), d, m);
        lemma_mul_mod_noop_right(b0, y, m);
        assert((b0 * (y % m)) % m == (b0 * y) % m);
        lemma_add_mod_noop(b0 * y, (x / 2) * (2 * y), m);
        assert(dot_int(bits, row) == b0 * (y % m) + d);
    }
}

/// Gadget duality (on the model).
///
/// For all equal-length vectors `a`, `b` with the entries of `a`
/// reduced: the scalar product of `BitDecompose(a)` with
/// `PowersOfTwo(b)` equals the scalar product of `a` with `b`, modulo
/// `m`.  This is the identity that keeps GSW ciphertext multiplication
/// correct.
pub proof fn lemma_gadget_duality(a: Seq<int>, b: Seq<int>, w: nat, m: int)
    requires
        w >= 1,
        0 < m <= pow2(w),
        a.len() == b.len(),
        forall|i: int| 0 <= i < a.len() ==> 0 <= #[trigger] a[i] < m,
    ensures
        dot_int(bit_decomp_int(a, w), pow2_expand_int(b, w, m)) % m == dot_int(a, b) % m,
    decreases a.len(),
{
    let wi = w as int;
    if a.len() == 0 {
        assert(bit_decomp_int(a, w).len() == 0);
        assert(dot_int(bit_decomp_int(a, w), pow2_expand_int(b, w, m)) == 0);
        assert(dot_int(a, b) == 0);
    } else {
        let n = a.len() as int;
        let a1 = a.drop_last();
        let b1 = b.drop_last();
        assert((n - 1) * wi + wi == n * wi) by (nonlinear_arith);
        assert(0 <= (n - 1) * wi) by (nonlinear_arith)
            requires
                n >= 1 && wi >= 1,
        ;
        let bd_lhs = bit_decomp_int(a, w);
        let bd_rhs = bit_decomp_int(a1, w) + bits_of(a.last(), w);
        assert(bd_lhs =~= bd_rhs) by {
            assert forall|k: int| 0 <= k < n * wi implies #[trigger] bd_lhs[k] == bd_rhs[k] by {
                if k < (n - 1) * wi {
                    assert(wi * (n - 1) == (n - 1) * wi) by (nonlinear_arith);
                    vstd::arithmetic::div_mod::lemma_multiply_divide_lt(k, wi, n - 1);
                    vstd::arithmetic::div_mod::lemma_div_pos_is_pos(k, wi);
                    assert(a1[k / wi] == a[k / wi]);
                } else {
                    lemma_fundamental_div_mod_converse(k, wi, n - 1, k - (n - 1) * wi);
                    assert(bd_rhs[k] == bits_of(a.last(), w)[k - (n - 1) * wi]);
                }
            }
        }
        let pe_lhs = pow2_expand_int(b, w, m);
        let pe_rhs = pow2_expand_int(b1, w, m) + pow2_row(b.last(), w, m);
        assert(pe_lhs =~= pe_rhs) by {
            assert forall|k: int| 0 <= k < n * wi implies #[trigger] pe_lhs[k] == pe_rhs[k] by {
                if k < (n - 1) * wi {
                    assert(wi * (n - 1) == (n - 1) * wi) by (nonlinear_arith);
                    vstd::arithmetic::div_mod::lemma_multiply_divide_lt(k, wi, n - 1);
                    vstd::arithmetic::div_mod::lemma_div_pos_is_pos(k, wi);
                    assert(b1[k / wi] == b[k / wi]);
                } else {
                    lemma_fundamental_div_mod_converse(k, wi, n - 1, k - (n - 1) * wi);
                    assert(pe_rhs[k] == pow2_row(b.last(), w, m)[k - (n - 1) * wi]);
                }
            }
        }
        lemma_dot_concat(
            bit_decomp_int(a1, w),
            pow2_expand_int(b1, w, m),
            bits_of(a.last(), w),
            pow2_row(b.last(), w, m),
        );
        lemma_gadget_duality(a1, b1, w, m);
        lemma_dual_scalar(a.last(), b.last(), w, m);
        let d1 = dot_int(bit_decomp_int(a1, w), pow2_expand_int(b1, w, m));
        let d2 = dot_int(bits_of(a.last(), w), pow2_row(b.last(), w, m));
        lemma_add_mod_noop(d1, d2, m);
        lemma_add_mod_noop(dot_int(a1, b1), a.last() * b.last(), m);
        assert(dot_int(a, b) == dot_int(a1, b1) + a.last() * b.last());
    }
}

/// Flattening keeps the length of a vector whose length is a multiple
/// of the bit width.
pub proof fn lemma_flatten_len(c: Seq<int>, w: nat, m: int)
    requires
        w >= 1,
        c.len() % w == 0,
    ensures
        flatten_int(c, w, m).len() == c.len(),
{
    lemma_fundamental_div_mod(c.len() as int, w as int);
    assert((w as int) * (c.len() as int / w as int) == (c.len() as int / w as int) * (
    w as int)) by (nonlinear_arith);
}

/// Idempotence (on the model): flattening twice is flattening once.
///
/// `flatten_int` re-encodes a bit vector so that every chunk encodes a
/// reduced entry; doing it again changes nothing.
pub proof fn lemma_flatten_idempotent(c: Seq<int>, w: nat, m: int)
    requires
        w >= 1,
        0 < m <= pow2(w),
    ensures
        flatten_int(flatten_int(c, w, m), w, m) =~= flatten_int(c, w, m),
{
    let inner = bit_decomp_inv_int(c, w, m);
    assert(forall|i: int| 0 <= i < inner.len() ==> 0 <= #[trigger] inner[i] < m) by {
        assert forall|i: int| 0 <= i < inner.len() implies 0 <= #[trigger] inner[i] < m by {
            lemma_mod_bound(
                recompose(c.subrange(i * (w as int), (i + 1) * (w as int))),
                m,
            );
        }
    }
    lemma_bit_decomp_round_trip(inner, w, m);
}

/// Copy a vector of ring elements.
pub(crate) fn copy_vec<R: RingElement>(v: &Vec<R>) -> (r: Vec<R>)
    ensures
        r@ == v@,
{
    let n = v.len();
    let mut out: Vec<R> = Vec::new();
    for i in 0..n
        invariant
            n == v@.len(),
            out@.len() == i,
            forall|k: int| 0 <= k < i ==> out@[k] == v@[k],
    {
        out.push(v[i]);
    }
    proof {
        assert(out@ =~= v@);
    }
    out
}

/// BitDecomp: expand every entry into its little-endian bit
/// representation, as `0`/`1` ring values, in place.
pub fn bit_decomp<R: RingElement>(a: &mut Vec<R>)
    ensures
        reprs(final(a)@) == bit_decomp_int(reprs(old(a)@), R::bits()),
{
    proof {
        R::lemma_modulus();
    }
    let w = R::num_bits();
    let ghost orig = reprs(old(a)@);
    let n = a.len();
    let mut tmp: Vec<R> = Vec::new();
    for idx in 0..n
        invariant
            w as nat == R::bits(),
            1 <= w <= 64,
            a@ == old(a)@,
            n == a@.len(),
            orig == reprs(a@),
            tmp@.len() == idx * w,
            forall|k: int|
                0 <= k < tmp@.len() ==> #[trigger] tmp@[k].repr() == bit_at(
                    orig[k / (w as int)],
                    (k % (w as int)) as nat,
                ),
    {
        let v = a[idx].repr_u64();
        proof {
            R::lemma_modulus();
        }
        for i in 0..w
            invariant
                w as nat == R::bits(),
                1 <= w <= 64,
                a@ == old(a)@,
                n == a@.len(),
                idx < n,
                orig == reprs(a@),
                v as int == orig[idx as int],
                v as int >= 0,
                tmp@.len() == idx * w + i,
                forall|k: int|
                    0 <= k < tmp@.len() ==> #[trigger] tmp@[k].repr() == bit_at(
                        orig[k / (w as int)],
                        (k % (w as int)) as nat,
                    ),
        {
            let sh = v >> (i as u64);
            let bit = sh & 1;
            proof {
                vstd::bits::lemma_u64_shr_is_div(v, i as u64);
                assert(sh & 1 == sh % 2) by (bit_vector);
                lemma_fundamental_div_mod_converse(
                    (idx * w + i) as int,
                    w as int,
                    idx as int,
                    i as int,
                );
                assert(bit as int == bit_at(orig[idx as int], i as nat));
            }
            if bit == 1 {
                tmp.push(R::one());
            } else {
                tmp.push(R::zero());
            }
        }
        proof {
            assert((idx + 1) as int * (w as int) == idx as int * (w as int) + (w as int))
                by (nonlinear_arith);
        }
    }
    proof {
        assert(reprs(tmp@) =~= bit_decomp_int(orig, R::bits()));
    }
    *a = tmp;
}

/// BitDecomp applied to every row of a matrix.
pub fn bit_decomp_matrix<R: RingElement>(a_matrix: &mut Vec<Vec<R>>)
    ensures
        final(a_matrix)@.len() == old(a_matrix)@.len(),
        forall|i: int|
            0 <= i < final(a_matrix)@.len() ==> reprs((#[trigger] final(a_matrix)@[i])@)
                == bit_decomp_int(reprs(old(a_matrix)@[i]@), R::bits()),
{
    let n = a_matrix.len();
    let mut out: Vec<Vec<R>> = Vec::new();
    for i in 0..n
        invariant
            a_matrix@ == old(a_matrix)@,
            n == a_matrix@.len(),
            out@.len() == i,
            forall|k: int|
                0 <= k < i ==> reprs((#[trigger] out@[k])@) == bit_decomp_int(
                    reprs(old(a_matrix)@[k]@),
                    R::bits(),
                ),
    {
        let mut row = copy_vec(&a_matrix[i]);
        bit_decomp(&mut row);
        out.push(row);
    }
    *a_matrix = out;
}

/// Inverse of BitDecomp: recompose chunks of `bits` entries.  Only
/// supports reconstruction through a 64-bit accumulator, which is
/// exactly what a bit width of at most 64 needs.
pub fn bit_decomp_inv<R: RingElement>(bits: &mut Vec<R>)
    requires
        old(bits)@.len() % R::bits() == 0,
    ensures
        reprs(final(bits)@) == bit_decomp_inv_int(reprs(old(bits)@), R::bits(), R::modulus()),
{
    proof {
        R::lemma_modulus();
    }
    let w = R::num_bits();
    let ghost orig = reprs(old(bits)@);
    let total = bits.len();
    let n = total / w;
    proof {
        lemma_fundamental_div_mod(total as int, w as int);
        assert((w as int) * (total as int / (w as int)) == (total as int / (w as int)) * (
        w as int)) by (nonlinear_arith);
    }
    let mut tmp: Vec<R> = Vec::new();
    for j in 0..n
        invariant
            w as nat == R::bits(),
            1 <= w <= 64,
            bits@ == old(bits)@,
            orig == reprs(bits@),
            total == orig.len(),
            n * w == orig.len(),
            tmp@.len() == j,
            forall|jj: int|
                0 <= jj < j ==> #[trigger] tmp@[jj].repr() == recompose(
                    orig.subrange(jj * (w as int), (jj + 1) * (w as int)),
                ) % R::modulus(),
    {
        let mut repr: u64 = 0;
        proof {
            assert((j + 1) * (w as int) == j * (w as int) + (w as int)) by (nonlinear_arith);
            assert((j + 1) * (w as int) <= n as int * (w as int)) by {
                lemma_mul_inequality(j as int + 1, n as int, w as int);
            }
            assert(0 <= j * (w as int)) by (nonlinear_arith)
                requires
                    j >= 0 && w >= 1,
            ;
            assert(orig.subrange(j * (w as int), j * (w as int)) =~= Seq::<int>::empty());
            vstd::arithmetic::power2::lemma2_to64();
        }
        for i in 0..w
            invariant
                w as nat == R::bits(),
                1 <= w <= 64,
                bits@ == old(bits)@,
                orig == reprs(bits@),
                total == orig.len(),
                n * w == orig.len(),
                j < n,
                (j + 1) * (w as int) <= orig.len(),
                j * (w as int) + (w as int) == (j + 1) * (w as int),
                tmp@.len() == j,
                forall|jj: int|
                    0 <= jj < j ==> #[trigger] tmp@[jj].repr() == recompose(
                        orig.subrange(jj * (w as int), (jj + 1) * (w as int)),
                    ) % R::modulus(),
                repr as int == recompose(
                    orig.subrange(j * (w as int), j * (w as int) + i),
                ),
                (repr as int) < pow2(i as nat) as int,
        {
            let ghost pre = orig.subrange(j * (w as int), j * (w as int) + i);
            proof {
                assert(orig.subrange(j * (w as int), j * (w as int) + i + 1) =~= pre.push(
                    orig[j * (w as int) + i],
                ));
                lemma_recompose_push(pre, orig[j * (w as int) + i]);
                vstd::bits::lemma_u64_pow2_no_overflow(i as nat);
                vstd::bits::lemma_u64_shl_is_mul(1u64, i as u64);
                lemma_pow2_unfold((i + 1) as nat);
                vstd::arithmetic::power2::lemma2_to64_rest();
                if (i as nat) + 1 < 64 {
                    vstd::arithmetic::power2::lemma_pow2_strictly_increases(
                        (i + 1) as nat,
                        64,
                    );
                }
            }
            proof {
                assert(j as int * (w as int) + (i as int) < total as int);
            }
            let e = bits[j * w + i].repr_u64();
            if e == 1 {
                repr = repr + (1u64 << (i as u64));
            }
        }
        tmp.push(R::from_u64(repr));
        proof {
            assert(orig.subrange(j * (w as int), j * (w as int) + (w as int)) =~= orig.subrange(
                j * (w as int),
                (j + 1) * (w as int),
            ));
        }
    }
    proof {
        assert(reprs(tmp@) =~= bit_decomp_inv_int(orig, R::bits(), R::modulus()));
    }
    *bits = tmp;
}

/// BitDecompInverse applied to every row of a matrix.
pub fn bit_decomp_inv_matrix<R: RingElement>(a_matrix: &mut Vec<Vec<R>>)
    requires
        forall|i: int|
            0 <= i < old(a_matrix)@.len() ==> (#[trigger] old(a_matrix)@[i]@).len() % R::bits()
                == 0,
    ensures
        final(a_matrix)@.len() == old(a_matrix)@.len(),
        forall|i: int|
            0 <= i < final(a_matrix)@.len() ==> reprs((#[trigger] final(a_matrix)@[i])@)
                == bit_decomp_inv_int(reprs(old(a_matrix)@[i]@), R::bits(), R::modulus()),
{
    let n = a_matrix.len();
    let mut out: Vec<Vec<R>> = Vec::new();
    for i in 0..n
        invariant
            a_matrix@ == old(a_matrix)@,
            n == a_matrix@.len(),
            forall|k: int|
                0 <= k < n ==> (#[trigger] a_matrix@[k]@).len() % R::bits() == 0,
            out@.len() == i,
            forall|k: int|
                0 <= k < i ==> reprs((#[trigger] out@[k])@) == bit_decomp_inv_int(
                    reprs(old(a_matrix)@[k]@),
                    R::bits(),
                    R::modulus(),
                ),
    {
        let mut row = copy_vec(&a_matrix[i]);
        bit_decomp_inv(&mut row);
        out.push(row);
    }
    *a_matrix = out;
}

/// Flatten: recompose, then decompose again, in place.  Idempotent:
/// see [`lemma_flatten_idempotent`].
pub fn flatten<R: RingElement>(bits: &mut Vec<R>)
    requires
        old(bits)@.len() % R::bits() == 0,
    ensures
        reprs(final(bits)@) == flatten_int(reprs(old(bits)@), R::bits(), R::modulus()),
{
    bit_decomp_inv(bits);
    bit_decomp(bits);
}

/// Flatten applied to every row of a matrix.
pub fn flatten_matrix<R: RingElement>(a_matrix: &mut Vec<Vec<R>>)
    requires
        forall|i: int|
            0 <= i < old(a_matrix)@.len() ==> (#[trigger] old(a_matrix)@[i]@).len() % R::bits()
                == 0,
    ensures
        final(a_matrix)@.len() == old(a_matrix)@.len(),
        forall|i: int|
            0 <= i < final(a_matrix)@.len() ==> reprs((#[trigger] final(a_matrix)@[i])@)
                == flatten_int(reprs(old(a_matrix)@[i]@), R::bits(), R::modulus()),
{
    let n = a_matrix.len();
    let mut out: Vec<Vec<R>> = Vec::new();
    for i in 0..n
        invariant
            a_matrix@ == old(a_matrix)@,
            n == a_matrix@.len(),
            forall|k: int|
                0 <= k < n ==> (#[trigger] a_matrix@[k]@).len() % R::bits() == 0,
            out@.len() == i,
            forall|k: int|
                0 <= k < i ==> reprs((#[trigger] out@[k])@) == flatten_int(
                    reprs(old(a_matrix)@[k]@),
                    R::bits(),
                    R::modulus(),
                ),
    {
        let mut row = copy_vec(&a_matrix[i]);
        flatten(&mut row);
        out.push(row);
    }
    *a_matrix = out;
}

/// PowersOf2: expand every scalar `b_i` into the block
/// `[b_i * g_0, b_i * g_1, ...]` over the given gadget vector.
pub fn powers_of_2<R: RingElement>(b: &Vec<R>, gadget_vector: &Vec<R>) -> (r: Vec<R>)
    requires
        gadget_vector@.len() >= 1,
    ensures
        r@.len() == b@.len() * gadget_vector@.len(),
        forall|k: int|
            0 <= k < r@.len() ==> #[trigger] r@[k].repr() == (b@[k / (gadget_vector@.len() as int)].repr()
                * gadget_vector@[k % (gadget_vector@.len() as int)].repr()) % R::modulus(),
{
    let n = b.len();
    let g = gadget_vector.len();
    let mut out: Vec<R> = Vec::new();
    for idx in 0..n
        invariant
            n == b@.len(),
            g == gadget_vector@.len(),
            g >= 1,
            out@.len() == idx * g,
            forall|k: int|
                0 <= k < out@.len() ==> #[trigger] out@[k].repr() == (b@[k / (g as int)].repr()
                    * gadget_vector@[k % (g as int)].repr()) % R::modulus(),
    {
        for i in 0..g
            invariant
                n == b@.len(),
                g == gadget_vector@.len(),
                g >= 1,
                idx < n,
                out@.len() == idx * g + i,
                forall|k: int|
                    0 <= k < out@.len() ==> #[trigger] out@[k].repr() == (b@[k / (g as int)].repr()
                        * gadget_vector@[k % (g as int)].repr()) % R::modulus(),
        {
            proof {
                lemma_fundamental_div_mod_converse(
                    (idx * g + i) as int,
                    g as int,
                    idx as int,
                    i as int,
                );
            }
            out.push(b[idx].mul(gadget_vector[i]));
        }
        proof {
            assert((idx + 1) as int * (g as int) == idx as int * (g as int) + (g as int))
                by (nonlinear_arith);
        }
    }
    out
}

/// The gadget vector `[1, 2, 4, ..., 2^(bits-1)]` of the ring.  The
/// powers stay below the modulus, so every entry is exact.
pub fn build_gadget_vector<R: RingElement>() -> (r: Vec<R>)
    ensures
        r@.len() == R::bits(),
        forall|i: int| 0 <= i < r@.len() ==> #[trigger] r@[i].repr() == pow2(i as nat),
{
    proof {
        R::lemma_modulus();
    }
    let w = R::num_bits();
    let mut out: Vec<R> = Vec::new();
    for i in 0..w
        invariant
            w as nat == R::bits(),
            1 <= w <= 64,
            out@.len() == i,
            forall|k: int| 0 <= k < i ==> #[trigger] out@[k].repr() == pow2(k as nat),
    {
        proof {
            R::lemma_modulus();
            vstd::bits::lemma_u64_pow2_no_overflow(i as nat);
            vstd::bits::lemma_u64_shl_is_mul(1u64, i as u64);
            if (i as nat) + 1 <= R::bits() - 1 {
                vstd::arithmetic::power2::lemma_pow2_strictly_increases(
                    i as nat,
                    (R::bits() - 1) as nat,
                );
            }
            lemma_small_mod(pow2(i as nat), R::modulus() as nat);
        }
        out.push(R::from_u64(1u64 << (i as u64)));
    }
    out
}

} // verus!
