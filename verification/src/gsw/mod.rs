//! The GSW homomorphic encryption scheme and its gadget machinery.
//!
//! [`GSW`] implements [`FheScheme`] for any ring and error sampler:
//! key generation, encryption, single-bit and multi-bit decryption,
//! and the homomorphic operators (add, scale, multiply, NAND), with an
//! optional flatten-after-every-operation policy.

use std::marker::PhantomData;

use vstd::prelude::*;

use crate::error_sampling::ErrorSampling;
use crate::gsw::gsw::{bit_decomp_int, flatten_int};
use crate::linalg::{col_int, dot_int};
use crate::RingElement;
use crate::SchemeError;

pub mod gsw;
pub mod pk;
pub mod scheme;
pub mod sk;

verus! {

use vstd::arithmetic::power2::pow2;

/// Matrix product on the model, entries reduced modulo `m`; the column
/// count of the right factor is passed explicitly.
pub open spec fn mat_mul_int(a: Seq<Seq<int>>, b: Seq<Seq<int>>, cols: nat, m: int) -> Seq<
    Seq<int>,
> {
    Seq::new(a.len(), |i: int| Seq::new(cols, |j: int| dot_int(a[i], col_int(b, j)) % m))
}

/// Pointwise matrix sum on the model, entries reduced modulo `m`.
pub open spec fn mat_add_int(a: Seq<Seq<int>>, b: Seq<Seq<int>>, m: int) -> Seq<Seq<int>> {
    Seq::new(a.len(), |i: int| Seq::new(a[i].len(), |j: int| (a[i][j] + b[i][j]) % m))
}

/// Matrix scaled by a constant on the model.
pub open spec fn mat_scale_int(a: Seq<Seq<int>>, c: int, m: int) -> Seq<Seq<int>> {
    Seq::new(a.len(), |i: int| Seq::new(a[i].len(), |j: int| (a[i][j] * c) % m))
}

/// Row-wise bit decomposition on the model.
pub open spec fn bd_mat_int(a: Seq<Seq<int>>, w: nat) -> Seq<Seq<int>> {
    Seq::new(a.len(), |i: int| bit_decomp_int(a[i], w))
}

/// Row-wise flatten on the model.
pub open spec fn flatten_mat_int(a: Seq<Seq<int>>, w: nat, m: int) -> Seq<Seq<int>> {
    Seq::new(a.len(), |i: int| flatten_int(a[i], w, m))
}

/// `mu` added to the diagonal on the model.
pub open spec fn add_diag_int(a: Seq<Seq<int>>, mu: int, m: int) -> Seq<Seq<int>> {
    Seq::new(
        a.len(),
        |i: int|
            Seq::new(
                a[i].len(),
                |j: int|
                    if i == j {
                        (a[i][j] + mu) % m
                    } else {
                        a[i][j]
                    },
            ),
    )
}

/// `Identity - a` on the model (used by the NAND gate).
pub open spec fn id_minus_int(a: Seq<Seq<int>>, m: int) -> Seq<Seq<int>> {
    Seq::new(
        a.len(),
        |i: int|
            Seq::new(
                a[i].len(),
                |j: int|
                    ((if i == j {
                        1int
                    } else {
                        0int
                    }) - a[i][j]) % m,
            ),
    )
}

/// The noise-tolerant 0/1 classifier: `1` exactly when `x` lands in the
/// quarter-to-three-quarter band of the modulus.
pub open spec fn band01(x: int, m: int) -> int {
    let q = (m - 1) / 4;
    if q <= x <= 3 * q {
        1int
    } else {
        0int
    }
}

/// The multi-bit decoding recurrence after `i` steps: walk the leading
/// `w` entries of `prod` from the most significant down, subtract the
/// contribution of the bits already recovered, and classify what is
/// left to deduce the next bit.
pub open spec fn mp_rec(prod: Seq<int>, w: nat, m: int, i: nat) -> int
    decreases i,
{
    if i == 0 {
        0
    } else {
        let prev = mp_rec(prod, w, m, (i - 1) as nat);
        let j = (w - i) as nat;
        prev + (if band01((prod[j as int] - (prev * pow2(j) as int) % m) % m, m) == 1 {
            pow2((i - 1) as nat) as int
        } else {
            0int
        })
    }
}

/// The leading `w` entries of `ciphertext * v`, on the model.
pub open spec fn mp_product(ctm: Seq<Seq<int>>, vm: Seq<int>, w: nat, m: int) -> Seq<int> {
    Seq::new(w, |j: int| dot_int(ctm[j], vm) % m)
}

/// What decryption computes: the scalar product of the decoding row
/// with `v`, then either the band classifier (power-of-two rings) or
/// exact division by the implied power of two (prime fields).
pub open spec fn decrypt_model(
    ctm: Seq<Seq<int>>,
    vm: Seq<int>,
    w: nat,
    m: int,
    pow2_ring: bool,
) -> int {
    let x = dot_int(ctm[w - 1], vm) % m;
    if pow2_ring {
        band01(x, m)
    } else {
        x / pow2((w - 1) as nat) as int
    }
}

/// What encryption computes from the random 0/1 matrix `rm`: the
/// product with the public-key matrix, bit-decomposed row by row, the
/// message added on the diagonal, optionally flattened.
pub open spec fn encrypt_model(
    rm: Seq<Seq<int>>,
    pkm: Seq<Seq<int>>,
    mu: int,
    n: nat,
    w: nat,
    m: int,
    flatten: bool,
) -> Seq<Seq<int>> {
    let d = add_diag_int(bd_mat_int(mat_mul_int(rm, pkm, n + 1, m), w), mu, m);
    if flatten {
        flatten_mat_int(d, w, m)
    } else {
        d
    }
}

/// Pointwise reduced sums pair with a vector like the sum of the
/// pairings.
proof fn lemma_dot_pointwise_add_mod(a: Seq<int>, b: Seq<int>, v: Seq<int>, m: int)
    requires
        m >= 2,
        a.len() == v.len(),
        b.len() == v.len(),
    ensures
        dot_int(Seq::new(a.len(), |j: int| (a[j] + b[j]) % m), v) % m == (dot_int(a, v)
            + dot_int(b, v)) % m,
    decreases a.len(),
{
    let s = Seq::new(a.len(), |j: int| (a[j] + b[j]) % m);
    if a.len() == 0 {
        assert(dot_int(s, v) == 0);
        assert(dot_int(a, v) == 0);
        assert(dot_int(b, v) == 0);
    } else {
        let n = a.len() as int;
        let a1 = a.drop_last();
        let b1 = b.drop_last();
        let v1 = v.drop_last();
        lemma_dot_pointwise_add_mod(a1, b1, v1, m);
        assert(s.drop_last() =~= Seq::new(a1.len(), |j: int| (a1[j] + b1[j]) % m));
        let d1 = dot_int(s.drop_last(), v1);
        let last = ((a[n - 1] + b[n - 1]) % m) * v[n - 1];
        assert(dot_int(s, v) == d1 + last);
        vstd::arithmetic::div_mod::lemma_mul_mod_noop_left(a[n - 1] + b[n - 1], v[n - 1], m);
        vstd::arithmetic::div_mod::lemma_add_mod_noop(d1, last, m);
        vstd::arithmetic::div_mod::lemma_add_mod_noop(
            dot_int(a1, v1) + dot_int(b1, v1),
            (a[n - 1] + b[n - 1]) * v[n - 1],
            m,
        );
        assert((a[n - 1] + b[n - 1]) * v[n - 1] == a[n - 1] * v[n - 1] + b[n - 1] * v[n - 1])
            by (nonlinear_arith);
        assert(dot_int(a, v) == dot_int(a1, v1) + a[n - 1] * v[n - 1]);
        assert(dot_int(b, v) == dot_int(b1, v1) + b[n - 1] * v[n - 1]);
    }
}

/// Pointwise reduced differences pair with a vector like the
/// difference of the pairings.
proof fn lemma_dot_pointwise_sub_mod(a: Seq<int>, b: Seq<int>, v: Seq<int>, m: int)
    requires
        m >= 2,
        a.len() == v.len(),
        b.len() == v.len(),
    ensures
        dot_int(Seq::new(a.len(), |j: int| (a[j] - b[j]) % m), v) % m == (dot_int(a, v)
            - dot_int(b, v)) % m,
    decreases a.len(),
{
    let s = Seq::new(a.len(), |j: int| (a[j] - b[j]) % m);
    if a.len() == 0 {
        assert(dot_int(s, v) == 0);
        assert(dot_int(a, v) == 0);
        assert(dot_int(b, v) == 0);
    } else {
        let n = a.len() as int;
        let a1 = a.drop_last();
        let b1 = b.drop_last();
        let v1 = v.drop_last();
        lemma_dot_pointwise_sub_mod(a1, b1, v1, m);
        assert(s.drop_last() =~= Seq::new(a1.len(), |j: int| (a1[j] - b1[j]) % m));
        let d1 = dot_int(s.drop_last(), v1);
        let last = ((a[n - 1] - b[n - 1]) % m) * v[n - 1];
        assert(dot_int(s, v) == d1 + last);
        vstd::arithmetic::div_mod::lemma_mul_mod_noop_left(a[n - 1] - b[n - 1], v[n - 1], m);
        vstd::arithmetic::div_mod::lemma_add_mod_noop(d1, last, m);
        vstd::arithmetic::div_mod::lemma_add_mod_noop(
            dot_int(a1, v1) - dot_int(b1, v1),
            (a[n - 1] - b[n - 1]) * v[n - 1],
            m,
        );
        assert((a[n - 1] - b[n - 1]) * v[n - 1] == a[n - 1] * v[n - 1] - b[n - 1] * v[n - 1])
            by (nonlinear_arith);
        assert(dot_int(a, v) == dot_int(a1, v1) + a[n - 1] * v[n - 1]);
        assert(dot_int(b, v) == dot_int(b1, v1) + b[n - 1] * v[n - 1]);
    }
}

/// A unit row pairs with a vector to the selected entry.
proof fn lemma_dot_unit(i: int, v: Seq<int>)
    requires
        0 <= i < v.len(),
    ensures
        dot_int(
            Seq::new(
                v.len(),
                |j: int|
                    if j == i {
                        1int
                    } else {
                        0int
                    },
            ),
            v,
        ) == v[i],
    decreases v.len(),
{
    let u = Seq::new(
        v.len(),
        |j: int|
            if j == i {
                1int
            } else {
                0int
            },
    );
    let n = v.len() as int;
    if i == n - 1 {
        assert(u.last() * v.last() == v.last()) by (nonlinear_arith)
            requires
                u.last() == 1,
        ;
        assert(dot_int(u, v) == dot_int(u.drop_last(), v.drop_last()) + v[i]);
        assert(u.drop_last() =~= Seq::new(
            v.drop_last().len(),
            |j: int| 0int,
        ));
        lemma_dot_zero(v.drop_last());
    } else {
        assert(u.drop_last() =~= Seq::new(
            v.drop_last().len(),
            |j: int|
                if j == i {
                    1int
                } else {
                    0int
                },
        ));
        lemma_dot_unit(i, v.drop_last());
        assert(u.last() * v.last() == 0) by (nonlinear_arith)
            requires
                u.last() == 0,
        ;
    }
}

/// An all-zero row pairs with any vector to zero.
proof fn lemma_dot_zero(v: Seq<int>)
    ensures
        dot_int(Seq::new(v.len(), |j: int| 0int), v) == 0,
    decreases v.len(),
{
    let z = Seq::new(v.len(), |j: int| 0int);
    if v.len() > 0 {
        assert(z.drop_last() =~= Seq::new(v.drop_last().len(), |j: int| 0int));
        lemma_dot_zero(v.drop_last());
        assert(z.last() * v.last() == 0) by (nonlinear_arith)
            requires
                z.last() == 0,
        ;
    }
}

/// Homomorphic addition decodes linearly: the decoding row of
/// `Add(c1, c2)` pairs with the decryption vector to the sum of the
/// two ciphertexts' pairings, modulo the modulus.  Together with the
/// exact decode models, this is the deterministic part of the
/// additive-homomorphism property; what remains is the bound on the
/// accumulated noise, which is a statistical matter and stays a test.
pub proof fn lemma_add_decodes_linearly(
    c1: Seq<Seq<int>>,
    c2: Seq<Seq<int>>,
    v: Seq<int>,
    i: int,
    m: int,
)
    requires
        m >= 2,
        0 <= i < c1.len(),
        c1[i].len() == v.len(),
        c2[i].len() == v.len(),
    ensures
        dot_int(mat_add_int(c1, c2, m)[i], v) % m == (dot_int(c1[i], v) + dot_int(c2[i], v))
            % m,
{
    assert(mat_add_int(c1, c2, m)[i] =~= Seq::new(
        c1[i].len(),
        |j: int| (c1[i][j] + c2[i][j]) % m,
    ));
    lemma_dot_pointwise_add_mod(c1[i], c2[i], v, m);
}

/// The NAND gate decodes as a complement: the decoding row of
/// `I - C1*C2` pairs with the decryption vector to `v[i]` minus the
/// product ciphertext's pairing, modulo the modulus.  As above, the
/// remaining gap to the end-to-end NAND property is only the noise
/// bound.
pub proof fn lemma_nand_decodes_as_complement(p: Seq<Seq<int>>, v: Seq<int>, i: int, m: int)
    requires
        m >= 2,
        0 <= i < p.len(),
        p[i].len() == v.len(),
        i < v.len(),
    ensures
        dot_int(id_minus_int(p, m)[i], v) % m == (v[i] - dot_int(p[i], v)) % m,
{
    let u = Seq::new(
        v.len(),
        |j: int|
            if j == i {
                1int
            } else {
                0int
            },
    );
    assert(id_minus_int(p, m)[i] =~= Seq::new(
        p[i].len(),
        |j: int| (u[j] - p[i][j]) % m,
    ));
    lemma_dot_pointwise_sub_mod(u, p[i], v, m);
    lemma_dot_unit(i, v);
}

/// A fully homomorphic encryption scheme over the ring `R`.
///
/// The shape predicates are abstract here: each implementation says
/// what a well-formed instance, key and ciphertext are, and callers of
/// a concrete implementation see its stronger contracts.
pub trait FheScheme<R: RingElement>: Sized {
    type SecretKey;

    type PublicKey;

    type Ciphertext;

    /// The scheme instance is usable.
    spec fn wf(&self) -> bool;

    /// A secret key of this scheme instance.
    spec fn sk_wf(&self, sk: &Self::SecretKey) -> bool;

    /// A public key of this scheme instance.
    spec fn pk_wf(&self, pk: &Self::PublicKey) -> bool;

    /// A proper ciphertext of this scheme instance.
    spec fn ct_wf(&self, ct: &Self::Ciphertext) -> bool;

    /// A matrix the homomorphic operators may take: weaker than
    /// [`FheScheme::ct_wf`], strong enough that the operators cannot
    /// fail for any reason but a dimension mismatch.
    spec fn ct_op_wf(&self, ct: &Self::Ciphertext) -> bool;

    /// Every proper ciphertext is acceptable to the operators.
    proof fn lemma_ct_wf_op(&self, ct: &Self::Ciphertext)
        requires
            self.wf(),
            self.ct_wf(ct),
        ensures
            self.ct_op_wf(ct),
    ;

    fn keygen(&self) -> (r: (Self::SecretKey, Self::PublicKey))
        requires
            self.wf(),
        ensures
            self.sk_wf(&r.0),
            self.pk_wf(&r.1),
    ;

    fn encrypt(&self, pk: &Self::PublicKey, message: R) -> (r: Self::Ciphertext)
        requires
            self.wf(),
            self.pk_wf(pk),
        ensures
            self.ct_wf(&r),
    ;

    fn decrypt(&self, sk: &Self::SecretKey, ciphertext: &Self::Ciphertext) -> (r: R)
        requires
            self.wf(),
            self.sk_wf(sk),
            self.ct_wf(ciphertext),
    ;

    fn mp_decrypt(&self, sk: &Self::SecretKey, ciphertext: &Self::Ciphertext) -> (r: Result<
        R,
        SchemeError,
    >)
        requires
            self.wf(),
            self.sk_wf(sk),
            self.ct_wf(ciphertext),
    ;

    fn add(&self, ciphertext1: &Self::Ciphertext, ciphertext2: &Self::Ciphertext) -> (r: Result<
        Self::Ciphertext,
        SchemeError,
    >)
        requires
            self.wf(),
            self.ct_op_wf(ciphertext1),
            self.ct_op_wf(ciphertext2),
        ensures
            r matches Err(e) ==> e == SchemeError::DimensionMismatch,
    ;

    fn mult_const(&self, ciphertext: &mut Self::Ciphertext, constant: R)
        requires
            self.wf(),
            self.ct_op_wf(old(ciphertext)),
        ensures
            self.ct_op_wf(final(ciphertext)),
    ;

    fn mult(&self, ciphertext1: &Self::Ciphertext, ciphertext2: &Self::Ciphertext) -> (r: Result<
        Self::Ciphertext,
        SchemeError,
    >)
        requires
            self.wf(),
            self.ct_op_wf(ciphertext1),
            self.ct_op_wf(ciphertext2),
        ensures
            r matches Err(e) ==> e == SchemeError::DimensionMismatch,
    ;

    fn nand(&self, ciphertext1: &Self::Ciphertext, ciphertext2: &Self::Ciphertext) -> (r: Result<
        Self::Ciphertext,
        SchemeError,
    >)
        requires
            self.wf(),
            self.ct_op_wf(ciphertext1),
            self.ct_op_wf(ciphertext2),
        ensures
            r matches Err(e) ==> e == SchemeError::DimensionMismatch,
    ;
}

/// A GSW scheme instance: secret length `n`, sample count `m`, an
/// error sampler, and the flatten-after-every-operation policy.
pub struct GSW<R, T> where R: RingElement, T: ErrorSampling<R> {
    pub n: usize,
    pub m: usize,
    pub err_sampling: T,
    pub flatten_after_ops: bool,
    pub _marker: PhantomData<R>,
}

impl<R: RingElement, T: ErrorSampling<R>> GSW<R, T> {
    /// The ciphertext dimension `N = (n + 1) * bits`.
    pub open spec fn big_n(&self) -> nat {
        (self.n + 1) as nat * R::bits()
    }

    /// Dimensions are positive and small enough that no size
    /// computation can overflow the machine word.
    pub open spec fn dims_ok(&self) -> bool {
        &&& 1 <= self.n <= 0x10000
        &&& 1 <= self.m <= 0x100000
    }

    /// The 0/1 classifier used by decryption.
    fn is_zero_one(input: R) -> (r: R)
        ensures
            r.repr() == band01(input.repr(), R::modulus()),
    {
        proof {
            R::lemma_modulus();
        }
        let max = R::max_u64();
        let q = max / 4;
        let x = input.repr_u64();
        if q <= x && x <= 3 * q {
            R::one()
        } else {
            R::zero()
        }
    }

    /// Compute `N = (n + 1) * bits` as a machine value.
    fn big_n_exec(&self) -> (r: usize)
        requires
            self.dims_ok(),
        ensures
            r as nat == self.big_n(),
            r >= 1,
    {
        proof {
            R::lemma_modulus();
        }
        let w = R::num_bits();
        proof {
            assert((self.n + 1) as int * (w as int) <= 0x10001 * 64) by (nonlinear_arith)
                requires
                    self.n + 1 <= 0x10001 && w <= 64,
            ;
            assert((self.n + 1) as int * (w as int) >= 1) by (nonlinear_arith)
                requires
                    self.n + 1 >= 1 && w >= 1,
            ;
        }
        (self.n + 1) * w
    }
}

} // verus!
