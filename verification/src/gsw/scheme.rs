//! The [`FheScheme`] implementation for [`GSW`].

use vstd::prelude::*;

use crate::error_sampling::{rnd_dmatrix, rnd_dvec, ErrorSampling};
use crate::gsw::gsw::{bit_decomp_int, bit_decomp_matrix, flatten_matrix};
use crate::gsw::pk::{pk_int, GswPk};
use crate::gsw::sk::GswSk;
use crate::gsw::{
    add_diag_int,
    band01,
    bd_mat_int,
    decrypt_model,
    encrypt_model,
    flatten_mat_int,
    id_minus_int,
    mat_add_int,
    mat_mul_int,
    mat_scale_int,
    mp_product,
    mp_rec,
    FheScheme,
    GSW,
};
use crate::linalg::{
    add_to_diagonal,
    cols_of,
    dot_int,
    dot_product,
    is_rect,
    mat_reprs,
    matrix_add,
    matrix_matrix,
    matrix_scale,
    matrix_vector,
    reprs,
};
use crate::RingElement;
use crate::SchemeError;

verus! {

use vstd::arithmetic::div_mod::{
    lemma_div_pos_is_pos,
    lemma_mod_bound,
    lemma_mod_multiples_basic,
    lemma_multiply_divide_lt,
    lemma_small_mod,
};
use vstd::arithmetic::mul::{lemma_mul_inequality, lemma_mul_strict_inequality};
use vstd::arithmetic::power2::{
    lemma2_to64_rest,
    lemma_pow2_adds,
    lemma_pow2_pos,
    lemma_pow2_strictly_increases,
    pow2,
};

impl<R: RingElement, T: ErrorSampling<R>> FheScheme<R> for GSW<R, T> {
    type SecretKey = GswSk<R>;

    type PublicKey = GswPk<R>;

    type Ciphertext = Vec<Vec<R>>;

    open spec fn wf(&self) -> bool {
        self.dims_ok()
    }

    open spec fn sk_wf(&self, sk: &GswSk<R>) -> bool {
        &&& sk.wf()
        &&& sk.t@.len() == self.n
    }

    open spec fn pk_wf(&self, pk: &GswPk<R>) -> bool {
        &&& pk.pk_matrix@.len() == self.m
        &&& pk.b@.len() == self.m
        &&& forall|i: int|
            0 <= i < pk.pk_matrix@.len() ==> (#[trigger] pk.pk_matrix@[i]@).len() == self.n + 1
    }

    open spec fn ct_wf(&self, ct: &Vec<Vec<R>>) -> bool {
        &&& ct@.len() == self.big_n()
        &&& forall|i: int| 0 <= i < ct@.len() ==> (#[trigger] ct@[i]@).len() == self.big_n()
    }

    open spec fn ct_op_wf(&self, ct: &Vec<Vec<R>>) -> bool {
        &&& is_rect(ct@)
        &&& cols_of(ct@) % R::bits() == 0
    }

    proof fn lemma_ct_wf_op(&self, ct: &Vec<Vec<R>>) {
        R::lemma_modulus();
        assert(self.big_n() >= 1) by {
            lemma_mul_inequality(1, (self.n + 1) as int, R::bits() as int);
        }
        assert(cols_of(ct@) == self.big_n());
        lemma_mod_multiples_basic((self.n + 1) as int, R::bits() as int);
    }

    fn keygen(&self) -> (r: (GswSk<R>, GswPk<R>))
        ensures
            r.0.wf(),
            exists|bm: Seq<Seq<int>>, e: Seq<int>|
                {
                    &&& bm.len() == self.m
                    &&& e.len() == self.m
                    &&& (forall|i: int| 0 <= i < bm.len() ==> (#[trigger] bm[i]).len() == self.n)
                    &&& (forall|i: int| 0 <= i < e.len() ==> 0 <= #[trigger] e[i] < R::modulus())
                    &&& mat_reprs(r.1.pk_matrix@) == #[trigger] pk_int(
                        bm,
                        e,
                        reprs(r.0.t@),
                        R::modulus(),
                    )
                    // the LWE invariant: pkMatrix * s is exactly the noise
                    &&& (forall|i: int|
                        0 <= i < e.len() ==> dot_int(
                            mat_reprs(r.1.pk_matrix@)[i],
                            reprs(r.0.s@),
                        ) % R::modulus() == e[i])
                },
    {
        proof {
            R::lemma_modulus();
        }
        let sk = GswSk::new(rnd_dvec(self.n, 0, R::max_u64()));
        let err = self.err_sampling.rnd_error_dvec(self.m);
        let random_matrix = rnd_dmatrix(self.m, self.n, 0, R::max_u64());
        let pk = GswPk::new(&random_matrix, &err, &sk.t);
        proof {
            assert forall|i: int| 0 <= i < reprs(err@).len() implies 0 <= #[trigger] reprs(
                err@,
            )[i] < R::modulus() by {
                R::lemma_repr(err@[i]);
            }
            assert(mat_reprs(pk.pk_matrix@) == pk_int(
                mat_reprs(random_matrix@),
                reprs(err@),
                reprs(sk.t@),
                R::modulus(),
            ));
            assert(reprs(sk.s@) =~= crate::gsw::pk::s_int(reprs(sk.t@), R::modulus())) by {
                let si = crate::gsw::pk::s_int(reprs(sk.t@), R::modulus());
                assert forall|i: int| 0 <= i < sk.s@.len() implies reprs(sk.s@)[i] == si[i] by {
                    if i > 0 {
                        assert(sk.s@[(i - 1) + 1].repr() == (-sk.t@[i - 1].repr())
                            % R::modulus());
                    }
                }
            }
            crate::gsw::pk::lemma_lwe_invariant(
                mat_reprs(random_matrix@),
                reprs(err@),
                reprs(sk.t@),
                R::modulus(),
            );
        }
        (sk, pk)
    }

    fn encrypt(&self, pk: &GswPk<R>, message: R) -> (r: Vec<Vec<R>>)
        ensures
            exists|rm: Seq<Seq<int>>|
                {
                    &&& rm.len() == self.big_n()
                    &&& (forall|i: int|
                        0 <= i < rm.len() ==> (#[trigger] rm[i]).len() == self.m)
                    &&& (forall|i: int, j: int|
                        0 <= i < rm.len() && 0 <= j < rm[i].len() ==> (#[trigger] rm[i][j]) == 0
                            || rm[i][j] == 1)
                    &&& mat_reprs(r@) == #[trigger] encrypt_model(
                        rm,
                        mat_reprs(pk.pk_matrix@),
                        message.repr(),
                        self.n as nat,
                        R::bits(),
                        R::modulus(),
                        self.flatten_after_ops,
                    )
                },
    {
        proof {
            R::lemma_modulus();
        }
        let big_n = self.big_n_exec();
        let random_matrix: Vec<Vec<R>> = rnd_dmatrix(big_n, self.m, 0, 1);
        let ghost rm = mat_reprs(random_matrix@);
        let ghost pkm = mat_reprs(pk.pk_matrix@);
        let ghost w = R::bits();
        let ghost md = R::modulus();
        proof {
            assert(is_rect(random_matrix@));
            assert(is_rect(pk.pk_matrix@));
            assert(cols_of(random_matrix@) == self.m);
            assert(cols_of(pk.pk_matrix@) == self.n + 1);
        }
        let mut product = matrix_matrix(&random_matrix, &pk.pk_matrix);
        let ghost prod0 = mat_mul_int(rm, pkm, (self.n + 1) as nat, md);
        proof {
            assert forall|i: int| 0 <= i < product@.len() implies #[trigger] mat_reprs(
                product@,
            )[i] == prod0[i] by {
                assert(mat_reprs(product@)[i] =~= prod0[i]);
            }
            assert(mat_reprs(product@) =~= prod0);
        }
        bit_decomp_matrix(&mut product);
        let ghost bd0 = bd_mat_int(prod0, w);
        proof {
            assert(mat_reprs(product@) =~= bd0);
        }
        proof {
            assert forall|i: int| 0 <= i < product@.len() implies i < (
            #[trigger] product@[i]@).len() by {
                assert(reprs(product@[i]@) == bit_decomp_int(prod0[i], w));
                assert(product@[i]@.len() == prod0[i].len() * w);
                assert(prod0[i].len() == (self.n + 1) as nat);
                assert(product@[i]@.len() == (self.n + 1) as nat * w) by (nonlinear_arith)
                    requires
                        product@[i]@.len() == prod0[i].len() * w && prod0[i].len() == (self.n
                            + 1) as nat,
                ;
            }
        }
        let mut ct = add_to_diagonal(&product, message);
        let ghost dg0 = add_diag_int(bd0, message.repr(), md);
        proof {
            assert forall|i: int| 0 <= i < ct@.len() implies #[trigger] mat_reprs(ct@)[i]
                == dg0[i] by {
                assert(mat_reprs(ct@)[i] =~= dg0[i]);
            }
            assert(mat_reprs(ct@) =~= dg0);
            // every row of the decomposed matrix has N entries
            assert forall|i: int| 0 <= i < ct@.len() implies (#[trigger] ct@[i]@).len()
                == self.big_n() by {
                assert(prod0[i].len() == (self.n + 1) as nat);
                assert(bd0[i].len() == (self.n + 1) as nat * w) by (nonlinear_arith)
                    requires
                        bd0[i].len() == prod0[i].len() * w && prod0[i].len() == (self.n
                            + 1) as nat,
                ;
            }
            lemma_mod_multiples_basic((self.n + 1) as int, R::bits() as int);
            assert(self.big_n() % R::bits() == 0);
        }
        if self.flatten_after_ops {
            flatten_matrix(&mut ct);
            proof {
                assert(mat_reprs(ct@) =~= flatten_mat_int(dg0, w, md));
                assert forall|i: int| 0 <= i < ct@.len() implies (#[trigger] ct@[i]@).len()
                    == self.big_n() by {
                    crate::gsw::gsw::lemma_flatten_len(dg0[i], w, md);
                }
            }
        }
        proof {
            assert(mat_reprs(ct@) == encrypt_model(
                rm,
                pkm,
                message.repr(),
                self.n as nat,
                w,
                md,
                self.flatten_after_ops,
            ));
        }
        ct
    }

    fn decrypt(&self, sk: &GswSk<R>, ciphertext: &Vec<Vec<R>>) -> (r: R)
        ensures
            r.repr() == decrypt_model(
                mat_reprs(ciphertext@),
                reprs(sk.v@),
                R::bits(),
                R::modulus(),
                R::modulus() == pow2(R::bits()),
            ),
    {
        proof {
            R::lemma_modulus();
            lemma_mul_inequality(2, (self.n + 1) as int, R::bits() as int);
            assert((self.n + 1) as int * R::bits() as int >= 2 * R::bits() as int);
            assert(sk.v@.len() == (self.n + 1) as nat * R::bits()) by (nonlinear_arith)
                requires
                    sk.v@.len() == sk.s@.len() * R::bits() && sk.s@.len() == self.n + 1,
            ;
        }
        let w = R::num_bits();
        let i = w - 1;
        let d = dot_product(&ciphertext[i], &sk.v);
        proof {
            lemma_mod_bound(
                dot_int(mat_reprs(ciphertext@)[i as int], reprs(sk.v@)),
                R::modulus(),
            );
        }
        if R::modulus_is_power_of_two() {
            Self::is_zero_one(d)
        } else {
            let x = d.repr_u64();
            proof {
                vstd::bits::lemma_u64_pow2_no_overflow(i as nat);
                vstd::bits::lemma_u64_shl_is_mul(1u64, i as u64);
                lemma_pow2_pos(i as nat);
                vstd::arithmetic::power2::lemma_pow2_unfold(w as nat);
                lemma_multiply_divide_lt(x as int, pow2(i as nat) as int, 2);
                lemma_div_pos_is_pos(x as int, pow2(i as nat) as int);
                lemma_small_mod(
                    (x as int / pow2(i as nat) as int) as nat,
                    R::modulus() as nat,
                );
            }
            let p = 1u64 << (i as u64);
            R::from_u64(x / p)
        }
    }

    fn mp_decrypt(&self, sk: &GswSk<R>, ciphertext: &Vec<Vec<R>>) -> (r: Result<
        R,
        SchemeError,
    >)
        ensures
            r is Ok <==> R::modulus() == pow2(R::bits()),
            r matches Ok(v) ==> v.repr() == mp_rec(
                mp_product(mat_reprs(ciphertext@), reprs(sk.v@), R::bits(), R::modulus()),
                R::bits(),
                R::modulus(),
                R::bits(),
            ) % R::modulus(),
            r matches Err(e) ==> e == SchemeError::UnsupportedOperation,
    {
        proof {
            R::lemma_modulus();
        }
        if !R::modulus_is_power_of_two() {
            return Err(SchemeError::UnsupportedOperation);
        }
        proof {
            lemma_mul_inequality(2, (self.n + 1) as int, R::bits() as int);
            assert(sk.v@.len() == (self.n + 1) as nat * R::bits()) by (nonlinear_arith)
                requires
                    sk.v@.len() == sk.s@.len() * R::bits() && sk.s@.len() == self.n + 1,
            ;
        }
        let product = matrix_vector(ciphertext, &sk.v);
        let w = R::num_bits();
        let ghost md = R::modulus();
        let ghost prodm = mp_product(mat_reprs(ciphertext@), reprs(sk.v@), R::bits(), md);
        let mut recovered: u64 = 0;
        proof {
            vstd::arithmetic::power2::lemma2_to64();
        }
        for i in 0..w
            invariant
                w as nat == R::bits(),
                1 <= w <= 64,
                md == R::modulus(),
                md >= 2,
                prodm == mp_product(mat_reprs(ciphertext@), reprs(sk.v@), R::bits(), md),
                product@.len() >= w,
                forall|j: int|
                    0 <= j < w ==> #[trigger] product@[j].repr() == prodm[j],
                recovered as int == mp_rec(prodm, w as nat, md, i as nat),
                (recovered as int) < pow2(i as nat) as int,
        {
            let j = w - 1 - i;
            proof {
                lemma_pow2_adds(i as nat, j as nat);
                lemma_pow2_pos(j as nat);
                lemma_pow2_pos(i as nat);
                lemma2_to64_rest();
                if (i as nat) + (j as nat) + 1 < 64 {
                    lemma_pow2_strictly_increases((i + j + 1) as nat, 64);
                }
                vstd::arithmetic::power2::lemma_pow2_unfold((i + j + 1) as nat);
                lemma_mul_strict_inequality(
                    recovered as int,
                    pow2(i as nat) as int,
                    pow2(j as nat) as int,
                );
                vstd::bits::lemma_u64_pow2_no_overflow(i as nat);
                vstd::bits::lemma_u64_pow2_no_overflow(j as nat);
                vstd::bits::lemma_u64_shl_is_mul(recovered, j as u64);
                vstd::bits::lemma_u64_shl_is_mul(1u64, i as u64);
                vstd::arithmetic::power2::lemma_pow2_unfold((i + 1) as nat);
                if (i as nat) + 1 < 64 {
                    lemma_pow2_strictly_increases((i + 1) as nat, 64);
                }
            }
            let shifted = recovered << (j as u64);
            let rec_exp = R::from_u64(shifted);
            let entry = product[j];
            let current = entry.sub(rec_exp);
            let b = Self::is_zero_one(current);
            let ghost prev = recovered as int;
            let bit_is_one = b.repr_u64() == 1;
            if bit_is_one {
                proof {
                    vstd::arithmetic::power2::lemma_pow2_unfold((i + 1) as nat);
                }
                recovered = recovered + (1u64 << (i as u64));
            }
            proof {
                vstd::arithmetic::power2::lemma_pow2_unfold((i + 1) as nat);
                assert(band01((prodm[j as int] - (prev * pow2(j as nat) as int) % md) % md, md)
                    == b.repr());
                assert(recovered as int == mp_rec(prodm, w as nat, md, (i + 1) as nat));
            }
        }
        proof {
            lemma_mod_bound(recovered as int, md);
        }
        Ok(R::from_u64(recovered))
    }

    fn add(&self, ciphertext1: &Vec<Vec<R>>, ciphertext2: &Vec<Vec<R>>) -> (r: Result<
        Vec<Vec<R>>,
        SchemeError,
    >)
        ensures
            r is Ok <==> (ciphertext1@.len() == ciphertext2@.len() && cols_of(ciphertext1@)
                == cols_of(ciphertext2@)),
            r matches Ok(c) ==> {
                &&& c@.len() == ciphertext1@.len()
                &&& (forall|i: int|
                    0 <= i < c@.len() ==> (#[trigger] c@[i]@).len() == cols_of(ciphertext1@))
                &&& mat_reprs(c@) == (if self.flatten_after_ops {
                    flatten_mat_int(
                        mat_add_int(
                            mat_reprs(ciphertext1@),
                            mat_reprs(ciphertext2@),
                            R::modulus(),
                        ),
                        R::bits(),
                        R::modulus(),
                    )
                } else {
                    mat_add_int(mat_reprs(ciphertext1@), mat_reprs(ciphertext2@), R::modulus())
                })
            },
    {
        proof {
            R::lemma_modulus();
        }
        if ciphertext1.len() != ciphertext2.len() {
            return Err(SchemeError::DimensionMismatch);
        }
        let cols1 = if ciphertext1.len() > 0 {
            ciphertext1[0].len()
        } else {
            0
        };
        let cols2 = if ciphertext2.len() > 0 {
            ciphertext2[0].len()
        } else {
            0
        };
        if cols1 != cols2 {
            return Err(SchemeError::DimensionMismatch);
        }
        let mut res = matrix_add(ciphertext1, ciphertext2);
        let ghost sum0 = mat_add_int(mat_reprs(ciphertext1@), mat_reprs(ciphertext2@), R::modulus());
        proof {
            assert forall|i: int| 0 <= i < res@.len() implies #[trigger] mat_reprs(res@)[i]
                == sum0[i] by {
                assert(mat_reprs(res@)[i] =~= sum0[i]);
            }
            assert(mat_reprs(res@) =~= sum0);
        }
        if self.flatten_after_ops {
            flatten_matrix(&mut res);
            proof {
                assert(mat_reprs(res@) =~= flatten_mat_int(sum0, R::bits(), R::modulus()));
                assert forall|i: int| 0 <= i < res@.len() implies (#[trigger] res@[i]@).len()
                    == cols_of(ciphertext1@) by {
                    assert(ciphertext1@[i]@.len() == cols_of(ciphertext1@));
                    crate::gsw::gsw::lemma_flatten_len(sum0[i], R::bits(), R::modulus());
                }
            }
        }
        Ok(res)
    }

    fn mult_const(&self, ciphertext: &mut Vec<Vec<R>>, constant: R)
        ensures
            mat_reprs(final(ciphertext)@) == (if self.flatten_after_ops {
                flatten_mat_int(
                    mat_scale_int(mat_reprs(old(ciphertext)@), constant.repr(), R::modulus()),
                    R::bits(),
                    R::modulus(),
                )
            } else {
                mat_scale_int(mat_reprs(old(ciphertext)@), constant.repr(), R::modulus())
            }),
            final(ciphertext)@.len() == old(ciphertext)@.len(),
            forall|i: int|
                0 <= i < final(ciphertext)@.len() ==> (#[trigger] final(ciphertext)@[i]@).len()
                    == old(ciphertext)@[i]@.len(),
    {
        proof {
            R::lemma_modulus();
        }
        let scaled = matrix_scale(ciphertext, constant);
        let ghost sc0 = mat_scale_int(mat_reprs(old(ciphertext)@), constant.repr(), R::modulus());
        proof {
            assert forall|i: int| 0 <= i < scaled@.len() implies #[trigger] mat_reprs(
                scaled@,
            )[i] == sc0[i] by {
                assert(mat_reprs(scaled@)[i] =~= sc0[i]);
            }
            assert(mat_reprs(scaled@) =~= sc0);
        }
        *ciphertext = scaled;
        if self.flatten_after_ops {
            flatten_matrix(ciphertext);
            proof {
                assert(mat_reprs(ciphertext@) =~= flatten_mat_int(
                    sc0,
                    R::bits(),
                    R::modulus(),
                ));
                assert forall|i: int| 0 <= i < ciphertext@.len() implies (
                #[trigger] ciphertext@[i]@).len() == old(ciphertext)@[i]@.len() by {
                    assert(old(ciphertext)@[i]@.len() == cols_of(old(ciphertext)@));
                    crate::gsw::gsw::lemma_flatten_len(sc0[i], R::bits(), R::modulus());
                }
            }
        }
    }

    fn mult(&self, ciphertext1: &Vec<Vec<R>>, ciphertext2: &Vec<Vec<R>>) -> (r: Result<
        Vec<Vec<R>>,
        SchemeError,
    >)
        ensures
            r is Ok <==> cols_of(ciphertext1@) == ciphertext2@.len(),
            r matches Ok(c) ==> {
                &&& c@.len() == ciphertext1@.len()
                &&& (forall|i: int|
                    0 <= i < c@.len() ==> (#[trigger] c@[i]@).len() == cols_of(ciphertext2@))
                &&& mat_reprs(c@) == (if self.flatten_after_ops {
                    flatten_mat_int(
                        mat_mul_int(
                            mat_reprs(ciphertext1@),
                            mat_reprs(ciphertext2@),
                            cols_of(ciphertext2@),
                            R::modulus(),
                        ),
                        R::bits(),
                        R::modulus(),
                    )
                } else {
                    mat_mul_int(
                        mat_reprs(ciphertext1@),
                        mat_reprs(ciphertext2@),
                        cols_of(ciphertext2@),
                        R::modulus(),
                    )
                })
            },
    {
        proof {
            R::lemma_modulus();
        }
        let cols1 = if ciphertext1.len() > 0 {
            ciphertext1[0].len()
        } else {
            0
        };
        if cols1 != ciphertext2.len() {
            return Err(SchemeError::DimensionMismatch);
        }
        let mut res = matrix_matrix(ciphertext1, ciphertext2);
        let ghost prod0 = mat_mul_int(
            mat_reprs(ciphertext1@),
            mat_reprs(ciphertext2@),
            cols_of(ciphertext2@),
            R::modulus(),
        );
        proof {
            assert forall|i: int| 0 <= i < res@.len() implies #[trigger] mat_reprs(res@)[i]
                == prod0[i] by {
                assert(mat_reprs(res@)[i] =~= prod0[i]);
            }
            assert(mat_reprs(res@) =~= prod0);
        }
        if self.flatten_after_ops {
            flatten_matrix(&mut res);
            proof {
                assert(mat_reprs(res@) =~= flatten_mat_int(prod0, R::bits(), R::modulus()));
                assert forall|i: int| 0 <= i < res@.len() implies (#[trigger] res@[i]@).len()
                    == cols_of(ciphertext2@) by {
                    crate::gsw::gsw::lemma_flatten_len(prod0[i], R::bits(), R::modulus());
                }
            }
        }
        Ok(res)
    }

    fn nand(&self, ciphertext1: &Vec<Vec<R>>, ciphertext2: &Vec<Vec<R>>) -> (r: Result<
        Vec<Vec<R>>,
        SchemeError,
    >)
        ensures
            r is Ok <==> (cols_of(ciphertext1@) == ciphertext2@.len() && ciphertext1@.len()
                == cols_of(ciphertext2@)),
            r matches Ok(c) ==> {
                &&& c@.len() == ciphertext1@.len()
                &&& (forall|i: int|
                    0 <= i < c@.len() ==> (#[trigger] c@[i]@).len() == cols_of(ciphertext2@))
                &&& mat_reprs(c@) == (if self.flatten_after_ops {
                    flatten_mat_int(
                        id_minus_int(
                            mat_mul_int(
                                mat_reprs(ciphertext1@),
                                mat_reprs(ciphertext2@),
                                cols_of(ciphertext2@),
                                R::modulus(),
                            ),
                            R::modulus(),
                        ),
                        R::bits(),
                        R::modulus(),
                    )
                } else {
                    id_minus_int(
                        mat_mul_int(
                            mat_reprs(ciphertext1@),
                            mat_reprs(ciphertext2@),
                            cols_of(ciphertext2@),
                            R::modulus(),
                        ),
                        R::modulus(),
                    )
                })
            },
    {
        proof {
            R::lemma_modulus();
        }
        let cols1 = if ciphertext1.len() > 0 {
            ciphertext1[0].len()
        } else {
            0
        };
        let cols2 = if ciphertext2.len() > 0 {
            ciphertext2[0].len()
        } else {
            0
        };
        if cols1 != ciphertext2.len() || ciphertext1.len() != cols2 {
            return Err(SchemeError::DimensionMismatch);
        }
        let prod = matrix_matrix(ciphertext1, ciphertext2);
        let ghost prod0 = mat_mul_int(
            mat_reprs(ciphertext1@),
            mat_reprs(ciphertext2@),
            cols_of(ciphertext2@),
            R::modulus(),
        );
        proof {
            assert forall|i: int| 0 <= i < prod@.len() implies #[trigger] mat_reprs(prod@)[i]
                == prod0[i] by {
                assert(mat_reprs(prod@)[i] =~= prod0[i]);
            }
            assert(mat_reprs(prod@) =~= prod0);
        }
        let nrows = prod.len();
        let mut res: Vec<Vec<R>> = Vec::new();
        for i in 0..nrows
            invariant
                nrows == prod@.len(),
                cols2 == cols_of(ciphertext2@),
                forall|k: int| 0 <= k < nrows ==> (#[trigger] prod@[k]@).len() == cols2,
                mat_reprs(prod@) == prod0,
                res@.len() == i,
                forall|k: int| 0 <= k < i ==> (#[trigger] res@[k]@).len() == cols2,
                forall|k: int, j: int|
                    0 <= k < i && 0 <= j < cols2 ==> (#[trigger] res@[k]@[j]).repr() == ((
                    if k == j {
                        1int
                    } else {
                        0int
                    }) - prod0[k][j]) % R::modulus(),
        {
            let mut row: Vec<R> = Vec::new();
            let cols = prod[i].len();
            for j in 0..cols
                invariant
                    nrows == prod@.len(),
                    i < nrows,
                    cols == prod@[i as int]@.len(),
                    cols == cols2,
                    mat_reprs(prod@) == prod0,
                    row@.len() == j,
                    forall|l: int|
                        0 <= l < j ==> (#[trigger] row@[l]).repr() == ((
                        if i == l {
                            1int
                        } else {
                            0int
                        }) - prod0[i as int][l]) % R::modulus(),
            {
                let unit = if i == j {
                    R::one()
                } else {
                    R::zero()
                };
                row.push(unit.sub(prod[i][j]));
            }
            res.push(row);
        }
        let ghost nm0 = id_minus_int(prod0, R::modulus());
        proof {
            assert forall|i: int| 0 <= i < res@.len() implies #[trigger] mat_reprs(res@)[i]
                == nm0[i] by {
                assert(mat_reprs(res@)[i] =~= nm0[i]);
            }
            assert(mat_reprs(res@) =~= nm0);
        }
        if self.flatten_after_ops {
            flatten_matrix(&mut res);
            proof {
                assert(mat_reprs(res@) =~= flatten_mat_int(nm0, R::bits(), R::modulus()));
                assert forall|i: int| 0 <= i < res@.len() implies (#[trigger] res@[i]@).len()
                    == cols_of(ciphertext2@) by {
                    crate::gsw::gsw::lemma_flatten_len(nm0[i], R::bits(), R::modulus());
                }
            }
        }
        Ok(res)
    }
}

} // verus!
