//! The GSW public key, and the LWE invariant it satisfies.

use vstd::prelude::*;

use crate::linalg::{dot_int, lemma_dot_first, mat_reprs, reprs};
use crate::RingElement;

verus! {

use vstd::arithmetic::div_mod::{
    lemma_add_mod_noop,
    lemma_add_mod_noop_right,
    lemma_mod_bound,
    lemma_mul_mod_noop_right,
    lemma_small_mod,
};

/// The secret vector `s = (1, -t_1, ..., -t_n)` on the model, entries
/// reduced modulo `m`.
pub open spec fn s_int(t: Seq<int>, m: int) -> Seq<int> {
    seq![1int] + Seq::new(t.len(), |i: int| (-t[i]) % m)
}

/// The public-key matrix on the model: row `i` is `b_i = <B_i, t> + e_i`
/// (reduced) followed by the random row `B_i`.
pub open spec fn pk_int(bm: Seq<Seq<int>>, e: Seq<int>, t: Seq<int>, m: int) -> Seq<Seq<int>> {
    Seq::new(bm.len(), |i: int| seq![(dot_int(bm[i], t) + e[i]) % m] + bm[i])
}

/// Pairing a vector with the negated-mod copy of another negates the
/// scalar product, modulo `m`.
proof fn lemma_dot_neg_mod(a: Seq<int>, t: Seq<int>, m: int)
    requires
        m >= 2,
        a.len() == t.len(),
    ensures
        dot_int(a, Seq::new(t.len(), |i: int| (-t[i]) % m)) % m == (-dot_int(a, t)) % m,
    decreases a.len(),
{
    let nt = Seq::new(t.len(), |i: int| (-t[i]) % m);
    if a.len() == 0 {
        assert(dot_int(a, nt) == 0);
        assert(dot_int(a, t) == 0);
    } else {
        let a1 = a.drop_last();
        let t1 = t.drop_last();
        lemma_dot_neg_mod(a1, t1, m);
        assert(nt.drop_last() =~= Seq::new(t1.len(), |i: int| (-t1[i]) % m));
        let d1 = dot_int(a1, nt.drop_last());
        let last = a.last() * ((-t.last()) % m);
        assert(dot_int(a, nt) == d1 + last);
        lemma_mul_mod_noop_right(a.last(), -t.last(), m);
        assert(last % m == (a.last() * (-t.last())) % m);
        lemma_add_mod_noop(d1, last, m);
        lemma_add_mod_noop(-dot_int(a1, t1), a.last() * (-t.last()), m);
        assert(a.last() * (-t.last()) == -(a.last() * t.last())) by (nonlinear_arith);
        assert(dot_int(a, t) == dot_int(a1, t1) + a.last() * t.last());
    }
}

/// LWE invariant: for any public key built from `B`, `e` and `t`, the
/// product of the public-key matrix with the secret vector
/// `s = (1, -t)` is exactly the noise vector `e` (modulo `m`, with no
/// further wraparound since `e` is reduced).
pub proof fn lemma_lwe_invariant(bm: Seq<Seq<int>>, e: Seq<int>, t: Seq<int>, m: int)
    requires
        m >= 2,
        bm.len() == e.len(),
        forall|i: int| 0 <= i < bm.len() ==> (#[trigger] bm[i]).len() == t.len(),
        forall|i: int| 0 <= i < e.len() ==> 0 <= #[trigger] e[i] < m,
    ensures
        forall|i: int|
            0 <= i < bm.len() ==> dot_int(#[trigger] pk_int(bm, e, t, m)[i], s_int(t, m)) % m
                == e[i],
{
    let s = s_int(t, m);
    assert forall|i: int| 0 <= i < bm.len() implies dot_int(
        #[trigger] pk_int(bm, e, t, m)[i],
        s,
    ) % m == e[i] by {
        let bi = (dot_int(bm[i], t) + e[i]) % m;
        let row = seq![bi] + bm[i];
        assert(pk_int(bm, e, t, m)[i] == row);
        let nt = Seq::new(t.len(), |k: int| (-t[k]) % m);
        assert(row.len() == s.len());
        assert(row.len() > 0);
        lemma_dot_first(row, s);
        assert(row[0] == bi);
        assert(s[0] == 1);
        assert(row.drop_first() =~= bm[i]);
        assert(s.drop_first() =~= nt);
        lemma_dot_neg_mod(bm[i], t, m);
        // dot(row, s) = bi + dot(bm[i], nt)
        let d = dot_int(bm[i], nt);
        assert(dot_int(row, s) == bi * 1 + d);
        assert(bi * 1 == bi);
        lemma_add_mod_noop(bi, d, m);
        lemma_mod_bound(dot_int(bm[i], t) + e[i], m);
        lemma_small_mod(bi as nat, m as nat);
        lemma_mod_bound(-dot_int(bm[i], t), m);
        lemma_add_mod_noop(dot_int(bm[i], t) + e[i], -dot_int(bm[i], t), m);
        lemma_small_mod(e[i] as nat, m as nat);
    }
}

/// Contains all components used in generating the public key:
/// `b = B t + e` and `pkMatrix = (b | B)`.
#[derive(Debug, PartialEq)]
pub struct GswPk<R: RingElement> {
    pub b: Vec<R>,
    pub pk_matrix: Vec<Vec<R>>,
}

impl<R: RingElement> GswPk<R> {
    /// Assemble the public key from the random matrix `B`, the noise
    /// vector `e` and the secret vector `t`.
    pub fn new(random_matrix: &Vec<Vec<R>>, e: &Vec<R>, t: &Vec<R>) -> (r: Self)
        requires
            forall|i: int|
                0 <= i < random_matrix@.len() ==> (#[trigger] random_matrix@[i]@).len()
                    == t@.len(),
            random_matrix@.len() == e@.len(),
        ensures
            r.b@.len() == e@.len(),
            r.pk_matrix@.len() == e@.len(),
            forall|i: int|
                0 <= i < r.pk_matrix@.len() ==> (#[trigger] r.pk_matrix@[i]@).len() == t@.len()
                    + 1,
            mat_reprs(r.pk_matrix@) == pk_int(
                mat_reprs(random_matrix@),
                reprs(e@),
                reprs(t@),
                R::modulus(),
            ),
            reprs(r.b@) == Seq::new(
                e@.len(),
                |i: int|
                    (dot_int(mat_reprs(random_matrix@)[i], reprs(t@)) + e@[i].repr())
                        % R::modulus(),
            ),
    {
        proof {
            R::lemma_modulus();
        }
        let bt = crate::linalg::matrix_vector(random_matrix, t);
        let b = crate::linalg::vec_add(&bt, e);
        proof {
            assert forall|i: int| 0 <= i < b@.len() implies #[trigger] b@[i].repr() == (dot_int(
                mat_reprs(random_matrix@)[i],
                reprs(t@),
            ) + e@[i].repr()) % R::modulus() by {
                lemma_add_mod_noop_right(
                    dot_int(mat_reprs(random_matrix@)[i], reprs(t@)),
                    e@[i].repr(),
                    R::modulus(),
                );
                assert(b@[i].repr() == (bt@[i].repr() + e@[i].repr()) % R::modulus());
                lemma_mod_bound(
                    dot_int(mat_reprs(random_matrix@)[i], reprs(t@)),
                    R::modulus(),
                );
                lemma_add_mod_noop(
                    dot_int(mat_reprs(random_matrix@)[i], reprs(t@)) % R::modulus(),
                    e@[i].repr(),
                    R::modulus(),
                );
                lemma_add_mod_noop(
                    dot_int(mat_reprs(random_matrix@)[i], reprs(t@)),
                    e@[i].repr(),
                    R::modulus(),
                );
                R::lemma_repr(e@[i]);
                lemma_small_mod(e@[i].repr() as nat, R::modulus() as nat);
            }
        }
        let nrows = random_matrix.len();
        let mut pk_matrix: Vec<Vec<R>> = Vec::new();
        for i in 0..nrows
            invariant
                nrows == random_matrix@.len(),
                nrows == e@.len(),
                nrows == b@.len(),
                forall|k: int|
                    0 <= k < nrows ==> (#[trigger] random_matrix@[k]@).len() == t@.len(),
                forall|k: int|
                    0 <= k < b@.len() ==> #[trigger] b@[k].repr() == (dot_int(
                        mat_reprs(random_matrix@)[k],
                        reprs(t@),
                    ) + e@[k].repr()) % R::modulus(),
                pk_matrix@.len() == i,
                forall|k: int|
                    0 <= k < i ==> (#[trigger] pk_matrix@[k]@).len() == t@.len() + 1,
                forall|k: int|
                    0 <= k < i ==> reprs((#[trigger] pk_matrix@[k])@) == seq![b@[k].repr()]
                        + reprs(random_matrix@[k]@),
        {
            let cols = random_matrix[i].len();
            let mut row: Vec<R> = Vec::new();
            row.push(b[i]);
            for j in 0..cols
                invariant
                    nrows == random_matrix@.len(),
                    i < nrows,
                    cols == random_matrix@[i as int]@.len(),
                    row@.len() == j + 1,
                    row@[0] == b@[i as int],
                    forall|l: int| 0 <= l < j ==> row@[l + 1] == random_matrix@[i as int]@[l],
            {
                row.push(random_matrix[i][j]);
            }
            proof {
                assert(reprs(row@) =~= seq![b@[i as int].repr()] + reprs(
                    random_matrix@[i as int]@,
                ));
            }
            pk_matrix.push(row);
        }
        proof {
            assert(mat_reprs(pk_matrix@) =~= pk_int(
                mat_reprs(random_matrix@),
                reprs(e@),
                reprs(t@),
                R::modulus(),
            ));
            assert(reprs(b@) =~= Seq::new(
                e@.len(),
                |i: int|
                    (dot_int(mat_reprs(random_matrix@)[i], reprs(t@)) + e@[i].repr())
                        % R::modulus(),
            ));
        }
        GswPk { b, pk_matrix }
    }
}

} // verus!
