//! Vectors and matrices over a [`RingElement`], with their mathematical
//! model.
//!
//! A vector of ring elements is modelled by the sequence of canonical
//! representatives ([`reprs`]), a matrix by the sequence of its row
//! models ([`mat_reprs`]).  All contracts are stated over these models,
//! with every operation reduced modulo the ring modulus.

use vstd::prelude::*;

use crate::RingElement;

verus! {

use vstd::arithmetic::div_mod::{lemma_add_mod_noop, lemma_small_mod};

/// The sequence of canonical representatives of a vector of ring elements.
pub open spec fn reprs<R: RingElement>(v: Seq<R>) -> Seq<int> {
    Seq::new(v.len(), |i: int| v[i].repr())
}

/// The matrix of canonical representatives, row by row.
pub open spec fn mat_reprs<R: RingElement>(m: Seq<Vec<R>>) -> Seq<Seq<int>> {
    Seq::new(m.len(), |i: int| reprs(m[i]@))
}

/// Column `j` of an integer matrix.
pub open spec fn col_int(m: Seq<Seq<int>>, j: int) -> Seq<int> {
    Seq::new(m.len(), |k: int| m[k][j])
}

/// The (exact, unreduced) scalar product of two integer sequences.
pub open spec fn dot_int(a: Seq<int>, b: Seq<int>) -> int
    decreases a.len(),
{
    if a.len() == 0 || b.len() == 0 {
        0
    } else {
        dot_int(a.drop_last(), b.drop_last()) + a.last() * b.last()
    }
}

/// The sum of an integer sequence.
pub open spec fn sum_int(s: Seq<int>) -> int
    decreases s.len(),
{
    if s.len() == 0 {
        0
    } else {
        sum_int(s.drop_last()) + s.last()
    }
}

/// The number of columns of a matrix (0 if it has no rows).
pub open spec fn cols_of<R: RingElement>(m: Seq<Vec<R>>) -> nat {
    if m.len() == 0 {
        0
    } else {
        m[0]@.len()
    }
}

/// All rows have the same length.
pub open spec fn is_rect<R: RingElement>(m: Seq<Vec<R>>) -> bool {
    forall|i: int| 0 <= i < m.len() ==> (#[trigger] m[i]@).len() == cols_of(m)
}

/// Extending both sequences by one element extends the scalar product by
/// the product of the new elements.
pub proof fn lemma_dot_take(a: Seq<int>, b: Seq<int>, i: int)
    requires
        0 <= i < a.len(),
        i < b.len(),
    ensures
        dot_int(a.take(i + 1), b.take(i + 1)) == dot_int(a.take(i), b.take(i)) + a[i] * b[i],
{
    assert(a.take(i + 1).drop_last() =~= a.take(i));
    assert(b.take(i + 1).drop_last() =~= b.take(i));
}

/// A scalar product splits at the head.
pub proof fn lemma_dot_first(a: Seq<int>, b: Seq<int>)
    requires
        a.len() == b.len(),
        a.len() > 0,
    ensures
        dot_int(a, b) == a[0] * b[0] + dot_int(a.drop_first(), b.drop_first()),
    decreases a.len(),
{
    if a.len() == 1 {
        assert(a.drop_last().len() == 0);
        assert(dot_int(a.drop_last(), b.drop_last()) == 0);
        assert(a.drop_first().len() == 0);
        assert(dot_int(a.drop_first(), b.drop_first()) == 0);
    } else {
        lemma_dot_first(a.drop_last(), b.drop_last());
        assert(a.drop_last().drop_first() =~= a.drop_first().drop_last());
        assert(b.drop_last().drop_first() =~= b.drop_first().drop_last());
        assert(a.drop_last()[0] == a[0]);
        assert(b.drop_last()[0] == b[0]);
    }
}

/// A scalar product splits over concatenation of equal-length parts.
pub proof fn lemma_dot_concat(a1: Seq<int>, b1: Seq<int>, a2: Seq<int>, b2: Seq<int>)
    requires
        a1.len() == b1.len(),
        a2.len() == b2.len(),
    ensures
        dot_int(a1 + a2, b1 + b2) == dot_int(a1, b1) + dot_int(a2, b2),
    decreases a2.len(),
{
    if a2.len() == 0 {
        assert(a1 + a2 =~= a1);
        assert(b1 + b2 =~= b1);
    } else {
        lemma_dot_concat(a1, b1, a2.drop_last(), b2.drop_last());
        assert((a1 + a2).drop_last() =~= a1 + a2.drop_last());
        assert((b1 + b2).drop_last() =~= b1 + b2.drop_last());
        assert((a1 + a2).last() == a2.last());
        assert((b1 + b2).last() == b2.last());
    }
}

/// Scalar product of two ring vectors of equal length, reduced modulo
/// the ring modulus.
pub fn dot_product<R: RingElement>(a: &Vec<R>, b: &Vec<R>) -> (r: R)
    requires
        a@.len() == b@.len(),
    ensures
        r.repr() == dot_int(reprs(a@), reprs(b@)) % R::modulus(),
{
    proof {
        R::lemma_modulus();
        lemma_small_mod(0, R::modulus() as nat);
    }
    let n = a.len();
    let mut acc = R::zero();
    for i in 0..n
        invariant
            n == a@.len(),
            n == b@.len(),
            acc.repr() == dot_int(reprs(a@).take(i as int), reprs(b@).take(i as int))
                % R::modulus(),
    {
        let term = a[i].mul(b[i]);
        proof {
            R::lemma_modulus();
            lemma_dot_take(reprs(a@), reprs(b@), i as int);
            lemma_add_mod_noop(
                dot_int(reprs(a@).take(i as int), reprs(b@).take(i as int)),
                a@[i as int].repr() * b@[i as int].repr(),
                R::modulus(),
            );
        }
        acc = acc.add(term);
    }
    proof {
        assert(reprs(a@).take(n as int) =~= reprs(a@));
        assert(reprs(b@).take(n as int) =~= reprs(b@));
    }
    acc
}

/// Pointwise sum of two ring vectors of equal length.
pub fn vec_add<R: RingElement>(a: &Vec<R>, b: &Vec<R>) -> (r: Vec<R>)
    requires
        a@.len() == b@.len(),
    ensures
        r@.len() == a@.len(),
        forall|i: int|
            0 <= i < r@.len() ==> (#[trigger] r@[i]).repr() == (a@[i].repr() + b@[i].repr())
                % R::modulus(),
{
    let n = a.len();
    let mut out: Vec<R> = Vec::new();
    for i in 0..n
        invariant
            n == a@.len(),
            n == b@.len(),
            out@.len() == i,
            forall|k: int|
                0 <= k < i ==> (#[trigger] out@[k]).repr() == (a@[k].repr() + b@[k].repr())
                    % R::modulus(),
    {
        out.push(a[i].add(b[i]));
    }
    out
}

/// Matrix-vector product: row `i` of the result is the reduced scalar
/// product of row `i` with the vector.
pub fn matrix_vector<R: RingElement>(mat: &Vec<Vec<R>>, v: &Vec<R>) -> (r: Vec<R>)
    requires
        forall|i: int| 0 <= i < mat@.len() ==> (#[trigger] mat@[i]@).len() == v@.len(),
    ensures
        r@.len() == mat@.len(),
        forall|i: int|
            0 <= i < r@.len() ==> (#[trigger] r@[i]).repr() == dot_int(
                mat_reprs(mat@)[i],
                reprs(v@),
            ) % R::modulus(),
{
    let n = mat.len();
    let mut out: Vec<R> = Vec::new();
    for i in 0..n
        invariant
            n == mat@.len(),
            forall|k: int| 0 <= k < n ==> (#[trigger] mat@[k]@).len() == v@.len(),
            out@.len() == i,
            forall|k: int|
                0 <= k < i ==> (#[trigger] out@[k]).repr() == dot_int(
                    mat_reprs(mat@)[k],
                    reprs(v@),
                ) % R::modulus(),
    {
        out.push(dot_product(&mat[i], v));
    }
    out
}

/// Matrix product, every entry reduced modulo the ring modulus.
pub fn matrix_matrix<R: RingElement>(a: &Vec<Vec<R>>, b: &Vec<Vec<R>>) -> (r: Vec<Vec<R>>)
    requires
        is_rect(a@),
        is_rect(b@),
        cols_of(a@) == b@.len(),
    ensures
        r@.len() == a@.len(),
        forall|i: int| 0 <= i < r@.len() ==> (#[trigger] r@[i]@).len() == cols_of(b@),
        forall|i: int, j: int|
            0 <= i < r@.len() && 0 <= j < cols_of(b@) ==> (#[trigger] r@[i]@[j]).repr()
                == dot_int(mat_reprs(a@)[i], col_int(mat_reprs(b@), j)) % R::modulus(),
{
    proof {
        R::lemma_modulus();
        lemma_small_mod(0, R::modulus() as nat);
    }
    let a_rows = a.len();
    let b_cols = if b.len() > 0 {
        b[0].len()
    } else {
        0
    };
    let mut out: Vec<Vec<R>> = Vec::new();
    for i in 0..a_rows
        invariant
            a_rows == a@.len(),
            b_cols == cols_of(b@) || (b@.len() == 0 && b_cols == 0),
            b_cols == cols_of(b@),
            is_rect(a@),
            is_rect(b@),
            cols_of(a@) == b@.len(),
            out@.len() == i,
            forall|k: int| 0 <= k < i ==> (#[trigger] out@[k]@).len() == cols_of(b@),
            forall|k: int, j: int|
                0 <= k < i && 0 <= j < cols_of(b@) ==> (#[trigger] out@[k]@[j]).repr()
                    == dot_int(mat_reprs(a@)[k], col_int(mat_reprs(b@), j)) % R::modulus(),
    {
        let mut row: Vec<R> = Vec::new();
        for j in 0..b_cols
            invariant
                a_rows == a@.len(),
                b_cols == cols_of(b@),
                is_rect(a@),
                is_rect(b@),
                cols_of(a@) == b@.len(),
                i < a@.len(),
                row@.len() == j,
                forall|l: int|
                    0 <= l < j ==> (#[trigger] row@[l]).repr() == dot_int(
                        mat_reprs(a@)[i as int],
                        col_int(mat_reprs(b@), l),
                    ) % R::modulus(),
        {
            let n = b.len();
            let mut acc = R::zero();
            proof {
                R::lemma_modulus();
                lemma_small_mod(0, R::modulus() as nat);
            }
            for k in 0..n
                invariant
                    a_rows == a@.len(),
                    b_cols == cols_of(b@),
                    is_rect(a@),
                    is_rect(b@),
                    cols_of(a@) == b@.len(),
                    n == b@.len(),
                    i < a@.len(),
                    j < b_cols,
                    acc.repr() == dot_int(
                        mat_reprs(a@)[i as int].take(k as int),
                        col_int(mat_reprs(b@), j as int).take(k as int),
                    ) % R::modulus(),
            {
                let term = a[i][k].mul(b[k][j]);
                proof {
                    R::lemma_modulus();
                    lemma_dot_take(
                        mat_reprs(a@)[i as int],
                        col_int(mat_reprs(b@), j as int),
                        k as int,
                    );
                    lemma_add_mod_noop(
                        dot_int(
                            mat_reprs(a@)[i as int].take(k as int),
                            col_int(mat_reprs(b@), j as int).take(k as int),
                        ),
                        a@[i as int]@[k as int].repr() * b@[k as int]@[j as int].repr(),
                        R::modulus(),
                    );
                }
                acc = acc.add(term);
            }
            proof {
                assert(mat_reprs(a@)[i as int].take(n as int) =~= mat_reprs(a@)[i as int]);
                assert(col_int(mat_reprs(b@), j as int).take(n as int) =~= col_int(
                    mat_reprs(b@),
                    j as int,
                ));
            }
            row.push(acc);
        }
        out.push(row);
    }
    out
}

/// Add `mu` to every diagonal entry of a matrix, leaving the rest alone.
pub fn add_to_diagonal<R: RingElement>(a: &Vec<Vec<R>>, mu: R) -> (r: Vec<Vec<R>>)
    requires
        forall|i: int| 0 <= i < a@.len() ==> i < (#[trigger] a@[i]@).len(),
    ensures
        r@.len() == a@.len(),
        forall|i: int| 0 <= i < r@.len() ==> (#[trigger] r@[i]@).len() == a@[i]@.len(),
        forall|i: int, j: int|
            0 <= i < r@.len() && 0 <= j < r@[i]@.len() ==> (#[trigger] r@[i]@[j]).repr() == (
            if i == j {
                (a@[i]@[j].repr() + mu.repr()) % R::modulus()
            } else {
                a@[i]@[j].repr()
            }),
{
    let n = a.len();
    let mut out: Vec<Vec<R>> = Vec::new();
    for i in 0..n
        invariant
            n == a@.len(),
            forall|k: int| 0 <= k < n ==> k < (#[trigger] a@[k]@).len(),
            out@.len() == i,
            forall|k: int| 0 <= k < i ==> (#[trigger] out@[k]@).len() == a@[k]@.len(),
            forall|k: int, j: int|
                0 <= k < i && 0 <= j < out@[k]@.len() ==> (#[trigger] out@[k]@[j]).repr() == (
                if k == j {
                    (a@[k]@[j].repr() + mu.repr()) % R::modulus()
                } else {
                    a@[k]@[j].repr()
                }),
    {
        let cols = a[i].len();
        let mut row: Vec<R> = Vec::new();
        for j in 0..cols
            invariant
                n == a@.len(),
                i < n,
                cols == a@[i as int]@.len(),
                row@.len() == j,
                forall|l: int|
                    0 <= l < j ==> (#[trigger] row@[l]).repr() == (
                    if i == l {
                        (a@[i as int]@[l].repr() + mu.repr()) % R::modulus()
                    } else {
                        a@[i as int]@[l].repr()
                    }),
        {
            if i == j {
                row.push(a[i][j].add(mu));
            } else {
                row.push(a[i][j]);
            }
        }
        out.push(row);
    }
    out
}

/// Scale every entry of a matrix by a constant.
pub fn matrix_scale<R: RingElement>(a: &Vec<Vec<R>>, c: R) -> (r: Vec<Vec<R>>)
    ensures
        r@.len() == a@.len(),
        forall|i: int| 0 <= i < r@.len() ==> (#[trigger] r@[i]@).len() == a@[i]@.len(),
        forall|i: int, j: int|
            0 <= i < r@.len() && 0 <= j < r@[i]@.len() ==> (#[trigger] r@[i]@[j]).repr() == (
            a@[i]@[j].repr() * c.repr()) % R::modulus(),
{
    let n = a.len();
    let mut out: Vec<Vec<R>> = Vec::new();
    for i in 0..n
        invariant
            n == a@.len(),
            out@.len() == i,
            forall|k: int| 0 <= k < i ==> (#[trigger] out@[k]@).len() == a@[k]@.len(),
            forall|k: int, j: int|
                0 <= k < i && 0 <= j < out@[k]@.len() ==> (#[trigger] out@[k]@[j]).repr() == (
                a@[k]@[j].repr() * c.repr()) % R::modulus(),
    {
        let cols = a[i].len();
        let mut row: Vec<R> = Vec::new();
        for j in 0..cols
            invariant
                n == a@.len(),
                i < n,
                cols == a@[i as int]@.len(),
                row@.len() == j,
                forall|l: int|
                    0 <= l < j ==> (#[trigger] row@[l]).repr() == (a@[i as int]@[l].repr()
                        * c.repr()) % R::modulus(),
        {
            row.push(a[i][j].mul(c));
        }
        out.push(row);
    }
    out
}

/// Pointwise sum of two matrices of equal shape.
pub fn matrix_add<R: RingElement>(a: &Vec<Vec<R>>, b: &Vec<Vec<R>>) -> (r: Vec<Vec<R>>)
    requires
        a@.len() == b@.len(),
        forall|i: int| 0 <= i < a@.len() ==> (#[trigger] a@[i]@).len() == b@[i]@.len(),
    ensures
        r@.len() == a@.len(),
        forall|i: int| 0 <= i < r@.len() ==> (#[trigger] r@[i]@).len() == a@[i]@.len(),
        forall|i: int, j: int|
            0 <= i < r@.len() && 0 <= j < r@[i]@.len() ==> (#[trigger] r@[i]@[j]).repr() == (
            a@[i]@[j].repr() + b@[i]@[j].repr()) % R::modulus(),
{
    let n = a.len();
    let mut out: Vec<Vec<R>> = Vec::new();
    for i in 0..n
        invariant
            n == a@.len(),
            a@.len() == b@.len(),
            forall|k: int| 0 <= k < n ==> (#[trigger] a@[k]@).len() == b@[k]@.len(),
            out@.len() == i,
            forall|k: int| 0 <= k < i ==> (#[trigger] out@[k]@).len() == a@[k]@.len(),
            forall|k: int, j: int|
                0 <= k < i && 0 <= j < out@[k]@.len() ==> (#[trigger] out@[k]@[j]).repr() == (
                a@[k]@[j].repr() + b@[k]@[j].repr()) % R::modulus(),
    {
        out.push(vec_add(&a[i], &b[i]));
    }
    out
}

} // verus!
