//! The explicit share matrix of a CNF access formula.
//!
//! For a formula given in CNF the share matrix never has to be
//! multiplied out: row `0` is `(1, 1, 0, ..., 0)`, row `i` carries
//! `-1` at column `i` and `1` at column `i + 1`, so that applied to
//! `(secret, r_1, ..., r_{c-1})` it yields exactly the telescoping
//! sequence that [`crate::zo_sss::mbf::build_w`] samples directly.

use vstd::prelude::*;

use crate::field::{Fp, P};
use crate::zo_sss::dimacs::{clauses_deep, dimacs_text_model, wf_dimacs_text, DIMACS};
use crate::RingElement;
use crate::SchemeError;

verus! {

use vstd::string::StringSliceAdditionalSpecFns;

/// Entry `(i, j)` of the share matrix for `c` clauses, as a canonical
/// representative (`P - 1` stands for `-1`).
pub open spec fn share_matrix_entry(i: int, j: int, c: int) -> int {
    if i == 0 {
        if j == 0 || j == 1 {
            1int
        } else {
            0int
        }
    } else if j == i {
        P as int - 1
    } else if j == i + 1 {
        1int
    } else {
        0int
    }
}

/// An access formula together with its explicit share matrix.
pub struct ShareMatrix {
    pub dimacs: DIMACS,
    pub matrix: Vec<Vec<Fp>>,
}

/// The telescoping coefficient matrix for `c` clauses.
fn telescoping_matrix(c: usize) -> (matrix: Vec<Vec<Fp>>)
    ensures
        matrix@.len() == c,
        forall|i: int| 0 <= i < matrix@.len() ==> (#[trigger] matrix@[i]@).len() == c,
        forall|i: int, j: int|
            0 <= i < matrix@.len() && 0 <= j < matrix@[i]@.len() ==> (
            #[trigger] matrix@[i]@[j]).repr() == share_matrix_entry(i, j, c as int),
{
    let minus_one = Fp::zero().sub(Fp::one());
    let one = Fp::one();
    let zero = Fp::zero();
    proof {
        assert(minus_one.repr() == P as int - 1);
    }
    let mut matrix: Vec<Vec<Fp>> = Vec::new();
    for i in 0..c
        invariant
            minus_one.repr() == P as int - 1,
            one.repr() == 1,
            zero.repr() == 0,
            matrix@.len() == i,
            forall|i2: int| 0 <= i2 < i ==> (#[trigger] matrix@[i2]@).len() == c,
            forall|i2: int, j: int|
                0 <= i2 < i && 0 <= j < c ==> (#[trigger] matrix@[i2]@[j]).repr()
                    == share_matrix_entry(i2, j, c as int),
    {
        let mut row: Vec<Fp> = Vec::new();
        for j in 0..c
            invariant
                i < c,
                minus_one.repr() == P as int - 1,
                one.repr() == 1,
                zero.repr() == 0,
                row@.len() == j,
                forall|j2: int|
                    0 <= j2 < j ==> (#[trigger] row@[j2]).repr() == share_matrix_entry(
                        i as int,
                        j2,
                        c as int,
                    ),
        {
            if i == 0 {
                if j == 0 || j == 1 {
                    row.push(one);
                } else {
                    row.push(zero);
                }
            } else if j == i {
                row.push(minus_one);
            } else if j == i + 1 {
                row.push(one);
            } else {
                row.push(zero);
            }
        }
        matrix.push(row);
    }
    matrix
}

impl ShareMatrix {
    /// The matrix is square in the clause count and holds exactly the
    /// telescoping coefficients.
    pub open spec fn wf(&self) -> bool {
        &&& self.dimacs.wf()
        &&& self.matrix@.len() == self.dimacs.num_clauses
        &&& forall|i: int|
            0 <= i < self.matrix@.len() ==> (#[trigger] self.matrix@[i]@).len()
                == self.dimacs.num_clauses
        &&& forall|i: int, j: int|
            0 <= i < self.matrix@.len() && 0 <= j < self.matrix@[i]@.len() ==> (
            #[trigger] self.matrix@[i]@[j]).repr() == share_matrix_entry(
                i,
                j,
                self.dimacs.num_clauses as int,
            )
    }

    /// Parse a formula and build its share matrix: succeeds exactly on
    /// the texts that [`wf_dimacs_text`] accepts, and then both the
    /// formula and every matrix entry are fixed.
    pub fn from_dimacs(input: &str) -> (r: Result<ShareMatrix, SchemeError>)
        ensures
            r is Ok <==> wf_dimacs_text(input.spec_bytes()),
            r matches Ok(sm) ==> (dimacs_text_model(input.spec_bytes()) matches Some(m) && {
                &&& sm.wf()
                &&& sm.dimacs.num_var == m.0
                &&& sm.dimacs.num_clauses == m.1
                &&& clauses_deep(sm.dimacs.clauses@) == m.2
            }),
            r matches Err(e) ==> e == SchemeError::MalformedAccessFormula,
    {
        let dimacs = match DIMACS::parse(input) {
            Ok(d) => d,
            Err(e) => {
                return Err(SchemeError::MalformedAccessFormula);
            },
        };
        let matrix = telescoping_matrix(dimacs.num_clauses as usize);
        Ok(ShareMatrix { dimacs, matrix })
    }

    /// The share matrix of the two-out-of-three example formula
    /// `(A or B) and (A or C) and (B or C)`.  The formula is a fixed
    /// constant, so it is built outright and every field is pinned.
    pub fn two_of_three() -> (r: ShareMatrix)
        ensures
            r.wf(),
            r.dimacs.num_var == 3,
            r.dimacs.num_clauses == 3,
            r.dimacs.clauses@.len() == 3,
            r.dimacs.clauses@[0]@ == seq![1u8, 2u8],
            r.dimacs.clauses@[1]@ == seq![1u8, 3u8],
            r.dimacs.clauses@[2]@ == seq![2u8, 3u8],
    {
        let clauses: Vec<Vec<u8>> = vec![vec![1u8, 2u8], vec![1u8, 3u8], vec![2u8, 3u8]];
        let partitions: Vec<Vec<u8>> = vec![vec![0u8, 1u8], vec![0u8, 2u8], vec![1u8, 2u8]];
        let dimacs = DIMACS { num_var: 3, num_clauses: 3, clauses, partitions };
        proof {
            assert(dimacs.clauses@[0]@ =~= seq![1u8, 2u8]);
            assert(dimacs.clauses@[1]@ =~= seq![1u8, 3u8]);
            assert(dimacs.clauses@[2]@ =~= seq![2u8, 3u8]);
            assert(dimacs.partitions@[0]@ =~= seq![0u8, 1u8]);
            assert(dimacs.partitions@[1]@ =~= seq![0u8, 2u8]);
            assert(dimacs.partitions@[2]@ =~= seq![1u8, 2u8]);
            assert forall|v: int, j: u8|
                0 <= v < dimacs.partitions@.len() implies ((#[trigger] dimacs.partitions@[
            v]@.contains(j)) <==> (j < dimacs.num_clauses && dimacs.clauses@[j as int]@.contains(
                (v + 1) as u8,
            ))) by {
                if dimacs.partitions@[v]@.contains(j) {
                    let k = choose|k: int|
                        0 <= k < dimacs.partitions@[v]@.len() && dimacs.partitions@[v]@[k] == j;
                    assert(k == 0 || k == 1);
                    // each listed clause index does contain the variable
                    assert(dimacs.clauses@[0]@[0] == 1u8 && dimacs.clauses@[0]@[1] == 2u8);
                    assert(dimacs.clauses@[1]@[0] == 1u8 && dimacs.clauses@[1]@[1] == 3u8);
                    assert(dimacs.clauses@[2]@[0] == 2u8 && dimacs.clauses@[2]@[1] == 3u8);
                }
                if j < dimacs.num_clauses && dimacs.clauses@[j as int]@.contains((v + 1) as u8) {
                    let k = choose|k: int|
                        0 <= k < dimacs.clauses@[j as int]@.len() && dimacs.clauses@[
                        j as int]@[k] == (v + 1) as u8;
                    assert(k == 0 || k == 1);
                    // the matching partition position, case by case
                    if v == 0 {
                        if j == 0 {
                            assert(dimacs.partitions@[0]@[0] == 0u8);
                        } else {
                            assert(j == 1);
                            assert(dimacs.partitions@[0]@[1] == 1u8);
                        }
                    } else if v == 1 {
                        if j == 0 {
                            assert(dimacs.partitions@[1]@[0] == 0u8);
                        } else {
                            assert(j == 2);
                            assert(dimacs.partitions@[1]@[1] == 2u8);
                        }
                    } else {
                        if j == 1 {
                            assert(dimacs.partitions@[2]@[0] == 1u8);
                        } else {
                            assert(j == 2);
                            assert(dimacs.partitions@[2]@[1] == 2u8);
                        }
                    }
                }
            }
            assert(dimacs.wf());
        }
        let matrix = telescoping_matrix(3);
        ShareMatrix { dimacs, matrix }
    }
}

} // verus!
