//! Secret sharing via a monotone boolean formula access structure,
//! following the share-matrix construction of Boneh et al. (Appendix
//! C.2 of "Threshold Cryptosystems From Threshold Fully Homomorphic
//! Encryption").
//!
//! A secret is spread over the clauses by a telescoping sequence `w`
//! whose entries sum to the secret; each party sees the entries of the
//! clauses it appears in.  An authorized coalition sees every entry
//! (possibly repeatedly), so deduplicating and summing recovers the
//! secret.

use vstd::prelude::*;

use crate::error_sampling::rnd_fp;
use crate::field::{Fp, P};
use crate::gsw::gsw::copy_vec;
use crate::linalg::{reprs, sum_int};
use crate::zo_sss::dimacs::{clause_wf, contains_u8, DIMACS};
use crate::zo_sss::Party;
use crate::RingElement;
use crate::SchemeError;

verus! {

broadcast use vstd::seq_lib::lemma_seq_contains_after_push;

use vstd::arithmetic::div_mod::{lemma_add_mod_noop_right, lemma_small_mod};

/// The names of a sequence of parties, in order.
pub open spec fn party_names(parties: Seq<Party<Fp>>) -> Seq<u8> {
    Seq::new(parties.len(), |i: int| parties[i].name)
}

/// A clause is satisfied by a set of names when it contains one of
/// them.
pub open spec fn clause_sat(names: Seq<u8>, cl: Seq<u8>) -> bool {
    exists|k: int| 0 <= k < names.len() && cl.contains(#[trigger] names[k])
}

/// A coalition satisfies the formula when every clause is satisfied.
pub open spec fn sat_spec(names: Seq<u8>, clauses: Seq<Vec<u8>>) -> bool {
    forall|j: int| 0 <= j < clauses.len() ==> clause_sat(names, (#[trigger] clauses[j])@)
}

/// No name occurs twice.
pub open spec fn distinct_names(names: Seq<u8>) -> bool {
    forall|k1: int, k2: int|
        0 <= k1 < k2 < names.len() ==> (#[trigger] names[k1]) != (#[trigger] names[k2])
}

/// `nm` is the name of one of the first `bound` parties.
pub open spec fn name_among(nm: u8, ps: Seq<Party<Fp>>, bound: int) -> bool {
    exists|j: int| 0 <= j < bound && (#[trigger] ps[j]).name == nm
}

/// Every element of `a` occurs in `b`.
pub open spec fn subset_names(a: Seq<u8>, b: Seq<u8>) -> bool {
    forall|k: int| 0 <= k < a.len() ==> b.contains(#[trigger] a[k])
}

/// Two parties with the same name and the same share values.
pub open spec fn party_like(a: Party<Fp>, b: Party<Fp>) -> bool {
    &&& a.name == b.name
    &&& a.shares@.len() == b.shares@.len()
    &&& forall|k: int| 0 <= k < a.shares@.len() ==> (#[trigger] a.shares@[k])@ == b.shares@[k]@
}

/// Every party of `sel` is (a copy of) a party of `ps`.
pub open spec fn sub_selection(sel: Seq<Party<Fp>>, ps: Seq<Party<Fp>>) -> bool {
    forall|i: int|
        0 <= i < sel.len() ==> exists|j: int|
            0 <= j < ps.len() && party_like(#[trigger] sel[i], ps[j])
}

/// Some share value with representative `x` occurs at secret `index`
/// of some party.
pub open spec fn gathered_contains(parties: Seq<Party<Fp>>, index: int, x: int) -> bool {
    exists|p: int, l: int|
        0 <= p < parties.len() && 0 <= l < parties[p].shares@[index]@.len() && (
        #[trigger] parties[p].shares@[index]@[l]).repr() == x
}

/// Some element of `s` has representative `x`.
pub open spec fn contains_repr(s: Seq<Fp>, x: int) -> bool {
    exists|k: int| 0 <= k < s.len() && (#[trigger] s[k]).repr() == x
}

/// Strictly increasing representatives: sorted, with no duplicates.
pub open spec fn strict_sorted_reprs(s: Seq<Fp>) -> bool {
    forall|k1: int, k2: int|
        0 <= k1 < k2 < s.len() ==> (#[trigger] s[k1]).repr() < (#[trigger] s[k2]).repr()
}

/// `x` is the sum of the distinct share values that `sel` holds at
/// secret `index`: there is a duplicate-free enumeration `u` of
/// exactly those values, and `x` is its sum.
pub open spec fn combined_ok(x: Fp, sel: Seq<Party<Fp>>, index: int) -> bool {
    exists|u: Seq<Fp>|
        {
            &&& #[trigger] strict_sorted_reprs(u)
            &&& (forall|val: int| contains_repr(u, val) <==> gathered_contains(sel, index, val))
            &&& x.repr() == sum_int(reprs(u)) % (P as int)
        }
}

/// A locally minimal authorized coalition: it satisfies every clause,
/// and no single member can be removed without breaking that (unless
/// it is already a singleton).  Locally minimal, not necessarily of
/// minimum cardinality.
pub open spec fn locally_minimal(s: Seq<u8>, clauses: Seq<Vec<u8>>) -> bool {
    &&& sat_spec(s, clauses)
    &&& forall|idx: int|
        0 <= idx < s.len() ==> (s.len() == 1 || !sat_spec(#[trigger] s.remove(idx), clauses))
}

/// The selection that `combine` works on: the parties themselves when
/// the caller says they are already minimal, else an authorized
/// sub-selection.
pub open spec fn sel_ok(
    sel: Seq<Party<Fp>>,
    ps: Seq<Party<Fp>>,
    is_minimal: bool,
    clauses: Seq<Vec<u8>>,
) -> bool {
    if is_minimal {
        sel == ps
    } else {
        sub_selection(sel, ps) && sat_spec(party_names(sel), clauses)
    }
}

/// Appending an element adds exactly its representative to the set of
/// representatives.
proof fn lemma_contains_repr_push(s: Seq<Fp>, e: Fp, x: int)
    ensures
        contains_repr(s.push(e), x) <==> (contains_repr(s, x) || e.repr() == x),
{
    if contains_repr(s.push(e), x) {
        let k = choose|k: int| 0 <= k < s.push(e).len() && (#[trigger] s.push(e)[k]).repr() == x;
        if k < s.len() {
            assert(s[k].repr() == x);
        }
    }
    if contains_repr(s, x) {
        let k = choose|k: int| 0 <= k < s.len() && (#[trigger] s[k]).repr() == x;
        assert(s.push(e)[k].repr() == x);
    }
    if e.repr() == x {
        assert(s.push(e)[s.len() as int].repr() == x);
    }
}

/// Appending an element adds its sum contribution.
proof fn lemma_sum_push(s: Seq<Fp>, e: Fp)
    ensures
        sum_int(reprs(s.push(e))) == sum_int(reprs(s)) + e.repr(),
{
    assert(reprs(s.push(e)).drop_last() =~= reprs(s));
    assert(reprs(s.push(e)).last() == e.repr());
}

/// Satisfaction only grows with the name set.
proof fn lemma_sat_superset(a: Seq<u8>, b: Seq<u8>, clauses: Seq<Vec<u8>>)
    requires
        sat_spec(a, clauses),
        subset_names(a, b),
    ensures
        sat_spec(b, clauses),
{
    assert forall|j: int| 0 <= j < clauses.len() implies clause_sat(
        b,
        (#[trigger] clauses[j])@,
    ) by {
        let k = choose|k: int| 0 <= k < a.len() && clauses[j]@.contains(#[trigger] a[k]);
        assert(b.contains(a[k]));
        let k2 = choose|k2: int| 0 <= k2 < b.len() && b[k2] == a[k];
        assert(clauses[j]@.contains(b[k2]));
    }
}

/// Build the telescoping sequence `w` for one secret: entry `i` is
/// `v1 + v2` with `v1` carrying the running state and `v2` fresh
/// randomness, the last entry is the final residual.  Whatever the
/// randomness, the entries sum to the secret.
pub(crate) fn build_w(secret: Fp, num: usize) -> (w: Vec<Fp>)
    requires
        num >= 1,
    ensures
        w@.len() == num,
        sum_int(reprs(w@)) % (P as int) == secret.repr(),
{
    proof {
        Fp::lemma_repr(secret);
        lemma_small_mod(secret.repr() as nat, P as nat);
    }
    let mut v1 = secret;
    let mut v2 = rnd_fp(0, P - 1);
    let mut w: Vec<Fp> = Vec::new();
    let mut k: usize = 0;
    while k < num - 1
        invariant
            num >= 1,
            k <= num - 1,
            w@.len() == k,
            (sum_int(reprs(w@)) + v1.repr()) % (P as int) == secret.repr(),
        decreases num - 1 - k,
    {
        let pushed = v1.add(v2);
        let ghost wpre = w@;
        let ghost s0 = sum_int(reprs(w@));
        let ghost a = v1.repr();
        let ghost b = v2.repr();
        w.push(pushed);
        v1 = v2.neg();
        v2 = rnd_fp(0, P - 1);
        k = k + 1;
        proof {
            lemma_sum_push(wpre, pushed);
            assert(sum_int(reprs(w@)) == s0 + (a + b) % (P as int));
            lemma_add_mod_noop_right(s0 + (a + b) % (P as int), -b, P as int);
            lemma_add_mod_noop_right(s0 + -b, a + b, P as int);
        }
    }
    let ghost wpre = w@;
    w.push(v1);
    proof {
        lemma_sum_push(wpre, v1);
    }
    w
}

/// Build one `w` row per secret.
pub(crate) fn build_w_matrix(secrets: Vec<Fp>, num: usize) -> (r: Vec<Vec<Fp>>)
    requires
        num >= 1,
    ensures
        r@.len() == secrets@.len(),
        forall|k: int|
            0 <= k < r@.len() ==> (#[trigger] r@[k]@).len() == num && sum_int(reprs(r@[k]@)) % (
            P as int) == secrets@[k].repr(),
{
    let n = secrets.len();
    let mut out: Vec<Vec<Fp>> = Vec::new();
    for k in 0..n
        invariant
            num >= 1,
            n == secrets@.len(),
            out@.len() == k,
            forall|k2: int|
                0 <= k2 < out@.len() ==> (#[trigger] out@[k2]@).len() == num && sum_int(
                    reprs(out@[k2]@),
                ) % (P as int) == secrets@[k2].repr(),
    {
        out.push(build_w(secrets[k], num));
    }
    out
}

/// Each party's shares: the projection of every `w` row onto the
/// clause indices of that party's partition.
pub(crate) fn get_parties(w_matrix: Vec<Vec<Fp>>, dimacs: &DIMACS) -> (r: Vec<Party<Fp>>)
    requires
        dimacs.wf(),
        forall|k: int|
            0 <= k < w_matrix@.len() ==> (#[trigger] w_matrix@[k]@).len() == dimacs.num_clauses,
    ensures
        r@.len() == dimacs.num_var,
        forall|i: int| 0 <= i < r@.len() ==> (#[trigger] r@[i]).name == i + 1,
        forall|i: int|
            0 <= i < r@.len() ==> (#[trigger] r@[i]).shares@.len() == w_matrix@.len(),
        forall|i: int, k: int|
            0 <= i < r@.len() && 0 <= k < w_matrix@.len() ==> (
            #[trigger] r@[i].shares@[k]@).len() == dimacs.partitions@[i]@.len(),
        forall|i: int, k: int, l: int|
            0 <= i < r@.len() && 0 <= k < w_matrix@.len() && 0 <= l
                < dimacs.partitions@[i]@.len() ==> (#[trigger] r@[i].shares@[k]@[l])
                == w_matrix@[k]@[dimacs.partitions@[i]@[l] as int],
{
    let nv = dimacs.partitions.len();
    let nw = w_matrix.len();
    let mut parties: Vec<Party<Fp>> = Vec::new();
    for v in 0..nv
        invariant
            dimacs.wf(),
            nv == dimacs.partitions@.len(),
            nw == w_matrix@.len(),
            forall|k: int|
                0 <= k < w_matrix@.len() ==> (#[trigger] w_matrix@[k]@).len()
                    == dimacs.num_clauses,
            parties@.len() == v,
            forall|i: int| 0 <= i < parties@.len() ==> (#[trigger] parties@[i]).name == i + 1,
            forall|i: int|
                0 <= i < parties@.len() ==> (#[trigger] parties@[i]).shares@.len() == nw,
            forall|i: int, k: int|
                0 <= i < parties@.len() && 0 <= k < nw ==> (
                #[trigger] parties@[i].shares@[k]@).len() == dimacs.partitions@[i]@.len(),
            forall|i: int, k: int, l: int|
                0 <= i < parties@.len() && 0 <= k < nw && 0 <= l
                    < dimacs.partitions@[i]@.len() ==> (#[trigger] parties@[i].shares@[k]@[l])
                    == w_matrix@[k]@[dimacs.partitions@[i]@[l] as int],
    {
        let mut shares: Vec<Vec<Fp>> = Vec::new();
        for k in 0..nw
            invariant
                dimacs.wf(),
                nv == dimacs.partitions@.len(),
                v < nv,
                nw == w_matrix@.len(),
                forall|k2: int|
                    0 <= k2 < w_matrix@.len() ==> (#[trigger] w_matrix@[k2]@).len()
                        == dimacs.num_clauses,
                shares@.len() == k,
                forall|k2: int|
                    0 <= k2 < shares@.len() ==> (#[trigger] shares@[k2]@).len()
                        == dimacs.partitions@[v as int]@.len(),
                forall|k2: int, l: int|
                    0 <= k2 < shares@.len() && 0 <= l < dimacs.partitions@[v as int]@.len()
                        ==> (#[trigger] shares@[k2]@[l]) == w_matrix@[k2]@[dimacs.partitions@[
                    v as int]@[l] as int],
        {
            let part_len = dimacs.partitions[v].len();
            let mut share: Vec<Fp> = Vec::new();
            for l in 0..part_len
                invariant
                    dimacs.wf(),
                    nv == dimacs.partitions@.len(),
                    v < nv,
                    nw == w_matrix@.len(),
                    k < nw,
                    forall|k2: int|
                        0 <= k2 < w_matrix@.len() ==> (#[trigger] w_matrix@[k2]@).len()
                            == dimacs.num_clauses,
                    part_len == dimacs.partitions@[v as int]@.len(),
                    share@.len() == l,
                    forall|l2: int|
                        0 <= l2 < share@.len() ==> (#[trigger] share@[l2]) == w_matrix@[
                        k as int]@[dimacs.partitions@[v as int]@[l2] as int],
            {
                let j = dimacs.partitions[v][l];
                proof {
                    assert(dimacs.partitions@[v as int]@.contains(j));
                    assert(j < dimacs.num_clauses);
                }
                share.push(w_matrix[k][j as usize]);
            }
            shares.push(share);
        }
        parties.push(Party { name: (v + 1) as u8, shares });
        proof {
            assert(v + 1 <= 255);
        }
    }
    parties
}

/// All well-formed `w` rows for the given secrets: right length, right
/// sum.
pub open spec fn w_ok(wm: Seq<Vec<Fp>>, secrets: Seq<Fp>, num: nat) -> bool {
    &&& wm.len() == secrets.len()
    &&& forall|k: int|
        0 <= k < wm.len() ==> (#[trigger] wm[k]@).len() == num && sum_int(reprs(wm[k]@)) % (
        P as int) == secrets[k].repr()
}

/// The parties are exactly the projections of the `w` rows onto the
/// partitions.
pub open spec fn projections_ok(
    parties: Seq<Party<Fp>>,
    wm: Seq<Vec<Fp>>,
    partitions: Seq<Vec<u8>>,
) -> bool {
    &&& parties.len() == partitions.len()
    &&& forall|i: int| 0 <= i < parties.len() ==> (#[trigger] parties[i]).name == i + 1
    &&& forall|i: int|
        0 <= i < parties.len() ==> (#[trigger] parties[i]).shares@.len() == wm.len()
    &&& forall|i: int, k: int|
        0 <= i < parties.len() && 0 <= k < wm.len() ==> (
        #[trigger] parties[i].shares@[k]@).len() == partitions[i]@.len()
    &&& forall|i: int, k: int, l: int|
        0 <= i < parties.len() && 0 <= k < wm.len() && 0 <= l < partitions[i]@.len() ==> (
        #[trigger] parties[i].shares@[k]@[l]) == wm[k]@[partitions[i]@[l] as int]
}

/// Secret sharing via the monotone boolean formula access structure:
/// one party per variable, holding per secret the projection of that
/// secret's `w` row onto its own clauses.
pub fn mbf_share(secrets: Vec<Fp>, dimacs: &DIMACS) -> (r: Vec<Party<Fp>>)
    requires
        dimacs.wf(),
    ensures
        r@.len() == dimacs.num_var,
        forall|i: int| 0 <= i < r@.len() ==> (#[trigger] r@[i]).name == i + 1,
        forall|i: int|
            0 <= i < r@.len() ==> (#[trigger] r@[i]).shares@.len() == secrets@.len(),
        exists|wm: Seq<Vec<Fp>>|
            #[trigger] w_ok(wm, secrets@, dimacs.num_clauses as nat) && projections_ok(
                r@,
                wm,
                dimacs.partitions@,
            ),
{
    let num = dimacs.num_clauses as usize;
    let ghost secrets0 = secrets@;
    let w_matrix = build_w_matrix(secrets, num);
    let ghost wm = w_matrix@;
    let parties = get_parties(w_matrix, dimacs);
    proof {
        assert(w_ok(wm, secrets0, dimacs.num_clauses as nat));
        assert(projections_ok(parties@, wm, dimacs.partitions@));
    }
    parties
}

/// Sum a vector of field elements.
fn sum_fp_vec(v: &Vec<Fp>) -> (r: Fp)
    ensures
        r.repr() == sum_int(reprs(v@)) % (P as int),
{
    proof {
        lemma_small_mod(0, P as nat);
    }
    let n = v.len();
    let mut acc = Fp::zero();
    for k in 0..n
        invariant
            n == v@.len(),
            acc.repr() == sum_int(reprs(v@).take(k as int)) % (P as int),
    {
        proof {
            assert(reprs(v@).take(k + 1).drop_last() =~= reprs(v@).take(k as int));
        }
        let ghost before = acc.repr();
        acc = acc.add(v[k]);
        proof {
            assert(acc.repr() == (before + v@[k as int].repr()) % (P as int));
            assert((sum_int(reprs(v@).take(k as int)) % (P as int) + v@[k as int].repr()) % (
            P as int) == (sum_int(reprs(v@).take(k as int)) + v@[k as int].repr()) % (P as int))
                by {
                vstd::arithmetic::div_mod::lemma_add_mod_noop(
                    sum_int(reprs(v@).take(k as int)),
                    v@[k as int].repr(),
                    P as int,
                );
                vstd::arithmetic::div_mod::lemma_mod_bound(
                    sum_int(reprs(v@).take(k as int)),
                    P as int,
                );
                lemma_small_mod(
                    (sum_int(reprs(v@).take(k as int)) % (P as int)) as nat,
                    P as nat,
                );
                Fp::lemma_repr(v@[k as int]);
                lemma_small_mod(v@[k as int].repr() as nat, P as nat);
            }
        }
    }
    proof {
        assert(reprs(v@).take(n as int) =~= reprs(v@));
    }
    acc
}

/// Gather, deduplicate (by sorting on the canonical representative and
/// collapsing equal neighbours) and return the share values that the
/// parties hold at the given secret index.
pub(crate) fn get_party_shares(parties: &Vec<Party<Fp>>, index: usize) -> (r: Vec<Fp>)
    requires
        forall|p: int|
            0 <= p < parties@.len() ==> index < (#[trigger] parties@[p]).shares@.len(),
    ensures
        strict_sorted_reprs(r@),
        forall|x: int| contains_repr(r@, x) <==> gathered_contains(parties@, index as int, x),
{
    let np = parties.len();
    let mut all: Vec<Fp> = Vec::new();
    for p in 0..np
        invariant
            np == parties@.len(),
            forall|p2: int|
                0 <= p2 < parties@.len() ==> index < (#[trigger] parties@[p2]).shares@.len(),
            forall|x: int|
                contains_repr(all@, x) <==> exists|p2: int, l: int|
                    0 <= p2 < p && 0 <= l < parties@[p2].shares@[index as int]@.len() && (
                    #[trigger] parties@[p2].shares@[index as int]@[l]).repr() == x,
    {
        let row_len = parties[p].shares[index].len();
        for l in 0..row_len
            invariant
                np == parties@.len(),
                p < np,
                forall|p2: int|
                    0 <= p2 < parties@.len() ==> index < (
                    #[trigger] parties@[p2]).shares@.len(),
                row_len == parties@[p as int].shares@[index as int]@.len(),
                forall|x: int|
                    contains_repr(all@, x) <==> (exists|p2: int, l2: int|
                        0 <= p2 < p && 0 <= l2 < parties@[p2].shares@[index as int]@.len() && (
                        #[trigger] parties@[p2].shares@[index as int]@[l2]).repr() == x) || (
                    exists|l2: int|
                        0 <= l2 < l && (
                        #[trigger] parties@[p as int].shares@[index as int]@[l2]).repr() == x),
        {
            let e = parties[p].shares[index][l];
            let ghost allpre = all@;
            all.push(e);
            proof {
                assert forall|x: int|
                    contains_repr(all@, x) <==> ((exists|p2: int, l2: int|
                        0 <= p2 < p && 0 <= l2 < parties@[p2].shares@[index as int]@.len() && (
                        #[trigger] parties@[p2].shares@[index as int]@[l2]).repr() == x) || (
                    exists|l2: int|
                        0 <= l2 < l + 1 && (
                        #[trigger] parties@[p as int].shares@[index as int]@[l2]).repr()
                            == x)) by {
                    lemma_contains_repr_push(allpre, e, x);
                    if e.repr() == x {
                        assert(parties@[p as int].shares@[index as int]@[l as int].repr() == x);
                    }
                    if exists|l2: int|
                        0 <= l2 < l + 1 && (
                        #[trigger] parties@[p as int].shares@[index as int]@[l2]).repr() == x {
                        let l2 = choose|l2: int|
                            0 <= l2 < l + 1 && (
                            #[trigger] parties@[p as int].shares@[index as int]@[l2]).repr()
                                == x;
                        if l2 < l {
                            assert(contains_repr(allpre, x));
                        } else {
                            assert(e.repr() == x);
                        }
                    }
                }
            }
        }
        proof {
            assert forall|x: int|
                contains_repr(all@, x) <==> (exists|p2: int, l2: int|
                    0 <= p2 < p + 1 && 0 <= l2 < parties@[p2].shares@[index as int]@.len() && (
                    #[trigger] parties@[p2].shares@[index as int]@[l2]).repr() == x) by {
                if contains_repr(all@, x) {
                    if exists|l2: int|
                        0 <= l2 < row_len && (
                        #[trigger] parties@[p as int].shares@[index as int]@[l2]).repr() == x {
                        let l2 = choose|l2: int|
                            0 <= l2 < row_len && (
                            #[trigger] parties@[p as int].shares@[index as int]@[l2]).repr()
                                == x;
                        assert(0 <= p < p + 1 && 0 <= l2
                            < parties@[p as int].shares@[index as int]@.len() && parties@[
                        p as int].shares@[index as int]@[l2].repr() == x);
                    }
                }
                if exists|p2: int, l2: int|
                    0 <= p2 < p + 1 && 0 <= l2 < parties@[p2].shares@[index as int]@.len() && (
                    #[trigger] parties@[p2].shares@[index as int]@[l2]).repr() == x {
                    let (p2, l2) = choose|p2: int, l2: int|
                        0 <= p2 < p + 1 && 0 <= l2 < parties@[p2].shares@[index as int]@.len()
                            && (#[trigger] parties@[p2].shares@[index as int]@[l2]).repr() == x;
                    if p2 == p {
                        assert(0 <= l2 < row_len && parties@[p as int].shares@[
                        index as int]@[l2].repr() == x);
                    }
                }
            }
        }
    }
    sort_dedup_by_repr(all)
}

/// Sort by canonical representative and drop duplicates: the result is
/// strictly increasing and holds exactly the representatives of the
/// input.
fn sort_dedup_by_repr(input: Vec<Fp>) -> (r: Vec<Fp>)
    ensures
        strict_sorted_reprs(r@),
        forall|x: int| contains_repr(r@, x) <==> contains_repr(input@, x),
{
    let ghost orig = input@;
    let mut v = input;
    let mut out: Vec<Fp> = Vec::new();
    while v.len() > 0
        invariant
            strict_sorted_reprs(out@),
            forall|k: int, l: int|
                0 <= k < out@.len() && 0 <= l < v@.len() ==> (#[trigger] out@[k]).repr() < (
                #[trigger] v@[l]).repr(),
            forall|x: int|
                (contains_repr(out@, x) || contains_repr(v@, x)) <==> contains_repr(orig, x),
        decreases v@.len(),
    {
        let vn = v.len();
        let mut mi: usize = 0;
        for t in 1..vn
            invariant
                vn == v@.len(),
                mi < vn,
                forall|t2: int|
                    0 <= t2 < t ==> (#[trigger] v@[t2]).repr() >= v@[mi as int].repr(),
        {
            if v[t].repr_u64() < v[mi].repr_u64() {
                mi = t;
            }
        }
        let mv = v[mi];
        let ghost out_before = out@;
        out.push(mv);
        proof {
            assert forall|x: int|
                contains_repr(out@, x) <==> (contains_repr(out_before, x) || mv.repr()
                    == x) by {
                lemma_contains_repr_push(out_before, mv, x);
            }
        }
        let mut rest: Vec<Fp> = Vec::new();
        for t in 0..vn
            invariant
                vn == v@.len(),
                mi < vn,
                mv == v@[mi as int],
                forall|t2: int|
                    0 <= t2 < vn ==> (#[trigger] v@[t2]).repr() >= mv.repr(),
                forall|l: int|
                    0 <= l < rest@.len() ==> (#[trigger] rest@[l]).repr() != mv.repr(),
                rest@.len() + (if t > mi {
                    1int
                } else {
                    0int
                }) <= t,
                forall|x: int|
                    contains_repr(rest@, x) <==> (x != mv.repr() && exists|t2: int|
                        0 <= t2 < t && (#[trigger] v@[t2]).repr() == x),
        {
            let keep = v[t].repr_u64() != mv.repr_u64();
            let ghost restpre = rest@;
            if keep {
                rest.push(v[t]);
            }
            proof {
                assert forall|x: int|
                    contains_repr(rest@, x) <==> (x != mv.repr() && exists|t2: int|
                        0 <= t2 < t + 1 && (#[trigger] v@[t2]).repr() == x) by {
                    lemma_contains_repr_push(restpre, v@[t as int], x);
                    if contains_repr(rest@, x) {
                        if contains_repr(restpre, x) {
                            let t2 = choose|t2: int|
                                0 <= t2 < t && (#[trigger] v@[t2]).repr() == x;
                            assert(v@[t2].repr() == x);
                        } else {
                            assert(v@[t as int].repr() == x);
                        }
                    }
                    if x != mv.repr() && exists|t2: int|
                        0 <= t2 < t + 1 && (#[trigger] v@[t2]).repr() == x {
                        let t2 = choose|t2: int|
                            0 <= t2 < t + 1 && (#[trigger] v@[t2]).repr() == x;
                        if t2 < t {
                            assert(contains_repr(restpre, x));
                        } else {
                            assert(v@[t as int].repr() == x);
                            assert(keep);
                        }
                    }
                }
            }
        }
        proof {
            assert(rest@.len() < vn);
        }
        proof {
            // the minimum was in v, so its representative came from orig
            assert(contains_repr(v@, mv.repr())) by {
                assert(v@[mi as int].repr() == mv.repr());
            }
            // everything left is strictly larger than the minimum
            assert forall|k: int, l: int|
                0 <= k < out@.len() && 0 <= l < rest@.len() implies (
            #[trigger] out@[k]).repr() < (#[trigger] rest@[l]).repr() by {
                let x = rest@[l].repr();
                assert(contains_repr(rest@, x)) by {
                    assert(rest@[l].repr() == x);
                }
                let t2 = choose|t2: int| 0 <= t2 < v@.len() && (#[trigger] v@[t2]).repr() == x;
                if k < out_before.len() {
                    assert(out_before[k].repr() < v@[t2].repr());
                } else {
                    assert(out@[k] == mv);
                }
            }
            // membership is preserved
            assert forall|x: int|
                (contains_repr(out@, x) || contains_repr(rest@, x)) <==> contains_repr(
                orig,
                x,
            ) by {
                if contains_repr(rest@, x) {
                    let t2 = choose|t2: int|
                        0 <= t2 < v@.len() && (#[trigger] v@[t2]).repr() == x;
                    assert(contains_repr(v@, x));
                }
                if contains_repr(orig, x) {
                    if x == mv.repr() {
                        assert(contains_repr(out@, x)) by {
                            assert(out@[out_before.len() as int].repr() == x);
                        }
                    } else {
                        if !contains_repr(out_before, x) {
                            assert(contains_repr(v@, x));
                            let t2 = choose|t2: int|
                                0 <= t2 < v@.len() && (#[trigger] v@[t2]).repr() == x;
                            assert(contains_repr(rest@, x)) by {
                                assert(v@[t2].repr() == x);
                            }
                        }
                    }
                }
            }
        }
        v = rest;
    }
    proof {
        assert(forall|x: int| !contains_repr(v@, x));
    }
    out
}

/// Check whether the named coalition satisfies every clause.
pub(crate) fn check_sat(parties: &Vec<u8>, dimacs: &DIMACS) -> (b: bool)
    ensures
        b == sat_spec(parties@, dimacs.clauses@),
{
    let nc = dimacs.clauses.len();
    for j in 0..nc
        invariant
            nc == dimacs.clauses@.len(),
            forall|j2: int|
                0 <= j2 < j ==> clause_sat(parties@, (#[trigger] dimacs.clauses@[j2])@),
    {
        let np = parties.len();
        let mut found = false;
        for k in 0..np
            invariant
                np == parties@.len(),
                nc == dimacs.clauses@.len(),
                j < nc,
                found ==> clause_sat(parties@, dimacs.clauses@[j as int]@),
                !found ==> forall|k2: int|
                    0 <= k2 < k ==> !dimacs.clauses@[j as int]@.contains(
                        #[trigger] parties@[k2],
                    ),
        {
            if !found && contains_u8(&dimacs.clauses[j], parties[k]) {
                found = true;
            }
        }
        if !found {
            proof {
                assert(!clause_sat(parties@, dimacs.clauses@[j as int]@)) by {
                    if clause_sat(parties@, dimacs.clauses@[j as int]@) {
                        let k = choose|k: int|
                            0 <= k < parties@.len() && dimacs.clauses@[j as int]@.contains(
                                #[trigger] parties@[k],
                            );
                        assert(!dimacs.clauses@[j as int]@.contains(parties@[k]));
                    }
                }
            }
            return false;
        }
    }
    true
}

/// Copy a vector of names, skipping position `idx`.
fn remove_at(v: &Vec<u8>, idx: usize) -> (r: Vec<u8>)
    requires
        idx < v@.len(),
    ensures
        r@ == v@.remove(idx as int),
{
    let n = v.len();
    let mut out: Vec<u8> = Vec::new();
    for k in 0..n
        invariant
            n == v@.len(),
            idx < n,
            out@.len() == (if k <= idx {
                k as int
            } else {
                k - 1
            }),
            forall|k2: int| 0 <= k2 < out@.len() && k2 < idx ==> out@[k2] == v@[k2],
            forall|k2: int| idx <= k2 < out@.len() ==> out@[k2] == v@[k2 + 1],
    {
        if k != idx {
            out.push(v[k]);
        }
    }
    proof {
        assert(out@ =~= v@.remove(idx as int));
    }
    out
}

/// Greedy reduction to a locally minimal satisfying coalition: while
/// some member can be dropped with the rest still satisfying every
/// clause, drop the first such member; `None` when even the full set
/// does not satisfy the formula.
///
/// The result is a subset of the input that satisfies the formula and
/// from which no single member can be removed (unless it is already a
/// singleton); it is locally minimal, not necessarily of minimum
/// cardinality.
pub(crate) fn find_min_sat(party: Vec<u8>, dimacs: &DIMACS) -> (r: Option<Vec<u8>>)
    requires
        dimacs.wf(),
    ensures
        r is Some <==> sat_spec(party@, dimacs.clauses@),
        r matches Some(s) ==> {
            &&& s@.len() >= 1
            &&& subset_names(s@, party@)
            &&& locally_minimal(s@, dimacs.clauses@)
        },
{
    if !check_sat(&party, dimacs) {
        return None;
    }
    let mut cur = party;
    let ghost party0 = cur@;
    proof {
        assert(subset_names(cur@, party0));
        if cur@.len() == 0 {
            assert(!clause_sat(cur@, dimacs.clauses@[0]@));
            assert(false);
        }
    }
    let mut done = false;
    while !done
        invariant
            dimacs.wf(),
            sat_spec(cur@, dimacs.clauses@),
            subset_names(cur@, party0),
            party0 == party@,
            cur@.len() >= 1,
            done ==> (cur@.len() == 1 || forall|idx: int|
                0 <= idx < cur@.len() ==> !sat_spec(
                    #[trigger] cur@.remove(idx),
                    dimacs.clauses@,
                )),
        decreases cur@.len(), (if done {
            0int
        } else {
            1int
        }),
    {
        if cur.len() <= 1 {
            done = true;
        } else {
            let n = cur.len();
            let mut removed = false;
            let mut idx: usize = 0;
            while idx < n && !removed
                invariant
                    dimacs.wf(),
                    n >= 2,
                    n == cur@.len() || removed,
                    idx <= n,
                    sat_spec(cur@, dimacs.clauses@),
                    subset_names(cur@, party0),
                    removed ==> cur@.len() == n - 1,
                    cur@.len() >= 1,
                    !removed ==> forall|ii: int|
                        0 <= ii < idx ==> !sat_spec(
                            #[trigger] cur@.remove(ii),
                            dimacs.clauses@,
                        ),
                decreases (if removed {
                    0int
                } else {
                    1int
                }), n - idx,
            {
                let cand = remove_at(&cur, idx);
                if check_sat(&cand, dimacs) {
                    proof {
                        assert forall|k: int| 0 <= k < cand@.len() implies party0.contains(
                            #[trigger] cand@[k],
                        ) by {
                            if k < idx {
                                assert(cand@[k] == cur@[k]);
                            } else {
                                assert(cand@[k] == cur@[k + 1]);
                            }
                        }
                        if cand@.len() == 0 {
                            assert(!clause_sat(cand@, dimacs.clauses@[0]@));
                            assert(false);
                        }
                    }
                    cur = cand;
                    removed = true;
                } else {
                    idx = idx + 1;
                }
            }
            if !removed {
                done = true;
            }
        }
    }
    Some(cur)
}

/// Copy a party (same name, same share values).
fn copy_party(p: &Party<Fp>) -> (r: Party<Fp>)
    ensures
        party_like(r, *p),
{
    let nk = p.shares.len();
    let mut shares: Vec<Vec<Fp>> = Vec::new();
    for k in 0..nk
        invariant
            nk == p.shares@.len(),
            shares@.len() == k,
            forall|k2: int| 0 <= k2 < k ==> (#[trigger] shares@[k2])@ == p.shares@[k2]@,
    {
        shares.push(copy_vec(&p.shares[k]));
    }
    Party { name: p.name, shares }
}

/// The parties whose names occur in `names`, in their original order.
pub(crate) fn get_parties_by_name(parties: &Vec<Party<Fp>>, names: &Vec<u8>) -> (r: Vec<
    Party<Fp>,
>)
    ensures
        sub_selection(r@, parties@),
        forall|i: int| 0 <= i < r@.len() ==> names@.contains((#[trigger] r@[i]).name),
        forall|j: int|
            0 <= j < parties@.len() && names@.contains((#[trigger] parties@[j]).name)
                ==> party_names(r@).contains(parties@[j].name),
        distinct_names(party_names(parties@)) ==> distinct_names(party_names(r@)),
{
    let np = parties.len();
    let mut out: Vec<Party<Fp>> = Vec::new();
    for j in 0..np
        invariant
            np == parties@.len(),
            sub_selection(out@, parties@),
            forall|i: int| 0 <= i < out@.len() ==> names@.contains((#[trigger] out@[i]).name),
            forall|j2: int|
                0 <= j2 < j && names@.contains((#[trigger] parties@[j2]).name) ==> party_names(
                    out@,
                ).contains(parties@[j2].name),
            forall|i: int|
                0 <= i < out@.len() ==> name_among((#[trigger] out@[i]).name, parties@, j as int),
            distinct_names(party_names(parties@)) ==> distinct_names(party_names(out@)),
    {
        if contains_u8(names, parties[j].name) {
            let ghost out_before = out@;
            let cp = copy_party(&parties[j]);
            out.push(cp);
            proof {
                assert(party_like(cp, parties@[j as int]));
                assert forall|i: int| 0 <= i < out@.len() implies name_among(
                    (#[trigger] out@[i]).name,
                    parties@,
                    j + 1,
                ) by {
                    if i < out_before.len() {
                        let jj = choose|jj: int|
                            0 <= jj < j && (#[trigger] parties@[jj]).name == out_before[i].name;
                        assert(parties@[jj].name == out@[i].name);
                    } else {
                        assert(parties@[j as int].name == out@[i].name);
                    }
                }
                if distinct_names(party_names(parties@)) {
                    assert forall|k1: int, k2: int|
                        0 <= k1 < k2 < party_names(out@).len() implies (#[trigger] party_names(
                        out@,
                    )[k1]) != (#[trigger] party_names(out@)[k2]) by {
                        if k2 == out_before.len() {
                            // the new name comes from position j, every
                            // earlier one from a position before j
                            let jj = choose|jj: int|
                                0 <= jj < j && (#[trigger] parties@[jj]).name
                                    == out_before[k1].name;
                            assert(party_names(parties@)[jj] != party_names(parties@)[j as int]);
                        } else {
                            assert(party_names(out_before)[k1] != party_names(out_before)[k2]);
                        }
                    }
                }
                assert forall|i: int| 0 <= i < out@.len() implies exists|jj: int|
                    0 <= jj < parties@.len() && party_like(#[trigger] out@[i], parties@[jj]) by {
                    if i < out_before.len() {
                        let jj = choose|jj: int|
                            0 <= jj < parties@.len() && party_like(out_before[i], parties@[jj]);
                        assert(party_like(out@[i], parties@[jj]));
                    } else {
                        assert(party_like(out@[i], parties@[j as int]));
                    }
                }
                assert forall|j2: int|
                    0 <= j2 < j + 1 && names@.contains((#[trigger] parties@[j2]).name) implies
                    party_names(out@).contains(parties@[j2].name) by {
                    if j2 < j {
                        let i = choose|i: int|
                            0 <= i < party_names(out_before).len() && party_names(out_before)[i]
                                == parties@[j2].name;
                        assert(party_names(out@)[i] == parties@[j2].name);
                    } else {
                        assert(party_names(out@)[out_before.len() as int]
                            == parties@[j as int].name);
                    }
                }
            }
        }
    }
    out
}

/// Reduce a party set to a locally minimal authorized coalition;
/// fails exactly when the full set is not authorized.
pub fn get_min_party(parties: &Vec<Party<Fp>>, dimacs: &DIMACS) -> (r: Result<
    Vec<Party<Fp>>,
    SchemeError,
>)
    requires
        dimacs.wf(),
    ensures
        r is Ok <==> sat_spec(party_names(parties@), dimacs.clauses@),
        r matches Err(e) ==> e == SchemeError::NoAuthorizedCoalition,
        r matches Ok(sel) ==> {
            &&& sel@.len() >= 1
            &&& sub_selection(sel@, parties@)
            &&& sat_spec(party_names(sel@), dimacs.clauses@)
            &&& (distinct_names(party_names(parties@)) ==> distinct_names(party_names(sel@)))
            &&& exists|s: Seq<u8>|
                {
                    &&& #[trigger] locally_minimal(s, dimacs.clauses@)
                    &&& subset_names(s, party_names(parties@))
                    &&& forall|i: int|
                        0 <= i < sel@.len() ==> s.contains((#[trigger] sel@[i]).name)
                }
        },
{
    let np = parties.len();
    let mut names: Vec<u8> = Vec::new();
    for p in 0..np
        invariant
            np == parties@.len(),
            names@.len() == p,
            forall|p2: int| 0 <= p2 < p ==> names@[p2] == (#[trigger] parties@[p2]).name,
    {
        names.push(parties[p].name);
    }
    proof {
        assert(names@ =~= party_names(parties@));
    }
    match find_min_sat(names, dimacs) {
        Some(min_names) => {
            let sel = get_parties_by_name(parties, &min_names);
            proof {
                // the minimal name set is non-empty and every one of its
                // names belongs to some party, so the selection is
                // non-empty and its names cover the minimal set
                let x = min_names@[0];
                assert(party_names(parties@).contains(x));
                let j = choose|j: int|
                    0 <= j < party_names(parties@).len() && party_names(parties@)[j] == x;
                assert(parties@[j].name == x);
                assert(party_names(sel@).contains(x));
                assert(sel@.len() >= 1) by {
                    assert(party_names(sel@).len() == sel@.len());
                }
                assert forall|k: int| 0 <= k < min_names@.len() implies party_names(
                    sel@,
                ).contains(#[trigger] min_names@[k]) by {
                    let xx = min_names@[k];
                    assert(party_names(parties@).contains(xx));
                    let jj = choose|jj: int|
                        0 <= jj < party_names(parties@).len() && party_names(parties@)[jj] == xx;
                    assert(parties@[jj].name == xx);
                }
                lemma_sat_superset(min_names@, party_names(sel@), dimacs.clauses@);
                assert(locally_minimal(min_names@, dimacs.clauses@));
            }
            Ok(sel)
        },
        None => Err(SchemeError::NoAuthorizedCoalition),
    }
}

/// Recover the secrets from an authorized coalition: reduce to a
/// minimal coalition unless the caller says the set is already
/// minimal, then, per secret, deduplicate the visible `w` entries and
/// sum them.
pub fn mbf_combine(parties: Vec<Party<Fp>>, is_minimal: bool, dimacs: &DIMACS) -> (r: Result<
    Vec<Fp>,
    SchemeError,
>)
    requires
        dimacs.wf(),
        parties@.len() >= 1,
        forall|p: int|
            0 <= p < parties@.len() ==> (#[trigger] parties@[p]).shares@.len()
                == parties@[0].shares@.len(),
    ensures
        is_minimal ==> r is Ok,
        !is_minimal ==> (r is Ok <==> sat_spec(party_names(parties@), dimacs.clauses@)),
        r matches Err(e) ==> e == SchemeError::NoAuthorizedCoalition,
        r matches Ok(v) ==> exists|sel: Seq<Party<Fp>>|
            {
                &&& #[trigger] sel_ok(sel, parties@, is_minimal, dimacs.clauses@)
                &&& sel.len() >= 1
                &&& v@.len() == parties@[0].shares@.len()
                &&& forall|k: int| 0 <= k < v@.len() ==> combined_ok(v@[k], sel, k)
            },
{
    let ghost parties0 = parties@;
    let min_set: Vec<Party<Fp>> = if !is_minimal {
        match get_min_party(&parties, dimacs) {
            Ok(s) => s,
            Err(_) => {
                return Err(SchemeError::NoAuthorizedCoalition);
            },
        }
    } else {
        parties
    };
    proof {
        if !is_minimal {
            assert forall|p: int| 0 <= p < min_set@.len() implies (
            #[trigger] min_set@[p]).shares@.len() == parties0[0].shares@.len() by {
                let j = choose|j: int|
                    0 <= j < parties0.len() && party_like(min_set@[p], parties0[j]);
                assert(parties0[j].shares@.len() == parties0[0].shares@.len());
            }
        }
        assert(sel_ok(min_set@, parties0, is_minimal, dimacs.clauses@));
    }
    let num_secrets = min_set[0].shares.len();
    let mut out: Vec<Fp> = Vec::new();
    for k in 0..num_secrets
        invariant
            min_set@.len() >= 1,
            num_secrets == min_set@[0].shares@.len(),
            forall|p: int|
                0 <= p < min_set@.len() ==> (#[trigger] min_set@[p]).shares@.len()
                    == num_secrets,
            out@.len() == k,
            forall|k2: int| 0 <= k2 < k ==> combined_ok(#[trigger] out@[k2], min_set@, k2),
    {
        let gathered = get_party_shares(&min_set, k);
        let s = sum_fp_vec(&gathered);
        proof {
            assert(combined_ok(s, min_set@, k as int)) by {
                assert(strict_sorted_reprs(gathered@));
            }
        }
        out.push(s);
    }
    Ok(out)
}

/// The parties of `sel` are projections of the `w` rows `wm` onto the
/// partitions of the formula, each under its own (1-based) name.
pub open spec fn coalition_of(
    sel: Seq<Party<Fp>>,
    wm: Seq<Vec<Fp>>,
    partitions: Seq<Vec<u8>>,
) -> bool {
    forall|i: int|
        0 <= i < sel.len() ==> {
            &&& 1 <= (#[trigger] sel[i]).name <= partitions.len()
            &&& sel[i].shares@.len() == wm.len()
            &&& (forall|k: int|
                0 <= k < wm.len() ==> (#[trigger] sel[i].shares@[k]@).len() == partitions[
                    sel[i].name - 1
                ]@.len())
            &&& (forall|k: int, l: int|
                0 <= k < wm.len() && 0 <= l < partitions[sel[i].name - 1]@.len() ==> (
                #[trigger] sel[i].shares@[k]@[l]) == wm[k]@[partitions[sel[i].name - 1]@[
                    l
                ] as int])
        }
}

/// The parties produced by [`mbf_share`] form a coalition of the `w`
/// rows they project.
pub proof fn lemma_projections_are_coalition(
    parties: Seq<Party<Fp>>,
    wm: Seq<Vec<Fp>>,
    partitions: Seq<Vec<u8>>,
)
    requires
        projections_ok(parties, wm, partitions),
    ensures
        coalition_of(parties, wm, partitions),
{
}

/// A sub-selection of a coalition is a coalition.
pub proof fn lemma_sub_selection_coalition(
    sel: Seq<Party<Fp>>,
    ps: Seq<Party<Fp>>,
    wm: Seq<Vec<Fp>>,
    partitions: Seq<Vec<u8>>,
)
    requires
        coalition_of(ps, wm, partitions),
        sub_selection(sel, ps),
    ensures
        coalition_of(sel, wm, partitions),
{
    assert forall|i: int| 0 <= i < sel.len() implies {
        &&& 1 <= (#[trigger] sel[i]).name <= partitions.len()
        &&& sel[i].shares@.len() == wm.len()
        &&& (forall|k: int|
            0 <= k < wm.len() ==> (#[trigger] sel[i].shares@[k]@).len() == partitions[
                sel[i].name - 1
            ]@.len())
        &&& (forall|k: int, l: int|
            0 <= k < wm.len() && 0 <= l < partitions[sel[i].name - 1]@.len() ==> (
            #[trigger] sel[i].shares@[k]@[l]) == wm[k]@[partitions[sel[i].name - 1]@[l] as int])
    } by {
        let j = choose|j: int| 0 <= j < ps.len() && party_like(sel[i], ps[j]);
        assert(party_like(sel[i], ps[j]));
        assert forall|k: int| 0 <= k < wm.len() implies (
        #[trigger] sel[i].shares@[k]@).len() == partitions[sel[i].name - 1]@.len() by {
            assert(sel[i].shares@[k]@ == ps[j].shares@[k]@);
        }
        assert forall|k: int, l: int|
            0 <= k < wm.len() && 0 <= l < partitions[sel[i].name - 1]@.len() implies (
        #[trigger] sel[i].shares@[k]@[l]) == wm[k]@[partitions[sel[i].name - 1]@[
            l
        ] as int] by {
            assert(sel[i].shares@[k]@ == ps[j].shares@[k]@);
        }
    }
}

/// Removing an element removes its summand.
proof fn lemma_sum_remove(s: Seq<Fp>, i: int)
    requires
        0 <= i < s.len(),
    ensures
        sum_int(reprs(s)) == sum_int(reprs(s.remove(i))) + s[i].repr(),
    decreases s.len(),
{
    if i == s.len() - 1 {
        assert(s.remove(i) =~= s.drop_last());
        assert(reprs(s).drop_last() =~= reprs(s.drop_last()));
        assert(reprs(s).last() == s[i].repr());
    } else {
        assert(s.remove(i).drop_last() =~= s.drop_last().remove(i));
        lemma_sum_remove(s.drop_last(), i);
        assert(reprs(s).drop_last() =~= reprs(s.drop_last()));
        assert(reprs(s.remove(i)).drop_last() =~= reprs(s.remove(i).drop_last()));
        assert(reprs(s.remove(i)).last() == s.last().repr());
        assert(reprs(s).last() == s.last().repr());
    }
}

/// Two duplicate-free sequences with the same set of representatives
/// have the same sum.
proof fn lemma_dedup_sum(u: Seq<Fp>, w: Seq<Fp>)
    requires
        forall|k1: int, k2: int|
            0 <= k1 < k2 < u.len() ==> (#[trigger] u[k1]).repr() != (#[trigger] u[k2]).repr(),
        forall|k1: int, k2: int|
            0 <= k1 < k2 < w.len() ==> (#[trigger] w[k1]).repr() != (#[trigger] w[k2]).repr(),
        forall|x: int| contains_repr(u, x) <==> contains_repr(w, x),
    ensures
        sum_int(reprs(u)) == sum_int(reprs(w)),
    decreases w.len(),
{
    if w.len() == 0 {
        if u.len() > 0 {
            assert(contains_repr(u, u[0].repr())) by {
                assert(u[0].repr() == u[0].repr());
            }
            let k = choose|k: int| 0 <= k < w.len() && (#[trigger] w[k]).repr() == u[0].repr();
            assert(false);
        }
        assert(u.len() == 0);
    } else {
        let e = w.last();
        let w1 = w.drop_last();
        assert(contains_repr(w, e.repr())) by {
            assert(w[w.len() - 1].repr() == e.repr());
        }
        let ku = choose|ku: int| 0 <= ku < u.len() && (#[trigger] u[ku]).repr() == e.repr();
        let u1 = u.remove(ku);
        // u1 is still duplicate-free
        assert forall|k1: int, k2: int|
            0 <= k1 < k2 < u1.len() implies (#[trigger] u1[k1]).repr() != (
        #[trigger] u1[k2]).repr() by {
            let m1 = if k1 < ku {
                k1
            } else {
                k1 + 1
            };
            let m2 = if k2 < ku {
                k2
            } else {
                k2 + 1
            };
            assert(u1[k1] == u[m1]);
            assert(u1[k2] == u[m2]);
        }
        // membership of u1 is membership of w1
        assert forall|x: int| contains_repr(u1, x) <==> contains_repr(w1, x) by {
            if contains_repr(u1, x) {
                let k = choose|k: int| 0 <= k < u1.len() && (#[trigger] u1[k]).repr() == x;
                let m = if k < ku {
                    k
                } else {
                    k + 1
                };
                assert(u[m].repr() == x);
                assert(contains_repr(u, x));
                assert(x != e.repr());
                let kw = choose|kw: int| 0 <= kw < w.len() && (#[trigger] w[kw]).repr() == x;
                assert(kw < w.len() - 1);
                assert(w1[kw].repr() == x);
            }
            if contains_repr(w1, x) {
                let kw = choose|kw: int| 0 <= kw < w1.len() && (#[trigger] w1[kw]).repr() == x;
                assert(w[kw].repr() == x);
                assert(x != e.repr()) by {
                    assert(w[kw].repr() != w[w.len() - 1].repr());
                }
                assert(contains_repr(u, x));
                let k = choose|k: int| 0 <= k < u.len() && (#[trigger] u[k]).repr() == x;
                assert(k != ku);
                let m = if k < ku {
                    k
                } else {
                    k - 1
                };
                assert(u1[m].repr() == x);
            }
        }
        lemma_dedup_sum(u1, w1);
        lemma_sum_remove(u, ku);
        assert(reprs(w).drop_last() =~= reprs(w1));
        assert(reprs(w).last() == e.repr());
    }
}

/// An authorized coalition sees every entry of a `w` row: the
/// representatives it gathers at a secret index are exactly the
/// representatives of that row.
proof fn lemma_coalition_sees_row(
    sel: Seq<Party<Fp>>,
    wm: Seq<Vec<Fp>>,
    d: &DIMACS,
    k: int,
)
    requires
        d.wf(),
        coalition_of(sel, wm, d.partitions@),
        sat_spec(party_names(sel), d.clauses@),
        0 <= k < wm.len(),
        wm[k]@.len() == d.num_clauses,
    ensures
        forall|x: int| gathered_contains(sel, k, x) <==> contains_repr(wm[k]@, x),
{
    assert forall|x: int| gathered_contains(sel, k, x) <==> contains_repr(wm[k]@, x) by {
        if gathered_contains(sel, k, x) {
            let (p, l) = choose|p: int, l: int|
                0 <= p < sel.len() && 0 <= l < sel[p].shares@[k]@.len() && (
                #[trigger] sel[p].shares@[k]@[l]).repr() == x;
            let v = sel[p].name;
            let j = d.partitions@[v - 1]@[l];
            assert(d.partitions@[v - 1]@.contains(j));
            assert(j < d.num_clauses);
            assert(sel[p].shares@[k]@[l] == wm[k]@[j as int]);
            assert(wm[k]@[j as int].repr() == x);
            assert(contains_repr(wm[k]@, x));
        }
        if contains_repr(wm[k]@, x) {
            let j = choose|j: int| 0 <= j < wm[k]@.len() && (#[trigger] wm[k]@[j]).repr() == x;
            // clause j is satisfied by some coalition member
            assert(clause_sat(party_names(sel), d.clauses@[j]@));
            let i = choose|i: int|
                0 <= i < party_names(sel).len() && d.clauses@[j]@.contains(
                    #[trigger] party_names(sel)[i],
                );
            let v = sel[i].name;
            assert(d.clauses@[j]@.contains(v));
            // clause entries are in 1..=num_var, so v's partition exists
            assert(clause_wf(d.clauses@[j]@, d.num_var));
            let kc = choose|kc: int|
                0 <= kc < d.clauses@[j]@.len() && d.clauses@[j]@[kc] == v;
            assert(1 <= v <= d.num_var);
            // the partition of v contains clause j
            assert(d.partitions@[v - 1]@.contains(j as u8)) by {
                assert(d.clauses@[(j as u8) as int]@.contains(((v - 1) + 1) as u8));
            }
            let l = choose|l: int|
                0 <= l < d.partitions@[v - 1]@.len() && #[trigger] d.partitions@[v - 1]@[l]
                    == j as u8;
            assert(sel[i].shares@[k]@[l] == wm[k]@[j]);
            assert(0 <= l < sel[i].shares@[k]@.len());
            assert(gathered_contains(sel, k, x)) by {
                assert(sel[i].shares@[k]@[l].repr() == x);
            }
        }
    }
}

/// TELESCOPING RECOVERY: any authorized coalition recovers the shared
/// secret.
///
/// For a sharing of `secrets` (rows `wm`, parties projected through
/// the formula's partitions), an authorized coalition gathers exactly
/// the entries of each row; deduplicating by value and summing gives
/// back the secret -- provided the row's entries are pairwise
/// distinct, which is the only case the value-based deduplication can
/// tell apart (two clauses that happen to draw the same random value
/// would be collapsed wrongly).
pub proof fn lemma_combine_recovers_secret(
    v: Fp,
    sel: Seq<Party<Fp>>,
    wm: Seq<Vec<Fp>>,
    secrets: Seq<Fp>,
    d: &DIMACS,
    k: int,
)
    requires
        d.wf(),
        w_ok(wm, secrets, d.num_clauses as nat),
        coalition_of(sel, wm, d.partitions@),
        sat_spec(party_names(sel), d.clauses@),
        0 <= k < wm.len(),
        forall|k1: int, k2: int|
            0 <= k1 < k2 < wm[k]@.len() ==> (#[trigger] wm[k]@[k1]).repr() != (
            #[trigger] wm[k]@[k2]).repr(),
        combined_ok(v, sel, k),
    ensures
        v.repr() == secrets[k].repr(),
{
    let u = choose|u: Seq<Fp>|
        {
            &&& #[trigger] strict_sorted_reprs(u)
            &&& (forall|val: int| contains_repr(u, val) <==> gathered_contains(sel, k, val))
            &&& v.repr() == sum_int(reprs(u)) % (P as int)
        };
    lemma_coalition_sees_row(sel, wm, d, k);
    assert(forall|x: int| contains_repr(u, x) <==> contains_repr(wm[k]@, x));
    assert(forall|k1: int, k2: int|
        0 <= k1 < k2 < u.len() ==> (#[trigger] u[k1]).repr() != (#[trigger] u[k2]).repr());
    lemma_dedup_sum(u, wm[k]@);
}

} // verus!
