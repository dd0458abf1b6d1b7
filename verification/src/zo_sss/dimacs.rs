//! Monotone access formulas in a CNF-style textual form.
//!
//! A formula is a header declaring variable and clause counts, then one
//! line per clause listing the (positive) variable indices, terminated
//! by `0`.  Variables are the parties; a coalition is authorized
//! exactly when every clause contains one of its members.

use vstd::prelude::*;

use crate::SchemeError;

verus! {

use vstd::string::StringSliceAdditionalSpecFns;

/// `(A or B) and (A or C) and (B or C)` -- two out of three.
pub const DIMACS_2_OF_3_SCHEME: &'static str = "c Example DIMACS CNF\np cnf 3 3\n1 2 0\n1 3 0\n2 3 0\n";

/// `(A and B) or (C and D)`, written as a CNF over four variables.
pub const DIMACS_AB_OR_CD: &'static str =
    "c Example non-k-of-n Access structure\np cnf 4 4\n1 3 0\n1 4 0\n2 3 0\n2 4 0\n";

/// A clause is non-empty and mentions only declared variables.
pub open spec fn clause_wf(cl: Seq<u8>, num_var: u8) -> bool {
    &&& cl.len() >= 1
    &&& forall|k: int| 0 <= k < cl.len() ==> 1 <= #[trigger] cl[k] <= num_var
}


/// Horizontal whitespace: space, tab, or a carriage return left by a
/// Windows line ending.
pub open spec fn is_space_s(b: u8) -> bool {
    b == 32 || b == 9 || b == 13
}

/// The first position in `[p, j)` that is not whitespace (or `j`).
pub open spec fn skip_spaces_s(bytes: Seq<u8>, p: int, j: int) -> int
    decreases j - p,
{
    if p < j && is_space_s(bytes[p]) {
        skip_spaces_s(bytes, p + 1, j)
    } else {
        p
    }
}

/// The first position in `[p, j)` that is whitespace (or `j`).
pub open spec fn skip_token_s(bytes: Seq<u8>, p: int, j: int) -> int
    decreases j - p,
{
    if p < j && !is_space_s(bytes[p]) {
        skip_token_s(bytes, p + 1, j)
    } else {
        p
    }
}

/// The position of the newline ending the line that starts at `i`
/// (or the end of the text).
pub open spec fn line_end_s(bytes: Seq<u8>, i: int) -> int
    decreases bytes.len() - i,
{
    if i < bytes.len() && bytes[i] != 10 {
        line_end_s(bytes, i + 1)
    } else {
        i
    }
}

/// The start of the line after the one that starts at `i`.
pub open spec fn next_line_start_s(bytes: Seq<u8>, i: int) -> int {
    let j = line_end_s(bytes, i);
    if j < bytes.len() {
        j + 1
    } else {
        bytes.len() as int
    }
}

/// Decimal digits of `[q, e)` accumulated onto `val`; `None` on a
/// non-digit or once the value passes 255.
pub open spec fn digits_val_s(bytes: Seq<u8>, q: int, e: int, val: int) -> Option<u8>
    decreases e - q,
{
    if q >= e {
        Some(val as u8)
    } else if bytes[q] < 48 || bytes[q] > 57 {
        None
    } else if val * 10 + (bytes[q] - 48) > 255 {
        None
    } else {
        digits_val_s(bytes, q + 1, e, val * 10 + (bytes[q] - 48))
    }
}

/// The token `[s, e)` read as a count: non-empty, all digits, at most
/// 255.
pub open spec fn parse_u8_s(bytes: Seq<u8>, s: int, e: int) -> Option<u8> {
    if s >= e {
        None
    } else {
        digits_val_s(bytes, s, e, 0)
    }
}

/// A header line: two tokens are skipped (`p cnf`), then exactly two
/// counts must follow.
pub open spec fn parse_header_s(bytes: Seq<u8>, p: int, j: int) -> Option<(u8, u8)> {
    let t0 = skip_token_s(bytes, p, j);
    let s1 = skip_spaces_s(bytes, t0, j);
    let t1 = skip_token_s(bytes, s1, j);
    let s2 = skip_spaces_s(bytes, t1, j);
    let t2 = skip_token_s(bytes, s2, j);
    let s3 = skip_spaces_s(bytes, t2, j);
    let t3 = skip_token_s(bytes, s3, j);
    let s4 = skip_spaces_s(bytes, t3, j);
    if s4 != j {
        None
    } else {
        match (parse_u8_s(bytes, s2, t2), parse_u8_s(bytes, s3, t3)) {
            (Some(a), Some(b)) => Some((a, b)),
            _ => None,
        }
    }
}

/// A clause line from a position `q` that is not inside whitespace:
/// counts up to a `0` terminator (anything after it is ignored) or the
/// end of the line; `None` on an unreadable count.
pub open spec fn parse_clause_s(bytes: Seq<u8>, q: int, j: int) -> Option<Seq<u8>>
    decreases j - q
        via parse_clause_s_dec
{
    if q >= j {
        Some(Seq::empty())
    } else {
        let t = skip_token_s(bytes, q, j);
        if t <= q {
            Some(Seq::empty())
        } else {
            match parse_u8_s(bytes, q, t) {
                None => None,
                Some(v) => if v == 0 {
                    Some(Seq::empty())
                } else {
                    match parse_clause_s(bytes, skip_spaces_s(bytes, t, j), j) {
                        None => None,
                        Some(rest) => Some(seq![v] + rest),
                    }
                },
            }
        }
    }
}

#[via_fn]
proof fn parse_clause_s_dec(bytes: Seq<u8>, q: int, j: int) {
    if q < j {
        let t = skip_token_s(bytes, q, j);
        if t > q {
            lemma_skip_token_s_bounds(bytes, q, j);
            lemma_skip_spaces_s_bounds(bytes, t, j);
        }
    }
}

/// The clause encoded by the whole line `[p, j)`.
pub open spec fn clause_of_line_s(bytes: Seq<u8>, p: int, j: int) -> Option<Seq<u8>> {
    parse_clause_s(bytes, skip_spaces_s(bytes, p, j), j)
}

/// Process the lines from `i` on: collected clauses and the last
/// header seen, or `None` on the first unreadable line.
pub open spec fn lines_s(bytes: Seq<u8>, i: int) -> Option<(Seq<Seq<u8>>, Option<(u8, u8)>)>
    decreases bytes.len() - i
        via lines_s_dec
{
    if i >= bytes.len() {
        Some((Seq::empty(), None))
    } else {
        let j = line_end_s(bytes, i);
        let p = skip_spaces_s(bytes, i, j);
        let rest = lines_s(bytes, next_line_start_s(bytes, i));
        if p < j && bytes[p] == 99 {
            // comment line ('c')
            rest
        } else if p < j && bytes[p] == 112 {
            // header line ('p'); a later header overrides it
            match (parse_header_s(bytes, p, j), rest) {
                (Some(h), Some((cs, hrest))) => Some(
                    (
                        cs,
                        if hrest is Some {
                            hrest
                        } else {
                            Some(h)
                        },
                    ),
                ),
                _ => None,
            }
        } else if p < j {
            match (parse_clause_s(bytes, p, j), rest) {
                (Some(c), Some((cs, hrest))) => Some((seq![c] + cs, hrest)),
                _ => None,
            }
        } else {
            // blank line
            rest
        }
    }
}

#[via_fn]
proof fn lines_s_dec(bytes: Seq<u8>, i: int) {
    if i < bytes.len() {
        lemma_line_end_s_bounds(bytes, i);
    }
}

/// Splice what one prefix of the lines contributed onto what the rest
/// of the lines yield.
pub open spec fn lines_combine(
    acc: Seq<Seq<u8>>,
    h: Option<(u8, u8)>,
    rest: Option<(Seq<Seq<u8>>, Option<(u8, u8)>)>,
) -> Option<(Seq<Seq<u8>>, Option<(u8, u8)>)> {
    match rest {
        None => None,
        Some((cs, hr)) => Some(
            (
                acc + cs,
                if hr is Some {
                    hr
                } else {
                    h
                },
            ),
        ),
    }
}

/// The clause sequences behind a vector of clause vectors.
pub open spec fn clauses_deep(cv: Seq<Vec<u8>>) -> Seq<Seq<u8>> {
    Seq::new(cv.len(), |k: int| cv[k]@)
}

/// All clauses are non-empty and within the declared variable count.
pub open spec fn clauses_ok_s(cs: Seq<Seq<u8>>, nv: u8) -> bool {
    forall|j: int| 0 <= j < cs.len() ==> clause_wf(#[trigger] cs[j], nv)
}

/// What a well-formed text declares: its variable count, clause count
/// and clauses.  `None` when any line is unreadable, the header is
/// missing or declares a zero count, the clause count does not match
/// the body, a clause is empty, or a variable is out of range.
pub open spec fn dimacs_text_model(bytes: Seq<u8>) -> Option<(u8, u8, Seq<Seq<u8>>)> {
    match lines_s(bytes, 0) {
        None => None,
        Some((cs, h)) => match h {
            None => None,
            Some((nv, nc)) => if nv == 0 || nc == 0 {
                None
            } else if cs.len() != nc {
                None
            } else if !clauses_ok_s(cs, nv) {
                None
            } else {
                Some((nv, nc, cs))
            },
        },
    }
}

/// The texts that parsing accepts.
pub open spec fn wf_dimacs_text(bytes: Seq<u8>) -> bool {
    dimacs_text_model(bytes) is Some
}

/// Where `skip_spaces_s` stops: within bounds, and not inside
/// whitespace.
pub proof fn lemma_skip_spaces_s_bounds(bytes: Seq<u8>, p: int, j: int)
    requires
        p <= j,
    ensures
        p <= skip_spaces_s(bytes, p, j) <= j,
        skip_spaces_s(bytes, p, j) == j || !is_space_s(bytes[skip_spaces_s(bytes, p, j)]),
    decreases j - p,
{
    if p < j && is_space_s(bytes[p]) {
        lemma_skip_spaces_s_bounds(bytes, p + 1, j);
    }
}

/// Where `skip_token_s` stops: within bounds, at whitespace or the
/// end; it advances over a non-space start.
pub proof fn lemma_skip_token_s_bounds(bytes: Seq<u8>, p: int, j: int)
    requires
        p <= j,
    ensures
        p <= skip_token_s(bytes, p, j) <= j,
        skip_token_s(bytes, p, j) == j || is_space_s(bytes[skip_token_s(bytes, p, j)]),
        p < j && !is_space_s(bytes[p]) ==> skip_token_s(bytes, p, j) > p,
    decreases j - p,
{
    if p < j && !is_space_s(bytes[p]) {
        lemma_skip_token_s_bounds(bytes, p + 1, j);
    }
}

/// Where `line_end_s` stops: within bounds, at a newline or the end.
pub proof fn lemma_line_end_s_bounds(bytes: Seq<u8>, i: int)
    requires
        i <= bytes.len(),
    ensures
        i <= line_end_s(bytes, i) <= bytes.len(),
        line_end_s(bytes, i) == bytes.len() || bytes[line_end_s(bytes, i)] == 10,
    decreases bytes.len() - i,
{
    if i < bytes.len() && bytes[i] != 10 {
        lemma_line_end_s_bounds(bytes, i + 1);
    }
}

/// A parsed monotone access formula.
///
/// `partitions[v]` lists the indices of the clauses that contain
/// variable `v + 1`: the shares that party `v + 1` will see.
pub struct DIMACS {
    pub num_var: u8,
    pub num_clauses: u8,
    pub clauses: Vec<Vec<u8>>,
    pub partitions: Vec<Vec<u8>>,
}

impl DIMACS {
    /// The structural invariant every constructed formula satisfies.
    pub open spec fn wf(&self) -> bool {
        &&& 1 <= self.num_var
        &&& 1 <= self.num_clauses
        &&& self.clauses@.len() == self.num_clauses
        &&& forall|j: int|
            0 <= j < self.clauses@.len() ==> clause_wf((#[trigger] self.clauses@[j])@, self.num_var)
        &&& self.partitions@.len() == self.num_var
        &&& forall|v: int, j: u8|
            0 <= v < self.partitions@.len() ==> ((#[trigger] self.partitions@[v]@.contains(j))
                <==> (j < self.num_clauses && self.clauses@[j as int]@.contains((v + 1) as u8)))
        &&& forall|v: int, k1: int, k2: int|
            0 <= v < self.partitions@.len() && 0 <= k1 < k2 < self.partitions@[v]@.len() ==> (
            #[trigger] self.partitions@[v]@[k1]) < (#[trigger] self.partitions@[v]@[k2])
    }

    /// Parse a textual formula: succeeds exactly on the texts that
    /// [`wf_dimacs_text`] accepts, and then returns exactly the
    /// structure the text declares.  Rejected (as a malformed formula)
    /// are: unreadable numbers, a missing or short header, zero
    /// declared variables or clauses, a clause count that does not
    /// match the body, an empty clause, and a variable outside the
    /// declared range.
    pub fn parse(input: &str) -> (r: Result<DIMACS, SchemeError>)
        ensures
            r is Ok <==> wf_dimacs_text(input.spec_bytes()),
            r matches Ok(d) ==> (dimacs_text_model(input.spec_bytes()) matches Some(m) && {
                &&& d.wf()
                &&& d.num_var == m.0
                &&& d.num_clauses == m.1
                &&& clauses_deep(d.clauses@) == m.2
            }),
            r matches Err(e) ==> e == SchemeError::MalformedAccessFormula,
    {
        let bytes = input.as_bytes();
        let ghost bs = input.spec_bytes();
        let n = bytes.len();
        let mut clauses: Vec<Vec<u8>> = Vec::new();
        let mut num_var: u8 = 0;
        let mut num_clauses: u8 = 0;
        let mut have_header = false;
        let mut i: usize = 0;
        while i < n
            invariant
                bs == input.spec_bytes(),
                bytes@ == bs,
                n == bs.len(),
                i <= n,
                lines_combine(
                    clauses_deep(clauses@),
                    if have_header {
                        Some((num_var, num_clauses))
                    } else {
                        None
                    },
                    lines_s(bs, i as int),
                ) == lines_s(bs, 0),
            decreases n - i,
        {
            let ghost i0 = i as int;
            let ghost acc0 = clauses_deep(clauses@);
            let mut j = i;
            while j < n && bytes[j] != 10u8
                invariant
                    i <= j <= n,
                    bytes@ == bs,
                    n == bs.len(),
                    line_end_s(bs, j as int) == line_end_s(bs, i as int),
                decreases n - j,
            {
                j = j + 1;
            }
            proof {
                assert(j as int == line_end_s(bs, i0));
                lemma_line_end_s_bounds(bs, i0);
            }
            let p = skip_spaces(bytes, i, j);
            let ghost rest = lines_s(bs, next_line_start_s(bs, i0));
            if p < j && bytes[p] == 99u8 {
                // comment line ('c'): contributes nothing
            } else if p < j && bytes[p] == 112u8 {
                // header line ('p'): skip two tokens, then read two counts
                match parse_header(bytes, p, j) {
                    Some((nv, nc)) => {
                        num_var = nv;
                        num_clauses = nc;
                        have_header = true;
                    },
                    None => {
                        proof {
                            assert(lines_s(bs, i0) is None);
                            assert(lines_s(bs, 0) is None);
                        }
                        return Err(SchemeError::MalformedAccessFormula);
                    },
                }
            } else if p < j {
                // clause line: numbers up to a terminating 0
                proof {
                    // the line start is already normalized, so the
                    // line model starts at p itself
                    lemma_skip_spaces_s_bounds(bs, i as int, j as int);
                    assert(skip_spaces_s(bs, p as int, j as int) == p as int);
                }
                match parse_clause(bytes, p, j) {
                    Some(clause) => {
                        let ghost cl = clause@;
                        clauses.push(clause);
                        proof {
                            assert(clauses_deep(clauses@) =~= acc0.push(cl));
                        }
                    },
                    None => {
                        proof {
                            assert(parse_clause_s(bs, p as int, j as int) is None);
                            assert(lines_s(bs, i0) is None);
                            assert(lines_s(bs, 0) is None);
                        }
                        return Err(SchemeError::MalformedAccessFormula);
                    },
                }
            }
            if j < n {
                i = j + 1;
            } else {
                i = n;
            }
            proof {
                assert(i as int == next_line_start_s(bs, i0));
                let pd = skip_spaces_s(bs, i0, line_end_s(bs, i0));
                let jd = line_end_s(bs, i0);
                if pd < jd && bs[pd] == 99 {
                    assert(lines_s(bs, i0) == rest);
                } else if pd < jd && bs[pd] == 112 {
                    match rest {
                        Some((cs, hr)) => {
                            assert(clauses_deep(clauses@) + cs =~= acc0 + cs);
                        },
                        None => {},
                    }
                } else if pd < jd {
                    let cl = parse_clause_s(bs, pd, jd).unwrap();
                    match rest {
                        Some((cs, hr)) => {
                            assert(acc0 + (seq![cl] + cs) =~= acc0.push(cl) + cs);
                        },
                        None => {},
                    }
                } else {
                    assert(lines_s(bs, i0) == rest);
                }
            }
        }
        proof {
            assert(lines_s(bs, i as int) == Some(
                (Seq::<Seq<u8>>::empty(), None::<(u8, u8)>),
            ));
            assert(clauses_deep(clauses@) + Seq::<Seq<u8>>::empty() =~= clauses_deep(clauses@));
        }
        if !have_header || num_var == 0 || num_clauses == 0 {
            return Err(SchemeError::MalformedAccessFormula);
        }
        if clauses.len() != num_clauses as usize {
            return Err(SchemeError::MalformedAccessFormula);
        }
        // validate every clause against the declared variable count
        let nc = clauses.len();
        for c in 0..nc
            invariant
                bs == input.spec_bytes(),
                nc == clauses@.len(),
                num_var > 0,
                lines_s(bs, 0) == Some(
                    (clauses_deep(clauses@), Some((num_var, num_clauses))),
                ),
                forall|j2: int| 0 <= j2 < c ==> clause_wf((#[trigger] clauses@[j2])@, num_var),
        {
            let cl_len = clauses[c].len();
            if cl_len == 0 {
                proof {
                    assert(!clause_wf(clauses_deep(clauses@)[c as int], num_var));
                }
                return Err(SchemeError::MalformedAccessFormula);
            }
            for k in 0..cl_len
                invariant
                    bs == input.spec_bytes(),
                    nc == clauses@.len(),
                    c < nc,
                    num_var > 0,
                    cl_len == clauses@[c as int]@.len(),
                    cl_len >= 1,
                    lines_s(bs, 0) == Some(
                        (clauses_deep(clauses@), Some((num_var, num_clauses))),
                    ),
                    forall|j2: int|
                        0 <= j2 < c ==> clause_wf((#[trigger] clauses@[j2])@, num_var),
                    forall|k2: int|
                        0 <= k2 < k ==> 1 <= #[trigger] clauses@[c as int]@[k2] <= num_var,
            {
                let lit = clauses[c][k];
                if lit < 1 || lit > num_var {
                    proof {
                        assert(!clause_wf(clauses_deep(clauses@)[c as int], num_var));
                    }
                    return Err(SchemeError::MalformedAccessFormula);
                }
            }
        }
        let partitions = get_partitions(num_var, &clauses);
        proof {
            assert forall|jj: int|
                0 <= jj < clauses_deep(clauses@).len() implies clause_wf(
                #[trigger] clauses_deep(clauses@)[jj],
                num_var,
            ) by {
                assert(clause_wf(clauses@[jj]@, num_var));
            }
            assert(dimacs_text_model(bs) == Some(
                (num_var, num_clauses, clauses_deep(clauses@)),
            ));
        }
        Ok(DIMACS { num_var, num_clauses, clauses, partitions })
    }
}

/// Whether a byte is horizontal whitespace (space, tab, or a carriage
/// return left by a Windows line ending).
fn is_space(b: u8) -> (r: bool)
    ensures
        r == is_space_s(b),
{
    b == 32u8 || b == 9u8 || b == 13u8
}

/// Advance past whitespace within `[p, j)`.
fn skip_spaces(bytes: &[u8], p: usize, j: usize) -> (r: usize)
    requires
        p <= j <= bytes@.len(),
    ensures
        r as int == skip_spaces_s(bytes@, p as int, j as int),
        p <= r <= j,
{
    let mut q = p;
    while q < j && is_space(bytes[q])
        invariant
            p <= q <= j,
            j <= bytes@.len(),
            skip_spaces_s(bytes@, q as int, j as int) == skip_spaces_s(bytes@, p as int, j as int),
        decreases j - q,
    {
        q = q + 1;
    }
    q
}

/// Advance past non-whitespace within `[p, j)`.
fn skip_token(bytes: &[u8], p: usize, j: usize) -> (r: usize)
    requires
        p <= j <= bytes@.len(),
    ensures
        r as int == skip_token_s(bytes@, p as int, j as int),
        p <= r <= j,
{
    let mut q = p;
    while q < j && !is_space(bytes[q])
        invariant
            p <= q <= j,
            j <= bytes@.len(),
            skip_token_s(bytes@, q as int, j as int) == skip_token_s(bytes@, p as int, j as int),
        decreases j - q,
    {
        q = q + 1;
    }
    q
}

/// Read the decimal digits in `[s, e)` as a `u8`; `None` if the range
/// is empty, holds a non-digit, or overflows.
fn parse_u8_digits(bytes: &[u8], s: usize, e: usize) -> (r: Option<u8>)
    requires
        s <= e <= bytes@.len(),
    ensures
        r == parse_u8_s(bytes@, s as int, e as int),
{
    if s == e {
        return None;
    }
    let mut val: u32 = 0;
    let mut q = s;
    while q < e
        invariant
            s <= q <= e,
            s < e,
            e <= bytes@.len(),
            val <= 255,
            digits_val_s(bytes@, q as int, e as int, val as int) == parse_u8_s(
                bytes@,
                s as int,
                e as int,
            ),
        decreases e - q,
    {
        let b = bytes[q];
        if b < 48u8 || b > 57u8 {
            return None;
        }
        val = val * 10 + ((b - 48u8) as u32);
        if val > 255 {
            return None;
        }
        q = q + 1;
    }
    Some(val as u8)
}

/// Parse a header line `p cnf <num_var> <num_clauses>`: the first two
/// tokens are skipped, the next two must be numbers, and nothing may
/// follow them.
fn parse_header(bytes: &[u8], p: usize, j: usize) -> (r: Option<(u8, u8)>)
    requires
        p <= j <= bytes@.len(),
    ensures
        r == parse_header_s(bytes@, p as int, j as int),
{
    // skip two tokens
    let t0 = skip_token(bytes, p, j);
    let s1 = skip_spaces(bytes, t0, j);
    let t1 = skip_token(bytes, s1, j);
    // first number
    let s2 = skip_spaces(bytes, t1, j);
    let t2 = skip_token(bytes, s2, j);
    let nv = parse_u8_digits(bytes, s2, t2);
    // second number
    let s3 = skip_spaces(bytes, t2, j);
    let t3 = skip_token(bytes, s3, j);
    let nc = parse_u8_digits(bytes, s3, t3);
    // there must be exactly two numbers
    let s4 = skip_spaces(bytes, t3, j);
    if s4 != j {
        return None;
    }
    match (nv, nc) {
        (Some(a), Some(b)) => Some((a, b)),
        _ => None,
    }
}

/// An already-read prefix of a clause spliced onto the rest of it.
pub open spec fn opt_prepend(pre: Seq<u8>, o: Option<Seq<u8>>) -> Option<Seq<u8>> {
    match o {
        None => None,
        Some(c) => Some(pre + c),
    }
}

/// Parse a clause line: whitespace-separated numbers, stopping at a
/// `0` terminator (anything after it is ignored) or at the end of the
/// line.
fn parse_clause(bytes: &[u8], p: usize, j: usize) -> (r: Option<Vec<u8>>)
    requires
        p <= j <= bytes@.len(),
    ensures
        ({
            let m = clause_of_line_s(bytes@, p as int, j as int);
            &&& (r is Some <==> m is Some)
            &&& (r matches Some(v) ==> m matches Some(c) && v@ == c)
        }),
{
    let ghost m = clause_of_line_s(bytes@, p as int, j as int);
    let mut clause: Vec<u8> = Vec::new();
    let mut q = skip_spaces(bytes, p, j);
    proof {
        lemma_skip_spaces_s_bounds(bytes@, p as int, j as int);
    }
    while q < j
        invariant
            q <= j <= bytes@.len(),
            m == clause_of_line_s(bytes@, p as int, j as int),
            // q never stops inside whitespace
            q == j || !is_space_s(bytes@[q as int]),
            opt_prepend(clause@, parse_clause_s(bytes@, q as int, j as int)) == m,
        decreases j - q,
    {
        let t = skip_token(bytes, q, j);
        proof {
            lemma_skip_token_s_bounds(bytes@, q as int, j as int);
            assert(t > q);
        }
        match parse_u8_digits(bytes, q, t) {
            Some(v) => {
                if v == 0 {
                    proof {
                        assert(parse_clause_s(bytes@, q as int, j as int) == Some(
                            Seq::<u8>::empty(),
                        ));
                        assert(clause@ + Seq::<u8>::empty() =~= clause@);
                    }
                    return Some(clause);
                }
                let ghost clause_pre = clause@;
                clause.push(v);
                let ghost q_old = q as int;
                q = skip_spaces(bytes, t, j);
                proof {
                    lemma_skip_spaces_s_bounds(bytes@, t as int, j as int);
                    let inner = parse_clause_s(bytes@, q as int, j as int);
                    assert(parse_clause_s(bytes@, q_old, j as int) == (match inner {
                        None => None::<Seq<u8>>,
                        Some(rest) => Some(seq![v] + rest),
                    }));
                    if inner is Some {
                        assert(clause_pre + (seq![v] + inner.unwrap()) =~= clause@
                            + inner.unwrap());
                    }
                }
            },
            None => {
                proof {
                    assert(parse_clause_s(bytes@, q as int, j as int) is None);
                }
                return None;
            },
        }
    }
    proof {
        assert(parse_clause_s(bytes@, q as int, j as int) == Some(Seq::<u8>::empty()));
        assert(clause@ + Seq::<u8>::empty() =~= clause@);
    }
    Some(clause)
}

/// Check whether a byte vector contains a value.
pub(crate) fn contains_u8(v: &Vec<u8>, x: u8) -> (b: bool)
    ensures
        b == v@.contains(x),
{
    let n = v.len();
    for k in 0..n
        invariant
            n == v@.len(),
            forall|k2: int| 0 <= k2 < k ==> v@[k2] != x,
    {
        if v[k] == x {
            return true;
        }
    }
    proof {
        assert(!v@.contains(x));
    }
    false
}

/// For each variable `v + 1`, the set of clause indices whose clause
/// contains it.
pub(crate) fn get_partitions(num_var: u8, clauses: &Vec<Vec<u8>>) -> (r: Vec<Vec<u8>>)
    requires
        clauses@.len() <= 255,
    ensures
        r@.len() == num_var,
        forall|v: int, j: u8|
            0 <= v < r@.len() ==> ((#[trigger] r@[v]@.contains(j)) <==> (j < clauses@.len()
                && clauses@[j as int]@.contains((v + 1) as u8))),
        forall|v: int, k1: int, k2: int|
            0 <= v < r@.len() && 0 <= k1 < k2 < r@[v]@.len() ==> (#[trigger] r@[v]@[k1]) < (
            #[trigger] r@[v]@[k2]),
{
    let mut partitions: Vec<Vec<u8>> = Vec::new();
    let nv = num_var as usize;
    let nc = clauses.len();
    for v in 0..nv
        invariant
            nv == num_var,
            nc == clauses@.len(),
            nc <= 255,
            partitions@.len() == v,
            forall|v2: int, j: u8|
                0 <= v2 < partitions@.len() ==> ((#[trigger] partitions@[v2]@.contains(j)) <==> (
                j < clauses@.len() && clauses@[j as int]@.contains((v2 + 1) as u8))),
            forall|v2: int, k1: int, k2: int|
                0 <= v2 < partitions@.len() && 0 <= k1 < k2 < partitions@[v2]@.len() ==> (
                #[trigger] partitions@[v2]@[k1]) < (#[trigger] partitions@[v2]@[k2]),
    {
        let mut partition: Vec<u8> = Vec::new();
        for j in 0..nc
            invariant
                nv == num_var,
                v < nv,
                nc == clauses@.len(),
                nc <= 255,
                forall|j2: u8|
                    (#[trigger] partition@.contains(j2)) <==> (j2 < j
                        && clauses@[j2 as int]@.contains((v + 1) as u8)),
                forall|l: int| 0 <= l < partition@.len() ==> (#[trigger] partition@[l]) < j,
                forall|k1: int, k2: int|
                    0 <= k1 < k2 < partition@.len() ==> (#[trigger] partition@[k1]) < (
                    #[trigger] partition@[k2]),
        {
            if contains_u8(&clauses[j], (v + 1) as u8) {
                let ghost before = partition@;
                partition.push(j as u8);
                proof {
                    assert forall|j2: u8| (#[trigger] partition@.contains(j2)) <==> (j2 < j + 1
                        && clauses@[j2 as int]@.contains((v + 1) as u8)) by {
                        assert(partition@ == before.push(j as u8));
                        if partition@.contains(j2) {
                            let idx = choose|idx: int|
                                0 <= idx < partition@.len() && partition@[idx] == j2;
                            if idx < before.len() {
                                assert(before.contains(j2));
                            } else {
                                assert(j2 == j as u8);
                            }
                        }
                        if j2 < j + 1 && clauses@[j2 as int]@.contains((v + 1) as u8) {
                            if j2 < j {
                                assert(before.contains(j2));
                                let idx = choose|idx: int|
                                    0 <= idx < before.len() && before[idx] == j2;
                                assert(partition@[idx] == j2);
                            } else {
                                assert(partition@[before.len() as int] == j as u8);
                            }
                        }
                    }
                }
            } else {
                proof {
                    assert forall|j2: u8| (#[trigger] partition@.contains(j2)) <==> (j2 < j + 1
                        && clauses@[j2 as int]@.contains((v + 1) as u8)) by {
                        if j2 == j as u8 {
                            assert(!clauses@[j2 as int]@.contains((v + 1) as u8));
                        }
                    }
                }
            }
        }
        partitions.push(partition);
    }
    partitions
}

} // verus!
