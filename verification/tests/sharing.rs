use tfhe_gsw::error_sampling::{rnd_dvec, rnd_fp};
use tfhe_gsw::field::{Fp, P};
use tfhe_gsw::zo_sss::dimacs::{DIMACS, DIMACS_2_OF_3_SCHEME, DIMACS_AB_OR_CD};
use tfhe_gsw::zo_sss::mbf::{get_min_party, mbf_combine, mbf_share};
use tfhe_gsw::zo_sss::share_matrix::ShareMatrix;
use tfhe_gsw::zo_sss::{SecretSharingScheme, MBF};
use tfhe_gsw::RingElement;
use tfhe_gsw::SchemeError;

#[test]
fn share_test_two_of_three() {
    let secret = rnd_fp(0, P - 1);
    let dimacs = DIMACS::parse(DIMACS_2_OF_3_SCHEME).unwrap();
    let parties = mbf_share(vec![secret], &dimacs);
    assert_eq!(parties.len(), 3);
    for p in parties {
        assert_eq!(p.shares[0].len(), 2);
    }
}

#[test]
fn share_test_ab_or_cd() {
    let secret = rnd_fp(0, P - 1);
    let dimacs = DIMACS::parse(DIMACS_AB_OR_CD).unwrap();
    let parties = mbf_share(vec![secret], &dimacs);
    assert_eq!(parties.len(), 4);
    for p in parties {
        assert_eq!(p.shares[0].len(), 2);
    }
}

#[test]
fn secret_sharing_2_of_3_test() {
    let secret = rnd_fp(0, P - 1);
    let dimacs = DIMACS::parse(DIMACS_2_OF_3_SCHEME).unwrap();

    let parties = mbf_share(vec![secret], &dimacs);
    let subset = get_min_party(&parties, &dimacs).unwrap();
    assert_eq!(subset.len(), 2);
    let result = *mbf_combine(subset, true, &dimacs).unwrap().first().unwrap();
    assert_eq!(result, secret);

    let result2 = *mbf_combine(parties, false, &dimacs).unwrap().first().unwrap();
    assert_eq!(result2, secret);
}

#[test]
fn secret_sharing_ab_cd_test() {
    let secret = rnd_fp(0, P - 1);
    let dimacs = DIMACS::parse(DIMACS_AB_OR_CD).unwrap();

    let parties = mbf_share(vec![secret], &dimacs);
    let subset = get_min_party(&parties, &dimacs).unwrap();
    assert_eq!(subset.len(), 2);
    let result = *mbf_combine(subset, true, &dimacs).unwrap().first().unwrap();
    assert_eq!(result, secret);

    let result2 = *mbf_combine(parties, false, &dimacs).unwrap().first().unwrap();
    assert_eq!(result2, secret);
}

#[test]
fn shamir_struct_test() {
    let shamir = MBF { dimacs: DIMACS::parse(DIMACS_2_OF_3_SCHEME).unwrap() };
    let secrets: Vec<Fp> = rnd_dvec(5, 0, P - 1);
    let copy_secrets = secrets.clone();
    let parties = shamir.share(secrets);
    let result = shamir.combine(parties, false).unwrap();
    assert_eq!(copy_secrets, result);
}

#[test]
fn mbf_struct_test() {
    let mbf = MBF { dimacs: DIMACS::parse(DIMACS_AB_OR_CD).unwrap() };
    let secrets: Vec<Fp> = rnd_dvec(5, 0, P - 1);
    let copy_secrets = secrets.clone();
    let parties = mbf.share(secrets);
    let result = mbf.combine(parties, false).unwrap();
    assert_eq!(copy_secrets, result);
}

// the concrete scenario: (A or B) and (A or C) and (B or C), sharing [42]
#[test]
fn secret_sharing_concrete_scenario() {
    let dimacs = DIMACS::parse(DIMACS_2_OF_3_SCHEME).unwrap();
    let parties = mbf_share(vec![Fp::from_u64(42)], &dimacs);
    assert_eq!(parties.len(), 3);
    for p in parties.iter() {
        assert_eq!(p.shares[0].len(), 2);
    }

    // {A, B} is an authorized, minimal coalition
    let ab = vec![parties[0].clone(), parties[1].clone()];
    let recovered = mbf_combine(ab, true, &dimacs).unwrap();
    assert_eq!(recovered, vec![Fp::from_u64(42)]);

    // A alone is not authorized
    let a_alone = vec![parties[0].clone()];
    assert_eq!(
        mbf_combine(a_alone, false, &dimacs),
        Err(SchemeError::NoAuthorizedCoalition)
    );
}

// minimality: the reduction never returns the full three-party set
#[test]
fn minimal_coalition_has_two_parties() {
    let dimacs = DIMACS::parse(DIMACS_2_OF_3_SCHEME).unwrap();
    for _ in 0..10 {
        let parties = mbf_share(vec![rnd_fp(0, P - 1)], &dimacs);
        let minimal = get_min_party(&parties, &dimacs).unwrap();
        assert_eq!(minimal.len(), 2);
    }
}

#[test]
fn two_of_three_can_be_parsed() {
    let share_matrix = ShareMatrix::two_of_three();
    assert_eq!(share_matrix.matrix.len(), share_matrix.dimacs.num_clauses as usize)
}

#[test]
fn share_matrix_rows_are_telescoping() {
    let sm = ShareMatrix::two_of_three();
    let one = Fp::one();
    let minus_one = one.neg();
    let zero = Fp::zero();
    assert_eq!(sm.matrix[0], vec![one, one, zero]);
    assert_eq!(sm.matrix[1], vec![zero, minus_one, one]);
    assert_eq!(sm.matrix[2], vec![zero, zero, minus_one]);
}

#[test]
fn parse_accepts_the_examples() {
    let d = DIMACS::parse(DIMACS_2_OF_3_SCHEME).unwrap();
    assert_eq!(d.num_var, 3);
    assert_eq!(d.num_clauses, 3);
    assert_eq!(d.clauses, vec![vec![1u8, 2], vec![1, 3], vec![2, 3]]);
    assert_eq!(d.partitions, vec![vec![0u8, 1], vec![0, 2], vec![1, 2]]);

    let d2 = DIMACS::parse(DIMACS_AB_OR_CD).unwrap();
    assert_eq!(d2.num_var, 4);
    assert_eq!(d2.num_clauses, 4);
}

#[test]
fn parse_tolerates_whitespace_and_trailing_text() {
    // extra spaces, a trailing comment line, and text after the 0
    // terminator are all tolerated
    let d = DIMACS::parse("p cnf 2 1\n  1   2 0 7\nc trailing comment\n").unwrap();
    assert_eq!(d.num_var, 2);
    assert_eq!(d.num_clauses, 1);
    assert_eq!(d.clauses, vec![vec![1u8, 2]]);
}

#[test]
fn two_of_three_matches_the_parsed_example() {
    // the directly built example equals what parsing its text yields
    let sm = ShareMatrix::two_of_three();
    let d = DIMACS::parse(DIMACS_2_OF_3_SCHEME).unwrap();
    assert_eq!(sm.dimacs.num_var, d.num_var);
    assert_eq!(sm.dimacs.num_clauses, d.num_clauses);
    assert_eq!(sm.dimacs.clauses, d.clauses);
    assert_eq!(sm.dimacs.partitions, d.partitions);
}

#[test]
fn parse_rejects_malformed_formulas() {
    // no header at all
    assert!(matches!(DIMACS::parse("1 2 0\n"), Err(SchemeError::MalformedAccessFormula)));
    // clause count does not match the body
    assert!(matches!(
        DIMACS::parse("p cnf 3 3\n1 2 0\n"),
        Err(SchemeError::MalformedAccessFormula)
    ));
    // a variable outside the declared range
    assert!(matches!(
        DIMACS::parse("p cnf 2 1\n1 7 0\n"),
        Err(SchemeError::MalformedAccessFormula)
    ));
    // an empty clause
    assert!(matches!(
        DIMACS::parse("p cnf 2 1\n0\n"),
        Err(SchemeError::MalformedAccessFormula)
    ));
    // an unreadable number
    assert!(matches!(
        DIMACS::parse("p cnf 2 1\n1 x 0\n"),
        Err(SchemeError::MalformedAccessFormula)
    ));
    // zero declared variables
    assert!(matches!(
        DIMACS::parse("p cnf 0 0\n"),
        Err(SchemeError::MalformedAccessFormula)
    ));
}
