use tfhe_gsw::error_sampling::rnd_dvec;
use tfhe_gsw::field::Fp;
use tfhe_gsw::gsw::gsw::{
    bit_decomp, bit_decomp_inv, bit_decomp_inv_matrix, bit_decomp_matrix, build_gadget_vector,
    powers_of_2,
};
use tfhe_gsw::misc;
use tfhe_gsw::RingElement;

#[test]
fn gsw_gadget_vector_has_correct_size() {
    assert_eq!(build_gadget_vector::<Fp>().len(), Fp::num_bits())
}

#[test]
fn test_bit_decomp_and_inv() {
    for _ in 0..10 {
        let input: Vec<Fp> = rnd_dvec(10, 0, u64::MAX);

        let mut decomposed = input.clone();
        bit_decomp(&mut decomposed);
        assert_ne!(decomposed, input);
        assert_eq!(decomposed.len(), input.len() * Fp::num_bits());

        let mut reconstructed = decomposed.clone();
        bit_decomp_inv(&mut reconstructed);
        assert_eq!(reconstructed.len(), input.len());
        assert_eq!(input, reconstructed);

        let matrix = vec![
            vec![Fp::from_u64(2), Fp::from_u64(2)],
            vec![Fp::from_u64(2), Fp::from_u64(2)],
        ];
        let mut decomp_matrix = matrix.clone();
        bit_decomp_matrix(&mut decomp_matrix);
        assert_ne!(matrix, decomp_matrix);
        bit_decomp_inv_matrix(&mut decomp_matrix);
        assert_eq!(matrix, decomp_matrix);
    }
}

#[test]
fn gsw_test_scalar_product_invariant() {
    for _ in 0..10 {
        let a: Vec<Fp> = rnd_dvec(10, 0, u64::MAX);
        let b: Vec<Fp> = rnd_dvec(10, 0, u64::MAX);

        let mut bd_a = a.clone();
        bit_decomp(&mut bd_a);
        let po2_b = powers_of_2(&b, &build_gadget_vector::<Fp>());
        assert_eq!(bd_a.len(), po2_b.len(), "Length mismatch in decomp vs powers_of_two.");

        let dot_decomp = misc::dot_product_fp(&bd_a, &po2_b);
        let dot_ab = misc::dot_product_fp(&a, &b);

        assert_eq!(dot_decomp, dot_ab, "Scalar product invariant failed.");
    }
}

#[test]
fn gsw_test_scalar_product_fp() {
    let a = vec![Fp::from_u64(1), Fp::from_u64(2), Fp::from_u64(3)];
    let b = vec![Fp::from_u64(4), Fp::from_u64(5), Fp::from_u64(6)];
    let result = misc::dot_product_fp(&a, &b);
    assert_eq!(result, Fp::from_u64(32)); // 1*4 + 2*5 + 3*6 = 32
}

#[test]
fn gsw_test_matrix_vector_fp() {
    let matrix = vec![
        vec![Fp::from_u64(1), Fp::from_u64(2), Fp::from_u64(3)],
        vec![Fp::from_u64(4), Fp::from_u64(5), Fp::from_u64(6)],
    ];
    let vector = vec![Fp::from_u64(7), Fp::from_u64(8), Fp::from_u64(9)];

    let result = misc::matrix_vector_fp(&matrix, &vector);
    let expected = vec![
        Fp::from_u64(50),  // 1*7 + 2*8 + 3*9
        Fp::from_u64(122), // 4*7 + 5*8 + 6*9
    ];
    assert_eq!(result, expected);
}

#[test]
fn gsw_test_matrix_matrix_multiplication_fp() {
    let a = vec![
        vec![Fp::from_u64(1), Fp::from_u64(2)],
        vec![Fp::from_u64(3), Fp::from_u64(4)],
    ];
    let b = vec![
        vec![Fp::from_u64(5), Fp::from_u64(6)],
        vec![Fp::from_u64(7), Fp::from_u64(8)],
    ];

    let result = misc::matrix_matrix_fp(&a, &b);
    let expected = vec![
        vec![Fp::from_u64(19), Fp::from_u64(22)], // [1*5 + 2*7, 1*6 + 2*8]
        vec![Fp::from_u64(43), Fp::from_u64(50)], // [3*5 + 4*7, 3*6 + 4*8]
    ];
    assert_eq!(result, expected);
}

#[test]
fn misc_gadget_vector_has_correct_size() {
    assert_eq!(build_gadget_vector::<Fp>().len(), Fp::num_bits())
}

#[test]
fn test_bit_decomp_and_inv_for_field() {
    for _ in 0..10 {
        let input: Vec<Fp> = rnd_dvec(10, 0, u64::MAX);

        let decomposed = misc::bit_decomp(&input);
        assert_eq!(decomposed.len(), input.len() * Fp::num_bits());

        let reconstructed = misc::bit_decomp_inv(&decomposed);
        assert_eq!(reconstructed.len(), input.len());

        assert_eq!(input, reconstructed);
    }
}

#[test]
fn misc_test_scalar_product_invariant() {
    for _ in 0..10 {
        let a: Vec<Fp> = rnd_dvec(10, 0, u64::MAX);
        let b: Vec<Fp> = rnd_dvec(10, 0, u64::MAX);

        let bd_a = misc::bit_decomp(&a);
        let po2_b = misc::powers_of_2(&b);
        assert_eq!(bd_a.len(), po2_b.len(), "Length mismatch in decomp vs powers_of_two.");

        let dot_decomp = misc::dot_product_fp(&bd_a, &po2_b);
        let dot_ab = misc::dot_product_fp(&a, &b);

        assert_eq!(dot_decomp, dot_ab, "Scalar product invariant failed.");
    }
}

#[test]
fn misc_test_scalar_product_fp() {
    let a = vec![Fp::from_u64(1), Fp::from_u64(2), Fp::from_u64(3)];
    let b = vec![Fp::from_u64(4), Fp::from_u64(5), Fp::from_u64(6)];
    let result = misc::dot_product_fp(&a, &b);
    assert_eq!(result, Fp::from_u64(32)); // 1*4 + 2*5 + 3*6 = 32
}

#[test]
fn misc_test_matrix_vector_fp() {
    let matrix = vec![
        vec![Fp::from_u64(1), Fp::from_u64(2), Fp::from_u64(3)],
        vec![Fp::from_u64(4), Fp::from_u64(5), Fp::from_u64(6)],
    ];
    let vector = vec![Fp::from_u64(7), Fp::from_u64(8), Fp::from_u64(9)];

    let result = misc::matrix_vector_fp(&matrix, &vector);
    let expected = vec![Fp::from_u64(50), Fp::from_u64(122)];
    assert_eq!(result, expected);
}

#[test]
fn misc_test_matrix_matrix_multiplication_fp() {
    let a = vec![
        vec![Fp::from_u64(1), Fp::from_u64(2)],
        vec![Fp::from_u64(3), Fp::from_u64(4)],
    ];
    let b = vec![
        vec![Fp::from_u64(5), Fp::from_u64(6)],
        vec![Fp::from_u64(7), Fp::from_u64(8)],
    ];

    let result = misc::matrix_matrix_fp(&a, &b);
    let expected = vec![
        vec![Fp::from_u64(19), Fp::from_u64(22)],
        vec![Fp::from_u64(43), Fp::from_u64(50)],
    ];
    assert_eq!(result, expected);
}

#[test]
fn bit_decomp_concrete_value() {
    // 5 = 101 in little-endian bits
    let bits = misc::bit_decomp(&vec![Fp::from_u64(5)]);
    assert_eq!(bits[0], Fp::one());
    assert_eq!(bits[1], Fp::zero());
    assert_eq!(bits[2], Fp::one());
    for k in 3..31 {
        assert_eq!(bits[k], Fp::zero());
    }
    assert_eq!(misc::bit_decomp_inv(&bits), vec![Fp::from_u64(5)]);
}

#[test]
fn gadget_duality_concrete_value() {
    // dot(BitDecomp([3]), PowersOf2([5])) == 3 * 5
    let bd = misc::bit_decomp(&vec![Fp::from_u64(3)]);
    let po2 = misc::powers_of_2(&vec![Fp::from_u64(5)]);
    assert_eq!(misc::dot_product_fp(&bd, &po2), Fp::from_u64(15));
}

#[test]
fn flatten_is_idempotent() {
    // a vector with non-bit entries: flatten once normalizes it, a
    // second flatten changes nothing
    let mut v: Vec<Fp> = Vec::new();
    for k in 0..62u64 {
        v.push(Fp::from_u64(k % 3));
    }
    let once = misc::flatten(&v);
    let twice = misc::flatten(&once);
    assert_eq!(once, twice);
    assert_eq!(once.len(), v.len());
}
