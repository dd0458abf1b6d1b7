use std::marker::PhantomData;

use tfhe_gsw::error_sampling::{rnd_dmatrix, rnd_dvec, DiscrGaussianSampler, NaiveSampler};
use tfhe_gsw::field::Fp;
use tfhe_gsw::gsw::pk::GswPk;
use tfhe_gsw::gsw::sk::GswSk;
use tfhe_gsw::gsw::{FheScheme, GSW};
use tfhe_gsw::misc::matrix_vector_fp;
use tfhe_gsw::pow2_ring::Zpow2;
use tfhe_gsw::RingElement;
use tfhe_gsw::SchemeError;

#[test]
fn gsw_fp_sk_pk_invariant() {
    let n = 10;
    let m = 10 * Fp::num_bits();

    let sk: GswSk<Fp> = GswSk::new(rnd_dvec(n, 0, Fp::max_u64()));
    let err = rnd_dvec(m, 0, Fp::max_u64() >> 15);
    let random_matrix = rnd_dmatrix(m, n, 0, Fp::max_u64());
    let pk = GswPk::new(&random_matrix, &err, &sk.t);
    let invariant = matrix_vector_fp(&pk.pk_matrix, &sk.s);

    // As = e
    assert_eq!(invariant, err);
}

#[test]
fn different_err_lead_to_diff_pk() {
    let n = 100;
    let m = 50;
    let t: Vec<Fp> = rnd_dvec(n, 0, Fp::max_u64());
    let random_matrix: Vec<Vec<Fp>> = rnd_dmatrix(m, n, 0, 1);

    let err1: Vec<Fp> = rnd_dvec(m, 0, Fp::max_u64() / 2);
    let err2: Vec<Fp> = rnd_dvec(m, 0, Fp::max_u64() / 2);

    let pk1 = GswPk::new(&random_matrix, &err1, &t);
    let pk2 = GswPk::new(&random_matrix, &err2, &t);

    assert_ne!(pk1, pk2);
}

#[test]
fn test_v_decomp() {
    let sk: GswSk<Fp> = GswSk::new(rnd_dvec(5, 0, 10));

    for i in 0..Fp::num_bits() {
        assert_eq!(sk.v[i], Fp::from_u64(1 << i));
    }
}

#[test]
fn encryption_decryption_naive() {
    let naive_gsw = GSW::<Fp, NaiveSampler> {
        n: 10,
        m: 10 * Fp::num_bits(),
        err_sampling: NaiveSampler,
        flatten_after_ops: false,
        _marker: PhantomData,
    };
    let (sk, pk) = naive_gsw.keygen();

    let encr = naive_gsw.encrypt(&pk, Fp::zero());
    assert_eq!(naive_gsw.decrypt(&sk, &encr), Fp::zero());

    let encr = naive_gsw.encrypt(&pk, Fp::one());
    assert_eq!(naive_gsw.decrypt(&sk, &encr), Fp::one());
}

#[test]
fn encryption_decryption_discr_gaussian() {
    let gaussian_gsw = GSW::<Zpow2<30>, DiscrGaussianSampler> {
        n: 10,
        m: 10 * Zpow2::<30>::num_bits(),
        err_sampling: DiscrGaussianSampler::default(),
        flatten_after_ops: false,
        _marker: PhantomData,
    };
    let (sk, pk) = gaussian_gsw.keygen();

    let encr = gaussian_gsw.encrypt(&pk, Zpow2::<30>::zero());
    assert_eq!(gaussian_gsw.decrypt(&sk, &encr), Zpow2::<30>::zero());

    let encr = gaussian_gsw.encrypt(&pk, Zpow2::<30>::one());
    assert_eq!(gaussian_gsw.decrypt(&sk, &encr), Zpow2::<30>::one());
}

#[test]
fn encryption_decryption_pow_of_two() {
    let fhe = GSW::<Zpow2<31>, DiscrGaussianSampler> {
        n: 10,
        m: 10 * Zpow2::<31>::num_bits(),
        err_sampling: DiscrGaussianSampler::default(),
        flatten_after_ops: false,
        _marker: PhantomData,
    };

    let (sk, pk) = fhe.keygen();

    for _ in 0..20 {
        let msg: Zpow2<31> = tfhe_gsw::error_sampling::rnd_ring_elm(0, Zpow2::<31>::max_u64() - 1);
        let encr = fhe.encrypt(&pk, msg);
        let decr = fhe.mp_decrypt(&sk, &encr).unwrap();
        assert_eq!(decr, msg, "{:064b} vs {:064b}", decr.value(), msg.value());
    }
}

// correctness over many randomized trials, for both error samplers
#[test]
fn decryption_correct_over_many_trials() {
    let naive = GSW::<Fp, NaiveSampler> {
        n: 2,
        m: 2 * Fp::num_bits(),
        err_sampling: NaiveSampler,
        flatten_after_ops: false,
        _marker: PhantomData,
    };
    for _ in 0..100 {
        let (sk, pk) = naive.keygen();
        assert_eq!(naive.decrypt(&sk, &naive.encrypt(&pk, Fp::zero())), Fp::zero());
        assert_eq!(naive.decrypt(&sk, &naive.encrypt(&pk, Fp::one())), Fp::one());
    }

    let gaussian = GSW::<Zpow2<30>, DiscrGaussianSampler> {
        n: 2,
        m: 2 * Zpow2::<30>::num_bits(),
        err_sampling: DiscrGaussianSampler::default(),
        flatten_after_ops: false,
        _marker: PhantomData,
    };
    for _ in 0..100 {
        let (sk, pk) = gaussian.keygen();
        assert_eq!(
            gaussian.decrypt(&sk, &gaussian.encrypt(&pk, Zpow2::<30>::zero())),
            Zpow2::<30>::zero()
        );
        assert_eq!(
            gaussian.decrypt(&sk, &gaussian.encrypt(&pk, Zpow2::<30>::one())),
            Zpow2::<30>::one()
        );
    }
}

// homomorphism: addition and the NAND gate, within the noise budget
#[test]
fn homomorphic_add_and_nand() {
    type R31 = Zpow2<31>;
    let fhe = GSW::<R31, NaiveSampler> {
        n: 2,
        m: 2 * R31::num_bits(),
        err_sampling: NaiveSampler,
        flatten_after_ops: false,
        _marker: PhantomData,
    };
    let (sk, pk) = fhe.keygen();

    // Dec(Add(E(a), E(b))) == a + b, for sums that stay a single bit
    for (a, b) in [(0u64, 0u64), (0, 1), (1, 0)] {
        let ca = fhe.encrypt(&pk, R31::from_u64(a));
        let cb = fhe.encrypt(&pk, R31::from_u64(b));
        let sum = fhe.add(&ca, &cb).unwrap();
        assert_eq!(fhe.decrypt(&sk, &sum), R31::from_u64(a + b));
    }

    // Dec(Nand(E(a), E(b))) == NOT(a AND b)
    for (a, b) in [(0u64, 0u64), (0, 1), (1, 0), (1, 1)] {
        let ca = fhe.encrypt(&pk, R31::from_u64(a));
        let cb = fhe.encrypt(&pk, R31::from_u64(b));
        let nand = fhe.nand(&ca, &cb).unwrap();
        let expected = if a == 1 && b == 1 { 0u64 } else { 1u64 };
        assert_eq!(fhe.decrypt(&sk, &nand), R31::from_u64(expected));
    }
}

#[test]
fn homomorphic_mult_const() {
    type R31 = Zpow2<31>;
    let fhe = GSW::<R31, NaiveSampler> {
        n: 2,
        m: 2 * R31::num_bits(),
        err_sampling: NaiveSampler,
        flatten_after_ops: false,
        _marker: PhantomData,
    };
    let (sk, pk) = fhe.keygen();
    let mut c = fhe.encrypt(&pk, R31::one());
    fhe.mult_const(&mut c, R31::one());
    assert_eq!(fhe.decrypt(&sk, &c), R31::one());
}

#[test]
fn flatten_policy_keeps_fresh_zero_decryptable() {
    let fhe = GSW::<Fp, NaiveSampler> {
        n: 2,
        m: 2 * Fp::num_bits(),
        err_sampling: NaiveSampler,
        flatten_after_ops: true,
        _marker: PhantomData,
    };
    let (sk, pk) = fhe.keygen();
    let encr = fhe.encrypt(&pk, Fp::zero());
    assert_eq!(fhe.decrypt(&sk, &encr), Fp::zero());
}

#[test]
fn add_rejects_mismatched_dimensions() {
    let fhe = GSW::<Fp, NaiveSampler> {
        n: 2,
        m: 2 * Fp::num_bits(),
        err_sampling: NaiveSampler,
        flatten_after_ops: false,
        _marker: PhantomData,
    };
    let c1 = vec![vec![Fp::zero(); 31]; 1];
    let c2 = vec![vec![Fp::zero(); 62]; 2];
    assert_eq!(fhe.add(&c1, &c2), Err(SchemeError::DimensionMismatch));
    assert_eq!(fhe.mult(&c2, &c1), Err(SchemeError::DimensionMismatch));
    assert_eq!(fhe.nand(&c1, &c2), Err(SchemeError::DimensionMismatch));
}

#[test]
fn mp_decrypt_rejects_prime_field() {
    let fhe = GSW::<Fp, NaiveSampler> {
        n: 2,
        m: 2 * Fp::num_bits(),
        err_sampling: NaiveSampler,
        flatten_after_ops: false,
        _marker: PhantomData,
    };
    let (sk, pk) = fhe.keygen();
    let encr = fhe.encrypt(&pk, Fp::one());
    assert_eq!(fhe.mp_decrypt(&sk, &encr), Err(SchemeError::UnsupportedOperation));
}

#[test]
fn gaussian_test() {
    // check that random numbers are not all equal
    let gaussian = DiscrGaussianSampler::default();
    let rnd_vec: Vec<Fp> = tfhe_gsw::error_sampling::ErrorSampling::rnd_error_dvec(&gaussian, 100);
    println!("First 5 samples: {:?}", &rnd_vec[..5]);

    assert_eq!(rnd_vec.len(), 100);
    let first = &rnd_vec[0];
    let all_same = rnd_vec.iter().all(|x| x == first);
    assert!(!all_same, "All sampled values are identical - Gaussian sampler may be broken");
}

#[test]
fn gaussian_sampler_needs_nonzero_denominator() {
    assert!(DiscrGaussianSampler::new(2, 1).is_some());
    assert!(DiscrGaussianSampler::new(2, 0).is_none());
}
