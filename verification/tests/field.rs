use tfhe_gsw::error_sampling::rnd_ring_elm;
use tfhe_gsw::field::{Fp, P};
use tfhe_gsw::RingElement;

// small heuristic to verify the modulus is prime enough for inverses
#[test]
fn inverse_test() {
    let one = Fp::one();
    let minus_one = one.neg();
    assert_eq!(one.add(minus_one), Fp::zero());

    for _ in 1..100000 {
        let rnd: Fp = rnd_ring_elm(1, P - 1);
        let inverse = rnd.invert().unwrap();
        assert_eq!(rnd.mul(inverse), Fp::one());
    }
}

#[test]
fn test_fp_to_u64() {
    for _ in 1..100 {
        let rnd: Fp = rnd_ring_elm(0, P - 1);
        let rnd_u64 = rnd.repr_u64();
        let rnd_reconstr = Fp::from_u64(rnd_u64);
        assert_eq!(rnd, rnd_reconstr);
    }
}

#[test]
fn invert_zero_is_none() {
    assert!(Fp::zero().invert().is_none());
}

#[test]
fn invert_concrete_value() {
    // 2 * (P + 1) / 2 = P + 1 = 1 mod P
    let two = Fp::from_u64(2);
    let half = two.invert().unwrap();
    assert_eq!(half, Fp::from_u64((P + 1) / 2));
    assert_eq!(two.mul(half), Fp::one());
}

#[test]
fn fp_arithmetic_concrete() {
    // wraparound at the modulus
    assert_eq!(Fp::from_u64(P), Fp::zero());
    assert_eq!(Fp::from_u64(P - 1).add(Fp::one()), Fp::zero());
    assert_eq!(Fp::from_u64(3).sub(Fp::from_u64(5)), Fp::from_u64(P - 2));
    assert_eq!(Fp::from_u64(6).mul(Fp::from_u64(7)), Fp::from_u64(42));
    assert_eq!(Fp::from_u64(5).neg(), Fp::from_u64(P - 5));
}

#[test]
fn rnd_range_is_respected() {
    // a one-point range pins the sample down exactly
    let x: Fp = rnd_ring_elm(5, 5);
    assert_eq!(x, Fp::from_u64(5));
    for _ in 0..100 {
        let y: Fp = rnd_ring_elm(10, 20);
        assert!(10 <= y.repr_u64() && y.repr_u64() <= 20);
    }
}
