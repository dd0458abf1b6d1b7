use tfhe_gsw::pow2_ring::Zpow2;
use tfhe_gsw::RingElement;

// exponent M=3 -> modulus 8
type Z8 = Zpow2<3>;

#[test]
fn test_add() {
    let a = Z8::new(3);
    let b = Z8::new(5);
    assert_eq!(a.add(b).value(), 0); // 3+5=8 = 0
}

#[test]
fn test_sub() {
    let a = Z8::new(3);
    let b = Z8::new(5);
    assert_eq!(a.sub(b).value(), 6); // 3-5=-2 = 6
}

#[test]
fn test_mul() {
    let a = Z8::new(3);
    let b = Z8::new(15);
    assert_eq!(a.mul(b).value(), 5); // 45 = 5
}

#[test]
fn test_neg() {
    let a = Z8::new(3);
    assert_eq!(a.neg().value(), 5); // -3 = 5
}

#[test]
fn test_normalization() {
    let a = Z8::new(24); // 24 mod 8 = 0
    assert_eq!(a.value(), 0);
}

#[test]
fn test_inv_is_not_defined() {
    assert!(Z8::new(3).inv().is_none());
}

#[test]
fn test_full_width_ring() {
    // the widest supported ring: arithmetic modulo 2^64
    type Z64 = Zpow2<64>;
    let max = Z64::new(u64::MAX);
    assert_eq!(max.add(Z64::one()).value(), 0);
    assert_eq!(Z64::zero().sub(Z64::one()).value(), u64::MAX);
    assert_eq!(Z64::max_u64(), u64::MAX);
}
