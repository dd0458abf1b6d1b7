//! A lattice-based (GSW-style) homomorphic encryption core together with a
//! monotone-formula secret-sharing layer, after the threshold-FHE
//! construction of Boneh et al.
//!
//! The scheme is generic over a fixed-width ring: a prime field
//! ([`field::Fp`]) and a power-of-two ring ([`pow2_ring::Zpow2`]) are
//! provided.  The gadget machinery (bit decomposition, flatten, powers of
//! two) and the GSW scheme itself are written once against the
//! [`RingElement`] abstraction.

use vstd::prelude::*;

pub mod error_sampling;
pub mod field;
pub mod gsw;
pub mod linalg;
pub mod misc;
pub mod pow2_ring;
pub mod zo_sss;

verus! {

use vstd::arithmetic::power2::pow2;

/// Everything that can go wrong in the scheme.
///
/// Dimension mismatches and unsupported operations come from the
/// homomorphic layer; the other two come from the secret-sharing layer.
#[derive(Clone, Copy, Debug, PartialEq, Eq, Structural)]
pub enum SchemeError {
    /// Ciphertext/matrix shape violation.
    DimensionMismatch,
    /// The operation is not defined for this ring (e.g. multi-bit decoding
    /// on a prime field, or an inverse in a non-field ring).
    UnsupportedOperation,
    /// The supplied party set cannot satisfy the access formula.
    NoAuthorizedCoalition,
    /// A textual access-formula description was rejected at construction.
    MalformedAccessFormula,
}

/// A fixed-width commutative ring.
///
/// A value of the ring is identified by its canonical representative
/// `repr`, an integer in `[0, modulus)`.  The ring has a fixed bit width
/// `bits` with `pow2(bits - 1) < modulus <= pow2(bits)`, so every
/// representative fits in `bits` bits and the gadget vector
/// `[1, 2, ..., pow2(bits - 1)]` consists of distinct nonzero elements.
pub trait RingElement: Sized + Copy {
    /// The modulus of the ring: all arithmetic is modulo this value.
    spec fn modulus() -> int;

    /// The canonical bit width of the ring.
    spec fn bits() -> nat;

    /// The canonical representative of this element, in `[0, modulus)`.
    spec fn repr(self) -> int;

    /// The modulus and the bit width fit together.
    proof fn lemma_modulus()
        ensures
            2 <= Self::modulus(),
            1 <= Self::bits() <= 64,
            pow2((Self::bits() - 1) as nat) < Self::modulus(),
            Self::modulus() <= pow2(Self::bits()),
    ;

    /// Every value of the ring carries a canonical representative.
    proof fn lemma_repr(self)
        ensures
            0 <= self.repr() < Self::modulus(),
    ;

    /// The bit width, as a machine value.
    fn num_bits() -> (n: usize)
        ensures
            n as nat == Self::bits(),
    ;

    /// Whether the modulus is exactly `pow2(bits)`; decoding differs
    /// between power-of-two rings and prime fields.
    fn modulus_is_power_of_two() -> (b: bool)
        ensures
            b <==> Self::modulus() == pow2(Self::bits()),
    ;

    /// The largest representative, `modulus - 1`.
    fn max_u64() -> (r: u64)
        ensures
            r as int == Self::modulus() - 1,
    ;

    /// The element with representative `x % modulus`.
    fn from_u64(x: u64) -> (r: Self)
        ensures
            r.repr() == x as int % Self::modulus(),
    ;

    /// The canonical representative, as a machine value.
    fn repr_u64(self) -> (r: u64)
        ensures
            r as int == self.repr(),
    ;

    /// The additive identity.
    fn zero() -> (r: Self)
        ensures
            r.repr() == 0,
    ;

    /// The multiplicative identity.
    fn one() -> (r: Self)
        ensures
            r.repr() == 1,
    ;

    /// Addition modulo `modulus`.
    fn add(self, rhs: Self) -> (r: Self)
        ensures
            r.repr() == (self.repr() + rhs.repr()) % Self::modulus(),
    ;

    /// Subtraction modulo `modulus`.
    fn sub(self, rhs: Self) -> (r: Self)
        ensures
            r.repr() == (self.repr() - rhs.repr()) % Self::modulus(),
    ;

    /// Additive inverse modulo `modulus`.
    fn neg(self) -> (r: Self)
        ensures
            r.repr() == (-self.repr()) % Self::modulus(),
    ;

    /// Multiplication modulo `modulus`.
    fn mul(self, rhs: Self) -> (r: Self)
        ensures
            r.repr() == (self.repr() * rhs.repr()) % Self::modulus(),
    ;
}

} // verus!
