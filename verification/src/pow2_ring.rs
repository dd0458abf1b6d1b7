//! The integer ring `Z_{2^M}` (`M` is the exponent).
//!
//! Arithmetic works with wrapping operations plus a mask, which is sound
//! because `(x mod 2^64) mod 2^M == x mod 2^M` whenever `M <= 64`.
//! Exponents outside `1..=64` would not fit the word size; they are
//! clamped into that range, so every instance is a well-defined ring.

use vstd::prelude::*;

use crate::RingElement;

verus! {

use vstd::arithmetic::div_mod::{
    lemma_add_mod_noop_right,
    lemma_mod_add_multiples_vanish,
    lemma_mod_bound,
    lemma_mod_mod,
    lemma_small_mod,
};
use vstd::arithmetic::power2::{
    lemma2_to64,
    lemma2_to64_rest,
    lemma_pow2_adds,
    lemma_pow2_pos,
    lemma_pow2_strictly_increases,
    pow2,
};
use vstd::bits::{
    lemma_u64_low_bits_mask_is_mod,
    lemma_u64_pow2_no_overflow,
    lemma_u64_shl_is_mul,
    low_bits_mask,
};

/// The effective exponent: `m` clamped into `1..=64`.
pub open spec fn eff_exp(m: u64) -> nat {
    if m < 1 {
        1
    } else if m > 64 {
        64
    } else {
        m as nat
    }
}

/// An element of `Z_{2^M}`.
///
/// The single private field always holds the canonical representative,
/// an integer in `[0, 2^M)`.
#[derive(Clone, Copy, Debug, PartialEq, Eq, PartialOrd, Ord)]
pub struct Zpow2<const M: u64> {
    value: u64,
}

impl<const M: u64> Zpow2<M> {
    /// The representative is always reduced.
    #[verifier::type_invariant]
    pub closed spec fn wf(self) -> bool {
        (self.value as nat) < pow2(eff_exp(M))
    }

    /// The raw field contents; [`RingElement::repr`] normalizes them, so
    /// the canonical representative is well defined for every value.
    pub closed spec fn spec_value(self) -> u64 {
        self.value
    }

    /// The (clamped) exponent as a machine value.
    fn exponent() -> (e: u64)
        ensures
            e as nat == eff_exp(M),
    {
        if M < 1 {
            1
        } else if M > 64 {
            64
        } else {
            M
        }
    }

    /// Compute `mask = 2^M - 1` as a `u64`.
    fn mask() -> (r: u64)
        ensures
            r as nat == low_bits_mask(eff_exp(M)),
            r as int == pow2(eff_exp(M)) - 1,
    {
        let e = Self::exponent();
        proof {
            vstd::bits::lemma_low_bits_mask_values();
            if e < 64 {
                lemma_u64_pow2_no_overflow(e as nat);
                lemma_u64_shl_is_mul(1u64, e);
            } else {
                lemma2_to64_rest();
            }
        }
        if e == 64 {
            u64::MAX
        } else {
            (1u64 << e) - 1
        }
    }

    /// Fast reduction modulo `2^M` using bit operations.
    fn fast_mod(x: u64) -> (r: u64)
        ensures
            r as int == x as int % pow2(eff_exp(M)) as int,
            (r as nat) < pow2(eff_exp(M)),
    {
        let m = Self::mask();
        proof {
            let e = eff_exp(M);
            if e < 64 {
                lemma_u64_pow2_no_overflow(e);
                lemma_u64_low_bits_mask_is_mod(x, e);
                lemma_pow2_pos(e);
                lemma_mod_bound(x as int, pow2(e) as int);
            } else {
                lemma2_to64_rest();
                assert(x & 0xffff_ffff_ffff_ffffu64 == x) by (bit_vector);
                lemma_small_mod(x as nat, pow2(64));
            }
        }
        x & m
    }

    /// Create a new element with representative `value mod 2^M`.
    pub fn new(value: u64) -> (r: Self)
        ensures
            r.repr() == value as int % pow2(eff_exp(M)) as int,
    {
        let v = Self::fast_mod(value);
        proof {
            lemma_pow2_pos(eff_exp(M));
            lemma_small_mod(v as nat, pow2(eff_exp(M)));
        }
        Zpow2 { value: v }
    }

    /// Return the representative in `0 .. 2^M - 1`.
    pub fn value(&self) -> (r: u64)
        ensures
            r as int == self.repr(),
    {
        proof {
            use_type_invariant(self);
            lemma_small_mod(self.value as nat, pow2(eff_exp(M)));
        }
        self.value
    }

    /// This is a ring, not a field: no element has a multiplicative
    /// inverse here, so this is always `None`.
    pub fn inv(self) -> (r: Option<Self>)
        ensures
            r is None,
    {
        None
    }
}

impl<const M: u64> RingElement for Zpow2<M> {
    open spec fn modulus() -> int {
        pow2(eff_exp(M)) as int
    }

    open spec fn bits() -> nat {
        eff_exp(M)
    }

    open spec fn repr(self) -> int {
        self.spec_value() as int % pow2(eff_exp(M)) as int
    }

    proof fn lemma_modulus() {
        let e = eff_exp(M);
        lemma2_to64();
        lemma2_to64_rest();
        lemma_pow2_strictly_increases((e - 1) as nat, e);
        if e > 1 {
            lemma_pow2_strictly_increases(1, e);
        }
    }

    proof fn lemma_repr(self) {
        lemma_pow2_pos(eff_exp(M));
        lemma_mod_bound(self.spec_value() as int, pow2(eff_exp(M)) as int);
    }

    fn num_bits() -> (n: usize) {
        Self::exponent() as usize
    }

    fn modulus_is_power_of_two() -> (b: bool) {
        true
    }

    fn max_u64() -> (r: u64) {
        Self::mask()
    }

    fn from_u64(x: u64) -> (r: Self) {
        Self::new(x)
    }

    fn repr_u64(self) -> (r: u64) {
        proof {
            use_type_invariant(self);
            lemma_small_mod(self.value as nat, pow2(eff_exp(M)));
        }
        self.value
    }

    fn zero() -> (r: Self) {
        proof {
            lemma_pow2_pos(eff_exp(M));
            lemma_small_mod(0, pow2(eff_exp(M)));
        }
        Zpow2 { value: 0 }
    }

    fn one() -> (r: Self) {
        proof {
            let e = eff_exp(M);
            lemma2_to64();
            if e > 1 {
                lemma_pow2_strictly_increases(1, e);
            }
            lemma_small_mod(1, pow2(e));
        }
        Zpow2 { value: 1 }
    }

    fn add(self, rhs: Self) -> (r: Self) {
        proof {
            use_type_invariant(self);
            use_type_invariant(rhs);
            let e = eff_exp(M);
            lemma_small_mod(self.value as nat, pow2(e));
            lemma_small_mod(rhs.value as nat, pow2(e));
            lemma_pow2_adds(e, (64 - e) as nat);
            lemma_pow2_pos(e);
            lemma_pow2_pos((64 - e) as nat);
            lemma2_to64_rest();
            lemma_mod_mod(
                self.value as int + rhs.value as int,
                pow2(e) as int,
                pow2((64 - e) as nat) as int,
            );
            lemma_mod_add_multiples_vanish(
                self.value as int + rhs.value as int - pow2(64),
                pow2(64) as int,
            );
            lemma_mod_bound(self.value as int + rhs.value as int, pow2(64) as int);
            lemma_small_mod(
                (if self.value + rhs.value > u64::MAX {
                    (self.value + rhs.value - pow2(64)) as nat
                } else {
                    (self.value + rhs.value) as nat
                }),
                pow2(64),
            );
        }
        Self::new(self.value.wrapping_add(rhs.value))
    }

    fn sub(self, rhs: Self) -> (r: Self) {
        let n = rhs.neg();
        proof {
            use_type_invariant(self);
            let e = eff_exp(M);
            lemma_small_mod(self.value as nat, pow2(e));
            lemma_add_mod_noop_right(
                self.value as int,
                -(rhs.repr()),
                pow2(e) as int,
            );
        }
        self.add(n)
    }

    fn neg(self) -> (r: Self) {
        proof {
            use_type_invariant(self);
            let e = eff_exp(M);
            lemma_small_mod(self.value as nat, pow2(e));
            lemma_mod_add_multiples_vanish(-(self.value as int), pow2(e) as int);
            if self.value > 0 {
                lemma_small_mod((pow2(e) - self.value) as nat, pow2(e));
            } else {
                lemma_small_mod(0, pow2(e));
            }
        }
        let m = Self::mask();
        if self.value == 0 {
            Zpow2 { value: 0 }
        } else {
            Zpow2 { value: m - self.value + 1 }
        }
    }

    fn mul(self, rhs: Self) -> (r: Self) {
        proof {
            use_type_invariant(self);
            use_type_invariant(rhs);
            let e = eff_exp(M);
            lemma_small_mod(self.value as nat, pow2(e));
            lemma_small_mod(rhs.value as nat, pow2(e));
            lemma_pow2_adds(e, (64 - e) as nat);
            lemma_pow2_pos(e);
            lemma_pow2_pos((64 - e) as nat);
            lemma2_to64_rest();
            lemma_mod_mod(
                self.value as int * rhs.value as int,
                pow2(e) as int,
                pow2((64 - e) as nat) as int,
            );
            lemma_mod_bound(self.value as int * rhs.value as int, pow2(64) as int);
        }
        Self::new(self.value.wrapping_mul(rhs.value))
    }
}

} // verus!
