//! The prime field `Z_P` for the 31-bit prime `P = 2147483647`.
//!
//! This is the prime-field instance of the ring capability: arithmetic is
//! modulo `P`, the canonical bit width is 31, and every element carries a
//! canonical representative in `[0, P)`.

use vstd::prelude::*;

use crate::RingElement;

verus! {

use vstd::arithmetic::div_mod::{
    lemma_mod_add_multiples_vanish,
    lemma_mod_bound,
    lemma_mul_mod_noop_left,
    lemma_mul_mod_noop_right,
    lemma_small_mod,
    lemma_sub_mod_noop,
    lemma_sub_mod_noop_right,
};
use vstd::arithmetic::mul::lemma_mul_upper_bound;
use vstd::arithmetic::power2::{lemma2_to64, pow2};

/// The field modulus, a Mersenne prime: `P = 2^31 - 1`.
pub const P: u64 = 2147483647;

/// An element of the prime field `Z_P`.
///
/// The single private field always holds the canonical representative,
/// an integer in `[0, P)`.
#[derive(Clone, Copy, Debug, PartialEq, Eq, Structural)]
pub struct Fp {
    value: u64,
}

impl Fp {
    /// The representative is always reduced.
    #[verifier::type_invariant]
    pub closed spec fn wf(self) -> bool {
        self.value < P
    }

    /// The raw field contents; [`RingElement::repr`] normalizes them, so
    /// the canonical representative is well defined for every value.
    pub closed spec fn spec_value(self) -> u64 {
        self.value
    }


}

/// The greatest common divisor, by the Euclidean recursion.
pub open spec fn gcd(a: nat, b: nat) -> nat
    decreases b,
{
    if b == 0 {
        a
    } else {
        gcd(b, a % b)
    }
}

impl Fp {
    /// The multiplicative inverse, by the extended Euclidean
    /// algorithm: `Some` exactly when the representative is coprime to
    /// `P`.  Since `P` is prime, that is every nonzero element.
    pub fn invert(self) -> (r: Option<Fp>)
        ensures
            r is Some <==> gcd(P as nat, self.repr() as nat) == 1,
            r matches Some(x) ==> (self.repr() * x.repr()) % (P as int) == 1,
    {
        proof {
            use_type_invariant(self);
            lemma_small_mod(self.value as nat, P as nat);
        }
        let a = self.value;
        let mut r0: u64 = P;
        let mut r1: u64 = a;
        let mut x0: u64 = 0;
        let mut x1: u64 = 1;
        proof {
            lemma_small_mod(0, P as nat);
            vstd::arithmetic::div_mod::lemma_mod_self_0(P as int);
        }
        while r1 != 0
            invariant
                a < P,
                r0 <= P,
                r1 < P,
                x0 < P,
                x1 < P,
                gcd(r0 as nat, r1 as nat) == gcd(P as nat, a as nat),
                (a as int * x0 as int - r0 as int) % (P as int) == 0,
                (a as int * x1 as int - r1 as int) % (P as int) == 0,
            decreases r1,
        {
            let q = r0 / r1;
            let r2 = r0 % r1;
            let qm = q % P;
            proof {
                assert(qm < P);
                lemma_mul_upper_bound(qm as int, P as int - 1, x1 as int, P as int - 1);
                assert((qm as int) * (x1 as int) <= (P as int - 1) * (P as int - 1));
            }
            let t = (qm * x1) % P;
            let x2 = (x0 + P - t) % P;
            proof {
                let p = P as int;
                let ai = a as int;
                let qi = q as int;
                let u = x0 as int - qi * (x1 as int);
                // x2 is congruent to x0 - q * x1
                assert(t as int == (qi * (x1 as int)) % p) by {
                    lemma_mul_mod_noop_left(qi, x1 as int, p);
                }
                assert(x2 as int == u % p) by {
                    lemma_sub_mod_noop_right(x0 as int + p, qi * (x1 as int), p);
                    lemma_mod_add_multiples_vanish(x0 as int - t as int, p);
                    lemma_mod_add_multiples_vanish(x0 as int - qi * (x1 as int), p);
                    lemma_mod_bound(u, p);
                    lemma_small_mod((x2 as int) as nat, P as nat);
                }
                // a * x2 is congruent to r0 - q * r1, which is r2
                assert((ai * (x2 as int)) % p == (ai * u) % p) by {
                    lemma_mul_mod_noop_right(ai, u, p);
                }
                assert(ai * u == ai * (x0 as int) - qi * (ai * (x1 as int)))
                    by (nonlinear_arith)
                    requires
                        u == x0 as int - qi * (x1 as int),
                ;
                assert((qi * (ai * (x1 as int) - r1 as int)) % p == 0) by {
                    lemma_mul_mod_noop_right(qi, ai * (x1 as int) - r1 as int, p);
                }
                assert((ai * u - (r0 as int - qi * (r1 as int))) % p == 0) by {
                    let d0 = ai * (x0 as int) - r0 as int;
                    let d1 = ai * (x1 as int) - r1 as int;
                    assert(ai * u - (r0 as int - qi * (r1 as int)) == d0 - qi * d1)
                        by (nonlinear_arith)
                        requires
                            ai * u == ai * (x0 as int) - qi * (ai * (x1 as int)) && d0 == ai
                                * (x0 as int) - r0 as int && d1 == ai * (x1 as int)
                                - r1 as int,
                    ;
                    lemma_sub_mod_noop(d0, qi * d1, p);
                    assert((qi * d1) % p == 0);
                }
                assert(r2 as int == r0 as int - qi * (r1 as int)) by {
                    vstd::arithmetic::div_mod::lemma_fundamental_div_mod(r0 as int, r1 as int);
                }
                assert((ai * (x2 as int) - r2 as int) % p == 0) by {
                    lemma_sub_mod_noop(ai * u, r0 as int - qi * (r1 as int), p);
                    lemma_sub_mod_noop(ai * (x2 as int), r2 as int, p);
                }
                // the Euclidean step preserves the gcd, by definition
                assert(gcd(r0 as nat, r1 as nat) == gcd(r1 as nat, r2 as nat));
            }
            r0 = r1;
            r1 = r2;
            x0 = x1;
            x1 = x2;
        }
        if r0 == 1 {
            proof {
                let p = P as int;
                assert(gcd(r0 as nat, 0) == r0 as nat);
                assert((self.repr() * (x0 as int)) % p == 1) by {
                    let y = self.repr() * (x0 as int);
                    assert((y - 1) % p == 0);
                    lemma_sub_mod_noop(y, 1, p);
                    lemma_small_mod(1, P as nat);
                    lemma_mod_bound(y, p);
                    if y % p == 0 {
                        lemma_mod_add_multiples_vanish(-1, p);
                        lemma_small_mod((P - 1) as nat, P as nat);
                        assert(false);
                    } else {
                        lemma_small_mod((y % p - 1) as nat, P as nat);
                    }
                }
                lemma_small_mod(x0 as nat, P as nat);
            }
            Some(Fp { value: x0 })
        } else {
            proof {
                assert(gcd(r0 as nat, 0) == r0 as nat);
            }
            None
        }
    }
}

impl RingElement for Fp {
    open spec fn modulus() -> int {
        P as int
    }

    open spec fn bits() -> nat {
        31
    }

    open spec fn repr(self) -> int {
        self.spec_value() as int % P as int
    }

    proof fn lemma_modulus() {
        lemma2_to64();
    }

    proof fn lemma_repr(self) {
        lemma_mod_bound(self.spec_value() as int, P as int);
    }

    fn num_bits() -> (n: usize) {
        31
    }

    fn modulus_is_power_of_two() -> (b: bool) {
        proof {
            lemma2_to64();
        }
        false
    }

    fn max_u64() -> (r: u64) {
        P - 1
    }

    fn from_u64(x: u64) -> (r: Self) {
        let v = x % P;
        proof {
            lemma_small_mod(v as nat, P as nat);
        }
        Fp { value: v }
    }

    fn repr_u64(self) -> (r: u64) {
        proof {
            use_type_invariant(self);
            lemma_small_mod(self.value as nat, P as nat);
        }
        self.value
    }

    fn zero() -> (r: Self) {
        proof {
            lemma_small_mod(0, P as nat);
        }
        Fp { value: 0 }
    }

    fn one() -> (r: Self) {
        proof {
            lemma_small_mod(1, P as nat);
        }
        Fp { value: 1 }
    }

    fn add(self, rhs: Self) -> (r: Self) {
        proof {
            use_type_invariant(self);
            use_type_invariant(rhs);
            lemma_small_mod(self.value as nat, P as nat);
            lemma_small_mod(rhs.value as nat, P as nat);
        }
        let v = (self.value + rhs.value) % P;
        proof {
            lemma_small_mod(v as nat, P as nat);
        }
        Fp { value: v }
    }

    fn sub(self, rhs: Self) -> (r: Self) {
        proof {
            use_type_invariant(self);
            use_type_invariant(rhs);
            lemma_small_mod(self.value as nat, P as nat);
            lemma_small_mod(rhs.value as nat, P as nat);
            lemma_mod_add_multiples_vanish(self.value as int - rhs.value as int, P as int);
        }
        let v = (self.value + P - rhs.value) % P;
        proof {
            lemma_small_mod(v as nat, P as nat);
        }
        Fp { value: v }
    }

    fn neg(self) -> (r: Self) {
        proof {
            use_type_invariant(self);
            lemma_small_mod(self.value as nat, P as nat);
            lemma_mod_add_multiples_vanish(-(self.value as int), P as int);
        }
        let v = (P - self.value) % P;
        proof {
            lemma_small_mod(v as nat, P as nat);
        }
        Fp { value: v }
    }

    fn mul(self, rhs: Self) -> (r: Self) {
        proof {
            use_type_invariant(self);
            use_type_invariant(rhs);
            lemma_small_mod(self.value as nat, P as nat);
            lemma_small_mod(rhs.value as nat, P as nat);
            lemma_mul_upper_bound(self.value as int, P as int - 1, rhs.value as int, P as int - 1);
        }
        let v = (self.value * rhs.value) % P;
        proof {
            lemma_small_mod(v as nat, P as nat);
        }
        Fp { value: v }
    }
}

} // verus!
