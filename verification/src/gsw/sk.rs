//! The GSW secret key.

use vstd::prelude::*;

use crate::gsw::gsw::{build_gadget_vector, pow2_expand_int, powers_of_2};
use crate::linalg::reprs;
use crate::RingElement;

verus! {

use vstd::arithmetic::power2::pow2;

/// Contains all components of a private key:
/// `t`, an `n`-dimensional random vector;
/// `s = (1, -t_1, -t_2, ...)`;
/// `v = PowersOf2(s)`.
///
/// `s` and `v` are fully determined by `t`; see [`GswSk::wf`].
pub struct GswSk<R: RingElement> {
    pub t: Vec<R>,
    pub s: Vec<R>,
    pub v: Vec<R>,
}

impl<R: RingElement> GswSk<R> {
    /// The key's invariant: `s` extends `-t` by a leading one, and `v`
    /// is the powers-of-two expansion of `s`.
    pub open spec fn wf(&self) -> bool {
        &&& self.s@.len() == self.t@.len() + 1
        &&& self.v@.len() == self.s@.len() * R::bits()
        &&& self.s@[0].repr() == 1
        &&& forall|i: int|
            0 <= i < self.t@.len() ==> (#[trigger] self.s@[i + 1]).repr() == (-self.t@[i].repr())
                % R::modulus()
        &&& reprs(self.v@) == pow2_expand_int(reprs(self.s@), R::bits(), R::modulus())
    }

    /// Assemble the key for the secret vector `t`.
    pub fn new(t: Vec<R>) -> (r: Self)
        ensures
            r.wf(),
            r.t@ == t@,
    {
        proof {
            R::lemma_modulus();
        }
        let mut s: Vec<R> = Vec::new();
        s.push(R::one());
        let n = t.len();
        for i in 0..n
            invariant
                n == t@.len(),
                s@.len() == i + 1,
                s@[0].repr() == 1,
                forall|k: int|
                    0 <= k < i ==> (#[trigger] s@[k + 1]).repr() == (-t@[k].repr())
                        % R::modulus(),
        {
            s.push(t[i].neg());
        }
        let gadget = build_gadget_vector::<R>();
        let v = powers_of_2(&s, &gadget);
        proof {
            assert(reprs(v@) =~= pow2_expand_int(reprs(s@), R::bits(), R::modulus())) by {
                assert forall|k: int| 0 <= k < v@.len() implies reprs(v@)[k] == pow2_expand_int(
                    reprs(s@),
                    R::bits(),
                    R::modulus(),
                )[k] by {
                    let wi = R::bits() as int;
                    vstd::arithmetic::div_mod::lemma_mod_bound(k, wi);
                    vstd::arithmetic::div_mod::lemma_div_pos_is_pos(k, wi);
                    assert(v@.len() == wi * (s@.len() as int)) by (nonlinear_arith)
                        requires
                            v@.len() == s@.len() * R::bits() && wi == R::bits(),
                    ;
                    vstd::arithmetic::div_mod::lemma_multiply_divide_lt(
                        k,
                        wi,
                        s@.len() as int,
                    );
                    assert(gadget@[k % wi].repr() == pow2((k % wi) as nat));
                }
            }
        }
        GswSk { t, s, v }
    }
}

} // verus!
