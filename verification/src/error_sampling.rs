//! Random sampling of ring elements, and the error-sampling capability
//! consumed by key generation and encryption.
//!
//! Two samplers are provided: a naive uniform sampler over a small
//! range, and a discrete-Gaussian sampler backed by an outside
//! implementation.  Nothing is (or can be) promised about the
//! distribution of any sample; the contracts state only what holds of
//! every outcome.

use vstd::prelude::*;

use crate::field::Fp;
use crate::RingElement;

verus! {

/// Scaling constant applied to every error sample.
pub const NOISE_CONST: u64 = 1;

/// Upper bound of the naive uniform error sampler: errors must be of
/// small magnitude for decryption to decode reliably.
pub const NAIVE_NOISE_BOUND: u64 = 10;

/// Relies on `rand::random_range`: a uniformly distributed value in the
/// inclusive range, from the thread-local generator.  It panics only on
/// an empty range, which the precondition rules out.
#[verifier::external_body]
fn rnd_u64(min: u64, max: u64) -> (r: u64)
    requires
        min <= max,
    ensures
        min <= r <= max,
{
    rand::random_range(min..=max)
}

/// A random ring element with representative drawn from `[min, max]`,
/// reduced modulo the ring modulus.
pub fn rnd_ring_elm<R: RingElement>(min: u64, max: u64) -> (r: R)
    requires
        min <= max,
    ensures
        (max as int) < R::modulus() ==> min as int <= r.repr() <= max as int,
{
    let x = rnd_u64(min, max);
    proof {
        R::lemma_modulus();
        if (max as int) < R::modulus() {
            vstd::arithmetic::div_mod::lemma_small_mod(x as nat, R::modulus() as nat);
        }
    }
    R::from_u64(x)
}

/// A random vector of ring elements, entrywise as [`rnd_ring_elm`].
pub fn rnd_dvec<R: RingElement>(size: usize, min: u64, max: u64) -> (r: Vec<R>)
    requires
        min <= max,
    ensures
        r@.len() == size,
        (max as int) < R::modulus() ==> forall|i: int|
            0 <= i < r@.len() ==> min as int <= (#[trigger] r@[i]).repr() <= max as int,
{
    let mut out: Vec<R> = Vec::new();
    for k in 0..size
        invariant
            min <= max,
            out@.len() == k,
            (max as int) < R::modulus() ==> forall|i: int|
                0 <= i < out@.len() ==> min as int <= (#[trigger] out@[i]).repr() <= max as int,
    {
        out.push(rnd_ring_elm(min, max));
    }
    out
}

/// A random matrix of ring elements, entrywise as [`rnd_ring_elm`].
pub fn rnd_dmatrix<R: RingElement>(nrows: usize, ncols: usize, min: u64, max: u64) -> (r: Vec<
    Vec<R>,
>)
    requires
        min <= max,
    ensures
        r@.len() == nrows,
        forall|i: int| 0 <= i < r@.len() ==> (#[trigger] r@[i]@).len() == ncols,
        (max as int) < R::modulus() ==> forall|i: int, j: int|
            0 <= i < r@.len() && 0 <= j < r@[i]@.len() ==> min as int <= (
            #[trigger] r@[i]@[j]).repr() <= max as int,
{
    let mut out: Vec<Vec<R>> = Vec::new();
    for k in 0..nrows
        invariant
            min <= max,
            out@.len() == k,
            forall|i: int| 0 <= i < out@.len() ==> (#[trigger] out@[i]@).len() == ncols,
            (max as int) < R::modulus() ==> forall|i: int, j: int|
                0 <= i < out@.len() && 0 <= j < out@[i]@.len() ==> min as int <= (
                #[trigger] out@[i]@[j]).repr() <= max as int,
    {
        out.push(rnd_dvec(ncols, min, max));
    }
    out
}

/// A random prime-field element with representative in `[min, max]`.
pub fn rnd_fp(min: u64, max: u64) -> (r: Fp)
    requires
        min <= max,
    ensures
        (max as int) < Fp::modulus() ==> min as int <= r.repr() <= max as int,
{
    rnd_ring_elm::<Fp>(min, max)
}

/// The error-sampling capability: produces ring elements of small
/// magnitude.  Pluggable without touching the GSW logic.
///
/// Do not use this for sampling general random numbers: the domain of
/// the error samplers is restricted.
pub trait ErrorSampling<R: RingElement> {
    /// Draw one error element.
    fn rnd_error_elm(&self) -> (r: R);

    /// Draw a vector of `size` error elements.
    fn rnd_error_dvec(&self, size: usize) -> (r: Vec<R>)
        ensures
            r@.len() == size,
    ;
}

/// A naive error value: representative bounded by the sampler's range
/// times the noise constant.
pub open spec fn naive_error_ok<R: RingElement>(x: R) -> bool {
    0 <= x.repr() <= NAIVE_NOISE_BOUND as int * NOISE_CONST as int
}

/// Every entry is a bounded naive error value.
pub open spec fn naive_errors_ok<R: RingElement>(v: Vec<R>) -> bool {
    forall|i: int| 0 <= i < v@.len() ==> naive_error_ok(#[trigger] v@[i])
}

/// The naive sampler: uniform over `[0, NAIVE_NOISE_BOUND]`, scaled by
/// [`NOISE_CONST`].
pub struct NaiveSampler;

impl<R: RingElement> ErrorSampling<R> for NaiveSampler {
    fn rnd_error_elm(&self) -> (r: R)
        ensures
            naive_error_ok::<R>(r),
    {
        proof {
            R::lemma_modulus();
        }
        let noise_const = R::from_u64(NOISE_CONST);
        let e: R = rnd_ring_elm(0, NAIVE_NOISE_BOUND);
        let r = e.mul(noise_const);
        proof {
            R::lemma_repr(e);
            vstd::arithmetic::div_mod::lemma_small_mod(1, R::modulus() as nat);
            assert(e.repr() * noise_const.repr() == e.repr()) by (nonlinear_arith)
                requires
                    noise_const.repr() == 1,
            ;
            vstd::arithmetic::div_mod::lemma_small_mod(e.repr() as nat, R::modulus() as nat);
        }
        r
    }

    fn rnd_error_dvec(&self, size: usize) -> (r: Vec<R>)
        ensures
            naive_errors_ok::<R>(r),
    {
        let mut out: Vec<R> = Vec::new();
        for k in 0..size
            invariant
                out@.len() == k,
                forall|i: int| 0 <= i < out@.len() ==> naive_error_ok(#[trigger] out@[i]),
        {
            out.push(<Self as ErrorSampling<R>>::rnd_error_elm(self));
        }
        out
    }
}

#[verifier::external_type_specification]
#[verifier::external_body]
pub struct ExDiscreteGaussian(prio::dp::distributions::DiscreteGaussian);

/// The discrete-Gaussian sampler, parameterized by a rational standard
/// deviation, backed by an outside implementation of the distribution.
pub struct DiscrGaussianSampler {
    sampler: prio::dp::distributions::DiscreteGaussian,
}

impl DiscrGaussianSampler {
    /// Relies on `prio::dp::Rational::from_unsigned`, which fails
    /// exactly on a zero denominator, and on
    /// `prio::dp::distributions::DiscreteGaussian::new`, which fails
    /// exactly on a rational with zero denominator (which
    /// `from_unsigned` never produces).
    #[verifier::external_body]
    fn new_gaussian(numer: u64, denom: u64) -> (r: Option<
        prio::dp::distributions::DiscreteGaussian,
    >)
        ensures
            r is Some <==> denom != 0,
    {
        match prio::dp::Rational::from_unsigned(numer, denom) {
            Ok(std) => match prio::dp::distributions::DiscreteGaussian::new(std) {
                Ok(g) => Some(g),
                Err(_) => None,
            },
            Err(_) => None,
        }
    }

    /// A sampler with standard deviation `numer / denom`; `None`
    /// exactly when the denominator is zero.
    pub fn new(numer: u64, denom: u64) -> (r: Option<DiscrGaussianSampler>)
        ensures
            r is Some <==> denom != 0,
    {
        match Self::new_gaussian(numer, denom) {
            Some(g) => Some(DiscrGaussianSampler { sampler: g }),
            None => None,
        }
    }

    /// A sampler with standard deviation 2 (a serviceable default, not
    /// a calibrated one).
    pub fn default() -> (r: DiscrGaussianSampler) {
        match Self::new(2, 1) {
            Some(g) => g,
            None => unreached(),
        }
    }

    /// Relies on `DiscreteGaussian`'s `Distribution<BigInt>` sampling
    /// implementation; returns the sign and the magnitude truncated to
    /// its low 64-bit digit (an empty digit list means zero).  The
    /// result is random, so nothing is promised about it.
    #[verifier::external_body]
    fn sample_signed(&self) -> (r: (bool, u64)) {
        let mut rng = rand::rng();
        let s: num_bigint::BigInt = rand::distr::Distribution::sample(&self.sampler, &mut rng);
        let (sign, digits) = s.to_u64_digits();
        let mag: u64 = match digits.first() {
            Some(d) => *d,
            None => 0,
        };
        (matches!(sign, num_bigint::Sign::Minus), mag)
    }
}

/// The canonical representative of a signed error sample: the
/// magnitude scaled by [`NOISE_CONST`], negated when the sign says so,
/// all modulo `m`.
pub open spec fn signed_error_model(neg: bool, mag: u64, m: int) -> int {
    let v = ((mag as int % m) * (NOISE_CONST as int % m)) % m;
    if neg {
        (-v) % m
    } else {
        v
    }
}

/// A value that some drawn sign and magnitude explain.
pub open spec fn is_signed_error<R: RingElement>(x: R) -> bool {
    exists|neg: bool, mag: u64| x.repr() == #[trigger] signed_error_model(neg, mag, R::modulus())
}

/// Every entry is explained by some drawn sign and magnitude.
pub open spec fn signed_errors_ok<R: RingElement>(v: Vec<R>) -> bool {
    forall|i: int| 0 <= i < v@.len() ==> is_signed_error(#[trigger] v@[i])
}

/// Turn a drawn sign and magnitude into a ring error value.
pub fn error_from_sample<R: RingElement>(neg: bool, mag: u64) -> (r: R)
    ensures
        r.repr() == signed_error_model(neg, mag, R::modulus()),
{
    let noise_const = R::from_u64(NOISE_CONST);
    let v = R::from_u64(mag).mul(noise_const);
    if neg {
        v.neg()
    } else {
        v
    }
}

impl<R: RingElement> ErrorSampling<R> for DiscrGaussianSampler {
    fn rnd_error_elm(&self) -> (r: R)
        ensures
            is_signed_error::<R>(r),
    {
        let (neg, mag) = self.sample_signed();
        let r: R = error_from_sample(neg, mag);
        proof {
            assert(r.repr() == signed_error_model(neg, mag, R::modulus()));
        }
        r
    }

    fn rnd_error_dvec(&self, size: usize) -> (r: Vec<R>)
        ensures
            signed_errors_ok::<R>(r),
    {
        let mut out: Vec<R> = Vec::new();
        for k in 0..size
            invariant
                out@.len() == k,
                forall|i: int| 0 <= i < out@.len() ==> is_signed_error(#[trigger] out@[i]),
        {
            out.push(<Self as ErrorSampling<R>>::rnd_error_elm(self));
        }
        out
    }
}

} // verus!
