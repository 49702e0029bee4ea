//! Evaluation domains: the powers of a primitive root of unity of order
//! `2^k`, and the number-theoretic transform between the coefficients of a
//! polynomial and its values on such a domain.
//!
//! The root of unity and the transforms come from `ark_ff` and `ark_poly`.
//! The transforms are stated by `ntt` and `intt`: the values of the polynomial
//! at the points of the domain, and the inverse of that map.

use crate::errors::StarkError;
use crate::math::field::{
    all_wf, finv, fmul, fneg, fpow, lemma_field_one, lemma_fpow_step, modulus, reduce, values, Fe,
};
use crate::math::polynomial::{
    is_normal, lemma_normalize, lemma_values_reduced, normalize, poly_eval, Polynomial,
};
use crate::math::transform::lemma_interpolant_takes_values;
use ark_bls12_381::Fr;
use ark_ff::{BigInt, FftField, PrimeField};
use ark_poly::{EvaluationDomain as ArkEvaluationDomain, GeneralEvaluationDomain};
use vstd::prelude::*;

verus! {

/// The largest domain that the field has a root of unity for: `2^32` points.
pub open spec fn max_domain_size() -> nat {
    0x1_0000_0000
}

/// `n` is one of 1, 2, 4, 8, ...
pub open spec fn is_power_of_two(n: nat) -> bool
    decreases n,
{
    n == 1 || (n > 1 && n % 2 == 0 && is_power_of_two(n / 2))
}

/// A size that a domain can have.
pub open spec fn is_domain_size(n: nat) -> bool {
    is_power_of_two(n) && n <= max_domain_size()
}

/// The primitive root of unity of order `n` that `ark_ff` keeps for the
/// field, for `n` a power of two up to `2^32`.
pub uninterp spec fn root_of_unity(n: nat) -> nat;

/// `w` generates a group of exactly `n` elements: its `n`-th power is one,
/// and, where `n` is even, its `n/2`-th power is minus one.
pub open spec fn is_primitive_root(w: nat, n: nat) -> bool {
    &&& w < modulus()
    &&& fpow(w, n) == 1
    &&& n >= 2 ==> fpow(w, n / 2) == fneg(1)
}

/// The values of the polynomial with coefficients `c` at the first `n`
/// powers of `w`.
pub open spec fn ntt(c: Seq<nat>, w: nat, n: nat) -> Seq<nat> {
    Seq::new(n, |i: int| poly_eval(c, fpow(w, i as nat)))
}

/// The inverse transform: the `j`-th coefficient is the sum of
/// `v[i] * w^(-i*j)` over `i`, divided by `n`.
pub open spec fn intt(v: Seq<nat>, w: nat, n: nat) -> Seq<nat> {
    Seq::new(n, |j: int| fmul(finv(reduce(n as int)), poly_eval(v, fpow(finv(w), j as nat))))
}

/// The polynomial of degree below `v.len()` that takes the values `v` on
/// the domain of that size.
pub open spec fn interpolant(v: Seq<nat>) -> Seq<nat> {
    normalize(intt(v, root_of_unity(v.len()), v.len()))
}

/// The coefficients of `x^n - 1`, the polynomial that vanishes on the
/// domain of size `n`.
pub open spec fn vanishing_coefficients(n: nat) -> Seq<nat> {
    Seq::new(
        n + 1,
        |i: int|
            if i == n {
                1
            } else if i == 0 {
                fneg(1)
            } else {
                0
            },
    )
}

/// A multiplicative subgroup of the field with `2^k` elements.
#[derive(Clone, Copy, Debug)]
pub struct EvaluationDomain {
    size: usize,
    generator: Fe,
}

impl EvaluationDomain {
    /// The size is a power of two that the field supports, and the generator
    /// is the field's primitive root of unity of that order.
    pub closed spec fn wf(&self) -> bool {
        &&& is_domain_size(self.size as nat)
        &&& self.generator.wf()
        &&& self.generator@ == root_of_unity(self.size as nat)
        &&& is_primitive_root(self.generator@, self.size as nat)
    }

    /// The number of points.
    pub closed spec fn spec_size(&self) -> nat {
        self.size as nat
    }

    /// The value of the generator.
    pub closed spec fn omega(&self) -> nat {
        self.generator@
    }

    /// What a well-formed domain is made of.
    pub proof fn lemma_wf(&self)
        requires
            self.wf(),
        ensures
            is_domain_size(self.spec_size()),
            self.omega() == root_of_unity(self.spec_size()),
            is_primitive_root(self.omega(), self.spec_size()),
    {
    }

    /// The domain of `size` points.  Only a power of two up to `2^32` is a
    /// size that a domain can have.
    pub fn new(size: usize) -> (r: Result<EvaluationDomain, StarkError>)
        ensures
            r.is_ok() <==> is_domain_size(size as nat),
            r.is_err() ==> r == Err::<EvaluationDomain, StarkError>(
                StarkError::UnsupportedDomainSize,
            ),
            r.is_ok() ==> r.unwrap().wf() && r.unwrap().spec_size() == size,
    {
        if !check_power_of_two(size) || (size as u64) > 0x1_0000_0000u64 {
            return Err(StarkError::UnsupportedDomainSize);
        }
        let generator = primitive_root(size);
        Ok(EvaluationDomain { size, generator })
    }

    /// The number of points.
    pub fn size(&self) -> (n: usize)
        ensures
            n == self.spec_size(),
    {
        self.size
    }

    /// The generator of the domain.
    pub fn generator(&self) -> (w: Fe)
        requires
            self.wf(),
        ensures
            w.wf(),
            w@ == self.omega(),
    {
        self.generator
    }

    /// The `i`-th point of the domain: the `i`-th power of the generator.
    pub fn element(&self, i: usize) -> (x: Fe)
        requires
            self.wf(),
        ensures
            x.wf(),
            x@ == fpow(self.omega(), i as nat),
    {
        self.generator.pow(i as u64)
    }

    /// All points of the domain, in the order of their exponents.
    pub fn elements(&self) -> (points: Vec<Fe>)
        requires
            self.wf(),
        ensures
            points.len() == self.spec_size(),
            all_wf(points@),
            forall|i: int|
                0 <= i < points.len() ==> (#[trigger] points[i])@ == fpow(self.omega(), i as nat),
    {
        let mut points: Vec<Fe> = Vec::new();
        let mut current = Fe::one();
        let mut i: usize = 0;
        proof {
            lemma_field_one(1);
        }
        while i < self.size
            invariant
                i <= self.size,
                self.wf(),
                points.len() == i,
                all_wf(points@),
                current.wf(),
                current@ == fpow(self.generator@, i as nat),
                forall|k: int|
                    0 <= k < i ==> (#[trigger] points[k])@ == fpow(self.generator@, k as nat),
            decreases self.size - i,
        {
            points.push(current);
            proof {
                lemma_fpow_step(self.generator@, i as nat);
            }
            current = current.mul(&self.generator);
            i += 1;
        }
        points
    }

    /// The polynomial `x^n - 1`, whose roots are the points of the domain.
    pub fn vanishing_polynomial(&self) -> (z: Polynomial)
        requires
            self.wf(),
        ensures
            z.wf(),
            z@ == vanishing_coefficients(self.spec_size()),
    {
        let mut coefficients: Vec<Fe> = Vec::new();
        let minus_one = Fe::zero().sub(&Fe::one());
        coefficients.push(minus_one);
        let mut i: usize = 1;
        while i < self.size
            invariant
                1 <= i <= self.size,
                self.wf(),
                coefficients.len() == i,
                all_wf(coefficients@),
                coefficients[0]@ == fneg(1),
                forall|k: int| 1 <= k < i ==> (#[trigger] coefficients[k])@ == 0,
            decreases self.size - i,
        {
            coefficients.push(Fe::zero());
            i += 1;
        }
        coefficients.push(Fe::one());
        proof {
            assert(values(coefficients@) =~= vanishing_coefficients(self.size as nat));
            assert(is_normal(values(coefficients@)));
            lemma_normalize(values(coefficients@));
        }
        Polynomial::new(coefficients)
    }

    /// The values of the polynomial with the given coefficients on the
    /// domain.  There may be no more coefficients than points.
    pub fn fft(&self, coefficients: &Vec<Fe>) -> (evaluations: Vec<Fe>)
        requires
            self.wf(),
            all_wf(coefficients@),
            coefficients.len() <= self.spec_size(),
        ensures
            evaluations.len() == self.spec_size(),
            all_wf(evaluations@),
            values(evaluations@) == ntt(values(coefficients@), self.omega(), self.spec_size()),
    {
        domain_fft(self.size, coefficients)
    }

    /// The coefficients of the polynomial of degree below the size of the
    /// domain that takes the given values on it.
    pub fn ifft(&self, evaluations: &Vec<Fe>) -> (coefficients: Vec<Fe>)
        requires
            self.wf(),
            all_wf(evaluations@),
            evaluations.len() == self.spec_size(),
        ensures
            coefficients.len() == self.spec_size(),
            all_wf(coefficients@),
            values(coefficients@) == intt(values(evaluations@), self.omega(), self.spec_size()),
    {
        domain_ifft(self.size, evaluations)
    }

    /// The polynomial of degree below the size of the domain that takes the
    /// given values on it.
    pub fn interpolate(&self, evaluations: &Vec<Fe>) -> (p: Polynomial)
        requires
            self.wf(),
            all_wf(evaluations@),
            evaluations.len() == self.spec_size(),
        ensures
            p.wf(),
            p@ == interpolant(values(evaluations@)),
            p@.len() <= self.spec_size(),
            ntt(p@, self.omega(), self.spec_size()) == values(evaluations@),
    {
        let coefficients = self.ifft(evaluations);
        proof {
            lemma_normalize(values(coefficients@));
            lemma_values_reduced(evaluations@);
            lemma_interpolant_takes_values(values(evaluations@), *self);
        }
        Polynomial::new(coefficients)
    }
}

impl Polynomial {
    /// The values of the polynomial at all points of the domain, in order.
    pub fn evaluate_over(&self, domain: &EvaluationDomain) -> (evaluations: Vec<Fe>)
        requires
            self.reduced(),
            domain.wf(),
        ensures
            evaluations.len() == domain.spec_size(),
            all_wf(evaluations@),
            values(evaluations@) == ntt(self@, domain.omega(), domain.spec_size()),
    {
        let mut evaluations: Vec<Fe> = Vec::new();
        let mut current = Fe::one();
        let mut i: usize = 0;
        proof {
            lemma_field_one(1);
        }
        while i < domain.size
            invariant
                i <= domain.size,
                self.reduced(),
                domain.wf(),
                evaluations.len() == i,
                all_wf(evaluations@),
                current.wf(),
                current@ == fpow(domain.generator@, i as nat),
                forall|k: int|
                    0 <= k < i ==> (#[trigger] evaluations[k])@ == poly_eval(
                        self@,
                        fpow(domain.generator@, k as nat),
                    ),
            decreases domain.size - i,
        {
            evaluations.push(self.evaluate(current));
            proof {
                lemma_fpow_step(domain.generator@, i as nat);
            }
            current = current.mul(&domain.generator);
            i += 1;
        }
        assert(values(evaluations@) =~= ntt(self@, domain.generator@, domain.size as nat));
        evaluations
    }
}

/// Whether `n` is a power of two.
fn check_power_of_two(n: usize) -> (r: bool)
    ensures
        r == is_power_of_two(n as nat),
{
    let mut m = n;
    while m > 1 && m % 2 == 0
        invariant
            is_power_of_two(m as nat) == is_power_of_two(n as nat),
        decreases m,
    {
        m = m / 2;
    }
    m == 1
}

/// Calls `FftField::get_root_of_unity` of `ark_ff` for `Fr`.  The contract
/// says that for a power of two up to `2^32` the call gives an element of
/// order `n`: its `n`-th power is one and its `n/2`-th power is minus one.
#[verifier::external_body]
fn primitive_root(n: usize) -> (w: Fe)
    requires
        is_domain_size(n as nat),
    ensures
        w.wf(),
        w@ == root_of_unity(n as nat),
        is_primitive_root(w@, n as nat),
{
    let BigInt([l0, l1, l2, l3]) = Fr::get_root_of_unity(n as u64).unwrap().into_bigint();
    Fe { l0, l1, l2, l3 }
}

/// Calls `EvaluationDomain::fft` of `ark_poly` on the domain of `size`
/// points.  The contract says that the result holds, in the order of the
/// exponents, the values of the polynomial at the powers of the root of unity
/// of order `size`.
#[verifier::external_body]
fn domain_fft(size: usize, coefficients: &Vec<Fe>) -> (evaluations: Vec<Fe>)
    requires
        is_domain_size(size as nat),
        all_wf(coefficients@),
        coefficients.len() <= size,
    ensures
        evaluations.len() == size,
        all_wf(evaluations@),
        values(evaluations@) == ntt(values(coefficients@), root_of_unity(size as nat), size as nat),
{
    let domain = GeneralEvaluationDomain::<Fr>::new(size).unwrap();
    let input: Vec<Fr> =
        coefficients.iter().map(|c| Fr::from(BigInt::new([c.l0, c.l1, c.l2, c.l3]))).collect();
    domain.fft(&input).into_iter().map(|x| {
        let BigInt([l0, l1, l2, l3]) = x.into_bigint();
        Fe { l0, l1, l2, l3 }
    }).collect()
}

/// Calls `EvaluationDomain::ifft` of `ark_poly` on the domain of `size`
/// points.  The contract says that the result is the inverse transform of the
/// values: sums over the powers of the inverse of the root of unity, divided
/// by `size`.
#[verifier::external_body]
fn domain_ifft(size: usize, evaluations: &Vec<Fe>) -> (coefficients: Vec<Fe>)
    requires
        is_domain_size(size as nat),
        all_wf(evaluations@),
        evaluations.len() == size,
    ensures
        coefficients.len() == size,
        all_wf(coefficients@),
        values(coefficients@) == intt(values(evaluations@), root_of_unity(size as nat), size as nat),
{
    let domain = GeneralEvaluationDomain::<Fr>::new(size).unwrap();
    let input: Vec<Fr> =
        evaluations.iter().map(|c| Fr::from(BigInt::new([c.l0, c.l1, c.l2, c.l3]))).collect();
    domain.ifft(&input).into_iter().map(|x| {
        let BigInt([l0, l1, l2, l3]) = x.into_bigint();
        Fe { l0, l1, l2, l3 }
    }).collect()
}

} // verus!
