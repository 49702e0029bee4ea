//! The composition polynomial `H(x) = Z(x) * sum(C_i(x))` over an evaluation
//! domain.
//!
//! `sum(C_i)` is interpolated from the values of the constraints on the
//! trace, and `Z` from the values of `(x - w^0) * (x - w^1) * ...` at the
//! points of the domain.  Each point of the domain is one of the `w^j`, so
//! those values are all zero: `Z`, interpolated over the domain, is the zero
//! polynomial, and so is the product.  A trace is therefore shown to meet
//! nothing by this polynomial alone; the prover of this crate does not use it.

use crate::errors::StarkError;
use crate::math::domain::{interpolant, is_domain_size, ntt, EvaluationDomain};
use crate::math::field::{
    all_wf, fmul, fpow, fsub, lemma_field_one, lemma_field_zero, lemma_fpow_step, values, Fe,
};
use crate::math::polynomial::{
    coeff, degree_of, lemma_normalize, poly_eval, raw_mul, Polynomial,
};
use crate::math::transform::{lemma_interpolant_zeros, padded};
use crate::vm::constraints::ConstraintSystem;
use crate::vm::trace::{ExecutionTrace, Row};
use vstd::prelude::*;

verus! {

/// The product of `x - w^j` over the first `n` exponents `j`.
pub open spec fn vanishing_product(x: nat, w: nat, n: nat) -> nat
    decreases n,
{
    if n == 0 {
        1
    } else {
        fmul(vanishing_product(x, w, (n - 1) as nat), fsub(x, fpow(w, (n - 1) as nat)))
    }
}

/// The product of `x - w^j` is zero once one of the `w^j` is `x`.
pub proof fn lemma_vanishing_product_zero(x: nat, w: nat, n: nat, j: nat)
    requires
        j < n,
        fpow(w, j) == x,
    ensures
        vanishing_product(x, w, n) == 0,
    decreases n,
{
    let before = vanishing_product(x, w, (n - 1) as nat);
    if j == n - 1 {
        lemma_field_zero(x);
        lemma_field_zero(before);
    } else {
        lemma_vanishing_product_zero(x, w, (n - 1) as nat, j);
        lemma_field_zero(fsub(x, fpow(w, (n - 1) as nat)));
    }
}

/// The composition polynomial of a trace and its constraints.
pub struct CompositionPolynomial {
    polynomial: Polynomial,
    domain: EvaluationDomain,
}

impl View for CompositionPolynomial {
    type V = Seq<nat>;

    closed spec fn view(&self) -> Seq<nat> {
        self.polynomial@
    }
}

impl CompositionPolynomial {
    /// The polynomial is well formed and has no more coefficients than its
    /// domain has points.
    pub closed spec fn wf(&self) -> bool {
        &&& self.polynomial.wf()
        &&& self.domain.wf()
        &&& self.polynomial@.len() <= self.domain.spec_size()
    }

    /// The domain that the polynomial is defined over.
    pub closed spec fn domain(&self) -> EvaluationDomain {
        self.domain
    }

    /// The composition polynomial of the trace and the constraints over the
    /// domain, which is the zero polynomial.
    ///
    /// The trace has to be complete and no higher than the domain is large,
    /// every boundary constraint about one of its rows, and, where the domain
    /// is larger than the trace, the height a size that a domain can have.
    pub fn new<T: Fn(&Row, &Row) -> Fe, B: Fn(&Row) -> Fe>(
        trace: &ExecutionTrace,
        constraints: &ConstraintSystem<T, B>,
        domain: EvaluationDomain,
    ) -> (r: Result<Self, StarkError>)
        requires
            constraints.wf(),
            domain.wf(),
        ensures
            r.is_ok() <==> trace.is_complete() && constraints.rows_in_range(trace) && (trace.height
                == domain.spec_size() || (trace.height < domain.spec_size() && is_domain_size(
                trace.height as nat,
            ))),
            r.is_err() ==> r == Err::<Self, StarkError>(
                if trace.is_complete() && constraints.rows_in_range(trace) {
                    StarkError::UnsupportedDomainSize
                } else {
                    StarkError::OutOfRange
                },
            ),
            r.is_ok() ==> r.unwrap().wf() && r.unwrap().domain() == domain && r.unwrap()@
                == Seq::<nat>::empty(),
    {
        let size = domain.size();
        let trace_size = trace.trace.len();
        if trace_size as u64 != trace.height {
            return Err(StarkError::OutOfRange);
        }
        let mut b: usize = 0;
        while b < constraints.boundary_constraints.len()
            invariant
                b <= constraints.boundary_constraints@.len(),
                trace_size == trace.height,
                forall|j: int|
                    0 <= j < b ==> (#[trigger] constraints.boundary_constraints@[j]).row
                        < trace.height,
            decreases constraints.boundary_constraints@.len() - b,
        {
            if constraints.boundary_constraints[b].row >= trace_size as u64 {
                return Err(StarkError::OutOfRange);
            }
            b += 1;
        }
        if trace_size > size {
            return Err(StarkError::UnsupportedDomainSize);
        }
        // The values of the constraints at the points of the trace.
        let mut constraint_evals = zero_values(size);
        let mut i: usize = 0;
        while i < trace_size
            invariant
                i <= trace_size,
                trace_size == trace.trace.len(),
                trace_size <= size,
                constraints.wf(),
                constraint_evals.len() == size,
                all_wf(constraint_evals@),
            decreases trace_size - i,
        {
            let current_row = &trace.trace[i];
            let next_row = &trace.trace[(i + 1) % trace_size];
            let mut k: usize = 0;
            while k < constraints.transition_constraints.len()
                invariant
                    k <= constraints.transition_constraints@.len(),
                    i < size,
                    constraints.wf(),
                    constraint_evals.len() == size,
                    all_wf(constraint_evals@),
                decreases constraints.transition_constraints@.len() - k,
            {
                let f = &constraints.transition_constraints[k].evaluate;
                let eval = f(current_row, next_row);
                let sum = constraint_evals[i].add(&eval);
                constraint_evals.set(i, sum);
                k += 1;
            }
            i += 1;
        }
        let mut b: usize = 0;
        while b < constraints.boundary_constraints.len()
            invariant
                b <= constraints.boundary_constraints@.len(),
                trace_size == trace.trace.len(),
                trace_size == trace.height,
                trace_size <= size,
                constraints.wf(),
                constraints.rows_in_range(trace),
                constraint_evals.len() == size,
                all_wf(constraint_evals@),
            decreases constraints.boundary_constraints@.len() - b,
        {
            let constraint = &constraints.boundary_constraints[b];
            let at = constraint.row as usize;
            let f = &constraint.evaluate;
            let eval = f(&trace.trace[at]);
            let sum = constraint_evals[at].add(&eval);
            constraint_evals.set(at, sum);
            b += 1;
        }
        // Over a larger domain, the values are those of the polynomial
        // interpolated over the trace domain.
        if size > trace_size {
            let trace_domain = match EvaluationDomain::new(trace_size) {
                Ok(d) => d,
                Err(e) => {
                    return Err(e);
                },
            };
            let mut trace_evals: Vec<Fe> = Vec::new();
            let mut i: usize = 0;
            while i < trace_size
                invariant
                    i <= trace_size,
                    trace_size <= constraint_evals.len(),
                    all_wf(constraint_evals@),
                    trace_evals.len() == i,
                    all_wf(trace_evals@),
                decreases trace_size - i,
            {
                trace_evals.push(constraint_evals[i]);
                i += 1;
            }
            let constraint_poly = trace_domain.interpolate(&trace_evals);
            constraint_evals = domain.fft(&constraint_poly.coefficients);
        }
        let constraint_poly = domain.interpolate(&constraint_evals);

        // The values of the vanishing polynomial at the points of the domain.
        let omega = domain.element(1);
        proof {
            domain.lemma_wf();
            lemma_fpow_step(domain.omega(), 0);
            lemma_field_one(domain.omega());
            assert(omega@ == domain.omega());
        }
        let mut z_h_evals: Vec<Fe> = Vec::new();
        let mut i: usize = 0;
        while i < size
            invariant
                i <= size,
                size == domain.spec_size(),
                domain.wf(),
                omega.wf(),
                omega@ == domain.omega(),
                z_h_evals.len() == i,
                all_wf(z_h_evals@),
                forall|k: int| 0 <= k < i ==> (#[trigger] z_h_evals[k])@ == 0,
            decreases size - i,
        {
            let x = domain.element(i);
            let mut product = Fe::one();
            let mut j: usize = 0;
            while j < size
                invariant
                    j <= size,
                    omega.wf(),
                    x.wf(),
                    product.wf(),
                    product@ == vanishing_product(x@, omega@, j as nat),
                decreases size - j,
            {
                let omega_j = omega.pow(j as u64);
                product = product.mul(&x.sub(&omega_j));
                j += 1;
            }
            proof {
                lemma_vanishing_product_zero(x@, omega@, size as nat, i as nat);
            }
            z_h_evals.push(product);
            i += 1;
        }
        let z_h = domain.interpolate(&z_h_evals);
        proof {
            lemma_interpolant_zeros(values(z_h_evals@));
            lemma_normalize(raw_mul(z_h@, constraint_poly@));
        }
        let composition = z_h.multiply(&constraint_poly);
        Ok(Self { polynomial: composition, domain })
    }

    /// The polynomial of degree below the size of the domain that takes the
    /// given values on it.  Values beyond the size of the domain are left
    /// out, and missing ones are taken as zero.
    pub fn from_evaluations(evals: Vec<Fe>, domain: EvaluationDomain) -> (r: Self)
        requires
            all_wf(evals@),
            domain.wf(),
        ensures
            r.wf(),
            r.domain() == domain,
            r@ == interpolant(padded(values(evals@), domain.spec_size())),
    {
        let size = domain.size();
        let mut fitted: Vec<Fe> = Vec::new();
        let mut i: usize = 0;
        while i < size
            invariant
                i <= size,
                all_wf(evals@),
                fitted.len() == i,
                all_wf(fitted@),
                forall|k: int|
                    0 <= k < i ==> (#[trigger] fitted[k])@ == coeff(values(evals@), k),
            decreases size - i,
        {
            let value = if i < evals.len() {
                evals[i]
            } else {
                Fe::zero()
            };
            fitted.push(value);
            i += 1;
        }
        assert(values(fitted@) =~= padded(values(evals@), size as nat));
        let polynomial = domain.interpolate(&fitted);
        Self { polynomial, domain }
    }

    /// The degree of the polynomial.
    pub fn degree(&self) -> (d: usize)
        ensures
            d == degree_of(self@),
    {
        self.polynomial.degree()
    }

    /// The value of the polynomial at a point.
    pub fn evaluate(&self, point: Fe) -> (value: Fe)
        requires
            self.wf(),
            point.wf(),
        ensures
            value.wf(),
            value@ == poly_eval(self@, point@),
    {
        self.polynomial.evaluate(point)
    }

    /// The coefficients of the polynomial, in ascending order of degree.
    pub fn coefficients(&self) -> (coefficients: &[Fe])
        ensures
            values(coefficients@) == self@,
    {
        self.polynomial.coefficients.as_slice()
    }

    /// The values of the polynomial at the points of its domain.
    pub fn evaluations(&self) -> (evaluations: Vec<Fe>)
        requires
            self.wf(),
        ensures
            evaluations.len() == self.domain().spec_size(),
            all_wf(evaluations@),
            values(evaluations@) == ntt(self@, self.domain().omega(), self.domain().spec_size()),
    {
        self.domain.fft(&self.polynomial.coefficients)
    }
}

/// A vector of `n` zeros.
fn zero_values(n: usize) -> (v: Vec<Fe>)
    ensures
        v.len() == n,
        all_wf(v@),
{
    let mut v: Vec<Fe> = Vec::new();
    let mut i: usize = 0;
    while i < n
        invariant
            i <= n,
            v.len() == i,
            all_wf(v@),
        decreases n - i,
    {
        v.push(Fe::zero());
        i += 1;
    }
    v
}

} // verus!
