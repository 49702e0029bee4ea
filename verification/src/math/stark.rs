//! The STARK prover and verifier.
//!
//! The prover interpolates every constraint over the trace domain, sums the
//! polynomials into the combined constraint `C`, divides `C` by the vanishing
//! polynomial `Z` of the trace domain, and folds the values of the quotient
//! `Q` on a larger domain until few enough of them are left.  The verifier
//! samples points of the larger domain, checks `Q * Z == C` at each, and
//! replays the folds.
//!
//! How much larger the evaluation domain is, how many points the verifier
//! samples and where the folding stops are set by a `StarkConfig`; by default
//! the domain is twice as large as the trace is high, 80 points are sampled,
//! and folding stops at four values.
//!
//! The proof carries `C` and `Q` themselves: it is neither zero-knowledge nor
//! succinct.  Unless a source is given, the challenges of the folds and the
//! points of the queries are drawn from the thread's random number generator.

use crate::errors::StarkError;
use crate::math::domain::{
    is_domain_size, ntt, root_of_unity, vanishing_coefficients, EvaluationDomain,
};
use crate::math::field::{all_wf, fmul, fpow, lemma_field_zero, values, Fe};
use crate::math::fri::{
    fri_commit, fri_fold, folds_to, is_challenge_source, lemma_power_of_two_folds_down,
};
use crate::math::polynomial::{
    is_division, lemma_normalize, lemma_values_reduced, poly_add, poly_eval, raw_add, Polynomial,
};
use crate::math::transform::lemma_interpolation_recovers_polynomial;
use crate::vm::constraints::ConstraintSystem;
use crate::vm::trace::{ExecutionTrace, Row};
use vstd::prelude::*;

verus! {

/// The ratio of the size of the evaluation domain to the height of the
/// trace, unless it is set otherwise.
pub const BLOWUP: usize = 2;

/// The number of points at which the verifier checks the quotient, unless it
/// is set otherwise.
pub const VERIFIER_QUERIES: usize = 80;

/// Folding stops at a layer of at most this many values, unless it is set
/// otherwise.
pub const FRI_FINAL_LAYER_SIZE: usize = 4;

/// The parameters of the protocol.
#[derive(Clone, Copy, Debug, PartialEq, Eq, Structural)]
pub struct StarkConfig {
    /// The ratio of the size of the evaluation domain to the height of the
    /// trace: a power of two, and at least two.
    pub blowup: usize,
    /// The number of points at which the verifier checks the quotient.
    pub verifier_queries: usize,
    /// Folding stops at a layer of at most this many values.  With zero,
    /// folding cannot stop: a layer of one value cannot be folded.
    pub fri_final_layer_size: usize,
}

impl Default for StarkConfig {
    /// A blowup of 2, 80 queries, and folding down to 4 values.
    fn default() -> (config: Self)
        ensures
            config == default_config(),
    {
        StarkConfig {
            blowup: BLOWUP,
            verifier_queries: VERIFIER_QUERIES,
            fri_final_layer_size: FRI_FINAL_LAYER_SIZE,
        }
    }
}

/// The parameters that are used where none are given.
pub open spec fn default_config() -> StarkConfig {
    StarkConfig {
        blowup: BLOWUP,
        verifier_queries: VERIFIER_QUERIES,
        fri_final_layer_size: FRI_FINAL_LAYER_SIZE,
    }
}

/// The size of the evaluation domain for a trace of `trace_len` rows.
pub open spec fn evaluation_size(blowup: usize, trace_len: nat) -> nat {
    blowup as nat * trace_len
}

/// The sum of a sequence of polynomials, taken from the first to the last.
pub open spec fn poly_sum(polynomials: Seq<Seq<nat>>) -> Seq<nat>
    decreases polynomials.len(),
{
    if polynomials.len() == 0 {
        Seq::empty()
    } else {
        poly_add(poly_sum(polynomials.drop_last()), polynomials.last())
    }
}

/// `quotient` is what is left of `p` after division by `divisor`: `p` is
/// `quotient * divisor` plus a remainder with fewer coefficients than the
/// divisor.
pub open spec fn is_quotient(quotient: Seq<nat>, p: Seq<nat>, divisor: Seq<nat>) -> bool {
    exists|remainder: Seq<nat>| #[trigger] is_division(p, divisor, quotient, remainder)
}

/// A sum of polynomials with at most `n` coefficients each has at most `n`.
pub proof fn lemma_poly_sum_len(polynomials: Seq<Seq<nat>>, n: nat)
    requires
        forall|k: int| 0 <= k < polynomials.len() ==> (#[trigger] polynomials[k]).len() <= n,
    ensures
        poly_sum(polynomials).len() <= n,
    decreases polynomials.len(),
{
    if polynomials.len() > 0 {
        lemma_poly_sum_len(polynomials.drop_last(), n);
        lemma_normalize(raw_add(poly_sum(polynomials.drop_last()), polynomials.last()));
    }
}

/// A sum of zero polynomials is the zero polynomial.
pub proof fn lemma_poly_sum_zero(polynomials: Seq<Seq<nat>>)
    requires
        forall|k: int| 0 <= k < polynomials.len() ==> (#[trigger] polynomials[k]).len() == 0,
    ensures
        poly_sum(polynomials).len() == 0,
{
    lemma_poly_sum_len(polynomials, 0);
}

/// A product with a factor above a bound divided by the other factor is above
/// the bound.
proof fn lemma_product_beyond(a: nat, b: nat, bound: nat)
    requires
        b >= 1,
        a > bound / b,
    ensures
        b * a > bound,
{
    vstd::arithmetic::div_mod::lemma_fundamental_div_mod(bound as int, b as int);
    vstd::arithmetic::div_mod::lemma_mod_bound(bound as int, b as int);
    assert(b * a >= b * (bound / b + 1)) by (nonlinear_arith)
        requires
            a >= bound / b + 1,
    ;
    assert(b * (bound / b + 1) == b * (bound / b) + b) by (nonlinear_arith);
}

/// A product with a factor of at most a bound divided by the other factor is
/// at most the bound.
proof fn lemma_product_within(a: nat, b: nat, bound: nat)
    requires
        b >= 1,
        a <= bound / b,
    ensures
        b * a <= bound,
        a * b <= bound,
{
    vstd::arithmetic::div_mod::lemma_fundamental_div_mod(bound as int, b as int);
    vstd::arithmetic::div_mod::lemma_mod_bound(bound as int, b as int);
    assert(b * a <= b * (bound / b)) by (nonlinear_arith)
        requires
            a <= bound / b,
    ;
    assert(a * b == b * a) by (nonlinear_arith);
}

/// The consistency equation `Q(x) * Z(x) == C(x)` at the point `x`, where `Z`
/// vanishes on the trace domain of `trace_len` points.
pub open spec fn consistent_at(quotient: Seq<nat>, combined: Seq<nat>, trace_len: nat, x: nat)
    -> bool {
    fmul(poly_eval(quotient, x), poly_eval(vanishing_coefficients(trace_len), x)) == poly_eval(
        combined,
        x,
    )
}

/// A STARK proof.
pub struct StarkProof {
    /// The values of the quotient polynomial on the evaluation domain.
    pub quotient_eval_domain: Vec<Fe>,
    /// The layers of the folding, the values of the quotient first.
    pub fri_layers: Vec<Vec<Fe>>,
    /// The challenge of each fold.
    pub fri_challenges: Vec<Fe>,
    /// The sum of the polynomials of all constraints.
    pub combined_constraint: Polynomial,
    /// The quotient of the combined constraint by the vanishing polynomial.
    pub quotient_poly: Polynomial,
}

impl StarkProof {
    /// Every field element of the proof is canonical.
    pub open spec fn wf(&self) -> bool {
        &&& all_wf(self.quotient_eval_domain@)
        &&& all_wf(self.fri_challenges@)
        &&& forall|i: int| 0 <= i < self.fri_layers@.len() ==> all_wf((#[trigger] self.fri_layers@[i])@)
        &&& self.combined_constraint.reduced()
        &&& self.quotient_poly.reduced()
    }

    /// The values of layer `i`.
    pub open spec fn layer(&self, i: int) -> Seq<nat> {
        values(self.fri_layers@[i]@)
    }

    /// What fold `i` starts from: the values of the quotient for the first
    /// fold, and the layer recorded before it for every later one.
    pub open spec fn fold_input(&self, i: int) -> Seq<nat> {
        if i == 0 {
            values(self.quotient_eval_domain@)
        } else {
            self.layer(i)
        }
    }

    /// Fold `i` is recorded correctly: the layer after it is there and is the
    /// fold of what it starts from.
    pub open spec fn fold_holds(&self, i: int) -> bool {
        i + 1 < self.fri_layers@.len() && folds_to(
            self.fold_input(i),
            self.fri_challenges@[i]@,
            self.layer(i + 1),
        )
    }

    /// Every recorded fold replays.
    pub open spec fn fri_consistent(&self) -> bool {
        forall|i: int| 0 <= i < self.fri_challenges@.len() ==> self.fold_holds(i)
    }

    /// The consistency equation holds at point `i` of the evaluation domain
    /// of a trace of `trace_len` rows.
    pub open spec fn query_holds(&self, blowup: usize, trace_len: nat, i: nat) -> bool {
        consistent_at(
            self.quotient_poly@,
            self.combined_constraint@,
            trace_len,
            fpow(root_of_unity(evaluation_size(blowup, trace_len)), i),
        )
    }
}

/// The heights of trace that the prover and the verifier can work on with a
/// blowup: the blowup is at least two, and the trace domain and the
/// evaluation domain both exist.
pub open spec fn is_provable_height(blowup: usize, height: nat) -> bool {
    &&& blowup >= 2
    &&& is_domain_size(height)
    &&& is_domain_size(evaluation_size(blowup, height))
    &&& evaluation_size(blowup, height) <= usize::MAX
}

/// The prover: a trace and the constraints it is to be shown to meet.
pub struct StarkProver<'a, T, B> {
    trace: &'a ExecutionTrace,
    constraints: &'a ConstraintSystem<T, B>,
    config: StarkConfig,
}

impl<'a, T: Fn(&Row, &Row) -> Fe, B: Fn(&Row) -> Fe> StarkProver<'a, T, B> {
    /// The trace of the prover.
    pub closed spec fn trace(&self) -> &ExecutionTrace {
        self.trace
    }

    /// The constraints of the prover.
    pub closed spec fn constraints(&self) -> &ConstraintSystem<T, B> {
        self.constraints
    }

    /// The parameters of the prover.
    pub closed spec fn config(&self) -> StarkConfig {
        self.config
    }

    /// The combined constraint: the sum of the polynomials of all
    /// constraints.
    pub open spec fn combined(&self) -> Seq<nat> {
        poly_sum(self.constraints().interpolants(self.trace()))
    }

    /// The trace meets the constraints: there are none, or it is complete,
    /// every boundary constraint is about one of its rows, and every
    /// evaluation is zero.
    pub open spec fn meets_constraints(&self) -> bool {
        self.constraints().interpolants(self.trace()).len() == 0 || (self.trace().is_complete()
            && self.constraints().rows_in_range(self.trace()) && self.constraints().satisfied_by(
            self.trace(),
        ))
    }

    /// The number of points of the evaluation domain.
    pub open spec fn extended_size(&self) -> nat {
        evaluation_size(self.config().blowup, self.trace().height as nat)
    }

    /// A prover for the trace and the constraints, with the default
    /// parameters.
    pub fn new(trace: &'a ExecutionTrace, constraints: &'a ConstraintSystem<T, B>) -> (prover: Self)
        ensures
            prover.trace() == trace,
            prover.constraints() == constraints,
            prover.config() == default_config(),
    {
        Self { trace, constraints, config: StarkConfig::default() }
    }

    /// A prover for the trace and the constraints, with the parameters
    /// given.
    pub fn with_config(
        trace: &'a ExecutionTrace,
        constraints: &'a ConstraintSystem<T, B>,
        config: StarkConfig,
    ) -> (prover: Self)
        ensures
            prover.trace() == trace,
            prover.constraints() == constraints,
            prover.config() == config,
    {
        Self { trace, constraints, config }
    }

    /// Where there are constraints, the trace is complete and every boundary
    /// constraint is about one of its rows.
    pub open spec fn can_interpolate(&self) -> bool {
        self.constraints().interpolants(self.trace()).len() == 0 || (self.trace().is_complete()
            && self.constraints().rows_in_range(self.trace()))
    }

    /// The trace can be proved about: its height is a size that both domains
    /// can have, the constraints can be interpolated over it, and folding
    /// stops at a layer of one value or more.
    pub open spec fn can_prove(&self) -> bool {
        &&& is_provable_height(self.config().blowup, self.trace().height as nat)
        &&& self.can_interpolate()
        &&& self.config().fri_final_layer_size >= 1
    }

    /// Why a trace that cannot be proved about is refused: for its height,
    /// for what the constraints read, or for the layer that folding is to
    /// stop at.
    pub open spec fn refusal(&self) -> StarkError {
        if !is_provable_height(self.config().blowup, self.trace().height as nat) {
            StarkError::UnsupportedDomainSize
        } else if !self.can_interpolate() {
            StarkError::OutOfRange
        } else {
            StarkError::OddLength
        }
    }

    /// `proof` is a proof for the trace, whatever its challenges are.
    ///
    /// It holds the combined constraint, its quotient by the vanishing
    /// polynomial of the trace domain, the values of the quotient on the
    /// evaluation domain, and the layers of their folding: each layer is the
    /// fold of the one before with the challenge recorded for it, and only the
    /// last is as short as folding is to stop at.
    ///
    /// The combined constraint has fewer coefficients than the vanishing
    /// polynomial, so the quotient is the zero polynomial and the combined
    /// constraint itself is the remainder.  The proof of a trace that meets
    /// its constraints passes every check of the verifier.
    pub open spec fn is_proof(&self, proof: StarkProof) -> bool {
        &&& proof.wf()
        &&& proof.combined_constraint@ == self.combined()
        &&& is_quotient(
            proof.quotient_poly@,
            self.combined(),
            vanishing_coefficients(self.trace().height as nat),
        )
        &&& proof.quotient_poly@.len() == 0
        &&& self.meets_constraints() ==> forall|i: nat|
            i < self.extended_size() ==> proof.query_holds(
                self.config().blowup,
                self.trace().height as nat,
                i,
            )
        &&& values(proof.quotient_eval_domain@) == ntt(
            proof.quotient_poly@,
            root_of_unity(self.extended_size()),
            self.extended_size(),
        )
        &&& proof.fri_layers@.len() == proof.fri_challenges@.len() + 1
        &&& proof.layer(0) == values(proof.quotient_eval_domain@)
        &&& proof.fri_consistent()
        &&& proof.layer(proof.fri_layers@.len() - 1).len() <= self.config().fri_final_layer_size
        &&& forall|i: int|
            0 <= i < proof.fri_challenges@.len() ==> (#[trigger] proof.layer(i)).len()
                > self.config().fri_final_layer_size
    }

    /// The proof for the trace, with challenges drawn from the thread's
    /// random number generator.
    ///
    /// A trace that does not meet its constraints gets a proof too, one that
    /// the verifier rejects.
    pub fn generate_proof(&self) -> (r: Result<StarkProof, StarkError>)
        requires
            self.constraints().wf(),
        ensures
            r.is_ok() <==> self.can_prove(),
            r.is_err() ==> r == Err::<StarkProof, StarkError>(self.refusal()),
            r.is_ok() ==> self.is_proof(r.unwrap()) && self.constraints().defined_on(self.trace()),
    {
        let random = |_round: usize, _layer: &Vec<Fe>| -> (beta: Fe)
            ensures
                beta.wf(),
            { Fe::random() };
        self.generate_proof_with(random)
    }

    /// The proof for the trace, with the challenge of each fold taken from
    /// `challenge`, which is given the number of the fold, from zero, and the
    /// layer that is about to be folded.
    pub fn generate_proof_with<F: Fn(usize, &Vec<Fe>) -> Fe>(&self, challenge: F) -> (r: Result<
        StarkProof,
        StarkError,
    >)
        requires
            self.constraints().wf(),
            is_challenge_source(challenge),
        ensures
            r.is_ok() <==> self.can_prove(),
            r.is_err() ==> r == Err::<StarkProof, StarkError>(self.refusal()),
            r.is_ok() ==> self.is_proof(r.unwrap()) && self.constraints().defined_on(self.trace()),
            r.is_ok() ==> forall|i: int|
                0 <= i < r.unwrap().fri_challenges@.len() ==> call_ensures(
                    challenge,
                    (i as usize, &r.unwrap().fri_layers@[i]),
                    #[trigger] r.unwrap().fri_challenges@[i],
                ),
    {
        let blowup = self.config.blowup;
        let final_size = self.config.fri_final_layer_size;
        if blowup < 2 || self.trace.height > (usize::MAX / blowup) as u64 {
            proof {
                if blowup >= 2 {
                    lemma_product_beyond(
                        self.trace.height as nat,
                        blowup as nat,
                        usize::MAX as nat,
                    );
                }
            }
            return Err(StarkError::UnsupportedDomainSize);
        }
        let trace_len = self.trace.height as usize;
        proof {
            lemma_product_within(trace_len as nat, blowup as nat, usize::MAX as nat);
        }
        let domain = match EvaluationDomain::new(trace_len) {
            Ok(d) => d,
            Err(e) => {
                return Err(e);
            },
        };
        let extended_domain = match EvaluationDomain::new(trace_len * blowup) {
            Ok(d) => d,
            Err(e) => {
                return Err(e);
            },
        };
        proof {
            domain.lemma_wf();
            extended_domain.lemma_wf();
            assert(trace_len * blowup == evaluation_size(blowup, trace_len as nat)) by (nonlinear_arith)
                requires
                    evaluation_size(blowup, trace_len as nat) == (blowup as nat) * (trace_len as nat),
            ;
        }
        let constraint_polys = match self.constraints.interpolate_all_constraints(self.trace) {
            Ok(polys) => polys,
            Err(e) => {
                return Err(e);
            },
        };
        let ghost interpolants = self.constraints.interpolants(self.trace);
        let mut combined_constraint = Polynomial::zero();
        let mut k: usize = 0;
        while k < constraint_polys.len()
            invariant
                k <= constraint_polys.len(),
                constraint_polys@.len() == interpolants.len(),
                forall|j: int|
                    0 <= j < constraint_polys@.len() ==> (#[trigger] constraint_polys@[j]).wf()
                        && constraint_polys@[j]@ == interpolants[j] && constraint_polys@[j]@.len()
                        <= self.trace().height,
                combined_constraint.wf(),
                combined_constraint@ == poly_sum(interpolants.subrange(0, k as int)),
            decreases constraint_polys.len() - k,
        {
            proof {
                let upto = interpolants.subrange(0, k as int + 1);
                assert(upto.drop_last() =~= interpolants.subrange(0, k as int));
                assert(upto.last() == interpolants[k as int]);
            }
            combined_constraint = combined_constraint.add(&constraint_polys[k]);
            k += 1;
        }
        proof {
            assert(interpolants.subrange(0, interpolants.len() as int) =~= interpolants);
            assert(trace_len == self.trace().height);
            assert forall|j: int| 0 <= j < interpolants.len() implies (
            #[trigger] interpolants[j]).len() <= trace_len by {
                assert(constraint_polys@[j].wf());
            }
            lemma_poly_sum_len(interpolants, trace_len as nat);
            assert(trace_len <= trace_len * blowup) by (nonlinear_arith)
                requires
                    blowup >= 1,
            ;
            lemma_values_reduced(combined_constraint.coefficients@);
            lemma_interpolation_recovers_polynomial(combined_constraint@, extended_domain);
            lemma_normalize(combined_constraint@);
            if self.meets_constraints() {
                if interpolants.len() > 0 {
                    self.constraints.lemma_satisfied_iff_divisible(self.trace, domain);
                }
                lemma_poly_sum_zero(interpolants);
            }
        }

        let c_evals = combined_constraint.evaluate_over(&extended_domain);
        let c_poly = extended_domain.interpolate(&c_evals);
        let z_poly = domain.vanishing_polynomial();
        let (quotient_poly, _remainder) = match c_poly.divide(&z_poly) {
            Ok(parts) => parts,
            Err(e) => {
                return Err(e);
            },
        };
        let q_evals = quotient_poly.evaluate_over(&extended_domain);
        let quotient_eval_domain = copy_values(&q_evals);
        proof {
            lemma_power_of_two_folds_down(q_evals@.len(), final_size as nat);
        }
        let (fri_layers, fri_challenges) = match fri_commit(q_evals, final_size, challenge) {
            Ok(folding) => folding,
            Err(e) => {
                return Err(e);
            },
        };
        let proof = StarkProof {
            quotient_eval_domain,
            fri_layers,
            fri_challenges,
            combined_constraint,
            quotient_poly,
        };
        proof {
            if self.meets_constraints() {
                assert forall|i: nat| i < self.extended_size() implies proof.query_holds(
                    self.config().blowup,
                    self.trace().height as nat,
                    i,
                ) by {
                    lemma_field_zero(
                        poly_eval(
                            vanishing_coefficients(trace_len as nat),
                            fpow(root_of_unity(evaluation_size(blowup, trace_len as nat)), i),
                        ),
                    );
                }
            }
            assert forall|i: int| 0 <= i < proof.fri_challenges@.len() implies proof.fold_holds(
                i,
            ) by {
                assert(folds_to(
                    values(proof.fri_layers@[i]@),
                    proof.fri_challenges@[i]@,
                    values(proof.fri_layers@[i + 1]@),
                ));
            }
            assert forall|i: int| 0 <= i < proof.fri_challenges@.len() implies (
            #[trigger] proof.layer(i)).len() > final_size by {
                assert(proof.fri_layers@[i]@.len() > final_size);
            }
            assert(proof.layer(0) == values(proof.quotient_eval_domain@));
        }
        Ok(proof)
    }
}

/// The verifier: the constraints and the height of the trace that a proof is
/// about.
pub struct StarkVerifier<'a, T, B> {
    constraints: &'a ConstraintSystem<T, B>,
    trace_len: usize,
    config: StarkConfig,
}

impl<'a, T: Fn(&Row, &Row) -> Fe, B: Fn(&Row) -> Fe> StarkVerifier<'a, T, B> {
    /// The height of the trace.
    pub closed spec fn trace_len(&self) -> nat {
        self.trace_len as nat
    }

    /// The parameters of the verifier.
    pub closed spec fn config(&self) -> StarkConfig {
        self.config
    }

    /// The blowup of the verifier.
    pub open spec fn blowup(&self) -> usize {
        self.config().blowup
    }

    /// The heights of trace and the blowup are such that both domains exist.
    pub open spec fn has_domains(&self) -> bool {
        is_provable_height(self.blowup(), self.trace_len())
    }

    /// The number of points of the evaluation domain.
    pub open spec fn extended_size(&self) -> nat {
        evaluation_size(self.blowup(), self.trace_len())
    }

    /// A verifier for proofs about traces of `trace_len` rows, with the
    /// default parameters.
    pub fn new(constraints: &'a ConstraintSystem<T, B>, trace_len: usize) -> (verifier: Self)
        ensures
            verifier.trace_len() == trace_len,
            verifier.config() == default_config(),
    {
        Self { constraints, trace_len, config: StarkConfig::default() }
    }

    /// A verifier for proofs about traces of `trace_len` rows, with the
    /// parameters given.
    pub fn with_config(
        constraints: &'a ConstraintSystem<T, B>,
        trace_len: usize,
        config: StarkConfig,
    ) -> (verifier: Self)
        ensures
            verifier.trace_len() == trace_len,
            verifier.config() == config,
    {
        Self { constraints, trace_len, config }
    }

    /// Whether the proof is accepted.
    ///
    /// The verifier checks the consistency equation at points of the
    /// evaluation domain, drawn at random, as many as its parameters say, and
    /// replays every fold.  A proof is accepted only if its folds replay and
    /// the equation held at every point drawn; it is accepted for certain if
    /// the equation holds on the whole domain.  A height that no domain exists
    /// for is rejected.
    pub fn verify(&self, proof: &StarkProof) -> (accepted: bool)
        requires
            proof.wf(),
        ensures
            accepted ==> self.has_domains() && proof.fri_consistent(),
            accepted && self.config().verifier_queries > 0 ==> exists|i: nat|
                i < self.extended_size() && proof.query_holds(self.blowup(), self.trace_len(), i),
            self.has_domains() && proof.fri_consistent() && (forall|i: nat|
                i < self.extended_size() ==> proof.query_holds(self.blowup(), self.trace_len(), i)) ==> accepted,
    {
        match self.try_verify(proof) {
            Ok(_) => true,
            Err(_) => false,
        }
    }

    /// Checks the proof as `verify` does, and says why it is not accepted:
    /// because no domain exists for the height of the trace, or because a
    /// check failed.
    pub fn try_verify(&self, proof: &StarkProof) -> (r: Result<(), StarkError>)
        requires
            proof.wf(),
        ensures
            !self.has_domains() ==> r == Err::<(), StarkError>(
                StarkError::UnsupportedDomainSize,
            ),
            self.has_domains() && r.is_err() ==> r == Err::<(), StarkError>(
                StarkError::VerificationFailed,
            ),
            r.is_ok() ==> proof.fri_consistent(),
            r.is_ok() && self.config().verifier_queries > 0 ==> exists|i: nat|
                i < self.extended_size() && proof.query_holds(self.blowup(), self.trace_len(), i),
            r.is_err() ==> !self.has_domains() || !proof.fri_consistent()
                || exists|i: nat|
                i < self.extended_size() && !proof.query_holds(self.blowup(), self.trace_len(), i),
    {
        let random = |_query: usize| -> (index: usize) { random_index() };
        let r = self.try_verify_with(proof, random);
        proof {
            if self.has_domains() {
                let size = self.extended_size();
                if r.is_ok() && self.config().verifier_queries > 0 {
                    assert(self.passes(proof, random, 0int));
                    let drawn = choose|drawn: usize| #[trigger]
                        call_ensures(random, (0usize,), drawn) && proof.query_holds(
                            self.blowup(),
                            self.trace_len(),
                            (drawn as nat) % size,
                        );
                    assert(proof.query_holds(self.blowup(), self.trace_len(), (drawn as nat) % size));
                } else if r.is_err() && proof.fri_consistent() {
                    let query = choose|query: int|
                        0 <= query < self.config().verifier_queries && self.fails(
                            proof,
                            random,
                            query,
                        );
                    let drawn = choose|drawn: usize| #[trigger]
                        call_ensures(random, (query as usize,), drawn) && !proof.query_holds(
                            self.blowup(),
                            self.trace_len(),
                            (drawn as nat) % size,
                        );
                    assert(!proof.query_holds(self.blowup(), self.trace_len(), (drawn as nat) % size));
                }
            }
        }
        r
    }

    /// Query `query` can pass: `sample` can answer it with a number whose
    /// remainder by the size of the evaluation domain is the index of a point
    /// at which the consistency equation holds.
    pub open spec fn passes<G: Fn(usize) -> usize>(
        &self,
        proof: &StarkProof,
        sample: G,
        query: int,
    ) -> bool {
        exists|drawn: usize| #[trigger]
            call_ensures(sample, (query as usize,), drawn) && proof.query_holds(
                self.blowup(),
                self.trace_len(),
                (drawn as nat) % self.extended_size(),
            )
    }

    /// Query `query` can fail: `sample` can answer it with a number whose
    /// remainder by the size of the evaluation domain is the index of a point
    /// at which the consistency equation does not hold.
    pub open spec fn fails<G: Fn(usize) -> usize>(
        &self,
        proof: &StarkProof,
        sample: G,
        query: int,
    ) -> bool {
        exists|drawn: usize| #[trigger]
            call_ensures(sample, (query as usize,), drawn) && !proof.query_holds(
                self.blowup(),
                self.trace_len(),
                (drawn as nat) % self.extended_size(),
            )
    }

    /// Checks the proof at the points that `sample` names: for each of the
    /// queries, from zero, `sample` is asked for a number, and the
    /// consistency equation is checked at the point whose index is the
    /// remainder of that number by the size of the evaluation domain.  Then
    /// every fold is replayed.
    ///
    /// The proof is accepted if every query passed and every fold replays.
    pub fn try_verify_with<G: Fn(usize) -> usize>(&self, proof: &StarkProof, sample: G) -> (r:
        Result<(), StarkError>)
        requires
            proof.wf(),
            forall|query: usize| #[trigger] call_requires(sample, (query,)),
        ensures
            !self.has_domains() ==> r == Err::<(), StarkError>(
                StarkError::UnsupportedDomainSize,
            ),
            self.has_domains() && r.is_err() ==> r == Err::<(), StarkError>(
                StarkError::VerificationFailed,
            ),
            r.is_ok() ==> proof.fri_consistent() && forall|query: int|
                0 <= query < self.config().verifier_queries ==> self.passes(proof, sample, query),
            self.has_domains() && r.is_err() ==> !proof.fri_consistent()
                || exists|query: int|
                0 <= query < self.config().verifier_queries && self.fails(proof, sample, query),
    {
        let blowup = self.config.blowup;
        let queries = self.config.verifier_queries;
        if blowup < 2 || self.trace_len > usize::MAX / blowup {
            proof {
                if blowup >= 2 {
                    lemma_product_beyond(self.trace_len as nat, blowup as nat, usize::MAX as nat);
                }
            }
            return Err(StarkError::UnsupportedDomainSize);
        }
        proof {
            lemma_product_within(self.trace_len as nat, blowup as nat, usize::MAX as nat);
        }
        let domain = match EvaluationDomain::new(self.trace_len) {
            Ok(d) => d,
            Err(e) => {
                return Err(e);
            },
        };
        let extended_domain = match EvaluationDomain::new(self.trace_len * blowup) {
            Ok(d) => d,
            Err(e) => {
                return Err(e);
            },
        };
        let z_poly = domain.vanishing_polynomial();
        proof {
            domain.lemma_wf();
            extended_domain.lemma_wf();
            assert(self.trace_len * blowup == self.extended_size()) by (nonlinear_arith)
                requires
                    self.extended_size() == (blowup as nat) * (self.trace_len as nat),
            ;
        }
        let mut query: usize = 0;
        while query < queries
            invariant
                query <= queries,
                queries == self.config().verifier_queries,
                self.has_domains(),
                proof.wf(),
                z_poly.wf(),
                z_poly@ == vanishing_coefficients(self.trace_len()),
                extended_domain.wf(),
                extended_domain.spec_size() == self.extended_size(),
                extended_domain.spec_size() > 0,
                extended_domain.omega() == root_of_unity(self.extended_size()),
                forall|query: usize| #[trigger] call_requires(sample, (query,)),
                forall|earlier: int| 0 <= earlier < query ==> self.passes(proof, sample, earlier),
            decreases queries - query,
        {
            let drawn = sample(query);
            let index = drawn % extended_domain.size();
            proof {
                assert(call_ensures(sample, ((query as int) as usize,), drawn));
                assert((drawn as nat) % self.extended_size() == index as nat);
            }
            if !check_query(proof, &z_poly, &extended_domain, index) {
                assert(!proof.query_holds(self.blowup(), self.trace_len(), index as nat));
                assert(self.fails(proof, sample, query as int));
                return Err(StarkError::VerificationFailed);
            }
            assert(proof.query_holds(self.blowup(), self.trace_len(), index as nat));
            assert(self.passes(proof, sample, query as int));
            query += 1;
        }
        if !check_folds(proof) {
            return Err(StarkError::VerificationFailed);
        }
        Ok(())
    }
}

/// Whether the consistency equation `Q(x) * Z(x) == C(x)` holds at point
/// `index` of the evaluation domain.
pub fn check_query(
    proof: &StarkProof,
    z_poly: &Polynomial,
    extended_domain: &EvaluationDomain,
    index: usize,
) -> (holds: bool)
    requires
        proof.wf(),
        z_poly.wf(),
        extended_domain.wf(),
    ensures
        holds == (fmul(
            poly_eval(proof.quotient_poly@, fpow(extended_domain.omega(), index as nat)),
            poly_eval(z_poly@, fpow(extended_domain.omega(), index as nat)),
        ) == poly_eval(proof.combined_constraint@, fpow(extended_domain.omega(), index as nat))),
{
    let x0 = extended_domain.element(index);
    let q_eval = proof.quotient_poly.evaluate(x0);
    let z_eval = z_poly.evaluate(x0);
    let c_eval = proof.combined_constraint.evaluate(x0);
    q_eval.mul(&z_eval).equals(&c_eval)
}

/// Whether every recorded fold replays: folding the values of the quotient,
/// and then each recorded layer, with the challenge recorded for it gives
/// the layer recorded next.
pub fn check_folds(proof: &StarkProof) -> (consistent: bool)
    requires
        proof.wf(),
    ensures
        consistent == proof.fri_consistent(),
{
    let mut i: usize = 0;
    while i < proof.fri_challenges.len()
        invariant
            i <= proof.fri_challenges.len(),
            proof.wf(),
            forall|j: int| 0 <= j < i ==> proof.fold_holds(j),
        decreases proof.fri_challenges.len() - i,
    {
        if i == 0 {
            assert(proof.fold_input(0) == values(proof.quotient_eval_domain@));
        } else {
            assert(proof.fold_holds(i - 1));
            assert(proof.fold_input(i as int) == values(proof.fri_layers@[i as int]@));
        }
        let current: &Vec<Fe> = if i == 0 {
            &proof.quotient_eval_domain
        } else {
            &proof.fri_layers[i]
        };
        let folded = match fri_fold(current.as_slice(), proof.fri_challenges[i]) {
            Ok(v) => v,
            Err(_) => {
                assert(!proof.fold_holds(i as int));
                return false;
            },
        };
        if i + 1 >= proof.fri_layers.len() {
            assert(!proof.fold_holds(i as int));
            return false;
        }
        if !same_values(&proof.fri_layers[i + 1], &folded) {
            assert(!proof.fold_holds(i as int));
            return false;
        }
        assert(proof.fold_holds(i as int));
        i += 1;
    }
    true
}

/// Whether two vectors hold the same field elements.
fn same_values(a: &Vec<Fe>, b: &Vec<Fe>) -> (same: bool)
    ensures
        same == (values(a@) == values(b@)),
{
    if a.len() != b.len() {
        assert(values(a@).len() != values(b@).len());
        return false;
    }
    let mut i: usize = 0;
    while i < a.len()
        invariant
            i <= a.len(),
            a.len() == b.len(),
            forall|k: int| 0 <= k < i ==> a[k]@ == b[k]@,
        decreases a.len() - i,
    {
        if !a[i].equals(&b[i]) {
            assert(values(a@)[i as int] != values(b@)[i as int]);
            return false;
        }
        i += 1;
    }
    assert(values(a@) =~= values(b@));
    true
}

/// A copy of a vector of field elements.
fn copy_values(v: &Vec<Fe>) -> (copy: Vec<Fe>)
    ensures
        copy@ == v@,
{
    let mut copy: Vec<Fe> = Vec::new();
    let mut i: usize = 0;
    while i < v.len()
        invariant
            i <= v.len(),
            copy@ == v@.subrange(0, i as int),
        decreases v.len() - i,
    {
        copy.push(v[i]);
        i += 1;
        assert(copy@ == v@.subrange(0, i as int));
    }
    assert(copy@ == v@);
    copy
}

/// Calls `rand::random::<usize>()`.  Nothing is said of the result: it is a
/// matter of chance.
#[verifier::external_body]
fn random_index() -> usize {
    rand::random::<usize>()
}

} // verus!
