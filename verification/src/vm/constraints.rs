//! The constraint system: predicates that a trace has to meet.
//!
//! A transition constraint reads two consecutive rows, a boundary constraint
//! one given row; each returns a field element, and is met where that element
//! is zero.  A constraint is a function value, so its contract is part of the
//! system's well-formedness: it can be called on every row, and it returns
//! one canonical field element for given rows.

use crate::errors::StarkError;
use crate::math::domain::{
    interpolant, intt, is_domain_size, root_of_unity, vanishing_coefficients, EvaluationDomain,
};
use crate::math::field::{
    all_wf, lemma_modulus_positive, lemma_reduce_bound_all, lemma_reduce_small, modulus, reduce,
    values, Fe,
};
use crate::math::polynomial::{
    divides, is_division, is_reduced, lemma_division_of_shorter, lemma_normalize,
    lemma_poly_add_zero, poly_mul, raw_mul, Polynomial,
};
use crate::math::transform::{lemma_interpolant_zeros, lemma_zero_interpolant};
use crate::vm::trace::{ExecutionTrace, ProgramVariable, Row};
use vstd::prelude::*;

verus! {

/// `f` can be called on any two rows and returns one canonical field element
/// for them.
pub open spec fn is_transition_rule<T: Fn(&Row, &Row) -> Fe>(f: T) -> bool {
    &&& forall|cur: &Row, next: &Row| #[trigger] call_requires(f, (cur, next))
    &&& forall|cur: &Row, next: &Row, out: Fe| #[trigger]
        call_ensures(f, (cur, next), out) ==> out.wf()
    &&& forall|cur: &Row, next: &Row, out1: Fe, out2: Fe|
        #![trigger call_ensures(f, (cur, next), out1), call_ensures(f, (cur, next), out2)]
        call_ensures(f, (cur, next), out1) && call_ensures(f, (cur, next), out2) ==> out1@
            == out2@
}

/// `f` can be called on any row and returns one canonical field element for
/// it.
pub open spec fn is_boundary_rule<B: Fn(&Row) -> Fe>(f: B) -> bool {
    &&& forall|row: &Row| #[trigger] call_requires(f, (row,))
    &&& forall|row: &Row, out: Fe| #[trigger] call_ensures(f, (row,), out) ==> out.wf()
    &&& forall|row: &Row, out1: Fe, out2: Fe|
        #![trigger call_ensures(f, (row,), out1), call_ensures(f, (row,), out2)]
        call_ensures(f, (row,), out1) && call_ensures(f, (row,), out2) ==> out1@ == out2@
}

/// The value of a transition constraint on two rows: the field element
/// that the function returns for them.
pub open spec fn transition_value<T: Fn(&Row, &Row) -> Fe>(f: T, cur: Row, next: Row) -> nat {
    reduce((choose|out: Fe| call_ensures(f, (&cur, &next), out))@ as int)
}

/// The value of a boundary constraint on a row: the field element that the
/// function returns for it.
pub open spec fn boundary_value<B: Fn(&Row) -> Fe>(f: B, row: Row) -> nat {
    reduce((choose|out: Fe| call_ensures(f, (&row,), out))@ as int)
}

/// The transition constraint returns for the two rows: some field element is
/// its value on them.
pub open spec fn transition_defined<T: Fn(&Row, &Row) -> Fe>(f: T, cur: Row, next: Row) -> bool {
    exists|out: Fe| call_ensures(f, (&cur, &next), out)
}

/// The boundary constraint returns for the row: some field element is its
/// value on it.
pub open spec fn boundary_defined<B: Fn(&Row) -> Fe>(f: B, row: Row) -> bool {
    exists|out: Fe| call_ensures(f, (&row,), out)
}

/// The values of a transition constraint over the trace domain: its value at
/// each step but the last, and zero in the last place.
pub open spec fn transition_vector<T: Fn(&Row, &Row) -> Fe>(f: T, trace: &ExecutionTrace) -> Seq<
    nat,
> {
    Seq::new(
        trace.height as nat,
        |i: int|
            if i + 1 < trace.height {
                transition_value(f, trace.trace@[i], trace.trace@[i + 1])
            } else {
                0
            },
    )
}

/// The values of a boundary constraint over the trace domain: its value at
/// its row, and zero everywhere else.
pub open spec fn boundary_vector<B: Fn(&Row) -> Fe>(f: B, row: u64, trace: &ExecutionTrace) -> Seq<
    nat,
> {
    Seq::new(
        trace.height as nat,
        |i: int|
            if i == row {
                boundary_value(f, trace.trace@[i])
            } else {
                0
            },
    )
}

/// A constraint between consecutive rows of the trace.
pub struct TransitionConstraint<T> {
    /// The name of the constraint.
    pub name: String,
    /// The variables that the constraint reads.
    pub variables: Vec<ProgramVariable>,
    /// The function that evaluates the constraint on a row and the next.
    pub evaluate: T,
}

/// A constraint on one row of the trace.
pub struct BoundaryConstraint<B> {
    /// The name of the constraint.
    pub name: String,
    /// The row that the constraint is about.
    pub row: u64,
    /// The variables that the constraint reads.
    pub variables: Vec<ProgramVariable>,
    /// The function that evaluates the constraint on the row.
    pub evaluate: B,
}

/// The transition and boundary constraints of a program, in the order in
/// which they were added.
pub struct ConstraintSystem<T, B> {
    /// The constraints between consecutive rows.
    pub transition_constraints: Vec<TransitionConstraint<T>>,
    /// The constraints on single rows.
    pub boundary_constraints: Vec<BoundaryConstraint<B>>,
}

/// Where entry `k` of row `i` stands in a table of rows of `n` entries that
/// is written out row by row.
pub open spec fn flat_index(i: int, k: int, n: nat) -> int {
    i * (n as int) + k
}

/// The number of transitions of a trace: one less than its height.
pub open spec fn step_count(trace: &ExecutionTrace) -> nat {
    if trace.height == 0 {
        0
    } else {
        (trace.height - 1) as nat
    }
}

impl<T: Fn(&Row, &Row) -> Fe, B: Fn(&Row) -> Fe> ConstraintSystem<T, B> {
    /// Every constraint of the system is a function of the rows it reads.
    pub open spec fn wf(&self) -> bool {
        &&& forall|k: int|
            0 <= k < self.transition_constraints@.len() ==> is_transition_rule(
                (#[trigger] self.transition_constraints@[k]).evaluate,
            )
        &&& forall|k: int|
            0 <= k < self.boundary_constraints@.len() ==> is_boundary_rule(
                (#[trigger] self.boundary_constraints@[k]).evaluate,
            )
    }

    /// Every boundary constraint is about a row of the trace.
    pub open spec fn rows_in_range(&self, trace: &ExecutionTrace) -> bool {
        forall|k: int|
            0 <= k < self.boundary_constraints@.len() ==> (
            #[trigger] self.boundary_constraints@[k]).row < trace.height
    }

    /// Every constraint returns wherever it is evaluated on the trace: the
    /// transition constraints at each step, the boundary constraints at their
    /// rows.  The values of `evaluations` are then what the functions return.
    pub open spec fn defined_on(&self, trace: &ExecutionTrace) -> bool {
        &&& forall|i: int, k: int|
            #![trigger self.transition_constraints@[k], trace.trace@[i]]
            0 <= i < step_count(trace) && 0 <= k < self.transition_constraints@.len()
                ==> transition_defined(
                self.transition_constraints@[k].evaluate,
                trace.trace@[i],
                trace.trace@[i + 1],
            )
        &&& forall|k: int|
            0 <= k < self.boundary_constraints@.len() ==> boundary_defined(
                (#[trigger] self.boundary_constraints@[k]).evaluate,
                trace.trace@[self.boundary_constraints@[k].row as int],
            )
    }

    /// The values of all transition constraints, in order, at step `i`.
    pub open spec fn transitions_at(&self, trace: &ExecutionTrace, i: int) -> Seq<nat> {
        Seq::new(
            self.transition_constraints@.len(),
            |k: int|
                transition_value(
                    self.transition_constraints@[k].evaluate,
                    trace.trace@[i],
                    trace.trace@[i + 1],
                ),
        )
    }

    /// The values of all transition constraints at the first `steps` steps,
    /// step by step.
    pub open spec fn transition_evaluations(&self, trace: &ExecutionTrace, steps: nat) -> Seq<nat>
        decreases steps,
    {
        if steps == 0 {
            Seq::empty()
        } else {
            self.transition_evaluations(trace, (steps - 1) as nat) + self.transitions_at(
                trace,
                steps - 1,
            )
        }
    }

    /// The values of all boundary constraints, in order.
    pub open spec fn boundary_evaluations(&self, trace: &ExecutionTrace) -> Seq<nat> {
        Seq::new(
            self.boundary_constraints@.len(),
            |k: int|
                boundary_value(
                    self.boundary_constraints@[k].evaluate,
                    trace.trace@[self.boundary_constraints@[k].row as int],
                ),
        )
    }

    /// All evaluations of the system on a trace: the transition constraints
    /// at each step but the last, then the boundary constraints.
    pub open spec fn evaluations(&self, trace: &ExecutionTrace) -> Seq<nat> {
        self.transition_evaluations(trace, step_count(trace)) + self.boundary_evaluations(trace)
    }

    /// How many evaluations there are: `steps * n + m`, for `steps` steps,
    /// `n` transition constraints and `m` boundary constraints.
    pub proof fn lemma_evaluations_len(&self, trace: &ExecutionTrace)
        ensures
            self.evaluations(trace).len() == flat_index(
                step_count(trace) as int,
                self.boundary_constraints@.len() as int,
                self.transition_constraints@.len(),
            ),
    {
        self.lemma_transition_evaluations_len(trace, step_count(trace));
    }

    /// How the evaluations are laid out: the value of boundary constraint `b`
    /// stands at index `steps * n + b`, after the values of all `steps` steps
    /// of the `n` transition constraints.
    pub proof fn lemma_boundary_evaluation_at(&self, trace: &ExecutionTrace, b: int)
        requires
            0 <= b < self.boundary_constraints@.len(),
        ensures
            0 <= flat_index(step_count(trace) as int, b, self.transition_constraints@.len())
                < self.evaluations(trace).len(),
            self.evaluations(trace)[flat_index(
                step_count(trace) as int,
                b,
                self.transition_constraints@.len(),
            )] == boundary_value(
                self.boundary_constraints@[b].evaluate,
                trace.trace@[self.boundary_constraints@[b].row as int],
            ),
    {
        self.lemma_transition_evaluations_len(trace, step_count(trace));
    }

    /// How the evaluations are laid out: the value of transition constraint
    /// `k` at step `i` stands at index `i * n + k`, where `n` is the number of
    /// transition constraints.
    pub proof fn lemma_evaluation_at(&self, trace: &ExecutionTrace, i: int, k: int)
        requires
            0 <= i < step_count(trace),
            0 <= k < self.transition_constraints@.len(),
        ensures
            0 <= flat_index(i, k, self.transition_constraints@.len()) < self.evaluations(
                trace,
            ).len(),
            self.evaluations(trace)[flat_index(i, k, self.transition_constraints@.len())]
                == transition_value(
                self.transition_constraints@[k].evaluate,
                trace.trace@[i],
                trace.trace@[i + 1],
            ),
    {
        self.lemma_transition_evaluation_at(trace, step_count(trace), i, k);
    }

    /// The number of transition evaluations of the first `steps` steps.
    pub proof fn lemma_transition_evaluations_len(&self, trace: &ExecutionTrace, steps: nat)
        ensures
            self.transition_evaluations(trace, steps).len() == flat_index(
                steps as int,
                0,
                self.transition_constraints@.len(),
            ),
        decreases steps,
    {
        let ni = self.transition_constraints@.len() as int;
        if steps == 0 {
            assert(0 * ni == 0) by (nonlinear_arith);
        } else {
            let before = (steps - 1) as nat;
            self.lemma_transition_evaluations_len(trace, before);
            assert(steps * ni == before * ni + ni) by (nonlinear_arith)
                requires
                    before == steps - 1,
            ;
        }
    }

    /// Where the value of transition constraint `k` at step `i` stands among
    /// the transition evaluations of the first `steps` steps.
    pub proof fn lemma_transition_evaluation_at(
        &self,
        trace: &ExecutionTrace,
        steps: nat,
        i: int,
        k: int,
    )
        requires
            0 <= i < steps,
            0 <= k < self.transition_constraints@.len(),
        ensures
            0 <= flat_index(i, k, self.transition_constraints@.len())
                < self.transition_evaluations(trace, steps).len(),
            self.transition_evaluations(trace, steps)[flat_index(
                i,
                k,
                self.transition_constraints@.len(),
            )] == self.transitions_at(trace, i)[k],
        decreases steps,
    {
        let n = self.transition_constraints@.len();
        let ni = n as int;
        let before = (steps - 1) as nat;
        let all = self.transition_evaluations(trace, steps);
        let earlier = self.transition_evaluations(trace, before);
        self.lemma_transition_evaluations_len(trace, before);
        self.lemma_transition_evaluations_len(trace, steps);
        assert(0 <= i * ni) by (nonlinear_arith)
            requires
                0 <= i,
                0 <= ni,
        ;
        if i == before {
            assert(all[earlier.len() + k] == self.transitions_at(trace, i)[k]);
        } else {
            self.lemma_transition_evaluation_at(trace, before, i, k);
            assert(all[flat_index(i, k, n)] == earlier[flat_index(i, k, n)]);
        }
    }

    /// The trace meets every constraint.
    pub open spec fn satisfied_by(&self, trace: &ExecutionTrace) -> bool {
        forall|k: int|
            0 <= k < self.evaluations(trace).len() ==> #[trigger] self.evaluations(trace)[k] == 0
    }

    /// A system without constraints.
    pub fn new() -> (system: Self)
        ensures
            system.wf(),
            system.transition_constraints@.len() == 0,
            system.boundary_constraints@.len() == 0,
    {
        Self { transition_constraints: Vec::new(), boundary_constraints: Vec::new() }
    }

    /// Adds a constraint between consecutive rows.
    pub fn add_transition_constraint(
        &mut self,
        name: String,
        variables: Vec<ProgramVariable>,
        evaluate: T,
    )
        requires
            old(self).wf(),
            is_transition_rule(evaluate),
        ensures
            final(self).wf(),
            final(self).boundary_constraints@ == old(self).boundary_constraints@,
            final(self).transition_constraints@ == old(self).transition_constraints@.push(
                (TransitionConstraint { name, variables, evaluate }),
            ),
    {
        self.transition_constraints.push(TransitionConstraint { name, variables, evaluate });
    }

    /// Adds a constraint on the row `row`.
    pub fn add_boundary_constraint(
        &mut self,
        name: String,
        row: u64,
        variables: Vec<ProgramVariable>,
        evaluate: B,
    )
        requires
            old(self).wf(),
            is_boundary_rule(evaluate),
        ensures
            final(self).wf(),
            final(self).transition_constraints@ == old(self).transition_constraints@,
            final(self).boundary_constraints@ == old(self).boundary_constraints@.push(
                (BoundaryConstraint { name, row, variables, evaluate }),
            ),
    {
        self.boundary_constraints.push(BoundaryConstraint { name, row, variables, evaluate });
    }

    /// Evaluates every constraint on the trace.
    ///
    /// The trace has to be complete and every boundary constraint about one
    /// of its rows; otherwise the evaluation is refused as out of range.
    pub fn evaluate(&self, trace: &ExecutionTrace) -> (r: Result<Vec<Fe>, StarkError>)
        requires
            self.wf(),
        ensures
            r.is_ok() <==> trace.is_complete() && self.rows_in_range(trace),
            r.is_err() ==> r == Err::<Vec<Fe>, StarkError>(StarkError::OutOfRange),
            r.is_ok() ==> all_wf(r.unwrap()@) && values(r.unwrap()@) == self.evaluations(trace),
            r.is_ok() ==> r.unwrap()@.len() == flat_index(
                step_count(trace) as int,
                self.boundary_constraints@.len() as int,
                self.transition_constraints@.len(),
            ),
            r.is_ok() ==> self.defined_on(trace),
    {
        let rows = trace.trace.len();
        if rows as u64 != trace.height {
            return Err(StarkError::OutOfRange);
        }
        let mut evaluations: Vec<Fe> = Vec::new();
        let steps = if rows == 0 {
            0
        } else {
            rows - 1
        };
        let mut i: usize = 0;
        while i < steps
            invariant
                i <= steps,
                steps == step_count(trace),
                rows == trace.trace.len(),
                rows == trace.height,
                steps + 1 == rows || (rows == 0 && steps == 0),
                self.wf(),
                all_wf(evaluations@),
                values(evaluations@) == self.transition_evaluations(trace, i as nat),
                forall|j: int, k: int|
                    #![trigger self.transition_constraints@[k], trace.trace@[j]]
                    0 <= j < i && 0 <= k < self.transition_constraints@.len()
                        ==> transition_defined(
                        self.transition_constraints@[k].evaluate,
                        trace.trace@[j],
                        trace.trace@[j + 1],
                    ),
            decreases steps - i,
        {
            let current_row = &trace.trace[i];
            let next_row = &trace.trace[i + 1];
            let ghost before = values(evaluations@);
            let mut k: usize = 0;
            while k < self.transition_constraints.len()
                invariant
                    k <= self.transition_constraints.len(),
                    self.wf(),
                    i + 1 < trace.trace.len(),
                    *current_row == trace.trace@[i as int],
                    *next_row == trace.trace@[i + 1],
                    all_wf(evaluations@),
                    values(evaluations@) == before + self.transitions_at(trace, i as int).subrange(
                        0,
                        k as int,
                    ),
                    forall|j: int|
                        0 <= j < k ==> transition_defined(
                            (#[trigger] self.transition_constraints@[j]).evaluate,
                            *current_row,
                            *next_row,
                        ),
                decreases self.transition_constraints.len() - k,
            {
                let constraint = &self.transition_constraints[k];
                let f = &constraint.evaluate;
                let eval = f(current_row, next_row);
                let ghost held = values(evaluations@);
                evaluations.push(eval);
                proof {
                    assert(values(evaluations@) =~= held.push(eval@));
                    let at = self.transitions_at(trace, i as int);
                    assert(is_transition_rule(self.transition_constraints@[k as int].evaluate));
                    assert(call_ensures(*f, (current_row, next_row), eval));
                    lemma_reduce_small(eval@);
                    assert(eval@ == transition_value(*f, *current_row, *next_row));
                    assert(at.subrange(0, k as int + 1) =~= at.subrange(0, k as int).push(at[k as int]));
                    assert(values(evaluations@) =~= before + at.subrange(0, k as int + 1));
                }
                k += 1;
            }
            proof {
                let at = self.transitions_at(trace, i as int);
                assert(at.subrange(0, at.len() as int) =~= at);
            }
            i += 1;
        }
        let ghost transitions = values(evaluations@);
        let mut k: usize = 0;
        while k < self.boundary_constraints.len()
            invariant
                k <= self.boundary_constraints.len(),
                self.wf(),
                rows == trace.trace.len(),
                rows == trace.height,
                all_wf(evaluations@),
                forall|j: int|
                    0 <= j < k ==> (#[trigger] self.boundary_constraints@[j]).row < trace.height
                        && boundary_defined(
                        self.boundary_constraints@[j].evaluate,
                        trace.trace@[self.boundary_constraints@[j].row as int],
                    ),
                values(evaluations@) == transitions + self.boundary_evaluations(trace).subrange(
                    0,
                    k as int,
                ),
                forall|j: int, k: int|
                    #![trigger self.transition_constraints@[k], trace.trace@[j]]
                    0 <= j < step_count(trace) && 0 <= k < self.transition_constraints@.len()
                        ==> transition_defined(
                        self.transition_constraints@[k].evaluate,
                        trace.trace@[j],
                        trace.trace@[j + 1],
                    ),
            decreases self.boundary_constraints.len() - k,
        {
            let constraint = &self.boundary_constraints[k];
            if constraint.row >= rows as u64 {
                return Err(StarkError::OutOfRange);
            }
            let row = &trace.trace[constraint.row as usize];
            let f = &constraint.evaluate;
            let eval = f(row);
            let ghost held = values(evaluations@);
            evaluations.push(eval);
            proof {
                assert(values(evaluations@) =~= held.push(eval@));
                let at = self.boundary_evaluations(trace);
                assert(is_boundary_rule(self.boundary_constraints@[k as int].evaluate));
                assert(call_ensures(*f, (row,), eval));
                lemma_reduce_small(eval@);
                assert(eval@ == boundary_value(*f, *row));
                assert(at.subrange(0, k as int + 1) =~= at.subrange(0, k as int).push(at[k as int]));
                assert(values(evaluations@) =~= transitions + at.subrange(0, k as int + 1));
            }
            k += 1;
        }
        proof {
            let at = self.boundary_evaluations(trace);
            assert(at.subrange(0, at.len() as int) =~= at);
            self.lemma_transition_evaluations_len(trace, step_count(trace));
            assert(values(evaluations@).len() == evaluations@.len());
        }
        Ok(evaluations)
    }

    /// Whether the trace meets every constraint: all evaluations are zero.
    pub fn is_satisfied(&self, trace: &ExecutionTrace) -> (r: Result<bool, StarkError>)
        requires
            self.wf(),
        ensures
            r.is_ok() <==> trace.is_complete() && self.rows_in_range(trace),
            r.is_err() ==> r == Err::<bool, StarkError>(StarkError::OutOfRange),
            r.is_ok() ==> r.unwrap() == self.satisfied_by(trace),
            r.is_ok() ==> self.defined_on(trace),
    {
        let evaluations = match self.evaluate(trace) {
            Ok(v) => v,
            Err(e) => {
                return Err(e);
            },
        };
        let mut i: usize = 0;
        while i < evaluations.len()
            invariant
                i <= evaluations.len(),
                trace.is_complete(),
                self.rows_in_range(trace),
                self.defined_on(trace),
                values(evaluations@) == self.evaluations(trace),
                forall|k: int| 0 <= k < i ==> #[trigger] self.evaluations(trace)[k] == 0,
            decreases evaluations.len() - i,
        {
            if !evaluations[i].is_zero() {
                assert(self.evaluations(trace)[i as int] == values(evaluations@)[i as int]);
                return Ok(false);
            }
            assert(self.evaluations(trace)[i as int] == values(evaluations@)[i as int]);
            i += 1;
        }
        Ok(true)
    }

    /// The polynomial that each constraint of the system interpolates to:
    /// the transition constraints first, then the boundary constraints.
    pub open spec fn interpolants(&self, trace: &ExecutionTrace) -> Seq<Seq<nat>> {
        Seq::new(
            self.transition_constraints@.len() + self.boundary_constraints@.len(),
            |k: int| interpolant(self.vector(trace, k)),
        )
    }

    /// The values of constraint `k` over the trace domain, counting the
    /// transition constraints first and the boundary constraints after them.
    pub open spec fn vector(&self, trace: &ExecutionTrace, k: int) -> Seq<nat> {
        if k < self.transition_constraints@.len() {
            transition_vector(self.transition_constraints@[k].evaluate, trace)
        } else {
            let b = self.boundary_constraints@[k - self.transition_constraints@.len()];
            boundary_vector(b.evaluate, b.row, trace)
        }
    }

    /// The values of a constraint over the trace domain are canonical field
    /// elements, one for each row.
    pub proof fn lemma_vector_reduced(&self, trace: &ExecutionTrace, k: int)
        ensures
            is_reduced(self.vector(trace, k)),
            self.vector(trace, k).len() == trace.height,
    {
        let v = self.vector(trace, k);
        lemma_reduce_bound_all();
        lemma_modulus_positive();
        assert forall|i: int| 0 <= i < v.len() implies #[trigger] v[i] < modulus() by {}
    }

    /// The transition evaluations of the first `steps` steps are all zero
    /// exactly if every transition constraint is met at each of those steps.
    pub proof fn lemma_transition_evaluations_zero(&self, trace: &ExecutionTrace, steps: nat)
        ensures
            (forall|k: int|
                0 <= k < self.transition_evaluations(trace, steps).len()
                    ==> #[trigger] self.transition_evaluations(trace, steps)[k] == 0) <==> (forall|
                i: int,
                k: int,
            |
                0 <= i < steps && 0 <= k < self.transition_constraints@.len()
                    ==> #[trigger] self.transitions_at(trace, i)[k] == 0),
        decreases steps,
    {
        let all = self.transition_evaluations(trace, steps);
        if steps > 0 {
            let before = self.transition_evaluations(trace, (steps - 1) as nat);
            let last = self.transitions_at(trace, steps - 1);
            self.lemma_transition_evaluations_zero(trace, (steps - 1) as nat);
            assert(all == before + last);
            if forall|k: int| 0 <= k < all.len() ==> #[trigger] all[k] == 0 {
                assert forall|k: int| 0 <= k < before.len() implies #[trigger] before[k] == 0 by {
                    assert(all[k] == before[k]);
                }
                assert forall|i: int, k: int|
                    0 <= i < steps && 0 <= k < self.transition_constraints@.len()
                        implies #[trigger] self.transitions_at(trace, i)[k] == 0 by {
                    if i == steps - 1 {
                        assert(all[before.len() + k] == last[k]);
                    }
                }
            }
            if forall|i: int, k: int|
                0 <= i < steps && 0 <= k < self.transition_constraints@.len()
                    ==> #[trigger] self.transitions_at(trace, i)[k] == 0 {
                assert forall|k: int| 0 <= k < all.len() implies #[trigger] all[k] == 0 by {
                    if k < before.len() {
                        assert(all[k] == before[k]);
                    } else {
                        assert(all[k] == last[k - before.len()]);
                    }
                }
            }
        }
    }

    /// A complete trace meets every constraint exactly if the polynomial of
    /// each constraint is divisible by the vanishing polynomial of the trace
    /// domain; and such a polynomial is divisible exactly if it is the zero
    /// polynomial.
    pub proof fn lemma_satisfied_iff_divisible(
        &self,
        trace: &ExecutionTrace,
        domain: EvaluationDomain,
    )
        requires
            self.wf(),
            trace.is_complete(),
            self.rows_in_range(trace),
            domain.wf(),
            domain.spec_size() == trace.height,
        ensures
            self.satisfied_by(trace) <==> (forall|k: int|
                0 <= k < self.interpolants(trace).len() ==> divides(
                    vanishing_coefficients(trace.height as nat),
                    #[trigger] self.interpolants(trace)[k],
                )),
            forall|k: int|
                0 <= k < self.interpolants(trace).len() ==> (divides(
                    vanishing_coefficients(trace.height as nat),
                    #[trigger] self.interpolants(trace)[k],
                ) <==> self.interpolants(trace)[k].len() == 0),
    {
        let height = trace.height as nat;
        let z = vanishing_coefficients(height);
        let polys = self.interpolants(trace);
        let transitions = self.transition_constraints@.len() as int;
        let steps = step_count(trace);
        let flat = self.evaluations(trace);
        let moves = self.transition_evaluations(trace, steps);
        let bounds = self.boundary_evaluations(trace);
        domain.lemma_wf();
        self.lemma_transition_evaluations_zero(trace, steps);
        // Divisible means zero, for a polynomial of degree below the height.
        assert forall|k: int| 0 <= k < polys.len() implies (divides(z, #[trigger] polys[k])
            <==> polys[k].len() == 0) by {
            let v = self.vector(trace, k);
            let p = polys[k];
            self.lemma_vector_reduced(trace, k);
            lemma_normalize(intt(v, root_of_unity(v.len()), v.len()));
            if divides(z, p) {
                let q = choose|q: Seq<nat>| #[trigger] is_division(p, z, q, Seq::empty());
                lemma_division_of_shorter(p, z, q, Seq::empty());
            }
            if p.len() == 0 {
                lemma_normalize(raw_mul(Seq::empty(), z));
                assert(poly_mul(Seq::empty(), z) =~= Seq::<nat>::empty());
                lemma_poly_add_zero(Seq::empty());
                assert(p =~= Seq::<nat>::empty());
                assert(is_division(p, z, Seq::empty(), Seq::empty()));
            }
        }
        // Zero means that the constraint is met wherever it is evaluated.
        assert forall|k: int| 0 <= k < polys.len() implies ((#[trigger] polys[k]).len() == 0
            <==> (forall|i: int| 0 <= i < height ==> self.vector(trace, k)[i] == 0)) by {
            let v = self.vector(trace, k);
            self.lemma_vector_reduced(trace, k);
            if polys[k].len() == 0 {
                lemma_zero_interpolant(v, domain);
            }
            if forall|i: int| 0 <= i < height ==> v[i] == 0 {
                lemma_interpolant_zeros(v);
            }
        }
        if self.satisfied_by(trace) {
            assert forall|idx: int| 0 <= idx < moves.len() implies #[trigger] moves[idx] == 0 by {
                assert(flat[idx] == moves[idx]);
            }
            assert forall|k: int| 0 <= k < polys.len() implies (#[trigger] polys[k]).len()
                == 0 by {
                let v = self.vector(trace, k);
                assert forall|i: int| 0 <= i < height implies v[i] == 0 by {
                    if k < transitions {
                        if i + 1 < height {
                            assert(self.transitions_at(trace, i)[k] == v[i]);
                        }
                    } else {
                        let b = k - transitions;
                        if i == self.boundary_constraints@[b].row {
                            assert(flat[moves.len() + b] == bounds[b]);
                        }
                    }
                }
            }
        }
        if forall|k: int| 0 <= k < polys.len() ==> (#[trigger] polys[k]).len() == 0 {
            assert forall|i: int, k: int| 0 <= i < steps && 0 <= k < transitions
                implies #[trigger] self.transitions_at(trace, i)[k] == 0 by {
                assert(polys[k].len() == 0);
                assert(self.vector(trace, k)[i] == 0);
            }
            assert forall|idx: int| 0 <= idx < flat.len() implies #[trigger] flat[idx] == 0 by {
                if idx < moves.len() {
                    assert(flat[idx] == moves[idx]);
                } else {
                    let b = idx - moves.len();
                    let row = self.boundary_constraints@[b].row as int;
                    assert(flat[idx] == bounds[b]);
                    assert(polys[transitions + b].len() == 0);
                    assert(self.vector(trace, transitions + b)[row] == 0);
                }
            }
        }
    }

    /// The polynomial that takes the values of a transition constraint on
    /// the trace domain.
    ///
    /// The trace has to be complete, and its height the size of a domain.
    pub fn interpolate_transition_constraint(
        &self,
        trace: &ExecutionTrace,
        constraint: &TransitionConstraint<T>,
    ) -> (r: Result<Polynomial, StarkError>)
        requires
            is_transition_rule(constraint.evaluate),
        ensures
            r.is_ok() <==> trace.is_complete() && is_domain_size(trace.height as nat),
            !trace.is_complete() ==> r == Err::<Polynomial, StarkError>(StarkError::OutOfRange),
            trace.is_complete() && r.is_err() ==> r == Err::<Polynomial, StarkError>(
                StarkError::UnsupportedDomainSize,
            ),
            r.is_ok() ==> r.unwrap().wf() && r.unwrap()@ == interpolant(
                transition_vector(constraint.evaluate, trace),
            ) && r.unwrap()@.len() <= trace.height,
            r.is_ok() ==> forall|i: int|
                0 <= i < step_count(trace) ==> transition_defined(
                    constraint.evaluate,
                    #[trigger] trace.trace@[i],
                    trace.trace@[i + 1],
                ),
    {
        let rows = trace.trace.len();
        if rows as u64 != trace.height {
            return Err(StarkError::OutOfRange);
        }
        let domain = match EvaluationDomain::new(rows) {
            Ok(d) => d,
            Err(e) => {
                return Err(e);
            },
        };
        let mut evaluations: Vec<Fe> = Vec::new();
        let f = &constraint.evaluate;
        let mut i: usize = 0;
        while i < rows
            invariant
                i <= rows,
                rows == trace.trace.len(),
                rows == trace.height,
                is_transition_rule(*f),
                *f == constraint.evaluate,
                evaluations.len() == i,
                all_wf(evaluations@),
                forall|k: int|
                    0 <= k < i ==> (#[trigger] evaluations[k])@ == transition_vector(*f, trace)[k],
                forall|k: int|
                    0 <= k < i && k < step_count(trace) ==> transition_defined(
                        *f,
                        #[trigger] trace.trace@[k],
                        trace.trace@[k + 1],
                    ),
            decreases rows - i,
        {
            let eval = if i + 1 < rows {
                let out = f(&trace.trace[i], &trace.trace[i + 1]);
                proof {
                    assert(call_ensures(*f, (&trace.trace[i as int], &trace.trace[i + 1]), out));
                    lemma_reduce_small(out@);
                    assert(out@ == transition_value(*f, trace.trace@[i as int], trace.trace@[i + 1]));
                }
                out
            } else {
                Fe::zero()
            };
            evaluations.push(eval);
            i += 1;
        }
        assert(values(evaluations@) =~= transition_vector(*f, trace));
        Ok(domain.interpolate(&evaluations))
    }

    /// The polynomial that takes the value of a boundary constraint at its
    /// row of the trace domain, and zero at the other points.
    ///
    /// The trace has to be complete, its height the size of a domain, and
    /// the row of the constraint one of its rows.
    pub fn interpolate_boundary_constraint(
        &self,
        trace: &ExecutionTrace,
        constraint: &BoundaryConstraint<B>,
    ) -> (r: Result<Polynomial, StarkError>)
        requires
            is_boundary_rule(constraint.evaluate),
        ensures
            r.is_ok() <==> trace.is_complete() && is_domain_size(trace.height as nat)
                && constraint.row < trace.height,
            trace.is_complete() && !is_domain_size(trace.height as nat) ==> r == Err::<
                Polynomial,
                StarkError,
            >(StarkError::UnsupportedDomainSize),
            r.is_err() && !(trace.is_complete() && !is_domain_size(trace.height as nat)) ==> r
                == Err::<Polynomial, StarkError>(StarkError::OutOfRange),
            r.is_ok() ==> r.unwrap().wf() && r.unwrap()@ == interpolant(
                boundary_vector(constraint.evaluate, constraint.row, trace),
            ) && r.unwrap()@.len() <= trace.height,
            r.is_ok() ==> boundary_defined(constraint.evaluate, trace.trace@[constraint.row as int]),
    {
        let rows = trace.trace.len();
        if rows as u64 != trace.height {
            return Err(StarkError::OutOfRange);
        }
        let domain = match EvaluationDomain::new(rows) {
            Ok(d) => d,
            Err(e) => {
                return Err(e);
            },
        };
        if constraint.row >= rows as u64 {
            return Err(StarkError::OutOfRange);
        }
        let at = constraint.row as usize;
        let f = &constraint.evaluate;
        let value = f(&trace.trace[at]);
        proof {
            assert(call_ensures(*f, (&trace.trace[at as int],), value));
            lemma_reduce_small(value@);
            assert(value@ == boundary_value(*f, trace.trace@[at as int]));
        }
        let mut evaluations: Vec<Fe> = Vec::new();
        let mut i: usize = 0;
        while i < rows
            invariant
                i <= rows,
                rows == trace.height,
                at == constraint.row,
                value.wf(),
                value@ == boundary_value(constraint.evaluate, trace.trace@[at as int]),
                evaluations.len() == i,
                all_wf(evaluations@),
                forall|k: int|
                    0 <= k < i ==> (#[trigger] evaluations[k])@ == boundary_vector(
                        constraint.evaluate,
                        constraint.row,
                        trace,
                    )[k],
            decreases rows - i,
        {
            let eval = if i == at {
                value
            } else {
                Fe::zero()
            };
            evaluations.push(eval);
            i += 1;
        }
        assert(values(evaluations@) =~= boundary_vector(
            constraint.evaluate,
            constraint.row,
            trace,
        ));
        Ok(domain.interpolate(&evaluations))
    }

    /// The polynomials of all constraints: the transition constraints first,
    /// then the boundary constraints, each in the order in which they were
    /// added.
    ///
    /// A system without constraints gives no polynomial and reads nothing.
    /// Otherwise the trace has to be complete, its height the size of a
    /// domain, and every boundary constraint about one of its rows.
    pub fn interpolate_all_constraints(&self, trace: &ExecutionTrace) -> (r: Result<
        Vec<Polynomial>,
        StarkError,
    >)
        requires
            self.wf(),
        ensures
            r.is_ok() <==> self.interpolants(trace).len() == 0 || (trace.is_complete()
                && is_domain_size(trace.height as nat) && self.rows_in_range(trace)),
            r.is_err() ==> r == Err::<Vec<Polynomial>, StarkError>(
                if trace.is_complete() && !is_domain_size(trace.height as nat) {
                    StarkError::UnsupportedDomainSize
                } else {
                    StarkError::OutOfRange
                },
            ),
            r.is_ok() ==> {
                let polynomials = r.unwrap();
                &&& polynomials@.len() == self.interpolants(trace).len()
                &&& forall|k: int|
                    0 <= k < polynomials@.len() ==> (#[trigger] polynomials@[k]).wf()
                        && polynomials@[k]@ == self.interpolants(trace)[k] && polynomials@[k]@.len()
                        <= trace.height
                &&& self.defined_on(trace)
            },
    {
        let mut polynomials: Vec<Polynomial> = Vec::new();
        let transitions = self.transition_constraints.len();
        let mut k: usize = 0;
        while k < transitions
            invariant
                k <= transitions,
                transitions == self.transition_constraints@.len(),
                self.wf(),
                    polynomials.len() == k,
                k > 0 ==> trace.is_complete() && is_domain_size(trace.height as nat),
                forall|j: int|
                    0 <= j < k ==> (#[trigger] polynomials@[j]).wf() && polynomials@[j]@
                        == self.interpolants(trace)[j] && polynomials@[j]@.len() <= trace.height,
                forall|i: int, j: int|
                    #![trigger self.transition_constraints@[j], trace.trace@[i]]
                    0 <= i < step_count(trace) && 0 <= j < k ==> transition_defined(
                        self.transition_constraints@[j].evaluate,
                        trace.trace@[i],
                        trace.trace@[i + 1],
                    ),
            decreases transitions - k,
        {
            let constraint = &self.transition_constraints[k];
            match self.interpolate_transition_constraint(trace, constraint) {
                Ok(p) => {
                    polynomials.push(p);
                },
                Err(e) => {
                    return Err(e);
                },
            }
            k += 1;
        }
        let mut b: usize = 0;
        while b < self.boundary_constraints.len()
            invariant
                b <= self.boundary_constraints@.len(),
                transitions == self.transition_constraints@.len(),
                self.wf(),
                    polynomials.len() == transitions + b,
                transitions + b > 0 ==> trace.is_complete() && is_domain_size(trace.height as nat),
                forall|j: int|
                    0 <= j < b ==> (#[trigger] self.boundary_constraints@[j]).row < trace.height
                        && boundary_defined(
                        self.boundary_constraints@[j].evaluate,
                        trace.trace@[self.boundary_constraints@[j].row as int],
                    ),
                forall|i: int, j: int|
                    #![trigger self.transition_constraints@[j], trace.trace@[i]]
                    0 <= i < step_count(trace) && 0 <= j < transitions ==> transition_defined(
                        self.transition_constraints@[j].evaluate,
                        trace.trace@[i],
                        trace.trace@[i + 1],
                    ),
                forall|j: int|
                    0 <= j < transitions + b ==> (#[trigger] polynomials@[j]).wf()
                        && polynomials@[j]@ == self.interpolants(trace)[j] && polynomials@[j]@.len()
                        <= trace.height,
            decreases self.boundary_constraints@.len() - b,
        {
            let constraint = &self.boundary_constraints[b];
            match self.interpolate_boundary_constraint(trace, constraint) {
                Ok(p) => {
                    polynomials.push(p);
                },
                Err(e) => {
                    return Err(e);
                },
            }
            b += 1;
        }
        Ok(polynomials)
    }
}

} // verus!
