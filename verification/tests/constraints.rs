use toyni::errors::StarkError;
use toyni::math::domain::EvaluationDomain;
use toyni::math::field::Fe;
use toyni::vm::constraints::ConstraintSystem;
use toyni::vm::trace::{ExecutionTrace, Row};

type Transition = Box<dyn Fn(&Row, &Row) -> Fe>;
type Boundary = Box<dyn Fn(&Row) -> Fe>;
type System = ConstraintSystem<Transition, Boundary>;

fn create_test_trace() -> ExecutionTrace {
    let mut trace = ExecutionTrace::new(3, 2);
    for i in 0..3 {
        let mut column = Row::new();
        column.insert("x".to_string(), i);
        column.insert("y".to_string(), i * 2);
        trace.insert_column(column).unwrap();
    }
    trace
}

fn x_increments() -> Transition {
    Box::new(|current, next| {
        let x_current = current.get("x").unwrap();
        let x_next = next.get("x").unwrap();
        Fe::from_u64(*x_next).sub(&Fe::from_u64(*x_current + 1))
    })
}

fn x_itself() -> Boundary {
    Box::new(|row| {
        let x = row.get("x").unwrap();
        Fe::from_u64(*x)
    })
}

#[test]
fn test_transition_constraint() {
    let mut system = System::new();

    // Add a constraint: y[n] = 2 * x[n]
    system.add_transition_constraint(
        "y_equals_2x".to_string(),
        vec!["x".to_string(), "y".to_string()],
        Box::new(|current, _| {
            let x = current.get("x").unwrap();
            let y = current.get("y").unwrap();
            Fe::from_u64(*y).sub(&Fe::from_u64(2 * *x))
        }),
    );

    let trace = create_test_trace();
    assert!(system.is_satisfied(&trace).unwrap());
}

#[test]
fn test_boundary_constraint() {
    let mut system = System::new();

    // Add a constraint: x[0] = 0
    system.add_boundary_constraint(
        "x_starts_at_zero".to_string(),
        0,
        vec!["x".to_string()],
        Box::new(|row| {
            let x = row.get("x").unwrap();
            Fe::from_u64(*x)
        }),
    );

    let trace = create_test_trace();
    assert!(system.is_satisfied(&trace).unwrap());
}

#[test]
fn test_unsatisfied_constraint() {
    let mut system = System::new();

    // Add a constraint: x[n] = x[n-1] + 1
    system.add_transition_constraint(
        "x_increments".to_string(),
        vec!["x".to_string()],
        Box::new(|current, next| {
            let x_current = current.get("x").unwrap();
            let x_next = next.get("x").unwrap();
            Fe::from_u64(*x_next).sub(&Fe::from_u64(*x_current + 1))
        }),
    );

    // Create a trace that doesn't satisfy the constraint
    let mut trace = ExecutionTrace::new(3, 1);
    for i in 0..3 {
        let mut column = Row::new();
        column.insert("x".to_string(), i * 2); // x[n] = 2n instead of n
        trace.insert_column(column).unwrap();
    }

    assert!(!system.is_satisfied(&trace).unwrap());
}

#[test]
fn test_constraint_interpolation() {
    let mut system = System::new();

    // Add a transition constraint: x[n] = x[n-1] + 1
    system.add_transition_constraint(
        "increment".to_string(),
        vec!["x".to_string()],
        Box::new(|current, next| {
            let x_current = current.get("x").unwrap();
            let x_next = next.get("x").unwrap();
            Fe::from_u64(*x_next).sub(&Fe::from_u64(*x_current + 1))
        }),
    );

    // Add a boundary constraint: x[0] = 0
    system.add_boundary_constraint(
        "start".to_string(),
        0,
        vec!["x".to_string()],
        Box::new(|row| {
            let x = row.get("x").unwrap();
            Fe::from_u64(*x)
        }),
    );

    // Create a trace that satisfies the constraints
    let mut trace = ExecutionTrace::new(4, 1);
    for i in 0..4 {
        let mut column = Row::new();
        column.insert("x".to_string(), i);
        trace.insert_column(column).unwrap();
    }

    // Interpolate all constraints
    let polynomials = system.interpolate_all_constraints(&trace).unwrap();

    // Verify that the interpolated polynomials evaluate to zero at the trace points
    for (i, poly) in polynomials.iter().enumerate() {
        for j in 0..trace.height {
            let eval = poly.evaluate(Fe::from_u64(j as u64));
            assert!(
                eval.is_zero(),
                "Polynomial {} should evaluate to zero at x={}",
                i,
                j
            );
        }
    }
}

fn doubling_trace() -> ExecutionTrace {
    // x = 0, 2, 4, 6
    let mut trace = ExecutionTrace::new(4, 1);
    for i in 0..4 {
        let mut column = Row::new();
        column.insert("x".to_string(), 2 * i);
        trace.insert_column(column).unwrap();
    }
    trace
}

#[test]
fn evaluations_come_step_by_step_then_boundaries() {
    let mut system = System::new();
    system.add_transition_constraint("incr".to_string(), vec!["x".to_string()], x_increments());
    system.add_transition_constraint(
        "next".to_string(),
        vec!["x".to_string()],
        Box::new(|_, next| Fe::from_u64(*next.get("x").unwrap())),
    );
    system.add_boundary_constraint("at2".to_string(), 2, vec!["x".to_string()], x_itself());
    system.add_boundary_constraint("at0".to_string(), 0, vec!["x".to_string()], x_itself());
    let evaluations = system.evaluate(&doubling_trace()).unwrap();
    let expected: Vec<Fe> = [1u64, 2, 1, 4, 1, 6, 4, 0].iter().map(|v| Fe::from_u64(*v)).collect();
    assert_eq!(evaluations, expected);
    assert!(!system.is_satisfied(&doubling_trace()).unwrap());
}

#[test]
fn empty_system_is_satisfied() {
    let system = System::new();
    assert_eq!(system.evaluate(&doubling_trace()).unwrap(), Vec::<Fe>::new());
    assert!(system.is_satisfied(&doubling_trace()).unwrap());
    assert!(system.interpolate_all_constraints(&doubling_trace()).unwrap().is_empty());
}

#[test]
fn boundary_row_outside_the_trace_is_refused() {
    let mut system = System::new();
    system.add_boundary_constraint("far".to_string(), 4, vec!["x".to_string()], x_itself());
    let trace = doubling_trace();
    assert_eq!(system.evaluate(&trace).err(), Some(StarkError::OutOfRange));
    assert_eq!(system.is_satisfied(&trace).err(), Some(StarkError::OutOfRange));
    assert_eq!(
        system.interpolate_all_constraints(&trace).err(),
        Some(StarkError::OutOfRange)
    );
}

#[test]
fn incomplete_trace_is_refused() {
    let mut system = System::new();
    system.add_transition_constraint("incr".to_string(), vec!["x".to_string()], x_increments());
    let mut trace = ExecutionTrace::new(4, 1);
    let mut column = Row::new();
    column.insert("x".to_string(), 0);
    trace.insert_column(column).unwrap();
    assert_eq!(system.evaluate(&trace).err(), Some(StarkError::OutOfRange));
    assert_eq!(
        system.interpolate_all_constraints(&trace).err(),
        Some(StarkError::OutOfRange)
    );
}

#[test]
fn interpolation_needs_a_power_of_two() {
    let mut system = System::new();
    system.add_transition_constraint("incr".to_string(), vec!["x".to_string()], x_increments());
    let mut trace = ExecutionTrace::new(3, 1);
    for i in 0..3 {
        let mut column = Row::new();
        column.insert("x".to_string(), i);
        trace.insert_column(column).unwrap();
    }
    assert!(system.is_satisfied(&trace).unwrap());
    assert_eq!(
        system.interpolate_all_constraints(&trace).err(),
        Some(StarkError::UnsupportedDomainSize)
    );
}

#[test]
fn interpolants_take_the_constraint_values_on_the_domain() {
    let mut system = System::new();
    system.add_transition_constraint("incr".to_string(), vec!["x".to_string()], x_increments());
    system.add_boundary_constraint("at2".to_string(), 2, vec!["x".to_string()], x_itself());
    let trace = doubling_trace();
    let polynomials = system.interpolate_all_constraints(&trace).unwrap();
    assert_eq!(polynomials.len(), 2);
    let domain = EvaluationDomain::new(4).unwrap();
    // The transition vector is [1, 1, 1, 0]: the last place is not checked.
    let transition: Vec<Fe> = [1u64, 1, 1, 0].iter().map(|v| Fe::from_u64(*v)).collect();
    assert_eq!(polynomials[0].evaluate_over(&domain), transition);
    // The boundary vector holds the value of row 2 in place 2.
    let boundary: Vec<Fe> = [0u64, 0, 4, 0].iter().map(|v| Fe::from_u64(*v)).collect();
    assert_eq!(polynomials[1].evaluate_over(&domain), boundary);
    let single = system
        .interpolate_boundary_constraint(&trace, &system.boundary_constraints[0])
        .unwrap();
    assert_eq!(single.coefficients, polynomials[1].coefficients);
    let first = system
        .interpolate_transition_constraint(&trace, &system.transition_constraints[0])
        .unwrap();
    assert_eq!(first.coefficients, polynomials[0].coefficients);
}

#[test]
fn satisfied_constraints_interpolate_to_multiples_of_the_vanishing_polynomial() {
    let mut system = System::new();
    system.add_transition_constraint("incr".to_string(), vec!["x".to_string()], x_increments());
    system.add_boundary_constraint("start".to_string(), 0, vec!["x".to_string()], x_itself());
    let vanishing = EvaluationDomain::new(4).unwrap().vanishing_polynomial();

    // x = 0, 1, 2, 3 meets both constraints: no remainder is left.
    let mut good = ExecutionTrace::new(4, 1);
    for i in 0..4 {
        let mut column = Row::new();
        column.insert("x".to_string(), i);
        good.insert_column(column).unwrap();
    }
    assert!(system.is_satisfied(&good).unwrap());
    for p in system.interpolate_all_constraints(&good).unwrap() {
        let (_, remainder) = p.divide(&vanishing).unwrap();
        assert!(remainder.is_zero());
    }

    // x = 0, 2, 4, 6 meets the boundary constraint only.
    let bad = doubling_trace();
    assert!(!system.is_satisfied(&bad).unwrap());
    let polynomials = system.interpolate_all_constraints(&bad).unwrap();
    let (_, remainder) = polynomials[0].divide(&vanishing).unwrap();
    assert!(!remainder.is_zero());
    let (_, remainder) = polynomials[1].divide(&vanishing).unwrap();
    assert!(remainder.is_zero());
}
