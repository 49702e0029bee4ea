use toyni::errors::StarkError;
use toyni::math::composition::CompositionPolynomial;
use toyni::math::domain::EvaluationDomain;
use toyni::math::field::Fe;
use toyni::vm::constraints::ConstraintSystem;
use toyni::vm::trace::{ExecutionTrace, Row};

type Transition = Box<dyn Fn(&Row, &Row) -> Fe>;
type Boundary = Box<dyn Fn(&Row) -> Fe>;
type System = ConstraintSystem<Transition, Boundary>;

fn counting_trace() -> ExecutionTrace {
    // Create a simple trace: x[n] = n
    let mut trace = ExecutionTrace::new(4, 1);
    for i in 0..4 {
        let mut column = Row::new();
        column.insert("x".to_string(), i);
        trace.insert_column(column).unwrap();
    }
    trace
}

fn increment_system() -> System {
    // Create constraint system: x[n] = x[n-1] + 1
    let mut constraints = System::new();
    constraints.add_transition_constraint(
        "increment".to_string(),
        vec!["x".to_string()],
        Box::new(|current, next| {
            let x_current = current.get("x").unwrap();
            let x_next = next.get("x").unwrap();
            Fe::from_u64(*x_next).sub(&Fe::from_u64(*x_current + 1))
        }),
    );
    constraints
}

#[test]
fn test_composition_polynomial() {
    // Create a simple trace: x[n] = n
    let mut trace = ExecutionTrace::new(4, 1);
    for i in 0..4 {
        let mut column = Row::new();
        column.insert("x".to_string(), i);
        trace.insert_column(column).unwrap();
    }

    // Create constraint system: x[n] = x[n-1] + 1
    let mut constraints = System::new();
    constraints.add_transition_constraint(
        "increment".to_string(),
        vec!["x".to_string()],
        Box::new(|current, next| {
            let x_current = current.get("x").unwrap();
            let x_next = next.get("x").unwrap();
            Fe::from_u64(*x_next).sub(&Fe::from_u64(*x_current + 1))
        }),
    );

    // Create evaluation domain
    let domain = EvaluationDomain::new(4).unwrap();

    // Create composition polynomial
    let comp_poly = CompositionPolynomial::new(&trace, &constraints, domain).unwrap();

    // Print trace values
    println!("Trace values:");
    for i in 0..trace.height {
        let column = trace.get_column(i).unwrap();
        println!("x[{}] = {}", i, column.get("x").unwrap());
    }

    // Print constraint evaluations
    println!("\nConstraint evaluations:");
    for i in 0..trace.height - 1 {
        let current_row = trace.get_column(i).unwrap();
        let next_row = trace.get_column(i + 1).unwrap();
        let x_current = current_row.get("x").unwrap();
        let x_next = next_row.get("x").unwrap();
        let eval = Fe::from_u64(*x_next).sub(&Fe::from_u64(*x_current + 1));
        println!("C[{}] = {}", i, eval.to_decimal());
    }

    // Print composition polynomial evaluations
    println!("\nComposition polynomial evaluations:");
    let evals = comp_poly.evaluations();
    for (i, eval) in evals.iter().enumerate() {
        println!("H[{}] = {}", i, eval.to_decimal());
    }

    // The composition polynomial should evaluate to zero at all points where:
    // 1. The trace values are correct (x[n] = n)
    // 2. The constraints are satisfied (x[n] = x[n-1] + 1)
    for eval in evals {
        assert!(eval.is_zero());
    }
}

#[test]
fn composition_over_a_larger_domain_is_zero_too() {
    let domain = EvaluationDomain::new(8).unwrap();
    let comp_poly = CompositionPolynomial::new(&counting_trace(), &increment_system(), domain)
        .unwrap();
    assert!(comp_poly.coefficients().is_empty());
    assert_eq!(comp_poly.degree(), 0);
    assert_eq!(comp_poly.evaluations(), vec![Fe::zero(); 8]);
    assert_eq!(comp_poly.evaluate(Fe::from_u64(5)), Fe::zero());
}

#[test]
fn composition_over_a_smaller_domain_is_refused() {
    let domain = EvaluationDomain::new(2).unwrap();
    let result = CompositionPolynomial::new(&counting_trace(), &increment_system(), domain);
    assert_eq!(result.err(), Some(StarkError::UnsupportedDomainSize));
}

#[test]
fn composition_of_an_incomplete_trace_is_refused() {
    let trace = ExecutionTrace::new(4, 1);
    let domain = EvaluationDomain::new(4).unwrap();
    let result = CompositionPolynomial::new(&trace, &increment_system(), domain);
    assert_eq!(result.err(), Some(StarkError::OutOfRange));
}

#[test]
fn from_evaluations_interpolates() {
    let domain = EvaluationDomain::new(4).unwrap();
    let constant: Vec<Fe> = vec![Fe::from_u64(5); 4];
    let poly = CompositionPolynomial::from_evaluations(constant.clone(), domain);
    assert_eq!(poly.coefficients(), &[Fe::from_u64(5)][..]);
    assert_eq!(poly.degree(), 0);
    assert_eq!(poly.evaluations(), constant);
    let line = CompositionPolynomial::from_evaluations(domain.elements(), domain);
    assert_eq!(line.coefficients(), &[Fe::zero(), Fe::one()][..]);
    assert_eq!(line.degree(), 1);
    assert_eq!(line.evaluate(Fe::from_u64(9)), Fe::from_u64(9));
}

#[test]
fn from_evaluations_pads_and_cuts_to_the_domain() {
    let domain = EvaluationDomain::new(2).unwrap();
    // [3] is read as [3, 0]: the polynomial 3/2 + 3/2 x.
    let half = Fe::from_u64(2).inverse().unwrap();
    let padded = CompositionPolynomial::from_evaluations(vec![Fe::from_u64(3)], domain);
    let c = Fe::from_u64(3).mul(&half);
    assert_eq!(padded.coefficients(), &[c, c][..]);
    // [4, 4, 9] is read as [4, 4]: the constant 4.
    let cut = CompositionPolynomial::from_evaluations(
        vec![Fe::from_u64(4), Fe::from_u64(4), Fe::from_u64(9)],
        domain,
    );
    assert_eq!(cut.coefficients(), &[Fe::from_u64(4)][..]);
}
