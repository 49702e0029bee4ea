use toyni::math::field::Fe;
use toyni::math::stark::{
    check_folds, StarkConfig, StarkProver, StarkVerifier, BLOWUP, FRI_FINAL_LAYER_SIZE,
    VERIFIER_QUERIES,
};
use toyni::errors::StarkError;
use toyni::vm::constraints::ConstraintSystem;
use toyni::vm::trace::{ExecutionTrace, Row};

type Transition = Box<dyn Fn(&Row, &Row) -> Fe>;
type Boundary = Box<dyn Fn(&Row) -> Fe>;
type System = ConstraintSystem<Transition, Boundary>;

fn value(row: &Row, name: &str) -> Fe {
    Fe::from_u64(*row.get(name).unwrap())
}

fn increment(name: &'static str) -> Transition {
    Box::new(move |current, next| {
        let x_n = value(current, name);
        let x_next = value(next, name);
        x_next.sub(&x_n).sub(&Fe::one())
    })
}

fn starts_at_zero(name: &'static str) -> Boundary {
    Box::new(move |row| value(row, name))
}

#[test]
fn test_valid_proof() {
    let mut trace = ExecutionTrace::new(4, 1);
    for i in 0..4 {
        let mut row = Row::new();
        row.insert("x".to_string(), i);
        trace.insert_column(row).unwrap();
    }

    let mut constraints = System::new();
    constraints.add_transition_constraint(
        "increment".to_string(),
        vec!["x".to_string()],
        Box::new(|current, next| {
            let x_n = Fe::from_u64(*current.get("x").unwrap());
            let x_next = Fe::from_u64(*next.get("x").unwrap());
            x_next.sub(&x_n).sub(&Fe::one())
        }),
    );
    constraints.add_boundary_constraint(
        "starts_at_0".to_string(),
        0,
        vec!["x".to_string()],
        Box::new(|row| Fe::from_u64(*row.get("x").unwrap())),
    );

    let prover = StarkProver::new(&trace, &constraints);
    let proof = prover.generate_proof().unwrap();
    let verifier = StarkVerifier::new(&constraints, trace.height as usize);
    assert!(verifier.verify(&proof));
}

#[test]
fn test_invalid_proof() {
    let mut trace = ExecutionTrace::new(4, 1);
    for i in 0..4 {
        let mut row = Row::new();
        row.insert("x".to_string(), i + 1); // invalid
        trace.insert_column(row).unwrap();
    }

    let mut constraints = System::new();
    constraints.add_transition_constraint(
        "increment".to_string(),
        vec!["x".to_string()],
        Box::new(|current, next| {
            let x_n = Fe::from_u64(*current.get("x").unwrap());
            let x_next = Fe::from_u64(*next.get("x").unwrap());
            x_next.sub(&x_n).sub(&Fe::one())
        }),
    );
    constraints.add_boundary_constraint(
        "starts_at_0".to_string(),
        0,
        vec!["x".to_string()],
        Box::new(|row| Fe::from_u64(*row.get("x").unwrap())),
    );

    let prover = StarkProver::new(&trace, &constraints);
    let proof = prover.generate_proof().unwrap();
    let verifier = StarkVerifier::new(&constraints, trace.height as usize);
    assert!(!verifier.verify(&proof));
}

#[test]
fn test_larger_trace() {
    let mut trace = ExecutionTrace::new(8, 1);
    for i in 0..8 {
        let mut row = Row::new();
        row.insert("x".to_string(), i);
        trace.insert_column(row).unwrap();
    }

    let mut constraints = System::new();
    constraints.add_transition_constraint(
        "increment".to_string(),
        vec!["x".to_string()],
        Box::new(|current, next| {
            let x_n = Fe::from_u64(*current.get("x").unwrap());
            let x_next = Fe::from_u64(*next.get("x").unwrap());
            x_next.sub(&x_n).sub(&Fe::one())
        }),
    );
    constraints.add_boundary_constraint(
        "starts_at_0".to_string(),
        0,
        vec!["x".to_string()],
        Box::new(|row| Fe::from_u64(*row.get("x").unwrap())),
    );

    let prover = StarkProver::new(&trace, &constraints);
    let proof = prover.generate_proof().unwrap();
    let verifier = StarkVerifier::new(&constraints, trace.height as usize);
    assert!(verifier.verify(&proof));
}

#[test]
fn test_multiple_variables() {
    let mut trace = ExecutionTrace::new(4, 2);
    for i in 0..4 {
        let mut row = Row::new();
        row.insert("x".to_string(), i);
        row.insert("y".to_string(), i * 2);
        trace.insert_column(row).unwrap();
    }

    let mut constraints = System::new();
    // x[n+1] = x[n] + 1
    constraints.add_transition_constraint(
        "increment_x".to_string(),
        vec!["x".to_string(), "y".to_string()],
        Box::new(|current, next| {
            let x_n = Fe::from_u64(*current.get("x").unwrap());
            let x_next = Fe::from_u64(*next.get("x").unwrap());
            x_next.sub(&x_n).sub(&Fe::one())
        }),
    );
    // y[n] = 2 * x[n]
    constraints.add_transition_constraint(
        "y_is_double_x".to_string(),
        vec!["x".to_string(), "y".to_string()],
        Box::new(|current, _| {
            let x = Fe::from_u64(*current.get("x").unwrap());
            let y = Fe::from_u64(*current.get("y").unwrap());
            y.sub(&x.mul(&Fe::from_u64(2)))
        }),
    );
    constraints.add_boundary_constraint(
        "starts_at_0".to_string(),
        0,
        vec!["x".to_string()],
        Box::new(|row| Fe::from_u64(*row.get("x").unwrap())),
    );

    let prover = StarkProver::new(&trace, &constraints);
    let proof = prover.generate_proof().unwrap();
    let verifier = StarkVerifier::new(&constraints, trace.height as usize);
    assert!(verifier.verify(&proof));
}

#[test]
fn test_zero_values() {
    let mut trace = ExecutionTrace::new(4, 1);
    for _ in 0..4 {
        let mut row = Row::new();
        row.insert("x".to_string(), 0); // All zeros
        trace.insert_column(row).unwrap();
    }

    let mut constraints = System::new();
    constraints.add_transition_constraint(
        "zero_sequence".to_string(),
        vec!["x".to_string()],
        Box::new(|current, next| {
            let x_n = Fe::from_u64(*current.get("x").unwrap());
            let x_next = Fe::from_u64(*next.get("x").unwrap());
            x_next.sub(&x_n) // Should be zero
        }),
    );
    constraints.add_boundary_constraint(
        "starts_at_zero".to_string(),
        0,
        vec!["x".to_string()],
        Box::new(|row| Fe::from_u64(*row.get("x").unwrap())),
    );

    let prover = StarkProver::new(&trace, &constraints);
    let proof = prover.generate_proof().unwrap();
    let verifier = StarkVerifier::new(&constraints, trace.height as usize);
    assert!(verifier.verify(&proof));
}

#[test]
fn test_complex_constraints() {
    let mut trace = ExecutionTrace::new(4, 2);
    for i in 0..4 {
        let mut row = Row::new();
        row.insert("x".to_string(), i);
        row.insert("y".to_string(), i * i); // y = x^2
        trace.insert_column(row).unwrap();
    }

    let mut constraints = System::new();
    // x[n+1] = x[n] + 1
    constraints.add_transition_constraint(
        "increment_x".to_string(),
        vec!["x".to_string(), "y".to_string()],
        Box::new(|current, next| {
            let x_n = Fe::from_u64(*current.get("x").unwrap());
            let x_next = Fe::from_u64(*next.get("x").unwrap());
            x_next.sub(&x_n).sub(&Fe::one())
        }),
    );
    // y[n] = x[n]^2
    constraints.add_transition_constraint(
        "y_is_x_squared".to_string(),
        vec!["x".to_string(), "y".to_string()],
        Box::new(|current, _| {
            let x = Fe::from_u64(*current.get("x").unwrap());
            let y = Fe::from_u64(*current.get("y").unwrap());
            y.sub(&x.mul(&x))
        }),
    );
    constraints.add_boundary_constraint(
        "starts_at_0".to_string(),
        0,
        vec!["x".to_string()],
        Box::new(|row| Fe::from_u64(*row.get("x").unwrap())),
    );
    let prover = StarkProver::new(&trace, &constraints);
    let proof = prover.generate_proof().unwrap();
    let verifier = StarkVerifier::new(&constraints, trace.height as usize);
    assert!(verifier.verify(&proof));
}

#[test]
fn test_invalid_complex_constraints() {
    let mut trace = ExecutionTrace::new(4, 2);
    for i in 0..4 {
        let mut row = Row::new();
        row.insert("x".to_string(), i);
        row.insert("y".to_string(), i * i + 1); // y = x^2 + 1 (invalid)
        trace.insert_column(row).unwrap();
    }

    let mut constraints = System::new();
    // x[n+1] = x[n] + 1
    constraints.add_transition_constraint(
        "increment_x".to_string(),
        vec!["x".to_string(), "y".to_string()],
        Box::new(|current, next| {
            let x_n = Fe::from_u64(*current.get("x").unwrap());
            let x_next = Fe::from_u64(*next.get("x").unwrap());
            x_next.sub(&x_n).sub(&Fe::one())
        }),
    );
    // y[n] = x[n]^2
    constraints.add_transition_constraint(
        "y_is_x_squared".to_string(),
        vec!["x".to_string(), "y".to_string()],
        Box::new(|current, _| {
            let x = Fe::from_u64(*current.get("x").unwrap());
            let y = Fe::from_u64(*current.get("y").unwrap());
            y.sub(&x.mul(&x))
        }),
    );
    constraints.add_boundary_constraint(
        "starts_at_0".to_string(),
        0,
        vec!["x".to_string()],
        Box::new(|row| Fe::from_u64(*row.get("x").unwrap())),
    );
    let prover = StarkProver::new(&trace, &constraints);
    let proof = prover.generate_proof().unwrap();
    let verifier = StarkVerifier::new(&constraints, trace.height as usize);
    assert!(!verifier.verify(&proof));
}

fn counting_trace(height: u64) -> ExecutionTrace {
    let mut trace = ExecutionTrace::new(height, 1);
    for i in 0..height {
        let mut row = Row::new();
        row.insert("x".to_string(), i);
        trace.insert_column(row).unwrap();
    }
    trace
}

fn counting_system() -> System {
    let mut constraints = System::new();
    constraints.add_transition_constraint(
        "incr".to_string(),
        vec!["x".to_string()],
        increment("x"),
    );
    constraints.add_boundary_constraint(
        "zero@0".to_string(),
        0,
        vec!["x".to_string()],
        starts_at_zero("x"),
    );
    constraints
}

#[test]
fn proof_has_the_documented_shape() {
    let trace = counting_trace(8);
    let constraints = counting_system();
    let proof = StarkProver::new(&trace, &constraints).generate_proof().unwrap();
    // 16 values fold to 8 and then to 4.
    assert_eq!(proof.quotient_eval_domain.len(), 16);
    assert_eq!(proof.fri_layers.len(), 3);
    assert_eq!(proof.fri_challenges.len(), 2);
    assert_eq!(proof.fri_layers[0], proof.quotient_eval_domain);
    assert_eq!(proof.fri_layers[1].len(), 8);
    assert_eq!(proof.fri_layers[2].len(), 4);
    // A trace that meets its constraints has the zero polynomial for both.
    assert!(proof.combined_constraint.is_zero());
    assert!(proof.quotient_poly.is_zero());
    assert!(check_folds(&proof));
}

#[test]
fn tampered_layer_is_rejected() {
    let trace = counting_trace(8);
    let constraints = counting_system();
    let mut proof = StarkProver::new(&trace, &constraints).generate_proof().unwrap();
    proof.fri_layers[1][0] = proof.fri_layers[1][0].add(&Fe::one());
    assert!(!check_folds(&proof));
    let verifier = StarkVerifier::new(&constraints, 8);
    assert!(!verifier.verify(&proof));
}

#[test]
fn missing_layer_is_rejected() {
    let trace = counting_trace(8);
    let constraints = counting_system();
    let mut proof = StarkProver::new(&trace, &constraints).generate_proof().unwrap();
    proof.fri_layers.pop();
    assert!(!check_folds(&proof));
}

#[test]
fn prover_refuses_height_that_is_no_domain_size() {
    let trace = counting_trace(3);
    let constraints = counting_system();
    let result = StarkProver::new(&trace, &constraints).generate_proof();
    assert_eq!(result.err(), Some(StarkError::UnsupportedDomainSize));
}

#[test]
fn prover_refuses_incomplete_trace() {
    let mut trace = ExecutionTrace::new(4, 1);
    let mut row = Row::new();
    row.insert("x".to_string(), 0);
    trace.insert_column(row).unwrap();
    let constraints = counting_system();
    let result = StarkProver::new(&trace, &constraints).generate_proof();
    assert_eq!(result.err(), Some(StarkError::OutOfRange));
}

#[test]
fn verifier_rejects_height_that_is_no_domain_size() {
    let trace = counting_trace(4);
    let constraints = counting_system();
    let proof = StarkProver::new(&trace, &constraints).generate_proof().unwrap();
    assert!(!StarkVerifier::new(&constraints, 3).verify(&proof));
    assert!(!StarkVerifier::new(&constraints, 0).verify(&proof));
}

#[test]
fn try_verify_says_why_a_proof_is_not_accepted() {
    let constraints = counting_system();
    let good = StarkProver::new(&counting_trace(4), &constraints).generate_proof().unwrap();
    assert_eq!(StarkVerifier::new(&constraints, 4).try_verify(&good), Ok(()));
    assert_eq!(
        StarkVerifier::new(&constraints, 6).try_verify(&good),
        Err(StarkError::UnsupportedDomainSize)
    );
    // A trace that counts from one does not meet the boundary constraint.
    let mut trace = ExecutionTrace::new(4, 1);
    for i in 0..4 {
        let mut row = Row::new();
        row.insert("x".to_string(), i + 1);
        trace.insert_column(row).unwrap();
    }
    let bad = StarkProver::new(&trace, &constraints).generate_proof().unwrap();
    assert!(!bad.combined_constraint.is_zero());
    assert!(bad.quotient_poly.is_zero());
    assert_eq!(
        StarkVerifier::new(&constraints, 4).try_verify(&bad),
        Err(StarkError::VerificationFailed)
    );
}

#[test]
fn challenges_come_from_the_source_given() {
    let trace = counting_trace(8);
    let constraints = counting_system();
    let prover = StarkProver::new(&trace, &constraints);
    let proof = prover
        .generate_proof_with(|round: usize, layer: &Vec<Fe>| {
            Fe::from_u64(1000 * round as u64 + layer.len() as u64)
        })
        .unwrap();
    // Fold 0 is asked for with the 16 values of the quotient, fold 1 with 8.
    assert_eq!(proof.fri_challenges, vec![Fe::from_u64(16), Fe::from_u64(1008)]);
    assert_eq!(proof.fri_layers.len(), 3);
    assert!(StarkVerifier::new(&constraints, 8).verify(&proof));
}

#[test]
fn short_traces_are_not_folded() {
    let trace = counting_trace(2);
    let constraints = counting_system();
    let proof = StarkProver::new(&trace, &constraints).generate_proof().unwrap();
    assert_eq!(proof.quotient_eval_domain.len(), 4);
    assert_eq!(proof.fri_layers.len(), 1);
    assert!(proof.fri_challenges.is_empty());
    assert!(StarkVerifier::new(&constraints, 2).verify(&proof));
}

#[test]
fn queries_go_to_the_points_that_the_source_names() {
    let constraints = counting_system();
    // x = 0, 1, 2, 4 breaks the last step only.
    let mut trace = ExecutionTrace::new(4, 1);
    for value in [0u64, 1, 2, 4] {
        let mut row = Row::new();
        row.insert("x".to_string(), value);
        trace.insert_column(row).unwrap();
    }
    let proof = StarkProver::new(&trace, &constraints).generate_proof().unwrap();
    let verifier = StarkVerifier::new(&constraints, 4);
    // The combined constraint has the values 0, 0, 1, 0 on the trace domain,
    // whose points are the even points of the evaluation domain: at the
    // points 0, 2 and 6 the check passes, at the point 4 it fails.
    for (point, expected) in [(0usize, true), (2, true), (6, true), (4, false)] {
        let result = verifier.try_verify_with(&proof, |_query| point);
        assert_eq!(result.is_ok(), expected);
    }
    // Numbers beyond the domain go round it.
    assert!(verifier.try_verify_with(&proof, |_query| 8 + 2).is_ok());
    assert_eq!(
        verifier.try_verify_with(&proof, |_query| 8 + 4),
        Err(StarkError::VerificationFailed)
    );
    // Every query is made: one bad point among the 80 is enough.
    assert!(verifier.try_verify_with(&proof, |query| if query == 79 { 4 } else { 0 }).is_err());
    assert!(verifier.try_verify_with(&proof, |query| 8 * query).is_ok());
}

#[test]
fn default_parameters() {
    let config = StarkConfig::default();
    assert_eq!(config.blowup, 2);
    assert_eq!(config.verifier_queries, 80);
    assert_eq!(config.fri_final_layer_size, 4);
    assert_eq!((BLOWUP, VERIFIER_QUERIES, FRI_FINAL_LAYER_SIZE), (2, 80, 4));
}

#[test]
fn larger_blowup_gives_a_larger_evaluation_domain() {
    let trace = counting_trace(4);
    let constraints = counting_system();
    let config = StarkConfig { blowup: 8, verifier_queries: 10, fri_final_layer_size: 2 };
    let proof = StarkProver::with_config(&trace, &constraints, config).generate_proof().unwrap();
    // 32 values fold to 16, 8, 4 and 2.
    assert_eq!(proof.quotient_eval_domain.len(), 32);
    assert_eq!(proof.fri_layers.len(), 5);
    assert_eq!(proof.fri_layers[4].len(), 2);
    assert_eq!(proof.fri_challenges.len(), 4);
    assert!(StarkVerifier::with_config(&constraints, 4, config).verify(&proof));
}

#[test]
fn folding_down_to_one_value() {
    let trace = counting_trace(4);
    let constraints = counting_system();
    let config = StarkConfig { blowup: 2, verifier_queries: 80, fri_final_layer_size: 1 };
    let proof = StarkProver::with_config(&trace, &constraints, config).generate_proof().unwrap();
    assert_eq!(proof.fri_layers.len(), 4);
    assert_eq!(proof.fri_layers[3].len(), 1);
}

#[test]
fn folding_cannot_stop_at_no_value() {
    let trace = counting_trace(4);
    let constraints = counting_system();
    let config = StarkConfig { blowup: 2, verifier_queries: 80, fri_final_layer_size: 0 };
    let result = StarkProver::with_config(&trace, &constraints, config).generate_proof();
    assert_eq!(result.err(), Some(StarkError::OddLength));
}

#[test]
fn blowup_has_to_be_a_power_of_two_above_one() {
    let trace = counting_trace(4);
    let constraints = counting_system();
    for blowup in [0usize, 1, 3, 6, usize::MAX] {
        let config = StarkConfig { blowup, verifier_queries: 80, fri_final_layer_size: 4 };
        let result = StarkProver::with_config(&trace, &constraints, config).generate_proof();
        assert_eq!(result.err(), Some(StarkError::UnsupportedDomainSize));
        let good = StarkProver::new(&trace, &constraints).generate_proof().unwrap();
        assert_eq!(
            StarkVerifier::with_config(&constraints, 4, config).try_verify(&good),
            Err(StarkError::UnsupportedDomainSize)
        );
    }
}

#[test]
fn verifier_without_queries_only_replays_the_folds() {
    let constraints = counting_system();
    let mut trace = ExecutionTrace::new(4, 1);
    for i in 0..4 {
        let mut row = Row::new();
        row.insert("x".to_string(), i + 1);
        trace.insert_column(row).unwrap();
    }
    let mut proof = StarkProver::new(&trace, &constraints).generate_proof().unwrap();
    let config = StarkConfig { blowup: 2, verifier_queries: 0, fri_final_layer_size: 4 };
    let verifier = StarkVerifier::with_config(&constraints, 4, config);
    assert!(verifier.verify(&proof));
    proof.fri_layers[1][0] = Fe::one();
    assert!(!verifier.verify(&proof));
}
