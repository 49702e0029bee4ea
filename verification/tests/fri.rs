use toyni::errors::StarkError;
use toyni::math::domain::EvaluationDomain;
use toyni::math::field::Fe;
use toyni::math::fri::{fri_commit, fri_fold};
use toyni::math::polynomial::Polynomial;

fn fe(x: u64) -> Fe {
    Fe::from_u64(x)
}

fn neg(x: u64) -> Fe {
    fe(0).sub(&fe(x))
}

fn fes(values: &[u64]) -> Vec<Fe> {
    values.iter().map(|v| fe(*v)).collect()
}

#[test]
fn fold_of_four_values() {
    // (1 + 3)/2 + (1 - 3)/2 * 5 = -3 and (2 + 4)/2 + (2 - 4)/2 * 5 = -2.
    let folded = fri_fold(&fes(&[1, 2, 3, 4]), fe(5)).unwrap();
    assert_eq!(folded, vec![neg(3), neg(2)]);
    assert_eq!(
        folded[0].to_decimal(),
        "52435875175126190479447740508185965837690552500527637822603658699938581184510"
    );
}

#[test]
fn fold_of_two_values_has_one() {
    let folded = fri_fold(&fes(&[1, 4]), fe(1)).unwrap();
    assert_eq!(folded, fes(&[1]));
    // (1 + 2)/2 + (1 - 2)/2 * 3 = 0
    assert_eq!(fri_fold(&fes(&[1, 2]), fe(3)).unwrap(), fes(&[0]));
}

#[test]
fn fold_with_challenge_zero_is_the_mean() {
    let folded = fri_fold(&fes(&[2, 10, 4, 20]), fe(0)).unwrap();
    assert_eq!(folded, fes(&[3, 15]));
    let half = fe(2).inverse().unwrap();
    assert_eq!(fri_fold(&fes(&[1, 2]), fe(0)).unwrap(), vec![fe(3).mul(&half)]);
}

#[test]
fn fold_of_nothing_is_nothing() {
    assert_eq!(fri_fold(&[], fe(7)).unwrap(), Vec::<Fe>::new());
}

#[test]
fn fold_of_an_odd_number_of_values_is_refused() {
    assert_eq!(fri_fold(&fes(&[1, 2, 3]), fe(5)).err(), Some(StarkError::OddLength));
    assert_eq!(fri_fold(&fes(&[1]), fe(5)).err(), Some(StarkError::OddLength));
}

#[test]
fn fold_splits_a_polynomial_into_even_and_odd_parts() {
    // P = 1 + 2x + 3x^2 + 4x^3 has the even part 1 + 3y and the odd part
    // 2 + 4y.  At the point x with y = x^2 the fold is
    // P_e(y) + beta * x * P_o(y).
    let domain = EvaluationDomain::new(8).unwrap();
    let p = Polynomial::new(fes(&[1, 2, 3, 4]));
    let even = Polynomial::new(fes(&[1, 3]));
    let odd = Polynomial::new(fes(&[2, 4]));
    let beta = fe(11);
    let folded = fri_fold(&p.evaluate_over(&domain), beta).unwrap();
    assert_eq!(folded.len(), 4);
    for i in 0..4 {
        let x = domain.element(i);
        let y = x.mul(&x);
        let expected = even.evaluate(y).add(&beta.mul(&x).mul(&odd.evaluate(y)));
        assert_eq!(folded[i], expected);
    }
}

#[test]
fn fold_of_an_even_polynomial_is_its_even_part() {
    // P = 5 + 7x^2 has no odd part: the fold is 5 + 7y on the half domain.
    let domain = EvaluationDomain::new(4).unwrap();
    let half_domain = EvaluationDomain::new(2).unwrap();
    let p = Polynomial::new(fes(&[5, 0, 7]));
    let folded = fri_fold(&p.evaluate_over(&domain), fe(123)).unwrap();
    assert_eq!(folded, Polynomial::new(fes(&[5, 7])).evaluate_over(&half_domain));
}

#[test]
fn fold_of_two_values_is_even_part_plus_challenge_times_odd_part() {
    // On the domain {1, -1}, a + bx has the values a + b and a - b, and the
    // fold with beta is a + beta * b.
    let domain = EvaluationDomain::new(2).unwrap();
    let p = Polynomial::new(fes(&[6, 4]));
    let folded = fri_fold(&p.evaluate_over(&domain), fe(10)).unwrap();
    assert_eq!(folded, fes(&[46]));
}

#[test]
fn commit_records_every_layer_and_challenge() {
    let evals = fes(&[1, 2, 3, 4, 5, 6, 7, 8]);
    let (layers, challenges) =
        fri_commit(evals.clone(), 2, |round: usize, _layer: &Vec<Fe>| fe(round as u64 + 1))
            .unwrap();
    assert_eq!(challenges, fes(&[1, 2]));
    assert_eq!(layers.len(), 3);
    assert_eq!(layers[0], evals);
    assert_eq!(layers[1], fri_fold(&evals, fe(1)).unwrap());
    assert_eq!(layers[2], fri_fold(&layers[1], fe(2)).unwrap());
    // With the challenge 1 the fold keeps the first half: 1, 2, 3, 4.
    assert_eq!(layers[1], fes(&[1, 2, 3, 4]));
    assert_eq!(layers[2].len(), 2);
}

#[test]
fn commit_of_a_short_vector_folds_nothing() {
    let evals = fes(&[1, 2, 3]);
    let (layers, challenges) =
        fri_commit(evals.clone(), 4, |_round: usize, _layer: &Vec<Fe>| fe(9)).unwrap();
    assert_eq!(layers, vec![evals]);
    assert!(challenges.is_empty());
}

#[test]
fn commit_stops_at_a_layer_of_odd_length() {
    // 6 values fold to 3, which cannot be folded down to 1.
    let result = fri_commit(fes(&[1, 2, 3, 4, 5, 6]), 1, |_round: usize, _layer: &Vec<Fe>| fe(9));
    assert_eq!(result.err(), Some(StarkError::OddLength));
    let result = fri_commit(fes(&[1, 2, 3, 4, 5, 6]), 3, |_round: usize, _layer: &Vec<Fe>| fe(9));
    assert_eq!(result.unwrap().0.len(), 2);
}

#[test]
fn commit_asks_for_each_challenge_with_the_layer_to_fold() {
    let (layers, challenges) = fri_commit(
        fes(&[5, 6, 7, 8]),
        1,
        |round: usize, layer: &Vec<Fe>| layer[0].add(&fe(round as u64)),
    )
    .unwrap();
    assert_eq!(challenges[0], fe(5));
    assert_eq!(challenges[1], layers[1][0].add(&fe(1)));
    assert_eq!(layers[2].len(), 1);
}
