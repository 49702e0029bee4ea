use toyni::errors::StarkError;
use toyni::math::domain::EvaluationDomain;
use toyni::math::field::Fe;
use toyni::math::fri::interpolate_poly;
use toyni::math::polynomial::Polynomial;

fn fe(x: u64) -> Fe {
    Fe::from_u64(x)
}

fn fes(values: &[u64]) -> Vec<Fe> {
    values.iter().map(|v| fe(*v)).collect()
}

#[test]
fn sizes_that_are_no_power_of_two_are_refused() {
    for n in [0usize, 3, 5, 6, 7, 12, 100] {
        assert_eq!(EvaluationDomain::new(n).err(), Some(StarkError::UnsupportedDomainSize));
    }
    for n in [1usize, 2, 4, 8, 1024] {
        assert_eq!(EvaluationDomain::new(n).unwrap().size(), n);
    }
}

#[test]
fn sizes_beyond_the_two_adicity_are_refused() {
    assert_eq!(
        EvaluationDomain::new(1usize << 33).err(),
        Some(StarkError::UnsupportedDomainSize)
    );
    assert!(EvaluationDomain::new(1usize << 32).is_ok());
}

#[test]
fn generator_has_the_order_of_the_domain() {
    for log in 0..10u32 {
        let n = 1usize << log;
        let domain = EvaluationDomain::new(n).unwrap();
        let w = domain.generator();
        assert_eq!(w.pow(n as u64), fe(1));
        if n >= 2 {
            assert_eq!(w.pow(n as u64 / 2), fe(0).sub(&fe(1)));
        }
    }
    assert_eq!(
        EvaluationDomain::new(4).unwrap().generator().to_decimal(),
        "3465144826073652318776269530687742778270252468765361963008"
    );
}

#[test]
fn elements_are_the_powers_of_the_generator() {
    let domain = EvaluationDomain::new(8).unwrap();
    let points = domain.elements();
    assert_eq!(points.len(), 8);
    assert_eq!(points[0], fe(1));
    assert_eq!(points[1], domain.generator());
    for i in 0..8 {
        assert_eq!(points[i], domain.element(i));
        assert_eq!(points[i], domain.generator().pow(i as u64));
    }
    // The second half of the domain holds the negatives of the first half.
    for i in 0..4 {
        assert_eq!(points[i].add(&points[i + 4]), fe(0));
    }
    assert_eq!(domain.element(8), fe(1));
}

#[test]
fn vanishing_polynomial_is_x_to_the_n_minus_one() {
    let domain = EvaluationDomain::new(4).unwrap();
    let z = domain.vanishing_polynomial();
    assert_eq!(z.coefficients, vec![fe(0).sub(&fe(1)), fe(0), fe(0), fe(0), fe(1)]);
    for x in domain.elements() {
        assert_eq!(z.evaluate(x), fe(0));
    }
    assert_eq!(z.evaluate(fe(2)), fe(15));
    let one = EvaluationDomain::new(1).unwrap().vanishing_polynomial();
    assert_eq!(one.coefficients, vec![fe(0).sub(&fe(1)), fe(1)]);
}

#[test]
fn transform_gives_the_values_on_the_domain() {
    let domain = EvaluationDomain::new(4).unwrap();
    let coefficients = fes(&[1, 2, 3, 4]);
    let evaluations = domain.fft(&coefficients);
    let p = Polynomial::new(coefficients.clone());
    assert_eq!(evaluations, p.evaluate_over(&domain));
    assert_eq!(evaluations[0], fe(10));
    assert_eq!(evaluations[2], fe(0).sub(&fe(2)));
    assert_eq!(
        evaluations[3].to_decimal(),
        "6930289652147304637552539061375485556540504937530723926014"
    );
    assert_ne!(evaluations, coefficients);
}

#[test]
fn transform_of_fewer_coefficients_than_points() {
    let domain = EvaluationDomain::new(16).unwrap();
    for coefficients in [fes(&[]), fes(&[5]), fes(&[1, 2]), fes(&[1, 2, 3]), fes(&[9, 8, 7, 6, 5])] {
        let p = Polynomial::new(coefficients.clone());
        assert_eq!(domain.fft(&coefficients), p.evaluate_over(&domain));
    }
}

#[test]
fn inverse_transform_undoes_the_transform() {
    let domain = EvaluationDomain::new(8).unwrap();
    let values = fes(&[3, 1, 4, 1, 5, 9, 2, 6]);
    assert_eq!(domain.fft(&domain.ifft(&values)), values);
    assert_eq!(domain.ifft(&domain.fft(&values)), values);
    assert_ne!(domain.ifft(&values), values);
    let padded = domain.ifft(&domain.fft(&fes(&[7, 7, 7])));
    assert_eq!(padded, fes(&[7, 7, 7, 0, 0, 0, 0, 0]));
}

#[test]
fn inverse_transform_of_a_constant() {
    let domain = EvaluationDomain::new(4).unwrap();
    assert_eq!(domain.ifft(&fes(&[5, 5, 5, 5])), fes(&[5, 0, 0, 0]));
    // The values 1, w, w^2, w^3 are those of the polynomial x.
    assert_eq!(domain.ifft(&domain.elements()), fes(&[0, 1, 0, 0]));
}

#[test]
fn interpolation_gives_back_the_polynomial() {
    let domain = EvaluationDomain::new(8).unwrap();
    let p = Polynomial::new(fes(&[1, 2, 3, 4, 5]));
    let evaluations = p.evaluate_over(&domain);
    assert_eq!(domain.interpolate(&evaluations).coefficients, p.coefficients);
    let again = interpolate_poly(&domain.elements(), &evaluations).unwrap();
    assert_eq!(again.coefficients, p.coefficients);
    for (x, y) in domain.elements().iter().zip(evaluations.iter()) {
        assert_eq!(again.evaluate(*x), *y);
    }
}

#[test]
fn interpolation_over_a_size_that_is_no_domain_is_refused() {
    let points = fes(&[1, 2, 3]);
    assert_eq!(
        interpolate_poly(&points, &points).err(),
        Some(StarkError::UnsupportedDomainSize)
    );
}
