use toyni::math::field::Fe;

const MODULUS_MINUS_ONE: &str =
    "52435875175126190479447740508185965837690552500527637822603658699938581184512";

fn fe(x: u64) -> Fe {
    Fe::from_u64(x)
}

#[test]
fn small_numbers_add_and_multiply_as_integers() {
    assert_eq!(fe(2).add(&fe(3)), fe(5));
    assert_eq!(fe(7).sub(&fe(3)), fe(4));
    assert_eq!(fe(6).mul(&fe(7)), fe(42));
    assert_eq!(fe(0), Fe::zero());
    assert_eq!(fe(1), Fe::one());
    assert!(fe(0).is_zero());
    assert!(!fe(1).is_zero());
    assert!(fe(5).equals(&fe(5)));
    assert!(!fe(5).equals(&fe(6)));
}

#[test]
fn subtraction_wraps_around_the_modulus() {
    let minus_one = fe(0).sub(&fe(1));
    assert_eq!(minus_one.to_decimal(), MODULUS_MINUS_ONE);
    assert_eq!(minus_one.add(&fe(1)), fe(0));
    assert_eq!(minus_one.mul(&minus_one), fe(1));
    assert_eq!(minus_one.add(&fe(3)), fe(2));
}

#[test]
fn products_beyond_one_limb_are_exact() {
    let big = fe(u64::MAX);
    assert_eq!(big.mul(&big).to_decimal(), "340282366920938463426481119284349108225");
    assert_eq!(big.add(&fe(1)).to_decimal(), "18446744073709551616");
}

#[test]
fn decimal_text_has_no_leading_zeros() {
    assert_eq!(fe(0).to_decimal(), "0");
    assert_eq!(fe(7).to_decimal(), "7");
    assert_eq!(fe(1234567890).to_decimal(), "1234567890");
}

#[test]
fn inverse_times_element_is_one() {
    for x in [1u64, 2, 3, 1000, u64::MAX] {
        let inverse = fe(x).inverse().unwrap();
        assert_eq!(fe(x).mul(&inverse), fe(1));
    }
    assert_eq!(
        fe(3).inverse().unwrap().to_decimal(),
        "34957250116750793652965160338790643891793701667018425215069105799959054123009"
    );
    assert_eq!(
        fe(2).inverse().unwrap().to_decimal(),
        "26217937587563095239723870254092982918845276250263818911301829349969290592257"
    );
}

#[test]
fn zero_has_no_inverse() {
    assert_eq!(fe(0).inverse(), None);
}

#[test]
fn powers_are_repeated_products() {
    assert_eq!(fe(3).pow(0), fe(1));
    assert_eq!(fe(3).pow(1), fe(3));
    assert_eq!(fe(3).pow(4), fe(81));
    assert_eq!(fe(0).pow(0), fe(1));
    assert_eq!(fe(2).pow(64), fe(u64::MAX).add(&fe(1)));
}

#[test]
fn random_elements_differ() {
    let a = Fe::random();
    let b = Fe::random();
    let c = Fe::random();
    assert!(!(a == b && b == c));
    // A random element is a field element like any other.
    assert_eq!(a.sub(&a), fe(0));
}
