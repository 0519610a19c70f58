use gkr::densed_uni_poly::{add_polynomials, multiply_polynomials, DensedUnivariatePolynomial};
use gkr::field::FieldElement;

fn fe(n: u64) -> FieldElement {
    FieldElement::from_u64(n)
}

fn test_setup() -> DensedUnivariatePolynomial {
    let set_of_points = vec![fe(0), fe(0), fe(2), fe(0), fe(0), fe(0), fe(0), fe(3)];
    DensedUnivariatePolynomial::new(&set_of_points)
}

#[test]
fn densed_uni_p_test_test_degree() {
    let polynomial = test_setup();
    assert_eq!(polynomial.degree(), 7);
}

#[test]
fn test_evaluation() {
    let polynomial = test_setup();
    let evaluation_value = fe(2);

    assert_eq!(polynomial.evaluate(evaluation_value), fe(392));
}

#[test]
fn test_evaluation_advanced() {
    let polynomial = test_setup();
    let evaluation_value = fe(2);

    assert_eq!(polynomial.evaluate_advanced(evaluation_value), fe(392));
}

#[test]
fn densed_uni_p_test_test_add_polynomials() {
    let first = vec![fe(5), fe(2), fe(5)];
    let second = vec![fe(2), fe(1), fe(8), fe(10)];

    assert_eq!(add_polynomials(first, second), vec![fe(7), fe(3), fe(13), fe(10)]);
}

#[test]
fn test_multiply_polynomials() {
    let first = vec![fe(5), fe(0), fe(2)];
    let second = vec![fe(6), fe(2)];

    assert_eq!(multiply_polynomials(first, second), vec![fe(30), fe(10), fe(12), fe(4)]);
}

#[test]
fn test_lagrange_interpolate() {
    let x_values = vec![fe(0), fe(1), fe(2)];
    let y_values = vec![fe(2), fe(4), fe(10)];

    assert_eq!(
        DensedUnivariatePolynomial::lagrange_interpolate(&x_values, &y_values).coefficients,
        vec![fe(2), fe(0), fe(2)]
    );
}

#[test]
fn lagrange_interpolation_reproduces_samples() {
    let x_values = vec![fe(0), fe(1), fe(2)];
    let y_values = vec![fe(2), fe(4), fe(10)];
    let polynomial = DensedUnivariatePolynomial::lagrange_interpolate(&x_values, &y_values);
    for (x, y) in x_values.iter().zip(y_values.iter()) {
        assert_eq!(polynomial.evaluate(*x), *y);
    }
}

#[test]
fn lagrange_interpolation_at_other_points() {
    // the line through (3, 7) and (5, 11) is 1 + 2x
    let x_values = vec![fe(3), fe(5)];
    let y_values = vec![fe(7), fe(11)];
    let polynomial = DensedUnivariatePolynomial::lagrange_interpolate(&x_values, &y_values);
    assert_eq!(polynomial.coefficients, vec![fe(1), fe(2)]);
    assert_eq!(polynomial.evaluate(fe(10)), fe(21));
}

#[test]
fn subtraction_wraps_modulo_the_prime() {
    // the line through (0, 1) and (1, 0) is 1 - x; at 3 it is -2, and adding 2 gives zero
    let x_values = vec![fe(0), fe(1)];
    let y_values = vec![fe(1), fe(0)];
    let line = DensedUnivariatePolynomial::lagrange_interpolate(&x_values, &y_values);
    let value = line.evaluate(fe(3));
    let back = add_polynomials(vec![value], vec![fe(2)]);
    assert_eq!(back, vec![fe(0)]);
}

#[test]
fn degree_counts_leading_zeros() {
    let polynomial = DensedUnivariatePolynomial::new(&[fe(1), fe(0), fe(0)]);
    assert_eq!(polynomial.degree(), 2);
}
