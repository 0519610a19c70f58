use gkr::evaluation::MultilinearPolynomialEV;
use gkr::field::FieldElement;
use gkr::product_poly::ProductPolynomial;

fn fe(n: u64) -> FieldElement {
    FieldElement::from_u64(n)
}

fn setup() -> ProductPolynomial {
    let polynomail1 = MultilinearPolynomialEV::new(&[fe(0), fe(0), fe(0), fe(2)]);
    let polynomail2 = MultilinearPolynomialEV::new(&[fe(0), fe(0), fe(0), fe(3)]);
    ProductPolynomial::new(vec![polynomail1, polynomail2])
}

#[test]
fn test_evaluate_product_poly() {
    let product_polynomial = setup();
    let values = vec![fe(1), fe(2)];

    assert_eq!(product_polynomial.evaluate(&values), fe(24));
}

#[test]
fn test_partial_evaluate_product_poly() {
    let product_polynomial = setup();

    let expect_poly1 = MultilinearPolynomialEV::new(&[fe(0), fe(4)]);
    let expect_poly2 = MultilinearPolynomialEV::new(&[fe(0), fe(6)]);
    let expected_partial_eval_result = vec![expect_poly1, expect_poly2];

    assert_eq!(product_polynomial.partial_evaluate(0, fe(2)), expected_partial_eval_result);
}

#[test]
fn test_multiply_polynomials_element_wise() {
    let product_polynomial = setup();
    let expected_product = MultilinearPolynomialEV::new(&[fe(0), fe(0), fe(0), fe(6)]);

    assert_eq!(product_polynomial.multiply_polynomials_element_wise(), expected_product);
}

#[test]
fn test_product_poly_degree() {
    let product_polynomial = setup();

    assert_eq!(product_polynomial.degree(), 2);
}

#[test]
fn product_of_three_factors() {
    let p = MultilinearPolynomialEV::new(&[fe(1), fe(2)]);
    let q = MultilinearPolynomialEV::new(&[fe(3), fe(4)]);
    let r = MultilinearPolynomialEV::new(&[fe(5), fe(6)]);
    let product = ProductPolynomial::new(vec![p, q, r]);
    assert_eq!(
        product.multiply_polynomials_element_wise(),
        MultilinearPolynomialEV::new(&[fe(15), fe(48)])
    );
    assert_eq!(product.degree(), 3);
    assert_eq!(product.evaluate(&[fe(1)]), fe(48));
}

#[test]
fn product_bytes_concatenate_factor_bytes() {
    let product = setup();
    let bytes = product.convert_to_bytes();
    assert_eq!(bytes.len(), 256);
    let mut expected = product.polynomials[0].convert_to_bytes();
    expected.extend(product.polynomials[1].convert_to_bytes());
    assert_eq!(bytes, expected);
}
