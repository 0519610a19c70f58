use gkr::evaluation::MultilinearPolynomialEV;
use gkr::field::FieldElement;
use gkr::poly_sum::SumPolynomial;
use gkr::product_poly::ProductPolynomial;

fn fe(n: u64) -> FieldElement {
    FieldElement::from_u64(n)
}

fn setup() -> SumPolynomial {
    let poly1a = MultilinearPolynomialEV::new(&[fe(0), fe(0), fe(0), fe(2)]);
    let poly1b = MultilinearPolynomialEV::new(&[fe(0), fe(0), fe(0), fe(3)]);
    let product_poly1 = ProductPolynomial::new(vec![poly1a, poly1b]);

    let poly2a = MultilinearPolynomialEV::new(&[fe(0), fe(0), fe(0), fe(1)]);
    let poly2b = MultilinearPolynomialEV::new(&[fe(0), fe(0), fe(0), fe(2)]);
    let product_poly2 = ProductPolynomial::new(vec![poly2a, poly2b]);

    SumPolynomial::new(vec![product_poly1, product_poly2])
}

#[test]
fn test_evaluate_sum_poly() {
    let sum_polynomial = setup();
    let values = vec![fe(1), fe(2)];

    assert_eq!(sum_polynomial.evaluate(&values), fe(32));
}

#[test]
fn test_partial_evaluate_sum_poly() {
    let sum_polynomial = setup();
    let evaluated_sum_poly = sum_polynomial.partial_evaluate(0, fe(2));

    let expect_poly1a = MultilinearPolynomialEV::new(&[fe(0), fe(4)]);
    let expect_poly1b = MultilinearPolynomialEV::new(&[fe(0), fe(6)]);
    let expect_product1 = ProductPolynomial::new(vec![expect_poly1a, expect_poly1b]);

    let expect_poly2a = MultilinearPolynomialEV::new(&[fe(0), fe(2)]);
    let expect_poly2b = MultilinearPolynomialEV::new(&[fe(0), fe(4)]);
    let expect_product2 = ProductPolynomial::new(vec![expect_poly2a, expect_poly2b]);

    let expected_sum_poly = SumPolynomial::new(vec![expect_product1, expect_product2]);

    assert_eq!(
        evaluated_sum_poly.product_polynomials[0].polynomials,
        expected_sum_poly.product_polynomials[0].polynomials
    );
    assert_eq!(
        evaluated_sum_poly.product_polynomials[1].polynomials,
        expected_sum_poly.product_polynomials[1].polynomials
    );
}

#[test]
fn test_add_polynomials_element_wise() {
    let sum_polynomial = setup();

    let expected_sum = MultilinearPolynomialEV::new(&[fe(0), fe(0), fe(0), fe(8)]);

    assert_eq!(sum_polynomial.add_polynomials_element_wise(), expected_sum);
}

#[test]
fn test_degree_sum_poly() {
    let sum_polynomial = setup();

    assert_eq!(sum_polynomial.degree(), 2);
}

#[test]
fn test_number_of_variables() {
    let sum_polynomial = setup();

    assert_eq!(sum_polynomial.number_of_variables(), 2);
}

#[test]
fn sum_bytes_concatenate_product_bytes() {
    let sum_polynomial = setup();
    let bytes = sum_polynomial.convert_to_bytes();
    let mut expected = sum_polynomial.product_polynomials[0].convert_to_bytes();
    expected.extend(sum_polynomial.product_polynomials[1].convert_to_bytes());
    assert_eq!(bytes.len(), 512);
    assert_eq!(bytes, expected);
}
