use gkr::evaluation::MultilinearPolynomialEV;
use gkr::field::FieldElement;

fn fe(n: u64) -> FieldElement {
    FieldElement::from_u64(n)
}

#[test]
fn evaluation_form_test_test_partial_evaluate() {
    let polynomial = vec![fe(0), fe(0), fe(3), fe(8)];

    assert_eq!(
        MultilinearPolynomialEV::partial_evaluate(&polynomial, 0, fe(6)),
        MultilinearPolynomialEV::new(&[fe(18), fe(48)])
    );
    assert_eq!(
        MultilinearPolynomialEV::partial_evaluate(&polynomial, 1, fe(2)),
        MultilinearPolynomialEV::new(&[fe(0), fe(13)])
    );

    let small_polynomial = vec![fe(18), fe(48)];
    assert_eq!(
        MultilinearPolynomialEV::partial_evaluate(&small_polynomial, 0, fe(2)),
        MultilinearPolynomialEV::new(&[fe(78)])
    );

    let bigger_polynomial = vec![fe(0), fe(0), fe(0), fe(3), fe(0), fe(0), fe(2), fe(5)];
    assert_eq!(
        MultilinearPolynomialEV::partial_evaluate(&bigger_polynomial, 2, fe(3)),
        MultilinearPolynomialEV::new(&[fe(0), fe(9), fe(0), fe(11)])
    );
}

#[test]
fn evaluation_form_test_test_evaluate() {
    let evaluated_values = vec![fe(0), fe(0), fe(3), fe(8)];
    let polynomial = MultilinearPolynomialEV::new(&evaluated_values);
    let values = vec![fe(6), fe(2)];

    assert_eq!(polynomial.evaluate(&values), fe(78));
}

#[test]
fn test_polynomial_tensor_add() {
    let wb = MultilinearPolynomialEV::new(&[fe(1), fe(2)]);
    let wc = MultilinearPolynomialEV::new(&[fe(3), fe(4)]);

    let result = MultilinearPolynomialEV::polynomial_tensor_add(&wb, &wc);

    let expected = MultilinearPolynomialEV::new(&[fe(4), fe(5), fe(5), fe(6)]);

    assert_eq!(result, expected);
}

#[test]
fn test_polynomial_tensor_mul() {
    let w_b = MultilinearPolynomialEV::new(&[fe(2), fe(3)]);
    let w_c = MultilinearPolynomialEV::new(&[fe(4), fe(5)]);

    let result = MultilinearPolynomialEV::polynomial_tensor_mul(&w_b, &w_c);

    let expected = MultilinearPolynomialEV::new(&[fe(8), fe(10), fe(12), fe(15)]);

    assert_eq!(result, expected);
}

#[test]
fn evaluate_with_fewer_values_binds_leading_variables() {
    let polynomial = MultilinearPolynomialEV::new(&[fe(0), fe(0), fe(3), fe(8)]);
    // binding the first variable to 6 gives [18, 48]; its entry 0 is 18
    assert_eq!(polynomial.evaluate(&[fe(6)]), fe(18));
    assert_eq!(polynomial.evaluate(&[]), fe(0));
}

#[test]
fn evaluate_on_hypercube_points_reads_the_table() {
    let polynomial = MultilinearPolynomialEV::new(&[fe(5), fe(7), fe(11), fe(13)]);
    assert_eq!(polynomial.evaluate(&[fe(0), fe(0)]), fe(5));
    assert_eq!(polynomial.evaluate(&[fe(0), fe(1)]), fe(7));
    assert_eq!(polynomial.evaluate(&[fe(1), fe(0)]), fe(11));
    assert_eq!(polynomial.evaluate(&[fe(1), fe(1)]), fe(13));
}

#[test]
fn scalar_mul_and_add_polynomials() {
    let p = MultilinearPolynomialEV::new(&[fe(1), fe(2), fe(3), fe(4)]);
    let q = MultilinearPolynomialEV::new(&[fe(10), fe(20), fe(30), fe(40)]);
    assert_eq!(p.scalar_mul(fe(3)), MultilinearPolynomialEV::new(&[fe(3), fe(6), fe(9), fe(12)]));
    assert_eq!(
        MultilinearPolynomialEV::add_polynomials(&p, &q),
        MultilinearPolynomialEV::new(&[fe(11), fe(22), fe(33), fe(44)])
    );
}

#[test]
fn number_of_variables_is_log2_of_size() {
    assert_eq!(MultilinearPolynomialEV::new(&[fe(1)]).number_of_variables(), 0);
    assert_eq!(MultilinearPolynomialEV::new(&[fe(1), fe(2)]).number_of_variables(), 1);
    assert_eq!(MultilinearPolynomialEV::new(&[fe(0); 8]).number_of_variables(), 3);
}

#[test]
fn convert_to_bytes_is_big_endian_per_value() {
    let polynomial = MultilinearPolynomialEV::new(&[fe(1), fe(258)]);
    let bytes = polynomial.convert_to_bytes();
    assert_eq!(bytes.len(), 64);
    assert_eq!(bytes[31], 1);
    assert!(bytes[..31].iter().all(|b| *b == 0));
    assert_eq!(bytes[62], 1);
    assert_eq!(bytes[63], 2);
}
