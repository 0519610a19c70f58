use gkr::circuits::circuit::{
    convert_decimal_to_padded_binary, convert_to_binary_and_to_decimal, num_of_layer_variables,
    transform_decimal_to_padded_binary, Circuit,
};
use gkr::circuits::gate::{Gate, Operation};
use gkr::circuits::layer::Layer;
use gkr::evaluation::MultilinearPolynomialEV;
use gkr::field::FieldElement;

fn fe(n: u64) -> FieldElement {
    FieldElement::from_u64(n)
}

#[test]
fn layer_variable_counts() {
    assert_eq!(num_of_layer_variables(0), 3);
    assert_eq!(num_of_layer_variables(1), 5);
    assert_eq!(num_of_layer_variables(2), 8);
}

#[test]
fn padded_binary_strings() {
    assert_eq!(convert_decimal_to_padded_binary(5, 5), "00101");
    assert_eq!(convert_decimal_to_padded_binary(5, 2), "101");
    assert_eq!(convert_decimal_to_padded_binary(0, 0), "0");
    assert_eq!(convert_decimal_to_padded_binary(0, 3), "000");
    assert_eq!(transform_decimal_to_padded_binary(0, 0), "0");
    assert_eq!(transform_decimal_to_padded_binary(6, 4), "0110");
}

#[test]
fn gate_points_concatenate_the_bit_fields() {
    // layer 1: output 1 bit, inputs 2 bits each: "1" + "10" + "11" = 0b11011
    assert_eq!(convert_to_binary_and_to_decimal(1, 1, 2, 3), 27);
    // layer 0: "0" + "0" + "1"
    assert_eq!(convert_to_binary_and_to_decimal(0, 0, 0, 1), 1);
    // too large for a usize: zero
    assert_eq!(convert_to_binary_and_to_decimal(40, 1, 0, 0), 0);
}

#[test]
fn wiring_predicates_mark_gate_points() {
    let layer0 = Layer::new(vec![Gate::new(0, 1, 0, Operation::MUL)]);
    let layer1 = Layer::new(vec![Gate::new(0, 1, 0, Operation::ADD), Gate::new(2, 3, 1, Operation::MUL)]);
    let mut circuit = Circuit::new(vec![layer0, layer1]);
    let (add0, mul0) = circuit.add_i_and_mul_i_mle(0);
    let mut expected_mul0 = vec![fe(0); 8];
    expected_mul0[1] = fe(1);
    assert_eq!(add0, MultilinearPolynomialEV::new(&[fe(0); 8]));
    assert_eq!(mul0, MultilinearPolynomialEV::new(&expected_mul0));
    let (add1, mul1) = circuit.add_i_and_mul_i_mle(1);
    let mut expected_add1 = vec![fe(0); 32];
    expected_add1[1] = fe(1);
    let mut expected_mul1 = vec![fe(0); 32];
    expected_mul1[27] = fe(1);
    assert_eq!(add1, MultilinearPolynomialEV::new(&expected_add1));
    assert_eq!(mul1, MultilinearPolynomialEV::new(&expected_mul1));
}

#[test]
fn w_i_polynomial_reads_a_layer() {
    let layer0 = Layer::new(vec![Gate::new(0, 1, 0, Operation::ADD)]);
    let mut circuit = Circuit::new(vec![layer0]);
    let result = circuit.evaluate(vec![fe(3), fe(4)]);
    let w1 = Circuit::w_i_polynomial(&result, 1);
    assert_eq!(w1, MultilinearPolynomialEV::new(&[fe(3), fe(4)]));
}
