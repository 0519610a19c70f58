use gkr::circuits::gate::{Gate, Operation};
use gkr::field::FieldElement;

#[test]
fn test_gate_new() {
    let left = 5;
    let right = 5;
    let output = 25;
    let operation_ = Operation::MUL;
    let new_gate = Gate::new(left, right, output, operation_);
    assert_eq!(new_gate.operation, Operation::MUL);
    assert_eq!(new_gate.output, output);
}

#[test]
fn test_gate_addition() {
    let left = 5;
    let right = 5;
    let output = 10;
    let operation_ = Operation::ADD;
    let new_gate = Gate::new(left, right, output, operation_);
    assert_eq!(new_gate.operation, Operation::ADD);
}

#[test]
fn operations_add_and_multiply() {
    let a = FieldElement::from_u64(6);
    let b = FieldElement::from_u64(7);
    assert_eq!(Operation::ADD.operations(&a, &b), FieldElement::from_u64(13));
    assert_eq!(Operation::MUL.operations(&a, &b), FieldElement::from_u64(42));
}
