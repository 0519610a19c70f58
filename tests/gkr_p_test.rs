use gkr::circuits::circuit::Circuit;
use gkr::circuits::gate::{Gate, Operation};
use gkr::circuits::layer::Layer;
use gkr::densed_uni_poly::add_polynomials;
use gkr::field::FieldElement;
use gkr::gkr_p::{prove, verify};

fn fe(n: u64) -> FieldElement {
    FieldElement::from_u64(n)
}

fn plus_one(x: FieldElement) -> FieldElement {
    add_polynomials(vec![x], vec![fe(1)])[0]
}

fn circuit_one() -> Circuit {
    let gate1 = Gate::new(0, 1, 0, Operation::MUL);
    let gate2 = Gate::new(0, 1, 0, Operation::ADD);
    let gate3 = Gate::new(2, 3, 1, Operation::MUL);

    let layer0 = Layer::new(vec![gate1]);
    let layer1 = Layer::new(vec![gate2, gate3]);

    Circuit::new(vec![layer0, layer1])
}

fn circuit_two() -> Circuit {
    let gate1 = Gate::new(0, 1, 0, Operation::ADD);
    let layer0 = Layer::new(vec![gate1]);

    let gate2 = Gate::new(0, 1, 0, Operation::MUL);
    let gate3 = Gate::new(2, 3, 1, Operation::ADD);
    let layer1 = Layer::new(vec![gate2, gate3]);

    let gate4 = Gate::new(0, 1, 0, Operation::ADD);
    let gate5 = Gate::new(2, 3, 1, Operation::ADD);
    let gate6 = Gate::new(4, 5, 2, Operation::ADD);
    let gate7 = Gate::new(6, 7, 3, Operation::ADD);
    let layer2 = Layer::new(vec![gate4, gate5, gate6, gate7]);

    Circuit::new(vec![layer0, layer1, layer2])
}

fn inputs_two() -> Vec<FieldElement> {
    (1..=8).map(fe).collect()
}

#[test]
pub fn test_gkr_protocol1() {
    let mut circuit = circuit_one();
    let inputs = vec![fe(2), fe(3), fe(4), fe(5)];

    let proof = prove(&mut circuit, &inputs);

    assert!(verify(&mut circuit, proof, &inputs));
}

#[test]
pub fn test_gkr_protocol2() {
    let mut circuit = circuit_two();
    let inputs = inputs_two();

    let proof = prove(&mut circuit, &inputs);

    assert!(verify(&mut circuit, proof, &inputs));
}

#[test]
fn circuit_evaluation_keeps_every_layer() {
    let mut circuit = circuit_one();
    let result = circuit.evaluate(vec![fe(2), fe(3), fe(4), fe(5)]);
    // layer 1: 2 + 3 = 5 and 4 * 5 = 20; layer 0: 5 * 20 = 100
    assert_eq!(result.output, vec![fe(100)]);
    assert_eq!(result.layer_evaluations.len(), 3);
    assert_eq!(result.layer_evaluations[1], vec![fe(5), fe(20)]);
    assert_eq!(result.layer_evaluations[2], vec![fe(2), fe(3), fe(4), fe(5)]);
}

#[test]
fn gates_sharing_an_output_add_up() {
    let layer = Layer::new(vec![Gate::new(0, 1, 0, Operation::ADD), Gate::new(0, 1, 0, Operation::MUL)]);
    let mut circuit = Circuit::new(vec![layer]);
    let result = circuit.evaluate(vec![fe(3), fe(4)]);
    // (3 + 4) + (3 * 4) = 19, not 12 or 7
    assert_eq!(result.output, vec![fe(19)]);
}

#[test]
fn unwritten_outputs_are_zero() {
    let layer = Layer::new(vec![Gate::new(0, 1, 2, Operation::ADD)]);
    let mut circuit = Circuit::new(vec![layer]);
    let result = circuit.evaluate(vec![fe(3), fe(4)]);
    assert_eq!(result.output, vec![fe(0), fe(0), fe(7)]);
}

#[test]
fn single_output_proof_is_padded_and_verifies() {
    let mut circuit = circuit_one();
    let inputs = vec![fe(2), fe(3), fe(4), fe(5)];
    let proof = prove(&mut circuit, &inputs);
    assert_eq!(proof.circuit_output, vec![fe(100)]);
    assert_eq!(proof.sumcheck_proofs.len(), 2);
    assert_eq!(proof.wb_evaluations.len(), 1);
    assert_eq!(proof.wc_evaluations.len(), 1);
    assert_eq!(proof.sumcheck_proofs[0].random_challenges.len(), 2);
    assert_eq!(proof.sumcheck_proofs[1].random_challenges.len(), 4);
    assert!(verify(&mut circuit, proof, &inputs));
}

#[test]
fn two_output_circuit_round_trip() {
    // layer 1: 1 + 2 = 3 and 3 * 4 = 12; outputs 3 + 12 = 15 and 3 * 12 = 36
    let layer0 = Layer::new(vec![Gate::new(0, 1, 0, Operation::ADD), Gate::new(0, 1, 1, Operation::MUL)]);
    let layer1 = Layer::new(vec![Gate::new(0, 1, 0, Operation::ADD), Gate::new(2, 3, 1, Operation::MUL)]);
    let mut circuit = Circuit::new(vec![layer0, layer1]);
    let inputs: Vec<FieldElement> = (1..=4).map(fe).collect();
    let proof = prove(&mut circuit, &inputs);
    assert_eq!(proof.circuit_output, vec![fe(15), fe(36)]);
    assert!(verify(&mut circuit, proof, &inputs));
}

#[test]
fn proving_is_deterministic() {
    let mut circuit = circuit_two();
    let inputs = inputs_two();
    let a = prove(&mut circuit, &inputs);
    let b = prove(&mut circuit, &inputs);
    assert_eq!(a.claimed_sum, b.claimed_sum);
    assert_eq!(a.wb_evaluations, b.wb_evaluations);
    assert_eq!(a.sumcheck_proofs[2].random_challenges, b.sumcheck_proofs[2].random_challenges);
}

#[test]
fn tampered_round_coefficient_is_rejected() {
    let mut circuit = circuit_two();
    let inputs = inputs_two();
    let mut proof = prove(&mut circuit, &inputs);
    let c = proof.sumcheck_proofs[1].round_univariate_polynomials[0].coefficients[1];
    proof.sumcheck_proofs[1].round_univariate_polynomials[0].coefficients[1] = plus_one(c);
    assert!(!verify(&mut circuit, proof, &inputs));
}

#[test]
fn tampered_wb_evaluation_is_rejected() {
    let mut circuit = circuit_two();
    let inputs = inputs_two();
    let mut proof = prove(&mut circuit, &inputs);
    proof.wb_evaluations[0] = plus_one(proof.wb_evaluations[0]);
    assert!(!verify(&mut circuit, proof, &inputs));
}

#[test]
fn tampered_wc_evaluation_is_rejected() {
    let mut circuit = circuit_two();
    let inputs = inputs_two();
    let mut proof = prove(&mut circuit, &inputs);
    proof.wc_evaluations[1] = plus_one(proof.wc_evaluations[1]);
    assert!(!verify(&mut circuit, proof, &inputs));
}

#[test]
fn tampered_claimed_sum_is_rejected() {
    let mut circuit = circuit_two();
    let inputs = inputs_two();
    let mut proof = prove(&mut circuit, &inputs);
    proof.sumcheck_proofs[0].claimed_sum = plus_one(proof.sumcheck_proofs[0].claimed_sum);
    assert!(!verify(&mut circuit, proof, &inputs));
}

#[test]
fn tampered_output_is_rejected() {
    let mut circuit = circuit_two();
    let inputs = inputs_two();
    let mut proof = prove(&mut circuit, &inputs);
    proof.circuit_output[0] = plus_one(proof.circuit_output[0]);
    assert!(!verify(&mut circuit, proof, &inputs));
}

#[test]
fn wrong_inputs_are_rejected() {
    let mut circuit = circuit_two();
    let inputs = inputs_two();
    let proof = prove(&mut circuit, &inputs);
    let mut other = inputs.clone();
    other[7] = fe(9);
    assert!(!verify(&mut circuit, proof, &other));
}

#[test]
fn truncated_proof_is_rejected() {
    let mut circuit = circuit_two();
    let inputs = inputs_two();
    let mut proof = prove(&mut circuit, &inputs);
    proof.sumcheck_proofs.pop();
    assert!(!verify(&mut circuit, proof, &inputs));
    let mut proof = prove(&mut circuit, &inputs);
    proof.wb_evaluations.clear();
    assert!(!verify(&mut circuit, proof, &inputs));
    let mut proof = prove(&mut circuit, &inputs);
    proof.sumcheck_proofs[1].round_univariate_polynomials.pop();
    assert!(!verify(&mut circuit, proof, &inputs));
    let mut proof = prove(&mut circuit, &inputs);
    proof.circuit_output = vec![fe(1), fe(2), fe(3)];
    assert!(!verify(&mut circuit, proof, &inputs));
}

#[test]
fn tampered_top_level_claimed_sum_is_rejected() {
    let mut circuit = circuit_two();
    let inputs = inputs_two();
    let mut proof = prove(&mut circuit, &inputs);
    assert_eq!(proof.claimed_sum, proof.sumcheck_proofs[2].claimed_sum);
    proof.claimed_sum = plus_one(proof.claimed_sum);
    assert!(!verify(&mut circuit, proof, &inputs));
}

#[test]
fn round_polynomials_have_one_per_variable_and_three_coefficients() {
    let mut circuit = circuit_two();
    let inputs = inputs_two();
    let proof = prove(&mut circuit, &inputs);
    for (i, layer_proof) in proof.sumcheck_proofs.iter().enumerate() {
        assert_eq!(layer_proof.round_univariate_polynomials.len(), 2 * (i + 1));
        for round in &layer_proof.round_univariate_polynomials {
            assert_eq!(round.coefficients.len(), 3);
        }
    }
}
