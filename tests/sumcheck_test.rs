use gkr::evaluation::MultilinearPolynomialEV;
use gkr::field::FieldElement;
use gkr::poly_sum::SumPolynomial;
use gkr::product_poly::ProductPolynomial;
use gkr::sum_check::{generate_round_univariate, prove, verify};
use gkr::transcript::Transcript;

fn fe(n: u64) -> FieldElement {
    FieldElement::from_u64(n)
}

fn setup() -> SumPolynomial {
    let poly1a = MultilinearPolynomialEV::new(&[fe(0), fe(0), fe(0), fe(2)]);
    let poly2a = MultilinearPolynomialEV::new(&[fe(0), fe(0), fe(0), fe(3)]);
    let product_poly1 = ProductPolynomial::new(vec![poly1a, poly2a]);

    let poly1b = MultilinearPolynomialEV::new(&[fe(0), fe(0), fe(0), fe(2)]);
    let poly2b = MultilinearPolynomialEV::new(&[fe(0), fe(0), fe(0), fe(3)]);
    let product_poly2 = ProductPolynomial::new(vec![poly1b, poly2b]);

    SumPolynomial::new(vec![product_poly1, product_poly2])
}

#[test]
fn test_generate_round_univariate() {
    let sum_polynomial = setup();

    let univariate_poly = generate_round_univariate(&sum_polynomial);

    println!("Round Poly: {:?}", univariate_poly);
    assert_eq!(univariate_poly, vec![fe(0), fe(12), fe(48)]);
}

#[test]
fn test_prover_and_verifier() {
    let sum_polynomial = setup();

    let mut prover_transcript = Transcript::new();
    let mut verifier_transcript = Transcript::new();

    let result = prove(sum_polynomial, fe(12), &mut prover_transcript);

    let verified = verify(&result, &mut verifier_transcript);

    assert!(verified.is_proof_valid);
}

#[test]
fn sumcheck_last_claim_matches_oracle() {
    let sum_polynomial = setup();
    let oracle = setup();
    let mut prover_transcript = Transcript::new();
    let mut verifier_transcript = Transcript::new();
    let result = prove(sum_polynomial, fe(12), &mut prover_transcript);
    assert_eq!(result.round_univariate_polynomials.len(), 2);
    assert_eq!(result.random_challenges.len(), 2);
    let verified = verify(&result, &mut verifier_transcript);
    assert!(verified.is_proof_valid);
    assert_eq!(verified.random_challenges, result.random_challenges);
    assert_eq!(verified.last_claimed_sum, oracle.evaluate(&verified.random_challenges));
}

#[test]
fn sumcheck_rejects_wrong_claimed_sum() {
    let sum_polynomial = setup();
    let mut prover_transcript = Transcript::new();
    let mut verifier_transcript = Transcript::new();
    let result = prove(sum_polynomial, fe(13), &mut prover_transcript);
    let verified = verify(&result, &mut verifier_transcript);
    assert!(!verified.is_proof_valid);
    assert!(verified.random_challenges.is_empty());
    assert_eq!(verified.last_claimed_sum, fe(13));
}

#[test]
fn sumcheck_rejects_tampered_round_polynomial() {
    let sum_polynomial = setup();
    let mut prover_transcript = Transcript::new();
    let mut verifier_transcript = Transcript::new();
    let mut result = prove(sum_polynomial, fe(12), &mut prover_transcript);
    let c = result.round_univariate_polynomials[1].coefficients[0];
    result.round_univariate_polynomials[1].coefficients[0] = gkr::densed_uni_poly::add_polynomials(vec![c], vec![fe(1)])[0];
    let verified = verify(&result, &mut verifier_transcript);
    assert!(!verified.is_proof_valid);
}

#[test]
fn transcripts_replay_identically() {
    let mut a = Transcript::new();
    let mut b = Transcript::default();
    a.absorb(b"girl");
    b.absorb(b"girl");
    assert_eq!(a.squeeze(), b.squeeze());
    let first = a.random_challenge_as_field_element();
    assert_eq!(first, b.random_challenge_as_field_element());
    let second = a.random_challenge_as_field_element();
    assert_ne!(first, second);
}

#[test]
fn transcript_challenge_depends_on_input() {
    let mut a = Transcript::new();
    let mut b = Transcript::new();
    a.absorb(&[1u8]);
    b.absorb(&[2u8]);
    assert_ne!(a.random_challenge_as_field_element(), b.random_challenge_as_field_element());
}

#[test]
fn test_hash() {
    let mut transcript = Transcript::new();

    transcript.absorb(gkr::sum_check::field_element_to_bytes(fe(7)).as_slice());
    transcript.absorb("girl".as_bytes());

    let challenge = transcript.squeeze();
    let challenge1 = transcript.squeeze();

    assert_eq!(challenge, challenge1);
}
