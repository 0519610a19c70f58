use gkr::field::FieldElement;
use gkr::sum_check::{field_element_to_bytes, univariate_to_bytes};
use gkr::transcript::Transcript;

// Keccak-256 of the empty input, reduced modulo the BN254 base-field prime,
// read big-endian and little-endian; both written big-endian.
const EMPTY_DIGEST_BE: [u8; 32] = [
    4, 65, 12, 54, 2, 48, 162, 149, 177, 61, 102, 216, 214, 193, 162, 74, 134, 251, 12, 14, 40,
    186, 253, 6, 139, 120, 167, 168, 251, 145, 175, 84,
];
const EMPTY_DIGEST_LE: [u8; 32] = [
    15, 219, 232, 119, 66, 117, 186, 39, 202, 134, 247, 93, 80, 179, 80, 42, 145, 0, 242, 185,
    225, 153, 233, 119, 195, 226, 223, 88, 80, 76, 216, 55,
];

#[test]
fn encodings_are_32_bytes() {
    let x = FieldElement::from_u64(0x0102);
    let be = field_element_to_bytes(x);
    assert_eq!(be.len(), 32);
    assert_eq!(be[30], 1);
    assert_eq!(be[31], 2);
    assert!(be[..30].iter().all(|b| *b == 0));
    let le = univariate_to_bytes(&[x]);
    assert_eq!(le.len(), 32);
    assert_eq!(le[0], 2);
    assert_eq!(le[1], 1);
    assert!(le[2..].iter().all(|b| *b == 0));
    assert_eq!(univariate_to_bytes(&[x, FieldElement::one()]).len(), 64);
    assert_eq!(univariate_to_bytes(&[x, FieldElement::one()])[32], 1);
}

#[test]
fn squeeze_reads_the_digest_big_endian() {
    let transcript = Transcript::new();
    assert_eq!(field_element_to_bytes(transcript.squeeze()), EMPTY_DIGEST_BE.to_vec());
}

#[test]
fn challenge_reads_the_digest_little_endian() {
    let mut transcript = Transcript::new();
    let challenge = transcript.random_challenge_as_field_element();
    assert_eq!(field_element_to_bytes(challenge), EMPTY_DIGEST_LE.to_vec());
}

#[test]
fn equality_by_value() {
    let a = FieldElement::from_u64(7);
    assert!(a.equals(&FieldElement::from_u64(7)));
    assert!(!a.equals(&FieldElement::from_u64(8)));
    assert_eq!(FieldElement::zero(), FieldElement::from_u64(0));
    assert_eq!(FieldElement::one(), FieldElement::from_u64(1));
}
