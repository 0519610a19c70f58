//! Elements of the base field of BN254, held by their canonical value.
//!
//! The arithmetic itself is done by `ark_ff` on `ark_bn254::Fq`; the library
//! keeps the canonical integer (four little-endian 64-bit limbs) so that the
//! rest of the code can state and prove what it computes modulo `modulus()`.
use ark_bn254::Fq;
use ark_ff::{BigInt, BigInteger, Field, PrimeField};
use vstd::arithmetic::div_mod::lemma_fundamental_div_mod_converse;
use vstd::arithmetic::power::pow;
use vstd::prelude::*;

verus! {

/// The prime `p` of the BN254 base field,
/// 21888242871839275222246405745257275088696311157297823662689037894645226208583.
pub open spec fn modulus() -> int {
    limbs_value(0x3c208c16d87cfd47, 0x97816a916871ca8d, 0xb85045b68181585d, 0x30644e72e131a029)
}

pub open spec fn fadd(a: int, b: int) -> int {
    (a + b) % modulus()
}

pub open spec fn fsub(a: int, b: int) -> int {
    (a - b) % modulus()
}

pub open spec fn fmul(a: int, b: int) -> int {
    (a * b) % modulus()
}

pub open spec fn fneg(a: int) -> int {
    (-a) % modulus()
}

/// The multiplicative inverse of `a`, for `a` not a multiple of the modulus.
pub open spec fn finv(a: int) -> int {
    choose|w: int| 0 <= w < modulus() && fmul(a, w) == 1
}

pub open spec fn fdiv(a: int, b: int) -> int {
    fmul(a, finv(b))
}

/// The integer whose little-endian base-256 digits are `b`.
pub open spec fn le_value(b: Seq<u8>) -> int
    decreases b.len(),
{
    if b.len() == 0 {
        0
    } else {
        b[0] as int + 256 * le_value(b.drop_first())
    }
}

/// The integer whose big-endian base-256 digits are `b`.
pub open spec fn be_value(b: Seq<u8>) -> int
    decreases b.len(),
{
    if b.len() == 0 {
        0
    } else {
        be_value(b.drop_last()) * 256 + b.last() as int
    }
}

/// The `n` low base-256 digits of `v`, least significant first.
pub open spec fn le_bytes(v: int, n: nat) -> Seq<u8> {
    Seq::new(n, |i: int| ((v / pow(256, i as nat)) % 256) as u8)
}

/// The `n` low base-256 digits of `v`, most significant first.
pub open spec fn be_bytes(v: int, n: nat) -> Seq<u8> {
    Seq::new(n, |i: int| ((v / pow(256, (n - 1 - i) as nat)) % 256) as u8)
}

pub open spec fn limbs_value(l0: u64, l1: u64, l2: u64, l3: u64) -> int {
    l0 as int + 0x1_0000_0000_0000_0000 * (l1 as int + 0x1_0000_0000_0000_0000 * (l2 as int
        + 0x1_0000_0000_0000_0000 * l3 as int))
}

/// An element of the BN254 base field. Its limbs always hold the canonical
/// representative, an integer below `modulus()`.
#[derive(Clone, Copy, Debug, PartialEq, Eq, Structural)]
pub struct FieldElement {
    l0: u64,
    l1: u64,
    l2: u64,
    l3: u64,
}

impl View for FieldElement {
    type V = int;

    closed spec fn view(&self) -> int {
        limbs_value(self.l0, self.l1, self.l2, self.l3)
    }
}

impl FieldElement {
    #[verifier::type_invariant]
    spec fn canonical(self) -> bool {
        limbs_value(self.l0, self.l1, self.l2, self.l3) < modulus()
    }

    pub fn zero() -> (r: FieldElement)
        ensures
            r@ == 0,
    {
        FieldElement { l0: 0, l1: 0, l2: 0, l3: 0 }
    }

    pub fn one() -> (r: FieldElement)
        ensures
            r@ == 1,
    {
        FieldElement { l0: 1, l1: 0, l2: 0, l3: 0 }
    }

    /// Every element lies in `[0, modulus())`.
    pub fn in_range(&self)
        ensures
            0 <= self@ < modulus(),
    {
        proof {
            use_type_invariant(self);
        }
    }

    /// Two elements are equal exactly when their values are.
    pub proof fn lemma_eq_iff_value(a: FieldElement, b: FieldElement)
        ensures
            (a == b) <==> (a@ == b@),
    {
        if a@ == b@ {
            let big: int = 0x1_0000_0000_0000_0000;
            let ka = a.l1 as int + big * (a.l2 as int + big * a.l3 as int);
            let kb = b.l1 as int + big * (b.l2 as int + big * b.l3 as int);
            lemma_fundamental_div_mod_converse(a@, big, ka, a.l0 as int);
            lemma_fundamental_div_mod_converse(a@, big, kb, b.l0 as int);
            let ja = a.l2 as int + big * a.l3 as int;
            let jb = b.l2 as int + big * b.l3 as int;
            lemma_fundamental_div_mod_converse(ka, big, ja, a.l1 as int);
            lemma_fundamental_div_mod_converse(ka, big, jb, b.l1 as int);
            lemma_fundamental_div_mod_converse(ja, big, a.l3 as int, a.l2 as int);
            lemma_fundamental_div_mod_converse(ja, big, b.l3 as int, b.l2 as int);
        }
    }

    /// Compares two elements by value.
    pub fn equals(&self, other: &FieldElement) -> (r: bool)
        ensures
            r == (self@ == other@),
    {
        proof {
            FieldElement::lemma_eq_iff_value(*self, *other);
        }
        *self == *other
    }

    /// The element with value `n`.
    pub fn from_u64(n: u64) -> (r: FieldElement)
        ensures
            r@ == n as int,
    {
        proof {
            lemma_modulus_bounds();
        }
        FieldElement { l0: n, l1: 0, l2: 0, l3: 0 }
    }

    /// Relies on ark_ff's `Add` for `Fp` (through `Fp::new` and
    /// `PrimeField::into_bigint`): addition modulo p.
    #[verifier::external_body]
    pub(crate) fn add(&self, other: &FieldElement) -> (r: FieldElement)
        ensures
            r@ == fadd(self@, other@),
    {
        let x = Fq::new(BigInt::new([self.l0, self.l1, self.l2, self.l3]));
        let y = Fq::new(BigInt::new([other.l0, other.l1, other.l2, other.l3]));
        let b = (x + y).into_bigint().0;
        FieldElement { l0: b[0], l1: b[1], l2: b[2], l3: b[3] }
    }

    /// Relies on ark_ff's `Sub` for `Fp`: subtraction modulo p.
    #[verifier::external_body]
    pub(crate) fn sub(&self, other: &FieldElement) -> (r: FieldElement)
        ensures
            r@ == fsub(self@, other@),
    {
        let x = Fq::new(BigInt::new([self.l0, self.l1, self.l2, self.l3]));
        let y = Fq::new(BigInt::new([other.l0, other.l1, other.l2, other.l3]));
        let b = (x - y).into_bigint().0;
        FieldElement { l0: b[0], l1: b[1], l2: b[2], l3: b[3] }
    }

    /// Relies on ark_ff's `Mul` for `Fp`: multiplication modulo p. As p is
    /// prime, a product is zero only when a factor is.
    #[verifier::external_body]
    pub(crate) fn mul(&self, other: &FieldElement) -> (r: FieldElement)
        ensures
            r@ == fmul(self@, other@),
            r@ == 0 ==> self@ == 0 || other@ == 0,
    {
        let x = Fq::new(BigInt::new([self.l0, self.l1, self.l2, self.l3]));
        let y = Fq::new(BigInt::new([other.l0, other.l1, other.l2, other.l3]));
        let b = (x * y).into_bigint().0;
        FieldElement { l0: b[0], l1: b[1], l2: b[2], l3: b[3] }
    }

    /// Relies on ark_ff's `Neg` for `Fp`: the additive inverse modulo p.
    #[verifier::external_body]
    pub(crate) fn neg(&self) -> (r: FieldElement)
        ensures
            r@ == fneg(self@),
    {
        let x = Fq::new(BigInt::new([self.l0, self.l1, self.l2, self.l3]));
        let b = (-x).into_bigint().0;
        FieldElement { l0: b[0], l1: b[1], l2: b[2], l3: b[3] }
    }

    /// Relies on ark_ff's `Field::inverse` for `Fp`: `None` for zero, else the
    /// multiplicative inverse modulo p.
    #[verifier::external_body]
    pub(crate) fn inverse(&self) -> (r: Option<FieldElement>)
        ensures
            r is None <==> self@ == 0,
            r is Some ==> fmul(self@, r->0@) == 1,
    {
        let x = Fq::new(BigInt::new([self.l0, self.l1, self.l2, self.l3]));
        match x.inverse() {
            Some(v) => {
                let b = v.into_bigint().0;
                Some(FieldElement { l0: b[0], l1: b[1], l2: b[2], l3: b[3] })
            },
            None => None,
        }
    }

    /// Relies on ark_ff's `Field::pow` for `Fp`: `self` to the power `e`, modulo p.
    #[verifier::external_body]
    pub(crate) fn pow(&self, e: u64) -> (r: FieldElement)
        ensures
            r@ == pow(self@, e as nat) % modulus(),
    {
        let x = Fq::new(BigInt::new([self.l0, self.l1, self.l2, self.l3]));
        let b = x.pow([e]).into_bigint().0;
        FieldElement { l0: b[0], l1: b[1], l2: b[2], l3: b[3] }
    }

    /// Relies on ark_ff's `BigInteger::to_bytes_be` for `BigInt<4>`: the
    /// 32-byte big-endian encoding of the canonical value.
    #[verifier::external_body]
    pub(crate) fn to_bytes_be(&self) -> (r: Vec<u8>)
        ensures
            r@ == be_bytes(self@, 32),
    {
        BigInt::new([self.l0, self.l1, self.l2, self.l3]).to_bytes_be()
    }

    /// Relies on ark_ff's `BigInteger::to_bytes_le` for `BigInt<4>`: the
    /// 32-byte little-endian encoding of the canonical value.
    #[verifier::external_body]
    pub(crate) fn to_bytes_le(&self) -> (r: Vec<u8>)
        ensures
            r@ == le_bytes(self@, 32),
    {
        BigInt::new([self.l0, self.l1, self.l2, self.l3]).to_bytes_le()
    }

    /// Relies on ark_ff's `PrimeField::from_le_bytes_mod_order` for `Fq`: the
    /// little-endian integer of `bytes`, reduced modulo p.
    #[verifier::external_body]
    pub(crate) fn from_le_bytes_mod_order(bytes: &[u8]) -> (r: FieldElement)
        ensures
            r@ == le_value(bytes@) % modulus(),
    {
        let b = Fq::from_le_bytes_mod_order(bytes).into_bigint().0;
        FieldElement { l0: b[0], l1: b[1], l2: b[2], l3: b[3] }
    }

    /// Relies on ark_ff's `PrimeField::from_be_bytes_mod_order` for `Fq`: the
    /// big-endian integer of `bytes`, reduced modulo p.
    #[verifier::external_body]
    pub(crate) fn from_be_bytes_mod_order(bytes: &[u8]) -> (r: FieldElement)
        ensures
            r@ == be_value(bytes@) % modulus(),
    {
        let b = Fq::from_be_bytes_mod_order(bytes).into_bigint().0;
        FieldElement { l0: b[0], l1: b[1], l2: b[2], l3: b[3] }
    }
}

/// The modulus exceeds every 64-bit integer.
pub proof fn lemma_modulus_bounds()
    ensures
        modulus() > 0xffff_ffff_ffff_ffff,
{
}

} // verus!
