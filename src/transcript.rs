//! The Fiat–Shamir transcript: bytes are absorbed into a Keccak-256 state and
//! challenges are derived from its digest, which then reseeds the state.
use crate::field::{be_value, le_value, modulus, FieldElement};
use sha3::{Digest, Keccak256};
use vstd::prelude::*;

verus! {

/// The Keccak-256 digest of `data`.
pub uninterp spec fn keccak256_of(data: Seq<u8>) -> Seq<u8>;

/// Relies on sha3's `Keccak256` through `Digest::digest`: the 32-byte
/// Keccak-256 digest of `data`, a function of `data` alone.
#[verifier::external_body]
fn keccak256(data: &[u8]) -> (r: Vec<u8>)
    ensures
        r@ == keccak256_of(data@),
        r@.len() == 32,
{
    Keccak256::digest(data).to_vec()
}

/// Hashing of a running byte stream.
pub trait HashTrait {
    fn append(&mut self, data: &[u8]);

    fn generate_hash(&self) -> Vec<u8>;
}

/// The transcript of one proof session. Its view is the input of the hash
/// since the last challenge: everything absorbed, after the digest that the
/// last challenge fed back.
pub struct Transcript {
    hashed_input: Vec<u8>,
}

impl View for Transcript {
    type V = Seq<u8>;

    closed spec fn view(&self) -> Seq<u8> {
        self.hashed_input@
    }
}

impl Transcript {
    pub fn new() -> (r: Transcript)
        ensures
            r@ == Seq::<u8>::empty(),
    {
        Transcript { hashed_input: Vec::new() }
    }

    /// Appends `data` to the hash input.
    pub fn absorb(&mut self, data: &[u8])
        ensures
            final(self)@ == old(self)@ + data@,
    {
        let mut i: usize = 0;
        let ghost start = self.hashed_input@;
        while i < data.len()
            invariant
                i <= data@.len(),
                self.hashed_input@ == start + data@.take(i as int),
            decreases data@.len() - i,
        {
            self.hashed_input.push(data[i]);
            i = i + 1;
            assert(self.hashed_input@ =~= start + data@.take(i as int));
        }
        assert(data@.take(i as int) =~= data@);
    }

    /// The digest of the current input, read big-endian into a field
    /// element; the transcript is left as it is.
    pub fn squeeze(&self) -> (r: FieldElement)
        ensures
            r@ == be_value(keccak256_of(self@)) % modulus(),
    {
        let hash_output = keccak256(self.hashed_input.as_slice());
        FieldElement::from_be_bytes_mod_order(hash_output.as_slice())
    }

    /// Finalizes the digest of the input and reseeds the input with it.
    fn sample_random_challenge(&mut self) -> (r: Vec<u8>)
        ensures
            r@ == keccak256_of(old(self)@),
            final(self)@ == r@,
            r@.len() == 32,
    {
        let output_hash = keccak256(self.hashed_input.as_slice());
        let mut reseeded: Vec<u8> = Vec::new();
        let mut i: usize = 0;
        while i < output_hash.len()
            invariant
                i <= output_hash@.len(),
                reseeded@ == output_hash@.take(i as int),
            decreases output_hash@.len() - i,
        {
            reseeded.push(output_hash[i]);
            i = i + 1;
            assert(reseeded@ =~= output_hash@.take(i as int));
        }
        assert(output_hash@.take(i as int) =~= output_hash@);
        self.hashed_input = reseeded;
        output_hash
    }

    /// The next challenge: the digest of the input, read little-endian into
    /// a field element. The digest becomes the new input.
    pub fn random_challenge_as_field_element(&mut self) -> (r: FieldElement)
        ensures
            r@ == le_value(keccak256_of(old(self)@)) % modulus(),
            final(self)@ == keccak256_of(old(self)@),
    {
        let random_challenge = self.sample_random_challenge();
        FieldElement::from_le_bytes_mod_order(random_challenge.as_slice())
    }
}

impl Default for Transcript {
    fn default() -> (r: Transcript)
        ensures
            r@ == Seq::<u8>::empty(),
    {
        Transcript::new()
    }
}

impl HashTrait for Transcript {
    fn append(&mut self, data: &[u8]) {
        self.absorb(data);
    }

    fn generate_hash(&self) -> Vec<u8> {
        keccak256(self.hashed_input.as_slice())
    }
}

} // verus!
