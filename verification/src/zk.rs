//! The proof subsystem, read side.
//!
//! Proofs are produced once, at write time, by a prover that owns the
//! proving key; stored records carry the serialized proof.  At read time
//! only the serialized verifying key is needed.  Verification is
//! deterministic in the key, proof and public input bytes; its verdict is
//! three-valued: the proof verifies, the proof ran and was rejected, or
//! the bytes could not be parsed at all — callers must treat the last two
//! as different conditions.

use vstd::prelude::*;
use ark_ff::PrimeField;
use ark_serialize::CanonicalDeserialize;
use ark_snark::SNARK;
use crate::codec::{rle_decode, rle_valid};
use crate::poseidon::spec_hash_bytes;
use crate::records::{digest_eq, expand_payload, payload_intact};

verus! {

/// The verdict of pairing-based verification on given verifying-key bytes,
/// proof bytes and one 32-byte public input: `None` when the key or proof
/// bytes cannot be parsed, otherwise whether the proof verifies.  The
/// verdict is a function of the three byte strings alone.
pub uninterp spec fn groth16_verdict(vk: Seq<u8>, proof: Seq<u8>, public_input: Seq<u8>) -> Option<
    bool,
>;

/// Relies on ark_groth16's `Groth16::verify` over the BLS12-381 pairing,
/// with ark_serialize deserialization of the key and proof and the field's
/// `from_le_bytes_mod_order` for the public input: deterministic in its
/// three byte-string inputs, parse failures reported apart from rejection.
#[verifier::external_body]
fn groth16_verify_bytes(vk: &Vec<u8>, proof: &Vec<u8>, public_input: &[u8; 32]) -> (r: Option<
    bool,
>)
    ensures
        r == groth16_verdict(vk@, proof@, public_input@),
{
    let vk = match ark_groth16::VerifyingKey::<ark_bls12_381::Bls12_381>::deserialize(&vk[..]) {
        Ok(v) => v,
        Err(_) => return None,
    };
    let pf = match ark_groth16::Proof::<ark_bls12_381::Bls12_381>::deserialize(&proof[..]) {
        Ok(p) => p,
        Err(_) => return None,
    };
    let x = ark_bls12_381::Fr::from_le_bytes_mod_order(public_input);
    match ark_groth16::Groth16::<ark_bls12_381::Bls12_381>::verify(&vk, &[x], &pf) {
        Ok(b) => Some(b),
        Err(_) => None,
    }
}

/// How a stored record failed its read-time check.
#[derive(Clone, Copy, PartialEq, Eq, Debug)]
pub enum IntegrityError {
    /// Verification ran and rejected the proof, or the payload does not
    /// match its commitment: the record is corrupt, never "not found".
    Violation,
    /// The proof bytes could not be parsed: verification could not run.
    MalformedProof,
    /// The payload itself is not a well-formed encoding.
    Corrupt,
}

/// Three-valued outcome of running verification by itself.
#[derive(Clone, Copy, PartialEq, Eq, Debug)]
pub enum ProofCheck {
    Valid,
    Invalid,
    Malformed,
}

/// The verdict, folded into the three-valued outcome.
pub open spec fn spec_check(vk: Seq<u8>, proof: Seq<u8>, public_input: Seq<u8>) -> ProofCheck {
    match groth16_verdict(vk, proof, public_input) {
        Some(true) => ProofCheck::Valid,
        Some(false) => ProofCheck::Invalid,
        None => ProofCheck::Malformed,
    }
}

/// The read-time handle of the proof subsystem: the serialized verifying
/// key, fixed at construction and shareable read-only.
pub struct ZKSnark {
    pub vk: Vec<u8>,
}

impl ZKSnark {
    /// Wrap a serialized verifying key.
    pub fn new(vk: Vec<u8>) -> (r: ZKSnark)
        ensures
            r.vk == vk,
    {
        ZKSnark { vk }
    }

    /// Run verification for a proof against one 32-byte public input.
    pub fn verify(&self, proof: &Vec<u8>, public_input: &[u8; 32]) -> (r: ProofCheck)
        ensures
            r == spec_check(self.vk@, proof@, public_input@),
    {
        match groth16_verify_bytes(&self.vk, proof, public_input) {
            Some(true) => ProofCheck::Valid,
            Some(false) => ProofCheck::Invalid,
            None => ProofCheck::Malformed,
        }
    }
}

/// What opening a stored record must yield, for every combination of
/// proof verdict and payload state.
pub open spec fn spec_open(
    vk: Seq<u8>,
    payload: Seq<u8>,
    commitment: Seq<u8>,
    proof: Seq<u8>,
) -> Result<Seq<u8>, IntegrityError> {
    match groth16_verdict(vk, proof, commitment) {
        None => Err(IntegrityError::MalformedProof),
        Some(false) => Err(IntegrityError::Violation),
        Some(true) => if !rle_valid(payload) {
            Err(IntegrityError::Corrupt)
        } else if commitment != spec_hash_bytes(rle_decode(payload)) {
            Err(IntegrityError::Violation)
        } else {
            Ok(rle_decode(payload))
        },
    }
}

/// Open a stored record: check its proof against the commitment, check
/// that the payload still matches the commitment, and only then expand
/// it.  A record that fails any check is reported corrupt — never
/// silently returned.
pub fn open_payload(
    snark: &ZKSnark,
    payload: &Vec<u8>,
    commitment: &[u8; 32],
    proof: &Vec<u8>,
) -> (r: Result<Vec<u8>, IntegrityError>)
    ensures
        ({
            let spec = spec_open(snark.vk@, payload@, commitment@, proof@);
            match r {
                Ok(raw) => spec is Ok && raw@ == spec.unwrap(),
                Err(e) => spec == Err::<Seq<u8>, IntegrityError>(e),
            }
        }),
{
    match snark.verify(proof, commitment) {
        ProofCheck::Malformed => Err(IntegrityError::MalformedProof),
        ProofCheck::Invalid => Err(IntegrityError::Violation),
        ProofCheck::Valid => {
            match expand_payload(payload) {
                Err(_) => Err(IntegrityError::Corrupt),
                Ok(raw) => {
                    let recomputed = crate::poseidon::poseidon_hash(&raw);
                    if digest_eq(&recomputed, commitment) {
                        Ok(raw)
                    } else {
                        Err(IntegrityError::Violation)
                    }
                },
            }
        },
    }
}

/// A record sealed from raw bytes opens back to them whenever its proof
/// passes verification: opening is exact on intact records.
pub proof fn lemma_open_intact(vk: Seq<u8>, payload: Seq<u8>, commitment: Seq<u8>, proof: Seq<u8>)
    requires
        payload_intact(payload, commitment),
        groth16_verdict(vk, proof, commitment) == Some(true),
    ensures
        spec_open(vk, payload, commitment, proof) == Ok::<Seq<u8>, IntegrityError>(
            rle_decode(payload),
        ),
{
}

} // verus!
