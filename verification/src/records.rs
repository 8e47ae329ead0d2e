//! Compressed entity records.
//!
//! A stored record couples an opaque run-length payload with the 32-byte
//! commitment of the bytes the payload expands to, a serialized proof blob,
//! and the clear scalar fields kept for indexed lookup.  The binding
//! invariant of every record is `payload_intact`: the payload is a
//! well-formed encoding and the commitment is the digest of its expansion.

use vstd::prelude::*;
use crate::codec::{compress_bytes, decompress_bytes, lemma_rle_round_trip, rle_decode, rle_encode, rle_valid};
use crate::error::ErrorKind;
use crate::poseidon::{poseidon_hash, spec_hash_bytes};

verus! {

/// Copy a byte vector; the copy has the same contents.
pub fn clone_bytes(v: &Vec<u8>) -> (r: Vec<u8>)
    ensures
        r@ == v@,
{
    let r = v.clone();
    proof {
        assert(r@ =~= v@);
    }
    r
}

/// Compare two 32-byte digests.
pub fn digest_eq(a: &[u8; 32], b: &[u8; 32]) -> (r: bool)
    ensures
        r == (a@ == b@),
{
    let mut i: usize = 0;
    while i < 32
        invariant
            i <= 32,
            forall|k: int| 0 <= k < i ==> a@[k] == b@[k],
        decreases 32 - i,
    {
        if a[i] != b[i] {
            return false;
        }
        i = i + 1;
    }
    proof {
        assert(a@ =~= b@);
    }
    true
}

/// The binding invariant of a stored record: the payload is well formed and
/// the commitment is the digest of what it expands to.
pub open spec fn payload_intact(payload: Seq<u8>, commitment: Seq<u8>) -> bool {
    rle_valid(payload) && commitment == spec_hash_bytes(rle_decode(payload))
}

/// Compress raw bytes and commit to them: the payload is the encoding of
/// `raw` and the commitment is the digest of `raw` itself.
pub fn seal_bytes(raw: &Vec<u8>) -> (r: (Vec<u8>, [u8; 32]))
    ensures
        r.0@ == rle_encode(raw@),
        r.1@ == spec_hash_bytes(raw@),
        payload_intact(r.0@, r.1@),
{
    let payload = compress_bytes(raw);
    let commitment = poseidon_hash(raw);
    (payload, commitment)
}

/// Check a record's binding invariant against stored bytes.
pub fn check_payload(payload: &Vec<u8>, commitment: &[u8; 32]) -> (r: bool)
    ensures
        r == payload_intact(payload@, commitment@),
{
    match decompress_bytes(payload) {
        Ok(raw) => {
            let recomputed = poseidon_hash(&raw);
            digest_eq(&recomputed, commitment)
        },
        Err(_) => false,
    }
}

/// Abstract content of a compressed block record.
pub struct BlockView {
    pub slot: u64,
    pub blockhash: Seq<char>,
    pub previous_blockhash: Seq<char>,
    pub parent_slot: u64,
    pub transactions: u64,
    pub data: Seq<u8>,
    pub commitment: Seq<u8>,
    pub proof: Seq<u8>,
}

/// A block stored as its compressed payload plus clear header fields.
pub struct CompressedBlock {
    pub slot: u64,
    pub blockhash: String,
    pub previous_blockhash: String,
    pub parent_slot: u64,
    pub transactions: u64,
    pub data: Vec<u8>,
    pub commitment: [u8; 32],
    pub proof: Vec<u8>,
}

impl View for CompressedBlock {
    type V = BlockView;

    open spec fn view(&self) -> BlockView {
        BlockView {
            slot: self.slot,
            blockhash: self.blockhash@,
            previous_blockhash: self.previous_blockhash@,
            parent_slot: self.parent_slot,
            transactions: self.transactions,
            data: self.data@,
            commitment: self.commitment@,
            proof: self.proof@,
        }
    }
}

impl CompressedBlock {
    /// The record's binding invariant.
    pub open spec fn wf(&self) -> bool {
        payload_intact(self.data@, self.commitment@)
    }

    /// Seal a block: compress its raw serialized bytes, commit to them, and
    /// keep the clear header fields beside the payload.
    pub fn new(
        slot: u64,
        blockhash: String,
        previous_blockhash: String,
        parent_slot: u64,
        transactions: u64,
        raw: &Vec<u8>,
        proof: Vec<u8>,
    ) -> (r: CompressedBlock)
        ensures
            r.slot == slot,
            r.blockhash@ == blockhash@,
            r.previous_blockhash@ == previous_blockhash@,
            r.parent_slot == parent_slot,
            r.transactions == transactions,
            r.data@ == rle_encode(raw@),
            r.commitment@ == spec_hash_bytes(raw@),
            r.proof == proof,
            r.wf(),
    {
        let (payload, commitment) = seal_bytes(raw);
        CompressedBlock {
            slot,
            blockhash,
            previous_blockhash,
            parent_slot,
            transactions,
            data: payload,
            commitment,
            proof,
        }
    }

    /// Recompute the commitment from the payload and compare.
    pub fn verify_commitment(&self) -> (r: bool)
        ensures
            r == self.wf(),
    {
        check_payload(&self.data, &self.commitment)
    }

    /// A field-equal copy.
    pub fn duplicate(&self) -> (r: CompressedBlock)
        ensures
            r@ == self@,
            r.wf() == self.wf(),
    {
        CompressedBlock {
            slot: self.slot,
            blockhash: self.blockhash.clone(),
            previous_blockhash: self.previous_blockhash.clone(),
            parent_slot: self.parent_slot,
            transactions: self.transactions,
            data: clone_bytes(&self.data),
            commitment: self.commitment,
            proof: clone_bytes(&self.proof),
        }
    }
}

/// Abstract content of a compressed transaction record.
pub struct TransactionView {
    pub signature: Seq<u8>,
    pub data: Seq<u8>,
    pub commitment: Seq<u8>,
    pub proof: Seq<u8>,
}

/// A transaction stored as its compressed payload, keyed by signature.
pub struct CompressedTransaction {
    pub signature: Vec<u8>,
    pub data: Vec<u8>,
    pub commitment: [u8; 32],
    pub proof: Vec<u8>,
}

impl View for CompressedTransaction {
    type V = TransactionView;

    open spec fn view(&self) -> TransactionView {
        TransactionView {
            signature: self.signature@,
            data: self.data@,
            commitment: self.commitment@,
            proof: self.proof@,
        }
    }
}

impl CompressedTransaction {
    /// The record's binding invariant.
    pub open spec fn wf(&self) -> bool {
        payload_intact(self.data@, self.commitment@)
    }

    /// Seal a transaction's raw serialized bytes under its signature.
    pub fn new(signature: Vec<u8>, raw: &Vec<u8>, proof: Vec<u8>) -> (r: CompressedTransaction)
        ensures
            r.signature == signature,
            r.data@ == rle_encode(raw@),
            r.commitment@ == spec_hash_bytes(raw@),
            r.proof == proof,
            r.wf(),
    {
        let (payload, commitment) = seal_bytes(raw);
        CompressedTransaction { signature, data: payload, commitment, proof }
    }

    /// Recompute the commitment from the payload and compare.
    pub fn verify_commitment(&self) -> (r: bool)
        ensures
            r == self.wf(),
    {
        check_payload(&self.data, &self.commitment)
    }

    /// A field-equal copy.
    pub fn duplicate(&self) -> (r: CompressedTransaction)
        ensures
            r@ == self@,
            r.wf() == self.wf(),
    {
        CompressedTransaction {
            signature: clone_bytes(&self.signature),
            data: clone_bytes(&self.data),
            commitment: self.commitment,
            proof: clone_bytes(&self.proof),
        }
    }
}

/// Expand a record's payload after its integrity has been checked; fails
/// with a compression error exactly on malformed payloads.
pub fn expand_payload(payload: &Vec<u8>) -> (r: Result<Vec<u8>, ErrorKind>)
    ensures
        r is Ok <==> rle_valid(payload@),
        r matches Ok(raw) ==> raw@ == rle_decode(payload@),
        r matches Err(e) ==> e == ErrorKind::Compression,
{
    decompress_bytes(payload)
}

/// Sealing then expanding returns the original bytes: the compressor's
/// round trip, stated over any raw byte string.
pub proof fn lemma_seal_round_trip(raw: Seq<u8>)
    ensures
        rle_valid(rle_encode(raw)),
        rle_decode(rle_encode(raw)) == raw,
        payload_intact(rle_encode(raw), spec_hash_bytes(raw)),
{
    lemma_rle_round_trip(raw);
}

} // verus!
