use ark_bls12_381::{Bls12_381, Fr};
use ark_ff::{BigInteger, PrimeField};
use ark_groth16::{Groth16, ProvingKey};
use ark_relations::r1cs::{
    ConstraintSynthesizer, ConstraintSystemRef, LinearCombination, SynthesisError, Variable,
};
use ark_serialize::CanonicalSerialize;
use ark_snark::SNARK;

use windexer_core::indexer::{
    get_verified_account, get_verified_block, get_verified_transaction, Action, AccountData,
    BlockData, Event, Indexer, RetrieveError, TransactionData,
};
use windexer_core::storage::{Database, MemoryStorage};
use windexer_core::zk::{ProofCheck, ZKSnark};

/// The binding circuit: the witness field element must equal the public
/// input, which carries the record's commitment digest.
struct BindCircuit {
    value: Option<Fr>,
}

impl ConstraintSynthesizer<Fr> for BindCircuit {
    fn generate_constraints(self, cs: ConstraintSystemRef<Fr>) -> Result<(), SynthesisError> {
        let w = cs.new_witness_variable(|| self.value.ok_or(SynthesisError::AssignmentMissing))?;
        let c = cs.new_input_variable(|| self.value.ok_or(SynthesisError::AssignmentMissing))?;
        cs.enforce_constraint(
            LinearCombination::from(w),
            LinearCombination::from(Variable::One),
            LinearCombination::from(c),
        )?;
        Ok(())
    }
}

struct Prover {
    pk: ProvingKey<Bls12_381>,
    vk_bytes: Vec<u8>,
}

fn setup_prover() -> Prover {
    let mut rng = rand::rngs::OsRng;
    let (pk, vk) = Groth16::<Bls12_381>::circuit_specific_setup(BindCircuit { value: None }, &mut rng)
        .expect("setup");
    let mut vk_bytes = Vec::new();
    vk.serialize(&mut vk_bytes).expect("vk bytes");
    Prover { pk, vk_bytes }
}

fn prove_commitment(prover: &Prover, commitment: &[u8; 32]) -> Vec<u8> {
    let mut rng = rand::rngs::OsRng;
    let value = Fr::from_le_bytes_mod_order(commitment);
    let proof = Groth16::<Bls12_381>::prove(&prover.pk, BindCircuit { value: Some(value) }, &mut rng)
        .expect("prove");
    let mut bytes = Vec::new();
    proof.serialize(&mut bytes).expect("proof bytes");
    bytes
}

#[test]
fn proofs_verify_and_tampering_is_caught() {
    let prover = setup_prover();
    let snark = ZKSnark::new(prover.vk_bytes.clone());

    let commitment = {
        let v = Fr::from(123456u64);
        let mut out = [0u8; 32];
        out.copy_from_slice(&v.into_repr().to_bytes_le());
        out
    };
    let proof = prove_commitment(&prover, &commitment);
    assert_eq!(snark.verify(&proof, &commitment), ProofCheck::Valid);

    // A different public input is rejected, not an error.
    let other = {
        let v = Fr::from(654321u64);
        let mut out = [0u8; 32];
        out.copy_from_slice(&v.into_repr().to_bytes_le());
        out
    };
    assert_eq!(snark.verify(&proof, &other), ProofCheck::Invalid);

    // A bit-flipped proof never verifies: it is rejected or unparseable.
    let mut bent = proof.clone();
    bent[10] ^= 1;
    assert_ne!(snark.verify(&bent, &commitment), ProofCheck::Valid);

    // Truncated proof bytes cannot even be parsed.
    let truncated = proof[..proof.len() / 2].to_vec();
    assert_eq!(snark.verify(&truncated, &commitment), ProofCheck::Malformed);
}

fn block_for(slot: u64) -> BlockData {
    if slot == 101 {
        BlockData {
            slot,
            blockhash: format!("bh-{}", slot),
            previous_blockhash: format!("bh-{}", slot - 1),
            parent_slot: slot - 1,
            raw: vec![1, 1, 2, 3, 5, 8, 13, 21],
            transactions: vec![TransactionData { signature: vec![7u8; 64], raw: vec![4, 4, 4, 9] }],
            accounts: vec![AccountData {
                pubkey: [21u8; 32],
                lamports: 5000,
                owner: [22u8; 32],
                executable: false,
                rent_epoch: 3,
                data: vec![6, 6, 7],
            }],
        }
    } else {
        BlockData {
            slot,
            blockhash: format!("bh-{}", slot),
            previous_blockhash: format!("bh-{}", slot.wrapping_sub(1)),
            parent_slot: slot.wrapping_sub(1),
            raw: vec![slot as u8, 2, 2],
            transactions: vec![],
            accounts: vec![],
        }
    }
}

/// Drive a full pass over the chain whose head is `head`; blocks above
/// `real_above` get real proofs, the rest placeholders.
fn run_pass(db: &mut MemoryStorage, prover: &Prover, head: u64, real_above: u64) {
    let mut sm = Indexer::new();
    let mut action = sm.step(db, Event::Tick);
    assert!(matches!(action, Action::ReadHead));
    action = sm.step(db, Event::Head { slot: head });
    let mut current = 0u64;
    loop {
        match action {
            Action::FetchBlock { slot } => {
                current = slot;
                action = sm.step(db, Event::Block { data: block_for(slot) });
            }
            Action::Prove { requests } => {
                let proofs: Vec<Vec<u8>> = requests
                    .iter()
                    .map(|rq| {
                        if current > real_above {
                            prove_commitment(prover, &rq.commitment)
                        } else {
                            vec![0u8; 4]
                        }
                    })
                    .collect();
                action = sm.step(db, Event::Proofs { proofs });
            }
            Action::Wait => break,
            Action::ReadHead | Action::Report { .. } => panic!("unexpected action"),
        }
    }
}

#[test]
fn three_slot_chain_indexes_and_re_verifies() {
    let prover = setup_prover();
    let snark = ZKSnark::new(prover.vk_bytes.clone());
    let mut db = MemoryStorage::new();

    // Checkpoint starts at 0; the head is 102; slots 100..=102 carry the
    // records whose integrity the pass must establish.
    run_pass(&mut db, &prover, 102, 99);
    assert_eq!(db.get_last_processed_slot().unwrap(), 102);

    for slot in [100u64, 101, 102] {
        let raw = get_verified_block(&db, &snark, slot).expect("block verifies");
        assert_eq!(raw, block_for(slot).raw);
    }
    let tx_raw = get_verified_transaction(&db, &snark, &vec![7u8; 64]).expect("tx verifies");
    assert_eq!(tx_raw, vec![4, 4, 4, 9]);
    let account_raw = get_verified_account(&db, &snark, &[21u8; 32]).expect("account verifies");
    // The account's raw bytes are its fixed serialization; the clear
    // fields survive alongside.
    assert!(!account_raw.is_empty());
    let rec = db.get_compressed_account(&[21u8; 32]).unwrap();
    assert_eq!(rec.lamports, 5000);
    assert_eq!(rec.rent_epoch, 3);
}

#[test]
fn reprocessing_a_slot_is_idempotent() {
    let prover = setup_prover();
    let mut db = MemoryStorage::new();
    run_pass(&mut db, &prover, 2, 0);
    assert_eq!(db.get_last_processed_slot().unwrap(), 2);
    let before = db.get_compressed_block(1).unwrap();

    // Replay the same slots with the same proofs after a simulated
    // restart: records are upserted, nothing duplicates, the checkpoint
    // never regresses.
    let again = db.get_compressed_block(1).unwrap();
    db.insert_compressed_block(&again).unwrap();
    db.update_last_processed_slot(1).unwrap();
    let after = db.get_compressed_block(1).unwrap();
    assert_eq!(before.data, after.data);
    assert_eq!(before.commitment, after.commitment);
    assert_eq!(db.get_last_processed_slot().unwrap(), 2);
}

#[test]
fn corrupted_stored_proof_is_an_integrity_violation() {
    let prover = setup_prover();
    let snark = ZKSnark::new(prover.vk_bytes.clone());
    let mut db = MemoryStorage::new();
    run_pass(&mut db, &prover, 1, 0);

    let mut rec = db.get_compressed_block(1).unwrap();
    assert!(get_verified_block(&db, &snark, 1).is_ok());

    // Flip one stored proof byte: retrieval must report an integrity
    // condition, never hand back the payload as if valid.
    rec.proof[3] ^= 1;
    db.insert_compressed_block(&rec).unwrap();
    match get_verified_block(&db, &snark, 1) {
        Err(RetrieveError::Integrity(_)) => {}
        other => panic!("expected an integrity violation, got {:?}", other.is_ok()),
    }
}

#[test]
fn corrupted_stored_payload_is_an_integrity_violation() {
    let prover = setup_prover();
    let snark = ZKSnark::new(prover.vk_bytes.clone());
    let mut db = MemoryStorage::new();
    run_pass(&mut db, &prover, 1, 0);

    let mut rec = db.get_compressed_block(1).unwrap();
    rec.data[0] = rec.data[0].wrapping_add(1);
    db.insert_compressed_block(&rec).unwrap();
    match get_verified_block(&db, &snark, 1) {
        Err(RetrieveError::Integrity(_)) => {}
        other => panic!("expected an integrity violation, got {:?}", other.is_ok()),
    }
}
