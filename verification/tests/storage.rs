use windexer_core::commitment::CompressedAccount;
use windexer_core::records::{CompressedBlock, CompressedTransaction};
use windexer_core::storage::{Database, MemoryStorage};

#[test]
fn memory_storage_round_trips() {
    let mut storage = MemoryStorage::new();

    let account = CompressedAccount::new(
        [1u8; 32],
        1000,
        [5u8; 32],
        false,
        0,
        &vec![9, 10, 11, 12],
        vec![13, 14, 15, 16],
    );
    storage.insert_compressed_account(&account).unwrap();
    let retrieved_account = storage.get_compressed_account(&[1u8; 32]).unwrap();
    assert_eq!(retrieved_account.lamports, 1000);
    assert_eq!(retrieved_account.proof, vec![13, 14, 15, 16]);

    let block = CompressedBlock::new(
        12345,
        String::from("abc123"),
        String::from("def456"),
        12344,
        10,
        &vec![17, 18, 19, 20],
        vec![21, 22, 23, 24],
    );
    storage.insert_compressed_block(&block).unwrap();
    let retrieved_block = storage.get_compressed_block(12345).unwrap();
    assert_eq!(retrieved_block.blockhash, "abc123");
    assert_eq!(retrieved_block.parent_slot, 12344);

    let transaction = CompressedTransaction::new(
        vec![25, 26, 27, 28],
        &vec![29, 30, 31, 32],
        vec![33, 34, 35, 36],
    );
    storage.insert_compressed_transaction(&transaction).unwrap();
    let retrieved_transaction = storage
        .get_compressed_transaction(&vec![25, 26, 27, 28])
        .unwrap();
    assert_eq!(retrieved_transaction.data, transaction.data);

    storage.update_last_processed_slot(12345).unwrap();
    assert_eq!(storage.get_last_processed_slot().unwrap(), 12345);
}

#[test]
fn upsert_replaces_by_key() {
    let mut storage = MemoryStorage::new();
    let first = CompressedAccount::new([2u8; 32], 1, [0u8; 32], false, 0, &vec![1], vec![]);
    let second = CompressedAccount::new([2u8; 32], 2, [0u8; 32], false, 0, &vec![2], vec![]);
    storage.insert_compressed_account(&first).unwrap();
    storage.insert_compressed_account(&second).unwrap();
    let got = storage.get_compressed_account(&[2u8; 32]).unwrap();
    assert_eq!(got.lamports, 2);
}

#[test]
fn reinserting_a_record_changes_nothing() {
    let mut storage = MemoryStorage::new();
    let account = CompressedAccount::new([3u8; 32], 42, [1u8; 32], true, 7, &vec![5, 5], vec![8]);
    storage.insert_compressed_account(&account).unwrap();
    let before = storage.get_compressed_account(&[3u8; 32]).unwrap();
    storage.insert_compressed_account(&account).unwrap();
    let after = storage.get_compressed_account(&[3u8; 32]).unwrap();
    assert_eq!(before.lamports, after.lamports);
    assert_eq!(before.data, after.data);
    assert_eq!(before.proof, after.proof);
    assert_eq!(before.commitment, after.commitment);
}

#[test]
fn missing_keys_report_errors() {
    let storage = MemoryStorage::new();
    assert!(storage.get_compressed_account(&[9u8; 32]).is_err());
    assert!(storage.get_compressed_block(1).is_err());
    assert!(storage.get_compressed_transaction(&vec![1, 2]).is_err());
    assert_eq!(storage.get_last_processed_slot().unwrap(), 0);
}

#[test]
fn checkpoint_never_regresses() {
    let mut storage = MemoryStorage::new();
    storage.update_last_processed_slot(100).unwrap();
    storage.update_last_processed_slot(50).unwrap();
    assert_eq!(storage.get_last_processed_slot().unwrap(), 100);
    storage.update_last_processed_slot(101).unwrap();
    assert_eq!(storage.get_last_processed_slot().unwrap(), 101);
}
