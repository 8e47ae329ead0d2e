use windexer_core::error::ErrorKind;
use windexer_core::indexer::{Action, BlockData, Event, Indexer, Phase};
use windexer_core::storage::{Database, MemoryStorage};

fn empty_block(slot: u64) -> BlockData {
    BlockData {
        slot,
        blockhash: format!("hash-{}", slot),
        previous_blockhash: format!("hash-{}", slot.wrapping_sub(1)),
        parent_slot: slot.wrapping_sub(1),
        raw: vec![slot as u8, 1, 2, 3],
        transactions: vec![],
        accounts: vec![],
    }
}

#[test]
fn tick_polls_the_head() {
    let mut db = MemoryStorage::new();
    let mut sm = Indexer::new();
    let action = sm.step(&mut db, Event::Tick);
    assert!(matches!(action, Action::ReadHead));
    assert!(matches!(sm.phase, Phase::Polling));
}

#[test]
fn stale_head_waits() {
    let mut db = MemoryStorage::new();
    db.update_last_processed_slot(10).unwrap();
    let mut sm = Indexer::new();
    sm.step(&mut db, Event::Tick);
    let action = sm.step(&mut db, Event::Head { slot: 10 });
    assert!(matches!(action, Action::Wait));
    assert!(matches!(sm.phase, Phase::Idle));
}

#[test]
fn fresh_head_fetches_the_next_slot() {
    let mut db = MemoryStorage::new();
    db.update_last_processed_slot(10).unwrap();
    let mut sm = Indexer::new();
    sm.step(&mut db, Event::Tick);
    let action = sm.step(&mut db, Event::Head { slot: 12 });
    match action {
        Action::FetchBlock { slot } => assert_eq!(slot, 11),
        _ => panic!("expected a fetch"),
    }
}

#[test]
fn failure_reports_and_recovers_on_tick() {
    let mut db = MemoryStorage::new();
    let mut sm = Indexer::new();
    sm.step(&mut db, Event::Tick);
    let action = sm.step(&mut db, Event::Failed { kind: ErrorKind::Rpc });
    match action {
        Action::Report { kind } => assert_eq!(kind, ErrorKind::Rpc),
        _ => panic!("expected a report"),
    }
    assert!(matches!(sm.phase, Phase::Error { .. }));
    let action = sm.step(&mut db, Event::Tick);
    assert!(matches!(action, Action::ReadHead));
}

#[test]
fn sealed_slot_requests_proofs() {
    let mut db = MemoryStorage::new();
    let mut sm = Indexer::new();
    sm.step(&mut db, Event::Tick);
    sm.step(&mut db, Event::Head { slot: 1 });
    let action = sm.step(&mut db, Event::Block { data: empty_block(1) });
    match action {
        Action::Prove { requests } => assert_eq!(requests.len(), 1),
        _ => panic!("expected a prove request"),
    }
    assert!(matches!(sm.phase, Phase::Compressing { .. }));
}

#[test]
fn wrong_slot_aborts() {
    let mut db = MemoryStorage::new();
    let mut sm = Indexer::new();
    sm.step(&mut db, Event::Tick);
    sm.step(&mut db, Event::Head { slot: 5 });
    let action = sm.step(&mut db, Event::Block { data: empty_block(3) });
    match action {
        Action::Report { kind } => assert_eq!(kind, ErrorKind::Rpc),
        _ => panic!("expected a report"),
    }
}

#[test]
fn wrong_proof_count_aborts_without_checkpoint_motion() {
    let mut db = MemoryStorage::new();
    let mut sm = Indexer::new();
    sm.step(&mut db, Event::Tick);
    sm.step(&mut db, Event::Head { slot: 1 });
    sm.step(&mut db, Event::Block { data: empty_block(1) });
    let action = sm.step(&mut db, Event::Proofs { proofs: vec![] });
    match action {
        Action::Report { kind } => assert_eq!(kind, ErrorKind::Proof),
        _ => panic!("expected a report"),
    }
    assert_eq!(db.get_last_processed_slot().unwrap(), 0);
}

#[test]
fn completed_slot_advances_the_checkpoint() {
    let mut db = MemoryStorage::new();
    let mut sm = Indexer::new();
    sm.step(&mut db, Event::Tick);
    sm.step(&mut db, Event::Head { slot: 1 });
    sm.step(&mut db, Event::Block { data: empty_block(1) });
    let action = sm.step(&mut db, Event::Proofs { proofs: vec![vec![0u8; 8]] });
    assert!(matches!(action, Action::Wait));
    assert_eq!(db.get_last_processed_slot().unwrap(), 1);
    assert!(db.get_compressed_block(1).is_ok());
}

#[test]
fn slots_walk_in_ascending_order() {
    let mut db = MemoryStorage::new();
    let mut sm = Indexer::new();
    sm.step(&mut db, Event::Tick);
    let mut fetched: Vec<u64> = vec![];
    let mut action = sm.step(&mut db, Event::Head { slot: 3 });
    for _ in 0..10 {
        match action {
            Action::FetchBlock { slot } => {
                fetched.push(slot);
                action = sm.step(&mut db, Event::Block { data: empty_block(slot) });
            }
            Action::Prove { requests } => {
                let proofs = requests.iter().map(|_| vec![0u8; 8]).collect();
                action = sm.step(&mut db, Event::Proofs { proofs });
            }
            Action::Wait => break,
            other => panic!("unexpected action {:?}", discriminant_name(&other)),
        }
    }
    assert_eq!(fetched, vec![1, 2, 3]);
    assert_eq!(db.get_last_processed_slot().unwrap(), 3);
}

fn discriminant_name(a: &Action) -> &'static str {
    match a {
        Action::Wait => "wait",
        Action::ReadHead => "read-head",
        Action::FetchBlock { .. } => "fetch",
        Action::Prove { .. } => "prove",
        Action::Report { .. } => "report",
    }
}
