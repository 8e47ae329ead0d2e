//! The indexer: a sequential, checkpointed control loop.
//!
//! The loop is a state machine over plain values.  A driver performs the
//! outside work — waiting for ticks, reading the chain head, fetching a
//! block with its transactions and referenced accounts, producing proofs —
//! and feeds each outcome back as an event; the machine makes every
//! decision, performs compression and persistence itself, and tells the
//! driver what to do next.  Slots are processed strictly in ascending
//! order; the checkpoint advances to a slot only after every record of
//! that slot has been durably written, and it never regresses.
//!
//! Persistence happens inside the transition out of the compressing
//! state, once the slot's proofs have arrived; a failure there aborts the
//! slot without advancing the checkpoint, and the same range is retried
//! on the next tick.

use vstd::prelude::*;
use crate::codec::rle_encode;
use crate::error::ErrorKind;
use crate::commitment::{spec_commit, CompressedAccount};
use crate::poseidon::spec_hash_bytes;
use crate::records::{clone_bytes, CompressedBlock, CompressedTransaction};
use crate::storage::{Database, StorageView};
use crate::zk::{spec_open, IntegrityError, ZKSnark};

verus! {

/// Raw account state fetched from the chain.
pub struct AccountData {
    pub pubkey: [u8; 32],
    pub lamports: u64,
    pub owner: [u8; 32],
    pub executable: bool,
    pub rent_epoch: u64,
    pub data: Vec<u8>,
}

/// A raw transaction fetched from the chain.
pub struct TransactionData {
    pub signature: Vec<u8>,
    pub raw: Vec<u8>,
}

/// One block's raw contents, with its transactions and the accounts they
/// reference.
pub struct BlockData {
    pub slot: u64,
    pub blockhash: String,
    pub previous_blockhash: String,
    pub parent_slot: u64,
    pub raw: Vec<u8>,
    pub transactions: Vec<TransactionData>,
    pub accounts: Vec<AccountData>,
}

/// One proving request: the witness bytes and the commitment they must
/// prove against.
pub struct ProveRequest {
    pub raw: Vec<u8>,
    pub commitment: [u8; 32],
}

/// What the driver must do next.
pub enum Action {
    /// Wait for the next tick.
    Wait,
    /// Read the chain head slot.
    ReadHead,
    /// Fetch the block at `slot`, with transactions and accounts.
    FetchBlock { slot: u64 },
    /// Produce one proof per request, in order.
    Prove { requests: Vec<ProveRequest> },
    /// Report a failure, then wait for the next tick.
    Report { kind: ErrorKind },
}

/// What the driver observed.
pub enum Event {
    /// The tick interval elapsed.
    Tick,
    /// The chain head.
    Head { slot: u64 },
    /// A fetched block.
    Block { data: BlockData },
    /// The proofs for the pending slot, in request order.
    Proofs { proofs: Vec<Vec<u8>> },
    /// The outside work failed.
    Failed { kind: ErrorKind },
}

/// A slot sealed and waiting for its proofs: transactions, then accounts,
/// then the block record itself.
pub struct PendingSlot {
    pub head: u64,
    pub transactions: Vec<CompressedTransaction>,
    pub accounts: Vec<CompressedAccount>,
    pub block: CompressedBlock,
}

/// The loop's state.
pub enum Phase {
    /// Waiting for the next tick.
    Idle,
    /// The head read is in flight.
    Polling,
    /// A block fetch is in flight.
    Fetching { head: u64, slot: u64 },
    /// The slot is sealed; its proofs are in flight.
    Compressing { pending: PendingSlot },
    /// The last slot aborted; retry from the next tick.
    Error { kind: ErrorKind },
}

/// The indexer state machine.
pub struct Indexer {
    pub phase: Phase,
}

impl Indexer {
    /// The machine's claims about itself relative to the storage state it
    /// is driven against.
    pub open spec fn inv(&self, sv: StorageView) -> bool {
        match self.phase {
            Phase::Fetching { head, slot } => sv.checkpoint < slot <= head,
            Phase::Compressing { pending } => sv.checkpoint < pending.block.slot
                <= pending.head,
            _ => true,
        }
    }

    /// A fresh machine, idle.
    pub fn new() -> (r: Indexer)
        ensures
            r.phase is Idle,
            forall|sv: StorageView| r.inv(sv),
    {
        Indexer { phase: Phase::Idle }
    }
}

/// The pending slot is exactly the sealing of the fetched block: every
/// transaction and account record carries the fetched fields verbatim,
/// every payload is the compressed encoding of the fetched raw bytes,
/// every commitment is the digest of those bytes, and every record's
/// binding invariant holds.
pub open spec fn sealed_from(pending: PendingSlot, data: BlockData, head: u64) -> bool {
    &&& pending.head == head
    &&& pending.block.slot == data.slot
    &&& pending.transactions@.len() == data.transactions@.len()
    &&& pending.accounts@.len() == data.accounts@.len()
    &&& forall|i: int|
        0 <= i < data.transactions@.len() ==> {
            let t = #[trigger] pending.transactions@[i];
            &&& t.signature@ == data.transactions@[i].signature@
            &&& t.data@ == rle_encode(data.transactions@[i].raw@)
            &&& t.commitment@ == spec_hash_bytes(data.transactions@[i].raw@)
            &&& t.wf()
        }
    &&& forall|i: int|
        0 <= i < data.accounts@.len() ==> {
            let a = #[trigger] pending.accounts@[i];
            let d = data.accounts@[i];
            &&& a.pubkey@ == d.pubkey@
            &&& a.lamports == d.lamports
            &&& a.owner@ == d.owner@
            &&& a.executable == d.executable
            &&& a.rent_epoch == d.rent_epoch
            &&& a.commitment@ == spec_commit(
                d.pubkey@,
                d.lamports,
                d.owner@,
                d.executable,
                d.rent_epoch,
                d.data@,
            )
            &&& a.wf()
        }
    &&& pending.block.blockhash@ == data.blockhash@
    &&& pending.block.previous_blockhash@ == data.previous_blockhash@
    &&& pending.block.parent_slot == data.parent_slot
    &&& pending.block.transactions == data.transactions@.len() as u64
    &&& pending.block.data@ == rle_encode(data.raw@)
    &&& pending.block.commitment@ == spec_hash_bytes(data.raw@)
    &&& pending.block.wf()
}

/// Seal one slot's raw contents: every transaction, every account, then
/// the block record, each compressed and committed, with empty proofs.
fn seal_slot(data: &BlockData, head: u64) -> (r: (PendingSlot, Vec<ProveRequest>))
    ensures
        sealed_from(r.0, *data, head),
        r.1@.len() == data.transactions@.len() + data.accounts@.len() + 1,
        forall|i: int|
            0 <= i < r.1@.len() ==> (#[trigger] r.1@[i].commitment@) == spec_hash_bytes(
                r.1@[i].raw@,
            ),
{
    let mut transactions: Vec<CompressedTransaction> = Vec::new();
    let mut requests: Vec<ProveRequest> = Vec::new();
    let mut i: usize = 0;
    while i < data.transactions.len()
        invariant
            i <= data.transactions@.len(),
            transactions@.len() == i,
            requests@.len() == i,
            forall|k: int|
                0 <= k < i ==> {
                    let t = #[trigger] transactions@[k];
                    &&& t.signature@ == data.transactions@[k].signature@
                    &&& t.data@ == rle_encode(data.transactions@[k].raw@)
                    &&& t.commitment@ == spec_hash_bytes(data.transactions@[k].raw@)
                    &&& t.wf()
                },
            forall|k: int|
                0 <= k < i ==> (#[trigger] requests@[k].commitment@) == spec_hash_bytes(
                    requests@[k].raw@,
                ),
        decreases data.transactions@.len() - i,
    {
        let td = &data.transactions[i];
        let rec = CompressedTransaction::new(clone_bytes(&td.signature), &td.raw, Vec::new());
        requests.push(ProveRequest { raw: clone_bytes(&td.raw), commitment: rec.commitment });
        transactions.push(rec);
        i = i + 1;
    }
    let mut accounts: Vec<CompressedAccount> = Vec::new();
    let mut j: usize = 0;
    while j < data.accounts.len()
        invariant
            j <= data.accounts@.len(),
            accounts@.len() == j,
            requests@.len() == data.transactions@.len() + j,
            transactions@.len() == data.transactions@.len(),
            forall|k: int|
                0 <= k < data.transactions@.len() ==> {
                    let t = #[trigger] transactions@[k];
                    &&& t.signature@ == data.transactions@[k].signature@
                    &&& t.data@ == rle_encode(data.transactions@[k].raw@)
                    &&& t.commitment@ == spec_hash_bytes(data.transactions@[k].raw@)
                    &&& t.wf()
                },
            forall|k: int|
                0 <= k < j ==> {
                    let a = #[trigger] accounts@[k];
                    let d = data.accounts@[k];
                    &&& a.pubkey@ == d.pubkey@
                    &&& a.lamports == d.lamports
                    &&& a.owner@ == d.owner@
                    &&& a.executable == d.executable
                    &&& a.rent_epoch == d.rent_epoch
                    &&& a.commitment@ == spec_commit(
                        d.pubkey@,
                        d.lamports,
                        d.owner@,
                        d.executable,
                        d.rent_epoch,
                        d.data@,
                    )
                    &&& a.wf()
                },
            forall|k: int|
                0 <= k < requests@.len() ==> (#[trigger] requests@[k].commitment@)
                    == spec_hash_bytes(requests@[k].raw@),
        decreases data.accounts@.len() - j,
    {
        let ad = &data.accounts[j];
        let rec = CompressedAccount::new(
            ad.pubkey,
            ad.lamports,
            ad.owner,
            ad.executable,
            ad.rent_epoch,
            &ad.data,
            Vec::new(),
        );
        let preimage = crate::commitment::encode_account(
            &ad.pubkey,
            ad.lamports,
            &ad.owner,
            ad.executable,
            ad.rent_epoch,
            &ad.data,
        );
        requests.push(ProveRequest { raw: preimage, commitment: rec.commitment });
        accounts.push(rec);
        j = j + 1;
    }
    let block = CompressedBlock::new(
        data.slot,
        data.blockhash.clone(),
        data.previous_blockhash.clone(),
        data.parent_slot,
        data.transactions.len() as u64,
        &data.raw,
        Vec::new(),
    );
    requests.push(ProveRequest { raw: clone_bytes(&data.raw), commitment: block.commitment });
    let pending = PendingSlot { head, transactions, accounts, block };
    (pending, requests)
}

/// Bridge: the deep view of a proof list indexes to each proof's bytes.
proof fn lemma_dv_proofs(v: &Vec<Vec<u8>>)
    ensures
        v.deep_view().len() == v@.len(),
        forall|i: int| 0 <= i < v@.len() ==> #[trigger] v.deep_view()[i] == v@[i]@,
{
    assert forall|i: int| 0 <= i < v@.len() implies #[trigger] v.deep_view()[i] == v@[i]@ by {
        assert(v@[i].deep_view() =~= v@[i]@);
    }
}

impl Indexer {
    /// Drive the machine by one event.  The checkpoint in `db` never
    /// regresses; a block fetch is only ever requested for the slot just
    /// above the checkpoint; the checkpoint advances exactly when a
    /// sealed slot's proofs arrived and every record of the slot was
    /// written.
    pub fn step<D: Database>(&mut self, db: &mut D, event: Event) -> (action: Action)
        requires
            old(self).inv(old(db).sview()),
        ensures
            final(self).inv(final(db).sview()),
            final(db).sview().checkpoint >= old(db).sview().checkpoint,
            (match action {
                Action::FetchBlock { slot } => slot == final(db).sview().checkpoint + 1 && (
                match final(self).phase {
                    Phase::Fetching { head, slot: s2 } => s2 == slot,
                    _ => false,
                }),
                _ => true,
            }),
            (match (old(self).phase, event) {
                (Phase::Compressing { pending }, Event::Proofs { proofs }) => {
                    &&& {
                        ||| final(db).sview().checkpoint == old(db).sview().checkpoint
                        ||| (final(db).sview().checkpoint == pending.block.slot
                            && final(db).sview().blocks.contains_key(pending.block.slot))
                    }
                    &&& (!(action is Report) ==> final(db).sview() == apply_slot(
                        old(db).sview(),
                        pending,
                        proofs.deep_view(),
                    ))
                    &&& (final(db).sview().checkpoint != old(db).sview().checkpoint
                        ==> final(db).sview() == apply_slot(
                        old(db).sview(),
                        pending,
                        proofs.deep_view(),
                    ))
                    &&& (proofs@.len() != pending.transactions@.len() + pending.accounts@.len() + 1
                        ==> (action == Action::Report { kind: ErrorKind::Proof } && final(self).phase
                        is Error && final(db).sview() == old(db).sview()))
                },
                _ => final(db).sview().checkpoint == old(db).sview().checkpoint,
            }),
            (match (old(self).phase, event) {
                (Phase::Idle, Event::Tick) => action is ReadHead && final(self).phase is Polling,
                (Phase::Error { kind }, Event::Tick) => action is ReadHead && final(self).phase
                    is Polling,
                (Phase::Polling, Event::Head { slot }) => if slot > old(db).sview().checkpoint {
                    (match action {
                        Action::FetchBlock { slot: s } => s == old(db).sview().checkpoint + 1,
                        Action::Report { kind } => true,
                        _ => false,
                    })
                } else {
                    (action is Wait && final(self).phase is Idle) || action is Report
                },
                (Phase::Fetching { head, slot }, Event::Block { data }) => if data.slot == slot {
                    // The right block arrived: sealing is the library's own
                    // work and always succeeds.
                    &&& (match action {
                        Action::Prove { requests } => {
                            &&& requests@.len() == data.transactions@.len() + data.accounts@.len()
                                + 1
                            &&& (forall|i: int|
                                0 <= i < requests@.len() ==> (#[trigger] requests@[i].commitment@)
                                    == crate::poseidon::spec_hash_bytes(requests@[i].raw@))
                        },
                        _ => false,
                    })
                    &&& (match final(self).phase {
                        Phase::Compressing { pending } => sealed_from(pending, data, head),
                        _ => false,
                    })
                } else {
                    action == Action::Report { kind: ErrorKind::Rpc } && final(self).phase is Error
                        && final(db).sview() == old(db).sview()
                },
                _ => true,
            }),
            event is Failed ==> final(self).phase is Error && final(db).sview() == old(db).sview(),
    {
        let mut taken = Phase::Idle;
        core::mem::swap(&mut taken, &mut self.phase);
        match (taken, event) {
            (Phase::Idle, Event::Tick) => {
                self.phase = Phase::Polling;
                Action::ReadHead
            },
            (Phase::Error { kind: _ }, Event::Tick) => {
                self.phase = Phase::Polling;
                Action::ReadHead
            },
            (Phase::Polling, Event::Head { slot }) => {
                let checkpoint = match db.get_last_processed_slot() {
                    Ok(s) => s,
                    Err(kind) => {
                        self.phase = Phase::Error { kind };
                        return Action::Report { kind };
                    },
                };
                if slot > checkpoint {
                    let next = checkpoint + 1;
                    self.phase = Phase::Fetching { head: slot, slot: next };
                    Action::FetchBlock { slot: next }
                } else {
                    self.phase = Phase::Idle;
                    Action::Wait
                }
            },
            (Phase::Fetching { head, slot }, Event::Block { data }) => {
                if data.slot != slot {
                    let kind = ErrorKind::Rpc;
                    self.phase = Phase::Error { kind };
                    return Action::Report { kind };
                }
                let (pending, requests) = seal_slot(&data, head);
                self.phase = Phase::Compressing { pending };
                Action::Prove { requests }
            },
            (Phase::Compressing { pending }, Event::Proofs { proofs }) => {
                self.finish_slot(db, pending, proofs)
            },
            (_, Event::Failed { kind }) => {
                self.phase = Phase::Error { kind };
                Action::Report { kind }
            },
            (_, _) => {
                // An event that does not belong to the current state:
                // drop the slot in flight and resynchronize on the next
                // tick.
                self.phase = Phase::Idle;
                Action::Wait
            },
        }
    }

    /// Attach the arrived proofs and persist the whole slot: every
    /// transaction, every account, then the block record, then the
    /// checkpoint — in that order, and the checkpoint only if everything
    /// before it succeeded.
    fn finish_slot<D: Database>(
        &mut self,
        db: &mut D,
        pending: PendingSlot,
        proofs: Vec<Vec<u8>>,
    ) -> (action: Action)
        requires
            old(db).sview().checkpoint < pending.block.slot <= pending.head,
            old(self).phase is Idle,
        ensures
            final(self).inv(final(db).sview()),
            final(db).sview().checkpoint >= old(db).sview().checkpoint,
            final(db).sview().checkpoint != old(db).sview().checkpoint ==> (final(db).sview().checkpoint == pending.block.slot
                && final(db).sview().blocks.contains_key(pending.block.slot)),
            (match action {
                Action::FetchBlock { slot } => slot == final(db).sview().checkpoint + 1 && (
                match final(self).phase {
                    Phase::Fetching { head, slot: s2 } => s2 == slot,
                    _ => false,
                }),
                _ => true,
            }),
            !(action is Report) ==> final(db).sview() == apply_slot(
                old(db).sview(),
                pending,
                proofs.deep_view(),
            ),
            final(db).sview().checkpoint != old(db).sview().checkpoint ==> final(db).sview()
                == apply_slot(old(db).sview(), pending, proofs.deep_view()),
            proofs@.len() != pending.transactions@.len() + pending.accounts@.len() + 1 ==> (action
                == Action::Report { kind: ErrorKind::Proof } && final(self).phase is Error
                && final(db).sview() == old(db).sview()),
    {
        proof {
            lemma_dv_proofs(&proofs);
        }
        let ghost pv = proofs.deep_view();
        let ghost sv0 = old(db).sview();
        let n_tx = pending.transactions.len();
        let n_acc = pending.accounts.len();
        if n_acc >= usize::MAX - n_tx || proofs.len() != n_tx + n_acc + 1 {
            let kind = ErrorKind::Proof;
            self.phase = Phase::Error { kind };
            return Action::Report { kind };
        }
        // The first n_tx proofs belong to the transactions, the next
        // n_acc to the accounts, the last one to the block record.
        let ghost txp = tx_pairs(pending.transactions@, pv);
        let mut i: usize = 0;
        proof {
            assert(db.sview() =~~= (StorageView {
                transactions: insert_all(sv0.transactions, txp.take(0)),
                ..sv0
            }));
        }
        while i < n_tx
            invariant
                n_tx == pending.transactions@.len(),
                n_acc == pending.accounts@.len(),
                proofs@.len() == n_tx + n_acc + 1,
                n_tx + n_acc + 1 <= usize::MAX,
                i <= n_tx,
                pv == proofs.deep_view(),
                pv.len() == proofs@.len(),
                forall|k: int| 0 <= k < proofs@.len() ==> #[trigger] pv[k] == proofs@[k]@,
                sv0 == old(db).sview(),
                txp == tx_pairs(pending.transactions@, pv),
                db.sview() == (StorageView {
                    transactions: insert_all(sv0.transactions, txp.take(i as int)),
                    ..sv0
                }),
            decreases n_tx - i,
        {
            let rec = pending.transactions[i].duplicate();
            let rec = CompressedTransaction {
                proof: clone_bytes(&proofs[i]),
                ..rec
            };
            let ghost before = db.sview();
            match db.insert_compressed_transaction(&rec) {
                Ok(_) => {},
                Err(kind) => {
                    self.phase = Phase::Error { kind };
                    return Action::Report { kind };
                },
            }
            proof {
                assert(rec@ == txp[i as int].1 && rec.signature@ == txp[i as int].0);
                assert(txp.take(i + 1).drop_last() =~= txp.take(i as int));
                assert(insert_all(sv0.transactions, txp.take(i + 1)) == insert_all(
                    sv0.transactions,
                    txp.take(i as int),
                ).insert(txp[i as int].0, txp[i as int].1));
                assert(db.sview() =~~= (StorageView {
                    transactions: insert_all(sv0.transactions, txp.take(i + 1)),
                    ..sv0
                }));
            }
            i = i + 1;
        }
        proof {
            assert(txp.take(n_tx as int) =~= txp);
        }
        let ghost accp = acc_pairs(pending.accounts@, pv, n_tx as int);
        let ghost sv1 = db.sview();
        let mut j: usize = 0;
        proof {
            assert(db.sview() =~~= (StorageView {
                accounts: insert_all(sv1.accounts, accp.take(0)),
                ..sv1
            }));
        }
        while j < n_acc
            invariant
                n_tx == pending.transactions@.len(),
                n_acc == pending.accounts@.len(),
                proofs@.len() == n_tx + n_acc + 1,
                n_tx + n_acc + 1 <= usize::MAX,
                j <= n_acc,
                pv == proofs.deep_view(),
                pv.len() == proofs@.len(),
                forall|k: int| 0 <= k < proofs@.len() ==> #[trigger] pv[k] == proofs@[k]@,
                accp == acc_pairs(pending.accounts@, pv, n_tx as int),
                sv0 == old(db).sview(),
                sv1.checkpoint == sv0.checkpoint,
                db.sview() == (StorageView {
                    accounts: insert_all(sv1.accounts, accp.take(j as int)),
                    ..sv1
                }),
            decreases n_acc - j,
        {
            let rec = pending.accounts[j].duplicate();
            let rec = CompressedAccount {
                proof: clone_bytes(&proofs[n_tx + j]),
                ..rec
            };
            match db.insert_compressed_account(&rec) {
                Ok(_) => {},
                Err(kind) => {
                    self.phase = Phase::Error { kind };
                    return Action::Report { kind };
                },
            }
            proof {
                assert(rec@ == accp[j as int].1 && rec.pubkey@ == accp[j as int].0);
                assert(accp.take(j + 1).drop_last() =~= accp.take(j as int));
                assert(insert_all(sv1.accounts, accp.take(j + 1)) == insert_all(
                    sv1.accounts,
                    accp.take(j as int),
                ).insert(accp[j as int].0, accp[j as int].1));
                assert(db.sview() =~~= (StorageView {
                    accounts: insert_all(sv1.accounts, accp.take(j + 1)),
                    ..sv1
                }));
            }
            j = j + 1;
        }
        proof {
            assert(accp.take(n_acc as int) =~= accp);
        }
        let block = CompressedBlock { proof: clone_bytes(&proofs[n_tx + n_acc]), ..pending.block.duplicate() };
        match db.insert_compressed_block(&block) {
            Ok(_) => {},
            Err(kind) => {
                self.phase = Phase::Error { kind };
                return Action::Report { kind };
            },
        }
        let slot = block.slot;
        match db.update_last_processed_slot(slot) {
            Ok(_) => {},
            Err(kind) => {
                self.phase = Phase::Error { kind };
                return Action::Report { kind };
            },
        }
        proof {
            assert(block@ == (crate::records::BlockView {
                proof: pv[n_tx + n_acc],
                ..pending.block@
            }));
            assert(db.sview() =~~= apply_slot(sv0, pending, pv));
        }
        if slot < pending.head {
            let next = slot + 1;
            self.phase = Phase::Fetching { head: pending.head, slot: next };
            Action::FetchBlock { slot: next }
        } else {
            self.phase = Phase::Idle;
            Action::Wait
        }
    }
}


/// Apply a list of keyed upserts, first to last.
pub open spec fn insert_all<K, V>(m: Map<K, V>, l: Seq<(K, V)>) -> Map<K, V>
    decreases l.len(),
{
    if l.len() == 0 {
        m
    } else {
        insert_all(m, l.drop_last()).insert(l.last().0, l.last().1)
    }
}

/// The value the last upsert under a key carries, if any.
pub open spec fn last_val<K, V>(l: Seq<(K, V)>, k: K) -> Option<V>
    decreases l.len(),
{
    if l.len() == 0 {
        None
    } else if l.last().0 == k {
        Some(l.last().1)
    } else {
        last_val(l.drop_last(), k)
    }
}

/// What a list of upserts leaves at each key: the list's last value under
/// the key, or what the map already held.
pub proof fn lemma_insert_all_at<K, V>(m: Map<K, V>, l: Seq<(K, V)>, k: K)
    ensures
        insert_all(m, l).contains_key(k) == (m.contains_key(k) || last_val(l, k) is Some),
        match last_val(l, k) {
            Some(v) => insert_all(m, l).contains_key(k) && insert_all(m, l)[k] == v,
            None => m.contains_key(k) ==> insert_all(m, l).contains_key(k) && insert_all(m, l)[k]
                == m[k],
        },
    decreases l.len(),
{
    if l.len() > 0 {
        lemma_insert_all_at(m, l.drop_last(), k);
    }
}

/// Replaying the same upserts a second time changes nothing.
pub proof fn lemma_insert_all_twice<K, V>(m: Map<K, V>, l: Seq<(K, V)>)
    ensures
        insert_all(insert_all(m, l), l) == insert_all(m, l),
{
    let once = insert_all(m, l);
    let twice = insert_all(once, l);
    assert forall|k: K| #[trigger] twice.contains_key(k) implies once.contains_key(k) && twice[k]
        == once[k] by {
        lemma_insert_all_at(m, l, k);
        lemma_insert_all_at(once, l, k);
    }
    assert forall|k: K| #[trigger] once.contains_key(k) implies twice.contains_key(k) by {
        lemma_insert_all_at(once, l, k);
    }
    assert(twice =~= once);
}

/// The transaction records of a sealed slot with their arrived proofs
/// attached, as keyed upserts.
pub open spec fn tx_pairs(txs: Seq<CompressedTransaction>, proofs: Seq<Seq<u8>>) -> Seq<
    (Seq<u8>, crate::records::TransactionView),
> {
    Seq::new(
        txs.len(),
        |i: int|
            (
                txs[i].signature@,
                crate::records::TransactionView { proof: proofs[i], ..txs[i]@ },
            ),
    )
}

/// The account records of a sealed slot with their proofs attached,
/// which follow the transactions' in the proof list.
pub open spec fn acc_pairs(
    accs: Seq<CompressedAccount>,
    proofs: Seq<Seq<u8>>,
    offset: int,
) -> Seq<(Seq<u8>, crate::commitment::AccountView)> {
    Seq::new(
        accs.len(),
        |i: int|
            (
                accs[i].pubkey@,
                crate::commitment::AccountView { proof: proofs[offset + i], ..accs[i]@ },
            ),
    )
}

/// What completing one sealed slot does to a store: upsert every
/// transaction, every account and the block record, and advance the
/// checkpoint to the slot.
pub open spec fn apply_slot(sv: StorageView, pending: PendingSlot, proofs: Seq<Seq<u8>>) -> StorageView {
    let n_tx = pending.transactions@.len() as int;
    let n_acc = pending.accounts@.len() as int;
    StorageView {
        transactions: insert_all(sv.transactions, tx_pairs(pending.transactions@, proofs)),
        accounts: insert_all(sv.accounts, acc_pairs(pending.accounts@, proofs, n_tx)),
        blocks: sv.blocks.insert(
            pending.block.slot,
            crate::records::BlockView { proof: proofs[n_tx + n_acc], ..pending.block@ },
        ),
        checkpoint: if pending.block.slot >= sv.checkpoint {
            pending.block.slot
        } else {
            sv.checkpoint
        },
    }
}

/// Completing the same slot twice, with the same proofs, leaves the store
/// exactly as completing it once, and the checkpoint never regresses:
/// re-processing after a crash mid-slot is idempotent.
pub proof fn lemma_slot_replay_idempotent(sv: StorageView, pending: PendingSlot, proofs: Seq<Seq<u8>>)
    ensures
        apply_slot(apply_slot(sv, pending, proofs), pending, proofs) == apply_slot(
            sv,
            pending,
            proofs,
        ),
        apply_slot(sv, pending, proofs).checkpoint >= sv.checkpoint,
{
    let once = apply_slot(sv, pending, proofs);
    let twice = apply_slot(once, pending, proofs);
    lemma_insert_all_twice(sv.transactions, tx_pairs(pending.transactions@, proofs));
    lemma_insert_all_twice(sv.accounts, acc_pairs(pending.accounts@, proofs, pending.transactions@.len() as int));
    assert(twice.blocks =~= once.blocks);
    assert(twice =~~= once);
}

/// How a read of a verified record can fail.
#[derive(Clone, Copy, PartialEq, Eq, Debug)]
pub enum RetrieveError {
    /// The backend failed or holds no record under the key.
    Storage(ErrorKind),
    /// The record is present but failed its integrity check: a corrupt
    /// record is a different condition from a missing one.
    Integrity(IntegrityError),
}

/// Read an account record and re-verify it: proof against commitment,
/// payload against commitment, then expand.  The raw serialized account
/// state is returned only when every check passed.
pub fn get_verified_account<D: Database>(db: &D, snark: &ZKSnark, pubkey: &[u8; 32]) -> (r: Result<
    Vec<u8>,
    RetrieveError,
>)
    ensures
        r matches Ok(raw) ==> db.sview().accounts.contains_key(pubkey@) && {
            let rec = db.sview().accounts[pubkey@];
            spec_open(snark.vk@, rec.data, rec.commitment, rec.proof) == Ok::<
                Seq<u8>,
                IntegrityError,
            >(raw@)
        },
        (match r {
            Err(RetrieveError::Integrity(kind)) => db.sview().accounts.contains_key(pubkey@) && {
                let rec = db.sview().accounts[pubkey@];
                spec_open(snark.vk@, rec.data, rec.commitment, rec.proof) == Err::<
                    Seq<u8>,
                    IntegrityError,
                >(kind)
            },
            _ => true,
        }),
{
    let rec = match db.get_compressed_account(pubkey) {
        Ok(rec) => rec,
        Err(kind) => return Err(RetrieveError::Storage(kind)),
    };
    match crate::zk::open_payload(snark, &rec.data, &rec.commitment, &rec.proof) {
        Ok(raw) => Ok(raw),
        Err(kind) => Err(RetrieveError::Integrity(kind)),
    }
}

/// Read a block record and re-verify it.
pub fn get_verified_block<D: Database>(db: &D, snark: &ZKSnark, slot: u64) -> (r: Result<
    Vec<u8>,
    RetrieveError,
>)
    ensures
        r matches Ok(raw) ==> db.sview().blocks.contains_key(slot) && {
            let rec = db.sview().blocks[slot];
            spec_open(snark.vk@, rec.data, rec.commitment, rec.proof) == Ok::<
                Seq<u8>,
                IntegrityError,
            >(raw@)
        },
        (match r {
            Err(RetrieveError::Integrity(kind)) => db.sview().blocks.contains_key(slot) && {
                let rec = db.sview().blocks[slot];
                spec_open(snark.vk@, rec.data, rec.commitment, rec.proof) == Err::<
                    Seq<u8>,
                    IntegrityError,
                >(kind)
            },
            _ => true,
        }),
{
    let rec = match db.get_compressed_block(slot) {
        Ok(rec) => rec,
        Err(kind) => return Err(RetrieveError::Storage(kind)),
    };
    match crate::zk::open_payload(snark, &rec.data, &rec.commitment, &rec.proof) {
        Ok(raw) => Ok(raw),
        Err(kind) => Err(RetrieveError::Integrity(kind)),
    }
}

/// Read a transaction record and re-verify it.
pub fn get_verified_transaction<D: Database>(db: &D, snark: &ZKSnark, signature: &Vec<u8>) -> (r:
    Result<Vec<u8>, RetrieveError>)
    ensures
        r matches Ok(raw) ==> db.sview().transactions.contains_key(signature@) && {
            let rec = db.sview().transactions[signature@];
            spec_open(snark.vk@, rec.data, rec.commitment, rec.proof) == Ok::<
                Seq<u8>,
                IntegrityError,
            >(raw@)
        },
        (match r {
            Err(RetrieveError::Integrity(kind)) => db.sview().transactions.contains_key(signature@)
                && {
                let rec = db.sview().transactions[signature@];
                spec_open(snark.vk@, rec.data, rec.commitment, rec.proof) == Err::<
                    Seq<u8>,
                    IntegrityError,
                >(kind)
            },
            _ => true,
        }),
{
    let rec = match db.get_compressed_transaction(signature) {
        Ok(rec) => rec,
        Err(kind) => return Err(RetrieveError::Storage(kind)),
    };
    match crate::zk::open_payload(snark, &rec.data, &rec.commitment, &rec.proof) {
        Ok(raw) => Ok(raw),
        Err(kind) => Err(RetrieveError::Integrity(kind)),
    }
}

/// Upserting the same record twice leaves the store as after once:
/// re-processing a slot is idempotent at every key.
pub proof fn lemma_upsert_idempotent<K, V>(m: Map<K, V>, k: K, v: V)
    ensures
        m.insert(k, v).insert(k, v) == m.insert(k, v),
{
    assert(m.insert(k, v).insert(k, v) =~= m.insert(k, v));
}

/// A store that already holds a record is unchanged by upserting the
/// same record again: replaying a completed slot changes nothing.
pub proof fn lemma_reinsert_same<K, V>(m: Map<K, V>, k: K, v: V)
    requires
        m.contains_key(k),
        m[k] == v,
    ensures
        m.insert(k, v) == m,
{
    assert(m.insert(k, v) =~= m);
}

} // verus!
