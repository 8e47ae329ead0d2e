//! The storage contract and an in-memory backend.
//!
//! The core consumes one polymorphic capability: keyed, upserting storage
//! for compressed accounts, blocks and transactions, plus a single
//! monotonically-advancing checkpoint of the last fully processed slot.
//! Backends are interchangeable; the core never branches on backend
//! identity.  The in-memory backend is log-structured — an upsert appends
//! a record, a read returns the newest record under the key — and is
//! verified against the same contract; it backs the tests and the
//! reference pipeline.

use vstd::prelude::*;
use crate::error::ErrorKind;
use crate::commitment::{AccountView, CompressedAccount};
use crate::records::{digest_eq, BlockView, CompressedBlock, CompressedTransaction, TransactionView};

verus! {

/// Compare two byte keys.
pub fn bytes_eq(a: &Vec<u8>, b: &Vec<u8>) -> (r: bool)
    ensures
        r == (a@ == b@),
{
    if a.len() != b.len() {
        return false;
    }
    let mut i: usize = 0;
    while i < a.len()
        invariant
            a@.len() == b@.len(),
            i <= a@.len(),
            forall|k: int| 0 <= k < i ==> a@[k] == b@[k],
        decreases a@.len() - i,
    {
        if a[i] != b[i] {
            return false;
        }
        i = i + 1;
    }
    proof {
        assert(a@ =~= b@);
    }
    true
}

/// The abstract state of a storage backend.
pub struct StorageView {
    pub accounts: Map<Seq<u8>, AccountView>,
    pub blocks: Map<u64, BlockView>,
    pub transactions: Map<Seq<u8>, TransactionView>,
    pub checkpoint: u64,
}

/// The persistence capability the core consumes.  All inserts are upserts
/// keyed by the entity's natural key; the checkpoint only advances.  A
/// backend may fail any call (a failed call changes nothing), but an
/// `Ok` means exactly the stated change.
pub trait Database: Sized {
    /// The backend's abstract state.
    spec fn sview(&self) -> StorageView;

    fn insert_compressed_account(&mut self, account: &CompressedAccount) -> (r: Result<
        (),
        ErrorKind,
    >)
        ensures
            r is Ok ==> final(self).sview() == (StorageView {
                accounts: old(self).sview().accounts.insert(account.pubkey@, account@),
                ..old(self).sview()
            }),
            r is Err ==> final(self).sview() == old(self).sview(),
    ;

    fn get_compressed_account(&self, pubkey: &[u8; 32]) -> (r: Result<CompressedAccount, ErrorKind>)
        ensures
            r matches Ok(a) ==> self.sview().accounts.contains_key(pubkey@) && a@
                == self.sview().accounts[pubkey@],
    ;

    fn insert_compressed_block(&mut self, block: &CompressedBlock) -> (r: Result<(), ErrorKind>)
        ensures
            r is Ok ==> final(self).sview() == (StorageView {
                blocks: old(self).sview().blocks.insert(block.slot, block@),
                ..old(self).sview()
            }),
            r is Err ==> final(self).sview() == old(self).sview(),
    ;

    fn get_compressed_block(&self, slot: u64) -> (r: Result<CompressedBlock, ErrorKind>)
        ensures
            r matches Ok(b) ==> self.sview().blocks.contains_key(slot) && b@
                == self.sview().blocks[slot],
    ;

    fn insert_compressed_transaction(&mut self, transaction: &CompressedTransaction) -> (r: Result<
        (),
        ErrorKind,
    >)
        ensures
            r is Ok ==> final(self).sview() == (StorageView {
                transactions: old(self).sview().transactions.insert(
                    transaction.signature@,
                    transaction@,
                ),
                ..old(self).sview()
            }),
            r is Err ==> final(self).sview() == old(self).sview(),
    ;

    fn get_compressed_transaction(&self, signature: &Vec<u8>) -> (r: Result<
        CompressedTransaction,
        ErrorKind,
    >)
        ensures
            r matches Ok(t) ==> self.sview().transactions.contains_key(signature@) && t@
                == self.sview().transactions[signature@],
    ;

    fn get_last_processed_slot(&self) -> (r: Result<u64, ErrorKind>)
        ensures
            r matches Ok(s) ==> s == self.sview().checkpoint,
    ;

    fn update_last_processed_slot(&mut self, slot: u64) -> (r: Result<(), ErrorKind>)
        ensures
            r is Ok ==> final(self).sview() == (StorageView {
                checkpoint: if slot >= old(self).sview().checkpoint {
                    slot
                } else {
                    old(self).sview().checkpoint
                },
                ..old(self).sview()
            }),
            r is Err ==> final(self).sview() == old(self).sview(),
    ;
}

/// The account records of a log, as a map; later entries shadow earlier
/// ones.
pub open spec fn accounts_map(s: Seq<CompressedAccount>) -> Map<Seq<u8>, AccountView>
    decreases s.len(),
{
    if s.len() == 0 {
        Map::empty()
    } else {
        accounts_map(s.drop_last()).insert(s.last().pubkey@, s.last()@)
    }
}

pub open spec fn blocks_map(s: Seq<CompressedBlock>) -> Map<u64, BlockView>
    decreases s.len(),
{
    if s.len() == 0 {
        Map::empty()
    } else {
        blocks_map(s.drop_last()).insert(s.last().slot, s.last()@)
    }
}

pub open spec fn transactions_map(s: Seq<CompressedTransaction>) -> Map<Seq<u8>, TransactionView>
    decreases s.len(),
{
    if s.len() == 0 {
        Map::empty()
    } else {
        transactions_map(s.drop_last()).insert(s.last().signature@, s.last()@)
    }
}

/// A verified in-memory backend: append-only logs, newest entry wins.
pub struct MemoryStorage {
    accounts: Vec<CompressedAccount>,
    blocks: Vec<CompressedBlock>,
    transactions: Vec<CompressedTransaction>,
    checkpoint: u64,
}

impl MemoryStorage {
    /// An empty store; the checkpoint reads 0 until first set.
    pub fn new() -> (r: MemoryStorage)
        ensures
            r.sview() == (StorageView {
                accounts: Map::<Seq<u8>, AccountView>::empty(),
                blocks: Map::<u64, BlockView>::empty(),
                transactions: Map::<Seq<u8>, TransactionView>::empty(),
                checkpoint: 0u64,
            }),
    {
        MemoryStorage {
            accounts: Vec::new(),
            blocks: Vec::new(),
            transactions: Vec::new(),
            checkpoint: 0,
        }
    }
}

/// The newest entry holding a key gives the map's value at it.
proof fn lemma_accounts_found(s: Seq<CompressedAccount>, i: int)
    requires
        0 <= i < s.len(),
        forall|j: int| i < j < s.len() ==> (#[trigger] s[j].pubkey@) != s[i].pubkey@,
    ensures
        accounts_map(s).contains_key(s[i].pubkey@),
        accounts_map(s)[s[i].pubkey@] == s[i]@,
    decreases s.len(),
{
    if i < s.len() - 1 {
        lemma_accounts_found(s.drop_last(), i);
        assert(s.last().pubkey@ != s[i].pubkey@);
    }
}

proof fn lemma_blocks_found(s: Seq<CompressedBlock>, i: int)
    requires
        0 <= i < s.len(),
        forall|j: int| i < j < s.len() ==> (#[trigger] s[j].slot) != s[i].slot,
    ensures
        blocks_map(s).contains_key(s[i].slot),
        blocks_map(s)[s[i].slot] == s[i]@,
    decreases s.len(),
{
    if i < s.len() - 1 {
        lemma_blocks_found(s.drop_last(), i);
        assert(s.last().slot != s[i].slot);
    }
}

proof fn lemma_transactions_found(s: Seq<CompressedTransaction>, i: int)
    requires
        0 <= i < s.len(),
        forall|j: int| i < j < s.len() ==> (#[trigger] s[j].signature@) != s[i].signature@,
    ensures
        transactions_map(s).contains_key(s[i].signature@),
        transactions_map(s)[s[i].signature@] == s[i]@,
    decreases s.len(),
{
    if i < s.len() - 1 {
        lemma_transactions_found(s.drop_last(), i);
        assert(s.last().signature@ != s[i].signature@);
    }
}

/// A key no entry holds is not in the map.
proof fn lemma_accounts_absent(s: Seq<CompressedAccount>, k: Seq<u8>)
    requires
        forall|i: int| 0 <= i < s.len() ==> (#[trigger] s[i].pubkey@) != k,
    ensures
        !accounts_map(s).contains_key(k),
    decreases s.len(),
{
    if s.len() > 0 {
        lemma_accounts_absent(s.drop_last(), k);
    }
}

proof fn lemma_blocks_absent(s: Seq<CompressedBlock>, k: u64)
    requires
        forall|i: int| 0 <= i < s.len() ==> (#[trigger] s[i].slot) != k,
    ensures
        !blocks_map(s).contains_key(k),
    decreases s.len(),
{
    if s.len() > 0 {
        lemma_blocks_absent(s.drop_last(), k);
    }
}

proof fn lemma_transactions_absent(s: Seq<CompressedTransaction>, k: Seq<u8>)
    requires
        forall|i: int| 0 <= i < s.len() ==> (#[trigger] s[i].signature@) != k,
    ensures
        !transactions_map(s).contains_key(k),
    decreases s.len(),
{
    if s.len() > 0 {
        lemma_transactions_absent(s.drop_last(), k);
    }
}

impl Database for MemoryStorage {
    closed spec fn sview(&self) -> StorageView {
        StorageView {
            accounts: accounts_map(self.accounts@),
            blocks: blocks_map(self.blocks@),
            transactions: transactions_map(self.transactions@),
            checkpoint: self.checkpoint,
        }
    }

    fn insert_compressed_account(&mut self, account: &CompressedAccount) -> (r: Result<
        (),
        ErrorKind,
    >)
        ensures
            r is Ok,
    {
        let ghost s = self.accounts@;
        let rec = account.duplicate();
        self.accounts.push(rec);
        proof {
            assert(self.accounts@.drop_last() =~= s);
            assert(self.sview() =~~= (StorageView {
                accounts: accounts_map(s).insert(account.pubkey@, account@),
                ..old(self).sview()
            }));
        }
        Ok(())
    }

    fn get_compressed_account(&self, pubkey: &[u8; 32]) -> (r: Result<
        CompressedAccount,
        ErrorKind,
    >)
        ensures
            r is Ok <==> self.sview().accounts.contains_key(pubkey@),
            r matches Err(e) ==> e == ErrorKind::Database,
    {
        let mut i: usize = self.accounts.len();
        while i > 0
            invariant
                i <= self.accounts@.len(),
                forall|j: int| i <= j < self.accounts@.len() ==> (#[trigger] self.accounts@[j].pubkey@)
                    != pubkey@,
            decreases i,
        {
            i = i - 1;
            if digest_eq(&self.accounts[i].pubkey, pubkey) {
                proof {
                    lemma_accounts_found(self.accounts@, i as int);
                }
                return Ok(self.accounts[i].duplicate());
            }
        }
        proof {
            lemma_accounts_absent(self.accounts@, pubkey@);
        }
        Err(ErrorKind::Database)
    }

    fn insert_compressed_block(&mut self, block: &CompressedBlock) -> (r: Result<(), ErrorKind>)
        ensures
            r is Ok,
    {
        let ghost s = self.blocks@;
        let rec = block.duplicate();
        self.blocks.push(rec);
        proof {
            assert(self.blocks@.drop_last() =~= s);
            assert(self.sview() =~~= (StorageView {
                blocks: blocks_map(s).insert(block.slot, block@),
                ..old(self).sview()
            }));
        }
        Ok(())
    }

    fn get_compressed_block(&self, slot: u64) -> (r: Result<CompressedBlock, ErrorKind>)
        ensures
            r is Ok <==> self.sview().blocks.contains_key(slot),
            r matches Err(e) ==> e == ErrorKind::Database,
    {
        let mut i: usize = self.blocks.len();
        while i > 0
            invariant
                i <= self.blocks@.len(),
                forall|j: int| i <= j < self.blocks@.len() ==> (#[trigger] self.blocks@[j].slot)
                    != slot,
            decreases i,
        {
            i = i - 1;
            if self.blocks[i].slot == slot {
                proof {
                    lemma_blocks_found(self.blocks@, i as int);
                }
                return Ok(self.blocks[i].duplicate());
            }
        }
        proof {
            lemma_blocks_absent(self.blocks@, slot);
        }
        Err(ErrorKind::Database)
    }

    fn insert_compressed_transaction(&mut self, transaction: &CompressedTransaction) -> (r: Result<
        (),
        ErrorKind,
    >)
        ensures
            r is Ok,
    {
        let ghost s = self.transactions@;
        let rec = transaction.duplicate();
        self.transactions.push(rec);
        proof {
            assert(self.transactions@.drop_last() =~= s);
            assert(self.sview() =~~= (StorageView {
                transactions: transactions_map(s).insert(transaction.signature@, transaction@),
                ..old(self).sview()
            }));
        }
        Ok(())
    }

    fn get_compressed_transaction(&self, signature: &Vec<u8>) -> (r: Result<
        CompressedTransaction,
        ErrorKind,
    >)
        ensures
            r is Ok <==> self.sview().transactions.contains_key(signature@),
            r matches Err(e) ==> e == ErrorKind::Database,
    {
        let mut i: usize = self.transactions.len();
        while i > 0
            invariant
                i <= self.transactions@.len(),
                forall|j: int|
                    i <= j < self.transactions@.len() ==> (#[trigger] self.transactions@[
                        j
                    ].signature@) != signature@,
            decreases i,
        {
            i = i - 1;
            if bytes_eq(&self.transactions[i].signature, signature) {
                proof {
                    lemma_transactions_found(self.transactions@, i as int);
                }
                return Ok(self.transactions[i].duplicate());
            }
        }
        proof {
            lemma_transactions_absent(self.transactions@, signature@);
        }
        Err(ErrorKind::Database)
    }

    fn get_last_processed_slot(&self) -> (r: Result<u64, ErrorKind>)
        ensures
            r is Ok,
    {
        Ok(self.checkpoint)
    }

    fn update_last_processed_slot(&mut self, slot: u64) -> (r: Result<(), ErrorKind>)
        ensures
            r is Ok,
    {
        if slot >= self.checkpoint {
            self.checkpoint = slot;
        }
        proof {
            assert(self.sview() =~~= (StorageView {
                checkpoint: if slot >= old(self).sview().checkpoint {
                    slot
                } else {
                    old(self).sview().checkpoint
                },
                ..old(self).sview()
            }));
        }
        Ok(())
    }
}

} // verus!
