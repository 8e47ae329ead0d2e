//! The commitment module: binding an account's full state to one digest.
//!
//! The account's fields are serialized in a fixed order — key bytes,
//! balance little-endian, owner bytes, flag byte, rent epoch little-endian,
//! raw data bytes — and the concatenation is hashed.  The order and the
//! encoding are part of the format: changing either changes every
//! commitment.

use vstd::prelude::*;
use crate::codec::{rle_decode, rle_encode};
use crate::field::le_bytes;
use crate::poseidon::{poseidon_hash, spec_hash_bytes};
use crate::records::{clone_bytes, payload_intact, seal_bytes};

verus! {

/// The fixed serialization of an account's state.
pub open spec fn account_preimage(
    pubkey: Seq<u8>,
    lamports: u64,
    owner: Seq<u8>,
    executable: bool,
    rent_epoch: u64,
    data: Seq<u8>,
) -> Seq<u8> {
    pubkey + le_bytes(lamports as nat, 8) + owner + seq![
        if executable {
            1u8
        } else {
            0u8
        },
    ] + le_bytes(rent_epoch as nat, 8) + data
}

/// The fixed-width head of the serialization: everything before the raw
/// data bytes.
pub open spec fn account_prefix(
    pubkey: Seq<u8>,
    lamports: u64,
    owner: Seq<u8>,
    executable: bool,
    rent_epoch: u64,
) -> Seq<u8> {
    account_preimage(pubkey, lamports, owner, executable, rent_epoch, Seq::empty())
}

/// For 32-byte keys the prefix is exactly 81 bytes, and the serialization
/// is the prefix followed by the raw data.
pub proof fn lemma_preimage_shape(
    pubkey: Seq<u8>,
    lamports: u64,
    owner: Seq<u8>,
    executable: bool,
    rent_epoch: u64,
    data: Seq<u8>,
)
    requires
        pubkey.len() == 32,
        owner.len() == 32,
    ensures
        account_prefix(pubkey, lamports, owner, executable, rent_epoch).len() == 81,
        account_preimage(pubkey, lamports, owner, executable, rent_epoch, data) == account_prefix(
            pubkey,
            lamports,
            owner,
            executable,
            rent_epoch,
        ) + data,
{
    crate::field::lemma_le_bytes_len(lamports as nat, 8);
    crate::field::lemma_le_bytes_len(rent_epoch as nat, 8);
    assert(account_preimage(pubkey, lamports, owner, executable, rent_epoch, data)
        =~= account_prefix(pubkey, lamports, owner, executable, rent_epoch) + data);
}

/// Two equal prefixes carry equal fields: the fixed-width serialization
/// is injective in each field.
pub proof fn lemma_prefix_injective(
    pk1: Seq<u8>,
    l1: u64,
    o1: Seq<u8>,
    x1: bool,
    r1: u64,
    pk2: Seq<u8>,
    l2: u64,
    o2: Seq<u8>,
    x2: bool,
    r2: u64,
)
    requires
        pk1.len() == 32,
        o1.len() == 32,
        pk2.len() == 32,
        o2.len() == 32,
        account_prefix(pk1, l1, o1, x1, r1) == account_prefix(pk2, l2, o2, x2, r2),
    ensures
        pk1 == pk2,
        l1 == l2,
        o1 == o2,
        x1 == x2,
        r1 == r2,
{
    let p1 = account_prefix(pk1, l1, o1, x1, r1);
    let p2 = account_prefix(pk2, l2, o2, x2, r2);
    crate::field::lemma_le_bytes_len(l1 as nat, 8);
    crate::field::lemma_le_bytes_len(r1 as nat, 8);
    crate::field::lemma_le_bytes_len(l2 as nat, 8);
    crate::field::lemma_le_bytes_len(r2 as nat, 8);
    assert(pk1 =~= p1.subrange(0, 32));
    assert(pk2 =~= p2.subrange(0, 32));
    assert(le_bytes(l1 as nat, 8) =~= p1.subrange(32, 40));
    assert(le_bytes(l2 as nat, 8) =~= p2.subrange(32, 40));
    assert(o1 =~= p1.subrange(40, 72));
    assert(o2 =~= p2.subrange(40, 72));
    assert(p1[72] == (if x1 { 1u8 } else { 0u8 }));
    assert(p2[72] == (if x2 { 1u8 } else { 0u8 }));
    assert(le_bytes(r1 as nat, 8) =~= p1.subrange(73, 81));
    assert(le_bytes(r2 as nat, 8) =~= p2.subrange(73, 81));
    lemma_pow256_8();
    crate::field::lemma_le_nat_of_le_bytes(l1 as nat, 8);
    crate::field::lemma_le_nat_of_le_bytes(l2 as nat, 8);
    crate::field::lemma_le_nat_of_le_bytes(r1 as nat, 8);
    crate::field::lemma_le_nat_of_le_bytes(r2 as nat, 8);
}

/// Eight bytes hold every 64-bit value.
proof fn lemma_pow256_8()
    ensures
        crate::field::pow256(8) == 0x1_0000_0000_0000_0000,
{
    assert(crate::field::pow256(0) == 1);
    assert(crate::field::pow256(1) == 0x100);
    assert(crate::field::pow256(2) == 0x1_0000);
    assert(crate::field::pow256(3) == 0x100_0000);
    assert(crate::field::pow256(4) == 0x1_0000_0000);
    assert(crate::field::pow256(5) == 0x100_0000_0000);
    assert(crate::field::pow256(6) == 0x1_0000_0000_0000);
    assert(crate::field::pow256(7) == 0x100_0000_0000_0000);
    assert(crate::field::pow256(8) == 0x1_0000_0000_0000_0000);
}

/// The commitment of an account's state: the digest of its fixed
/// serialization.
pub open spec fn spec_commit(
    pubkey: Seq<u8>,
    lamports: u64,
    owner: Seq<u8>,
    executable: bool,
    rent_epoch: u64,
    data: Seq<u8>,
) -> Seq<u8> {
    spec_hash_bytes(account_preimage(pubkey, lamports, owner, executable, rent_epoch, data))
}

/// Append the 8-byte little-endian encoding of `x`.
pub fn push_u64_le(out: &mut Vec<u8>, x: u64)
    ensures
        final(out)@ == old(out)@ + le_bytes(x as nat, 8),
{
    let ghost start = out@;
    let mut cur: u64 = x;
    let mut k: usize = 0;
    while k < 8
        invariant
            k <= 8,
            out@ == start + le_bytes(x as nat, 8).take(k as int),
            le_bytes(x as nat, 8) == le_bytes(x as nat, 8).take(k as int) + le_bytes(
                cur as nat,
                (8 - k) as nat,
            ),
        decreases 8 - k,
    {
        let b = (cur % 256) as u8;
        proof {
            let whole = le_bytes(x as nat, 8);
            let rem = le_bytes(cur as nat, (8 - k) as nat);
            let rest = le_bytes(cur as nat / 256, (7 - k) as nat);
            crate::field::lemma_le_bytes_len(x as nat, 8);
            crate::field::lemma_le_bytes_len(cur as nat, (8 - k) as nat);
            crate::field::lemma_le_bytes_len(cur as nat / 256, (7 - k) as nat);
            assert(rem == seq![b] + rest);
            assert(whole.take(k as int).len() == k);
            assert(whole == whole.take(k as int) + rem);
            assert(whole[k as int] == rem[0]);
            assert(rem[0] == b);
            assert(whole.take(k + 1) =~= whole.take(k as int).push(b));
            assert((whole.take(k as int) + rem) =~= whole.take(k + 1) + rest);
        }
        out.push(b);
        cur = cur / 256;
        k = k + 1;
    }
    proof {
        assert(le_bytes(x as nat, 8).take(8) =~= le_bytes(x as nat, 8));
    }
}

/// Append all of `src`.
pub fn push_bytes(out: &mut Vec<u8>, src: &[u8])
    ensures
        final(out)@ == old(out)@ + src@,
{
    let ghost start = out@;
    let mut k: usize = 0;
    while k < src.len()
        invariant
            k <= src.len(),
            out@ == start + src@.take(k as int),
        decreases src.len() - k,
    {
        proof {
            assert(start + src@.take(k as int + 1) =~= (start + src@.take(k as int)).push(
                src@[k as int],
            ));
        }
        out.push(src[k]);
        k = k + 1;
    }
    proof {
        assert(src@.take(src@.len() as int) =~= src@);
    }
}

/// Serialize an account's state in the fixed field order.
pub fn encode_account(
    pubkey: &[u8; 32],
    lamports: u64,
    owner: &[u8; 32],
    executable: bool,
    rent_epoch: u64,
    data: &Vec<u8>,
) -> (r: Vec<u8>)
    ensures
        r@ == account_preimage(pubkey@, lamports, owner@, executable, rent_epoch, data@),
{
    let mut out: Vec<u8> = Vec::new();
    push_bytes(&mut out, pubkey.as_slice());
    push_u64_le(&mut out, lamports);
    push_bytes(&mut out, owner.as_slice());
    if executable {
        out.push(1u8);
    } else {
        out.push(0u8);
    }
    push_u64_le(&mut out, rent_epoch);
    push_bytes(&mut out, data.as_slice());
    proof {
        assert(out@ =~= account_preimage(
            pubkey@,
            lamports,
            owner@,
            executable,
            rent_epoch,
            data@,
        ));
    }
    out
}

/// Commit to an account's full state.
pub fn commit(
    pubkey: &[u8; 32],
    lamports: u64,
    owner: &[u8; 32],
    executable: bool,
    rent_epoch: u64,
    data: &Vec<u8>,
) -> (r: [u8; 32])
    ensures
        r@ == spec_commit(pubkey@, lamports, owner@, executable, rent_epoch, data@),
{
    let preimage = encode_account(pubkey, lamports, owner, executable, rent_epoch, data);
    poseidon_hash(&preimage)
}

/// Abstract content of a compressed account record.
pub struct AccountView {
    pub pubkey: Seq<u8>,
    pub lamports: u64,
    pub owner: Seq<u8>,
    pub executable: bool,
    pub rent_epoch: u64,
    pub data: Seq<u8>,
    pub commitment: Seq<u8>,
    pub proof: Seq<u8>,
}

/// An account stored as its compressed serialized state plus clear fields.
pub struct CompressedAccount {
    pub pubkey: [u8; 32],
    pub lamports: u64,
    pub owner: [u8; 32],
    pub executable: bool,
    pub rent_epoch: u64,
    pub data: Vec<u8>,
    pub commitment: [u8; 32],
    pub proof: Vec<u8>,
}

impl View for CompressedAccount {
    type V = AccountView;

    open spec fn view(&self) -> AccountView {
        AccountView {
            pubkey: self.pubkey@,
            lamports: self.lamports,
            owner: self.owner@,
            executable: self.executable,
            rent_epoch: self.rent_epoch,
            data: self.data@,
            commitment: self.commitment@,
            proof: self.proof@,
        }
    }
}

impl CompressedAccount {
    /// The expansion begins with the fixed-width serialization of exactly
    /// this record's clear fields.
    pub open spec fn fields_match(&self, raw: Seq<u8>) -> bool {
        let prefix = account_prefix(
            self.pubkey@,
            self.lamports,
            self.owner@,
            self.executable,
            self.rent_epoch,
        );
        raw.len() >= prefix.len() && raw.take(prefix.len() as int) == prefix
    }

    /// The payload expands to the fixed serialization of the clear fields
    /// and some raw data, and the commitment binds exactly that expansion.
    pub open spec fn wf(&self) -> bool {
        payload_intact(self.data@, self.commitment@) && self.fields_match(rle_decode(self.data@))
    }

    /// The record's commitment equals the commitment of the given state.
    pub open spec fn commits_to(&self, raw_data: Seq<u8>) -> bool {
        self.commitment@ == spec_commit(
            self.pubkey@,
            self.lamports,
            self.owner@,
            self.executable,
            self.rent_epoch,
            raw_data,
        )
    }

    /// Seal an account: serialize its state in the fixed order, compress
    /// the serialization into the payload, and commit to it.
    pub fn new(
        pubkey: [u8; 32],
        lamports: u64,
        owner: [u8; 32],
        executable: bool,
        rent_epoch: u64,
        data: &Vec<u8>,
        proof: Vec<u8>,
    ) -> (r: CompressedAccount)
        ensures
            r.pubkey == pubkey,
            r.lamports == lamports,
            r.owner == owner,
            r.executable == executable,
            r.rent_epoch == rent_epoch,
            r.proof == proof,
            r.data@ == rle_encode(
                account_preimage(pubkey@, lamports, owner@, executable, rent_epoch, data@),
            ),
            r.commits_to(data@),
            r.wf(),
    {
        let preimage = encode_account(&pubkey, lamports, &owner, executable, rent_epoch, data);
        let (payload, commitment) = seal_bytes(&preimage);
        let r = CompressedAccount {
            pubkey,
            lamports,
            owner,
            executable,
            rent_epoch,
            data: payload,
            commitment,
            proof,
        };
        proof {
            crate::records::lemma_seal_round_trip(preimage@);
            lemma_preimage_shape(pubkey@, lamports, owner@, executable, rent_epoch, data@);
            let prefix = account_prefix(pubkey@, lamports, owner@, executable, rent_epoch);
            assert(preimage@.take(prefix.len() as int) =~= prefix);
        }
        r
    }

    /// Recompute and compare: true exactly when the payload expands to a
    /// serialization that begins with this record's own clear fields and
    /// whose digest is the stored commitment.
    pub fn verify_commitment(&self) -> (r: bool)
        ensures
            r == self.wf(),
    {
        let raw = match crate::records::expand_payload(&self.data) {
            Ok(raw) => raw,
            Err(_) => {
                return false;
            },
        };
        let empty: Vec<u8> = Vec::new();
        let prefix = encode_account(
            &self.pubkey,
            self.lamports,
            &self.owner,
            self.executable,
            self.rent_epoch,
            &empty,
        );
        proof {
            assert(empty@ =~= Seq::<u8>::empty());
            lemma_preimage_shape(
                self.pubkey@,
                self.lamports,
                self.owner@,
                self.executable,
                self.rent_epoch,
                Seq::empty(),
            );
            assert(prefix@ == account_prefix(
                self.pubkey@,
                self.lamports,
                self.owner@,
                self.executable,
                self.rent_epoch,
            ));
        }
        if raw.len() < prefix.len() {
            return false;
        }
        let mut k: usize = 0;
        while k < prefix.len()
            invariant
                prefix@.len() <= raw@.len(),
                k <= prefix@.len(),
                raw@ == rle_decode(self.data@),
                crate::codec::rle_valid(self.data@),
                prefix@ == account_prefix(
                    self.pubkey@,
                    self.lamports,
                    self.owner@,
                    self.executable,
                    self.rent_epoch,
                ),
                forall|i: int| 0 <= i < k ==> raw@[i] == prefix@[i],
            decreases prefix@.len() - k,
        {
            if raw[k] != prefix[k] {
                proof {
                    assert(raw@.take(prefix@.len() as int)[k as int] != prefix@[k as int]);
                }
                return false;
            }
            k = k + 1;
        }
        proof {
            assert(raw@.take(prefix@.len() as int) =~= prefix@);
        }
        let recomputed = poseidon_hash(&raw);
        crate::records::digest_eq(&recomputed, &self.commitment)
    }

    /// A field-equal copy.
    pub fn duplicate(&self) -> (r: CompressedAccount)
        ensures
            r@ == self@,
            r.wf() == self.wf(),
    {
        CompressedAccount {
            pubkey: self.pubkey,
            lamports: self.lamports,
            owner: self.owner,
            executable: self.executable,
            rent_epoch: self.rent_epoch,
            data: clone_bytes(&self.data),
            commitment: self.commitment,
            proof: clone_bytes(&self.proof),
        }
    }
}

/// A freshly sealed account record verifies, and its commitment is the
/// commitment of the state it was sealed from: commitment checking accepts
/// a record exactly when its commitment equals the digest of its payload's
/// expansion.
pub proof fn lemma_commitment_binds(
    pubkey: Seq<u8>,
    lamports: u64,
    owner: Seq<u8>,
    executable: bool,
    rent_epoch: u64,
    data: Seq<u8>,
)
    ensures
        payload_intact(
            rle_encode(account_preimage(pubkey, lamports, owner, executable, rent_epoch, data)),
            spec_commit(pubkey, lamports, owner, executable, rent_epoch, data),
        ),
        rle_decode(
            rle_encode(account_preimage(pubkey, lamports, owner, executable, rent_epoch, data)),
        ) == account_preimage(pubkey, lamports, owner, executable, rent_epoch, data),
{
    crate::records::lemma_seal_round_trip(
        account_preimage(pubkey, lamports, owner, executable, rent_epoch, data),
    );
}


/// Two verifying records with the same payload agree on every clear
/// field: the payload's expansion pins the indexed fields, so a record
/// whose clear fields disagree with what its commitment binds cannot
/// pass commitment verification.
pub proof fn lemma_payload_binds_clear_fields(a: &CompressedAccount, b: &CompressedAccount)
    requires
        a.wf(),
        b.wf(),
        a.data@ == b.data@,
    ensures
        a.pubkey@ == b.pubkey@,
        a.lamports == b.lamports,
        a.owner@ == b.owner@,
        a.executable == b.executable,
        a.rent_epoch == b.rent_epoch,
{
    let raw = rle_decode(a.data@);
    let pa = account_prefix(a.pubkey@, a.lamports, a.owner@, a.executable, a.rent_epoch);
    let pb = account_prefix(b.pubkey@, b.lamports, b.owner@, b.executable, b.rent_epoch);
    lemma_preimage_shape(a.pubkey@, a.lamports, a.owner@, a.executable, a.rent_epoch, Seq::empty());
    lemma_preimage_shape(b.pubkey@, b.lamports, b.owner@, b.executable, b.rent_epoch, Seq::empty());
    assert(pa == raw.take(pa.len() as int) && pb == raw.take(pb.len() as int));
    lemma_prefix_injective(
        a.pubkey@,
        a.lamports,
        a.owner@,
        a.executable,
        a.rent_epoch,
        b.pubkey@,
        b.lamports,
        b.owner@,
        b.executable,
        b.rent_epoch,
    );
}

/// Changing any single clear field of a verifying record, while keeping
/// its payload, makes commitment verification fail.
pub proof fn lemma_field_mutation_detected(a: &CompressedAccount, b: &CompressedAccount)
    requires
        a.wf(),
        b.data@ == a.data@,
        b.pubkey@ != a.pubkey@ || b.lamports != a.lamports || b.owner@ != a.owner@
            || b.executable != a.executable || b.rent_epoch != a.rent_epoch,
    ensures
        !b.wf(),
{
    if b.wf() {
        lemma_payload_binds_clear_fields(a, b);
    }
}

} // verus!
