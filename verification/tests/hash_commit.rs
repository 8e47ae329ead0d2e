use windexer_core::commitment::{commit, CompressedAccount};
use windexer_core::field::fe_from_le_bytes;
use windexer_core::poseidon::{hash_elements, hash_pair, poseidon_hash};

#[test]
fn hash_is_deterministic() {
    let data = vec![1u8, 2, 3, 4, 5, 6, 7, 8];
    let a = poseidon_hash(&data);
    let b = poseidon_hash(&data);
    assert_eq!(a, b);
    assert_eq!(a.len(), 32);
}

#[test]
fn hash_separates_inputs() {
    let a = poseidon_hash(&vec![1u8, 2, 3]);
    let b = poseidon_hash(&vec![1u8, 2, 4]);
    let c = poseidon_hash(&vec![]);
    assert_ne!(a, b);
    assert_ne!(a, c);
    assert_ne!(b, c);
}

#[test]
fn hash_handles_long_inputs() {
    // Inputs on both sides of the two-chunk absorption boundary.
    let just_under = poseidon_hash(&vec![3u8; 63]);
    let exactly = poseidon_hash(&vec![3u8; 64]);
    let just_over = poseidon_hash(&vec![3u8; 65]);
    let long = poseidon_hash(&vec![3u8; 1000]);
    assert_ne!(just_under, exactly);
    assert_ne!(exactly, just_over);
    assert_ne!(just_over, long);
}

#[test]
fn pair_hash_is_ordered() {
    let l = [1u8; 32];
    let r = [2u8; 32];
    assert_ne!(hash_pair(&l, &r), hash_pair(&r, &l));
    assert_eq!(hash_pair(&l, &r), hash_pair(&l, &r));
}

#[test]
fn commitment_binds_every_field() {
    let pubkey = [7u8; 32];
    let owner = [9u8; 32];
    let data = vec![1u8, 2, 3];
    let base = commit(&pubkey, 10, &owner, false, 4, &data);
    assert_ne!(base, commit(&[8u8; 32], 10, &owner, false, 4, &data));
    assert_ne!(base, commit(&pubkey, 11, &owner, false, 4, &data));
    assert_ne!(base, commit(&pubkey, 10, &[1u8; 32], false, 4, &data));
    assert_ne!(base, commit(&pubkey, 10, &owner, true, 4, &data));
    assert_ne!(base, commit(&pubkey, 10, &owner, false, 5, &data));
    assert_ne!(base, commit(&pubkey, 10, &owner, false, 4, &vec![1u8, 2, 4]));
}

#[test]
fn sealed_account_verifies() {
    let acc = CompressedAccount::new([3u8; 32], 1000, [4u8; 32], true, 2, &vec![5u8; 100], vec![]);
    assert!(acc.verify_commitment());
    assert_eq!(
        acc.commitment,
        commit(&[3u8; 32], 1000, &[4u8; 32], true, 2, &vec![5u8; 100])
    );
}

#[test]
fn corrupted_account_fails_commitment() {
    let mut acc = CompressedAccount::new([3u8; 32], 1000, [4u8; 32], true, 2, &vec![5u8; 100], vec![]);
    acc.data[0] = acc.data[0].wrapping_add(1);
    assert!(!acc.verify_commitment());

    let mut acc2 = CompressedAccount::new([3u8; 32], 1000, [4u8; 32], true, 2, &vec![5u8; 100], vec![]);
    acc2.commitment[5] = acc2.commitment[5].wrapping_add(1);
    assert!(!acc2.verify_commitment());
}

#[test]
fn pair_hash_is_the_element_hash() {
    let l = [11u8; 32];
    let r = [12u8; 32];
    let fe_l = fe_from_le_bytes(&l);
    let fe_r = fe_from_le_bytes(&r);
    let via_pair = hash_pair(&l, &r);
    let via_elements = hash_elements(&vec![fe_l, fe_r]);
    assert_eq!(via_pair, via_elements.bytes);
}

#[test]
fn mutated_clear_field_fails_commitment() {
    // Changing any one indexed field, with payload and commitment left as
    // sealed, must fail commitment verification.
    let base = || CompressedAccount::new([3u8; 32], 1000, [4u8; 32], true, 2, &vec![5u8; 100], vec![]);
    let mut a = base();
    a.lamports = 1001;
    assert!(!a.verify_commitment());
    let mut b = base();
    b.pubkey = [9u8; 32];
    assert!(!b.verify_commitment());
    let mut c = base();
    c.owner = [9u8; 32];
    assert!(!c.verify_commitment());
    let mut d = base();
    d.executable = false;
    assert!(!d.verify_commitment());
    let mut e = base();
    e.rent_epoch = 3;
    assert!(!e.verify_commitment());
}
