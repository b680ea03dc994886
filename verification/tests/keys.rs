use spend_dag::keys::{bytes_eq, Digest, SpendAddress, UniquePubkey};
use spend_dag::transaction::{clone_keys, keys_eq, SignedSpend, Transaction};

fn tx(hash: u8, inputs: &[u8], outputs: &[u8]) -> Transaction {
    Transaction {
        hash: Digest::new([hash; 32]),
        inputs: inputs.iter().map(|k| UniquePubkey::new([*k; 48])).collect(),
        outputs: outputs.iter().map(|k| UniquePubkey::new([*k; 48])).collect(),
    }
}

fn spend(key: u8, parent: Transaction, spent: Transaction) -> SignedSpend {
    SignedSpend {
        unique_pubkey: UniquePubkey::new([key; 48]),
        spent_tx: spent,
        reason: Digest::new([0; 32]),
        token: 10,
        parent_tx: parent,
        derived_key_sig: [key; 96],
    }
}

#[test]
fn address_is_sha3_of_key_bytes() {
    let addr = SpendAddress::from_unique_pubkey(&UniquePubkey::new([0; 48]));
    assert_eq!(
        addr.bytes,
        [
            133, 198, 93, 19, 200, 113, 155, 159, 136, 63, 230, 29, 21, 173, 160, 40, 169, 25, 61,
            85, 203, 79, 43, 182, 5, 236, 141, 124, 46, 193, 223, 255
        ]
    );
    let addr = SpendAddress::from_unique_pubkey(&UniquePubkey::new([7; 48]));
    assert_eq!(
        addr.bytes,
        [
            59, 1, 254, 161, 47, 31, 169, 26, 58, 115, 56, 47, 91, 92, 223, 118, 152, 136, 63, 209,
            166, 177, 254, 245, 98, 215, 10, 128, 246, 156, 195, 168
        ]
    );
}

#[test]
fn address_matches_the_transfer_crate_on_the_genesis_key() {
    let id = sn_transfers::GENESIS_CASHNOTE.unique_pubkey();
    let expected = sn_transfers::SpendAddress::from_unique_pubkey(&id);
    let addr = SpendAddress::from_unique_pubkey(&UniquePubkey::new(id.to_bytes()));
    assert_eq!(addr.bytes, expected.xorname().0);
}

#[test]
fn address_is_a_function_of_the_key() {
    let a = SpendAddress::from_unique_pubkey(&UniquePubkey::new([3; 48]));
    let b = SpendAddress::from_unique_pubkey(&UniquePubkey::new([3; 48]));
    let c = SpendAddress::from_unique_pubkey(&UniquePubkey::new([4; 48]));
    assert_eq!(a, b);
    assert_ne!(a, c);
}

#[test]
fn bytes_compare_by_content() {
    assert!(bytes_eq(&[1u8, 2, 3], &[1u8, 2, 3]));
    assert!(!bytes_eq(&[1u8, 2, 3], &[1u8, 2, 4]));
    assert!(bytes_eq::<0>(&[], &[]));
    assert_eq!(Digest::new([9; 32]), Digest::new([9; 32]));
    assert_ne!(Digest::new([9; 32]), Digest::new([8; 32]));
    assert_eq!(UniquePubkey::new([9; 48]), UniquePubkey::new([9; 48]));
    assert_ne!(SpendAddress::new([1; 32]), SpendAddress::new([2; 32]));
}

#[test]
fn keys_compare_in_order() {
    let a = vec![UniquePubkey::new([1; 48]), UniquePubkey::new([2; 48])];
    let b = vec![UniquePubkey::new([2; 48]), UniquePubkey::new([1; 48])];
    assert!(keys_eq(&a, &a));
    assert!(!keys_eq(&a, &b));
    assert!(!keys_eq(&a, &vec![UniquePubkey::new([1; 48])]));
    assert!(keys_eq(&clone_keys(&a), &a));
}

#[test]
fn transactions_compare_by_hash_and_keys() {
    assert_eq!(tx(1, &[1], &[2, 3]), tx(1, &[1], &[2, 3]));
    assert_ne!(tx(1, &[1], &[2, 3]), tx(2, &[1], &[2, 3]));
    assert_ne!(tx(1, &[1], &[2, 3]), tx(1, &[4], &[2, 3]));
    assert_ne!(tx(1, &[1], &[2, 3]), tx(1, &[1], &[3, 2]));
    let t = tx(5, &[1, 2], &[3]);
    assert_eq!(t.clone(), t);
    assert_eq!(t.hash(), Digest::new([5; 32]));
}

#[test]
fn spends_compare_by_every_field() {
    let s = spend(1, tx(1, &[0], &[1]), tx(2, &[1], &[2]));
    assert_eq!(s.clone(), s);
    let mut other = s.clone();
    other.token = 11;
    assert_ne!(other, s);
    let mut other = s.clone();
    other.derived_key_sig = [0; 96];
    assert_ne!(other, s);
    let mut other = s.clone();
    other.reason = Digest::new([1; 32]);
    assert_ne!(other, s);
    let mut other = s.clone();
    other.parent_tx = tx(9, &[0], &[1]);
    assert_ne!(other, s);
    let mut other = s.clone();
    other.spent_tx = tx(9, &[1], &[2]);
    assert_ne!(other, s);
    assert_eq!(s.address(), SpendAddress::from_unique_pubkey(&UniquePubkey::new([1; 48])));
}
