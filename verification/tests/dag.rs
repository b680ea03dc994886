use spend_dag::dag::{contains_address, DagEntry, SpendDag};
use spend_dag::keys::{Digest, SpendAddress, UniquePubkey};
use spend_dag::transaction::{SignedSpend, Transaction};

fn key(n: u8) -> UniquePubkey {
    UniquePubkey::new([n; 48])
}

fn addr(n: u8) -> SpendAddress {
    SpendAddress::from_unique_pubkey(&key(n))
}

fn tx(hash: u8, inputs: &[u8], outputs: &[u8]) -> Transaction {
    Transaction {
        hash: Digest::new([hash; 32]),
        inputs: inputs.iter().map(|k| key(*k)).collect(),
        outputs: outputs.iter().map(|k| key(*k)).collect(),
    }
}

fn spend(k: u8, parent: Transaction, spent: Transaction) -> SignedSpend {
    SignedSpend {
        unique_pubkey: key(k),
        spent_tx: spent,
        reason: Digest::new([0; 32]),
        token: 10,
        parent_tx: parent,
        derived_key_sig: [k; 96],
    }
}

fn forged(k: u8, parent: Transaction, spent: Transaction) -> SignedSpend {
    let mut s = spend(k, parent, spent);
    s.derived_key_sig = [255; 96];
    s
}

fn sorted(mut addrs: Vec<SpendAddress>) -> Vec<[u8; 32]> {
    let mut bytes: Vec<[u8; 32]> = addrs.drain(..).map(|a| a.bytes).collect();
    bytes.sort();
    bytes
}

#[test]
fn new_dag_is_empty() {
    let dag = SpendDag::new();
    assert!(dag.is_empty());
    assert_eq!(dag.len(), 0);
    assert_eq!(dag.root(), None);
    assert_eq!(dag.get(&addr(1)), None);
    assert!(!dag.contains(&addr(1)));
    assert!(dag.get_utxos().is_empty());
    assert!(dag.addresses().is_empty());
    let rooted = SpendDag::with_root(addr(3));
    assert_eq!(rooted.root(), Some(addr(3)));
    assert!(rooted.is_empty());
}

#[test]
fn insert_records_the_spend_and_sets_the_root() {
    let mut dag = SpendDag::new();
    let s1 = spend(1, tx(1, &[0], &[1]), tx(2, &[1], &[2]));
    dag.insert(addr(1), s1.clone());
    assert_eq!(dag.len(), 1);
    assert_eq!(dag.root(), Some(addr(1)));
    assert_eq!(dag.get(&addr(1)), Some(DagEntry::Spend(s1.clone())));
    assert_eq!(dag.spends(&addr(1)), vec![s1]);
    let s2 = spend(2, tx(2, &[1], &[2]), tx(3, &[2], &[3]));
    dag.insert(addr(2), s2);
    assert_eq!(dag.len(), 2);
    assert_eq!(dag.root(), Some(addr(1)));
    assert_eq!(sorted(dag.addresses()), sorted(vec![addr(1), addr(2)]));
}

#[test]
fn a_given_root_is_kept() {
    let mut dag = SpendDag::with_root(addr(9));
    dag.insert(addr(1), spend(1, tx(1, &[0], &[1]), tx(2, &[1], &[2])));
    assert_eq!(dag.root(), Some(addr(9)));
}

#[test]
fn second_different_spend_marks_a_double_spend() {
    let mut dag = SpendDag::new();
    let s1 = spend(1, tx(1, &[0], &[1]), tx(2, &[1], &[2]));
    let s1b = forged(1, tx(1, &[0], &[1]), tx(2, &[1], &[2]));
    dag.insert(addr(1), s1.clone());
    dag.insert(addr(1), s1b.clone());
    assert_eq!(dag.len(), 1);
    assert_eq!(
        dag.get(&addr(1)),
        Some(DagEntry::DoubleSpend(vec![s1.clone(), s1b.clone()]))
    );
    dag.insert(addr(1), s1.clone());
    dag.insert(addr(1), s1b.clone());
    assert_eq!(
        dag.get(&addr(1)),
        Some(DagEntry::DoubleSpend(vec![s1.clone(), s1b.clone()]))
    );
    let s1c = spend(1, tx(1, &[0], &[1]), tx(8, &[1], &[7]));
    dag.insert(addr(1), s1c.clone());
    assert_eq!(dag.get(&addr(1)), Some(DagEntry::DoubleSpend(vec![s1, s1b, s1c])));
    assert_eq!(dag.double_spends(), vec![addr(1)]);
}

#[test]
fn check_and_insert_is_idempotent() {
    let mut dag = SpendDag::new();
    let s1 = spend(1, tx(1, &[0], &[1]), tx(2, &[1], &[2]));
    assert!(dag.check_and_insert(addr(1), s1.clone()));
    assert!(!dag.check_and_insert(addr(1), s1.clone()));
    assert!(!dag.check_and_insert(addr(1), s1.clone()));
    assert_eq!(dag.get(&addr(1)), Some(DagEntry::Spend(s1.clone())));
    let s1b = forged(1, tx(1, &[0], &[1]), tx(2, &[1], &[2]));
    assert!(dag.check_and_insert(addr(1), s1b.clone()));
    assert!(!dag.check_and_insert(addr(1), s1b));
    assert!(!dag.check_and_insert(addr(1), s1));
}

#[test]
fn utxos_are_outputs_without_a_spend() {
    let mut dag = SpendDag::new();
    dag.insert(addr(1), spend(1, tx(1, &[0], &[1]), tx(2, &[1], &[2, 3])));
    assert_eq!(sorted(dag.get_utxos()), sorted(vec![addr(2), addr(3)]));
    dag.insert(addr(2), spend(2, tx(2, &[1], &[2, 3]), tx(3, &[2], &[4, 3])));
    assert_eq!(sorted(dag.get_utxos()), sorted(vec![addr(3), addr(4)]));
    for utxo in dag.get_utxos() {
        assert!(!dag.contains(&utxo));
        assert!(dag.is_output_address(&utxo));
    }
    assert!(dag.is_output_address(&addr(2)));
    assert!(!dag.is_output_address(&addr(1)));
}

#[test]
fn utxos_count_the_outputs_of_every_spend_of_a_double_spend() {
    let mut dag = SpendDag::new();
    dag.insert(addr(1), spend(1, tx(1, &[0], &[1]), tx(2, &[1], &[2])));
    dag.insert(addr(1), spend(1, tx(1, &[0], &[1]), tx(3, &[1], &[5])));
    assert_eq!(sorted(dag.get_utxos()), sorted(vec![addr(2), addr(5)]));
}

#[test]
fn merge_is_the_union_of_the_entries() {
    let s1 = spend(1, tx(1, &[0], &[1]), tx(2, &[1], &[2]));
    let s2 = spend(2, tx(2, &[1], &[2]), tx(3, &[2], &[3]));
    let s3 = spend(3, tx(3, &[2], &[3]), tx(4, &[3], &[4]));
    let mut left = SpendDag::new();
    left.insert(addr(1), s1.clone());
    left.insert(addr(2), s2.clone());
    let mut right = SpendDag::new();
    right.insert(addr(2), s2.clone());
    right.insert(addr(3), s3.clone());
    left.merge(right);
    assert_eq!(left.len(), 3);
    assert_eq!(left.get(&addr(1)), Some(DagEntry::Spend(s1)));
    assert_eq!(left.get(&addr(2)), Some(DagEntry::Spend(s2)));
    assert_eq!(left.get(&addr(3)), Some(DagEntry::Spend(s3)));
    assert_eq!(left.root(), Some(addr(1)));
}

#[test]
fn merge_into_an_empty_dag_takes_the_root_over() {
    let mut right = SpendDag::new();
    right.insert(addr(2), spend(2, tx(2, &[1], &[2]), tx(3, &[2], &[3])));
    let mut left = SpendDag::new();
    left.merge(right);
    assert_eq!(left.root(), Some(addr(2)));
    assert_eq!(left.len(), 1);
}

#[test]
fn merge_commutes_up_to_the_order_of_a_double_spend() {
    let s1 = spend(1, tx(1, &[0], &[1]), tx(2, &[1], &[2]));
    let s1b = forged(1, tx(1, &[0], &[1]), tx(2, &[1], &[2]));
    let s2 = spend(2, tx(2, &[1], &[2]), tx(3, &[2], &[3]));
    let build = |with_first: bool| {
        let mut d = SpendDag::new();
        if with_first {
            d.insert(addr(1), s1.clone());
            d.insert(addr(2), s2.clone());
        } else {
            d.insert(addr(1), s1b.clone());
        }
        d
    };
    let mut ab = build(true);
    ab.merge(build(false));
    let mut ba = build(false);
    ba.merge(build(true));
    assert_eq!(sorted(ab.addresses()), sorted(ba.addresses()));
    assert_eq!(ab.spends(&addr(1)), vec![s1.clone(), s1b.clone()]);
    assert_eq!(ba.spends(&addr(1)), vec![s1b, s1]);
    assert_eq!(ab.spends(&addr(2)), ba.spends(&addr(2)));
    assert_eq!(ab.double_spends(), ba.double_spends());
}

#[test]
fn contains_address_finds_what_is_there() {
    let addrs = vec![addr(1), addr(2)];
    assert!(contains_address(&addrs, &addr(2)));
    assert!(!contains_address(&addrs, &addr(3)));
    assert!(!contains_address(&Vec::new(), &addr(3)));
}
