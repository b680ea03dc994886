use spend_dag::audit::{contains_key, contains_tx, push_new_issue, push_new_tx, Issue};
use spend_dag::dag::SpendDag;
use spend_dag::keys::{Digest, SpendAddress, UniquePubkey};
use spend_dag::transaction::{Genesis, SignedSpend, Transaction};

fn key(n: u8) -> UniquePubkey {
    UniquePubkey::new([n; 48])
}

fn addr(n: u8) -> SpendAddress {
    SpendAddress::from_unique_pubkey(&key(n))
}

fn hash(n: u8) -> Digest {
    Digest::new([n; 32])
}

fn tx(h: u8, inputs: &[u8], outputs: &[u8]) -> Transaction {
    Transaction {
        hash: hash(h),
        inputs: inputs.iter().map(|k| key(*k)).collect(),
        outputs: outputs.iter().map(|k| key(*k)).collect(),
    }
}

fn spend(k: u8, parent: Transaction, spent: Transaction) -> SignedSpend {
    SignedSpend {
        unique_pubkey: key(k),
        spent_tx: spent,
        reason: Digest::new([0; 32]),
        token: 10,
        parent_tx: parent,
        derived_key_sig: [k; 96],
    }
}

fn genesis() -> Genesis {
    Genesis { src_tx: tx(201, &[200], &[200]), id: key(200) }
}

// 0 -> 1 -> 2, built forward from 0
fn chain() -> SpendDag {
    let mut dag = SpendDag::new();
    dag.insert(addr(0), spend(0, tx(100, &[99], &[0]), tx(1, &[0], &[1])));
    dag.insert(addr(1), spend(1, tx(1, &[0], &[1]), tx(2, &[1], &[2])));
    dag.insert(addr(2), spend(2, tx(2, &[1], &[2]), tx(3, &[2], &[3])));
    dag
}

#[test]
fn sound_chain_has_no_issue() {
    let dag = chain();
    assert_eq!(dag.verify(&addr(0), &genesis(), &vec![]), vec![]);
}

#[test]
fn double_spend_detection() {
    let mut dag = SpendDag::new();
    let s1 = spend(1, tx(1, &[0], &[1]), tx(2, &[1], &[2]));
    let mut s1b = s1.clone();
    s1b.token = 11;
    dag.insert(addr(1), s1);
    dag.insert(addr(1), s1b);
    let issues = dag.verify(&addr(0), &genesis(), &vec![]);
    assert!(issues.contains(&Issue::DoubleSpend(addr(1))));
    assert!(issues.contains(&Issue::MissingRoot(addr(0))));
    assert_eq!(issues.len(), 2);
}

#[test]
fn missing_root_is_an_issue() {
    let dag = chain();
    assert_eq!(dag.verify(&addr(7), &genesis(), &vec![]), vec![Issue::MissingRoot(addr(7))]);
    assert_eq!(
        SpendDag::new().verify(&addr(7), &genesis(), &vec![]),
        vec![Issue::MissingRoot(addr(7))]
    );
}

#[test]
fn rejected_transaction_with_all_inputs_is_an_issue() {
    let dag = chain();
    // the transactions 1, 2 and 3 have their input spends in the dag; 100 has not
    let rejected = vec![hash(2), hash(100), hash(77)];
    assert_eq!(
        dag.verify(&addr(0), &genesis(), &rejected),
        vec![Issue::InvalidTransaction(hash(2))]
    );
}

#[test]
fn lacking_input_is_an_issue_only_where_it_was_asked_for() {
    let mut dag = SpendDag::new();
    // the transaction 2 spends the keys 1 and 5; 5 is an output of the transaction 1
    // that the spend at 0 spent, and the dag has no spend for it
    dag.insert(addr(0), spend(0, tx(100, &[99], &[0]), tx(1, &[0], &[1, 5])));
    dag.insert(addr(1), spend(1, tx(1, &[0], &[1, 5]), tx(2, &[1, 5], &[2])));
    assert_eq!(
        dag.verify(&addr(0), &genesis(), &vec![hash(2)]),
        vec![Issue::MissingInputs(hash(2))]
    );
    // the input 99 of the transaction 100 was never asked for: no issue
    assert!(!dag.inputs_complete(&tx(100, &[99], &[0])));
    assert!(!dag.inputs_lacking(&genesis(), &tx(100, &[99], &[0])));
    assert!(dag.inputs_lacking(&genesis(), &tx(2, &[1, 5], &[2])));
    assert!(dag.inputs_complete(&tx(1, &[0], &[1, 5])));
}

#[test]
fn missing_genesis_input_is_no_issue() {
    let mut dag = SpendDag::new();
    // the genesis key is an output of the genesis transaction, which the spend at 0 spent
    dag.insert(addr(0), spend(0, tx(100, &[99], &[0]), tx(201, &[200], &[200])));
    assert!(!dag.inputs_lacking(&genesis(), &tx(201, &[200], &[200])));
    let other = Genesis { src_tx: tx(201, &[200], &[200]), id: key(1) };
    assert!(dag.inputs_lacking(&other, &tx(201, &[200], &[200])));
    assert_eq!(dag.verify(&addr(0), &genesis(), &vec![]), vec![]);
    assert_eq!(dag.verify(&addr(0), &other, &vec![]), vec![Issue::MissingInputs(hash(201))]);
}

#[test]
fn cycle_is_an_issue() {
    let mut dag = SpendDag::new();
    // 1 -> 2 -> 1 by the hashes of the transactions, and 3 below the cycle
    dag.insert(addr(1), spend(1, tx(11, &[2], &[1]), tx(12, &[1], &[2])));
    dag.insert(addr(2), spend(2, tx(12, &[1], &[2]), tx(11, &[2], &[1, 3])));
    dag.insert(addr(3), spend(3, tx(11, &[2], &[1, 3]), tx(13, &[3], &[4])));
    dag.insert(addr(5), spend(5, tx(50, &[6], &[5]), tx(51, &[5], &[7])));
    assert_eq!(dag.cycle_addresses(), vec![addr(1), addr(2), addr(3)]);
    let issues = dag.verify(&addr(1), &genesis(), &vec![]);
    assert_eq!(
        issues,
        vec![Issue::Cycle(addr(1)), Issue::Cycle(addr(2)), Issue::Cycle(addr(3))]
    );
    assert!(chain().cycle_addresses().is_empty());
}

#[test]
fn spend_that_is_its_own_parent_is_a_cycle() {
    let mut dag = SpendDag::new();
    dag.insert(addr(1), spend(1, tx(11, &[1], &[1]), tx(11, &[1], &[1])));
    assert_eq!(dag.cycle_addresses(), vec![addr(1)]);
}

#[test]
fn transactions_stand_once() {
    let dag = chain();
    let txs = dag.transactions();
    assert_eq!(
        txs,
        vec![
            tx(100, &[99], &[0]),
            tx(1, &[0], &[1]),
            tx(2, &[1], &[2]),
            tx(3, &[2], &[3])
        ]
    );
    assert!(SpendDag::new().transactions().is_empty());
}

#[test]
fn input_spends_are_found_by_key() {
    let dag = chain();
    assert_eq!(
        dag.input_spends(&tx(2, &[1], &[2])),
        vec![spend(1, tx(1, &[0], &[1]), tx(2, &[1], &[2]))]
    );
    assert_eq!(dag.input_spends(&tx(9, &[2, 0, 7], &[])).len(), 2);
    assert!(dag.input_spends(&tx(100, &[99], &[0])).is_empty());
    assert!(dag.holds_key(&key(1)));
    assert!(!dag.holds_key(&key(3)));
}

#[test]
fn helpers_of_the_audit() {
    let mut txs = vec![tx(1, &[], &[])];
    push_new_tx(&mut txs, &tx(1, &[], &[]));
    push_new_tx(&mut txs, &tx(2, &[], &[]));
    assert_eq!(txs, vec![tx(1, &[], &[]), tx(2, &[], &[])]);
    assert!(contains_tx(&txs, &tx(2, &[], &[])));
    assert!(!contains_tx(&txs, &tx(2, &[1], &[])));
    assert!(contains_key(&vec![key(1), key(2)], &key(2)));
    assert!(!contains_key(&vec![key(1), key(2)], &key(3)));
    let mut issues = vec![Issue::Cycle(addr(1))];
    push_new_issue(&mut issues, Issue::Cycle(addr(1)));
    push_new_issue(&mut issues, Issue::DoubleSpend(addr(1)));
    assert_eq!(issues, vec![Issue::Cycle(addr(1)), Issue::DoubleSpend(addr(1))]);
}
