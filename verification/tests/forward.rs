use spend_dag::dag::{DagEntry, SpendDag};
use spend_dag::error::BuildError;
use spend_dag::forward::{
    append_addresses, contains_digest, contains_hash, learn_hashes, select_unseen, ForwardBuild,
};
use spend_dag::keys::{Digest, SpendAddress, UniquePubkey};
use spend_dag::reach::MemoryStore;
use spend_dag::store::StoreError;
use spend_dag::transaction::{SignedSpend, Transaction};

fn key(n: u8) -> UniquePubkey {
    UniquePubkey::new([n; 48])
}

fn addr(n: u8) -> SpendAddress {
    SpendAddress::from_unique_pubkey(&key(n))
}

fn tx(hash: u8, inputs: &[u8], outputs: &[u8]) -> Transaction {
    Transaction {
        hash: Digest::new([hash; 32]),
        inputs: inputs.iter().map(|k| key(*k)).collect(),
        outputs: outputs.iter().map(|k| key(*k)).collect(),
    }
}

fn spend(k: u8, parent: Transaction, spent: Transaction) -> SignedSpend {
    SignedSpend {
        unique_pubkey: key(k),
        spent_tx: spent,
        reason: Digest::new([0; 32]),
        token: 10,
        parent_tx: parent,
        derived_key_sig: [k; 96],
    }
}

fn sorted(mut addrs: Vec<SpendAddress>) -> Vec<[u8; 32]> {
    let mut bytes: Vec<[u8; 32]> = addrs.drain(..).map(|a| a.bytes).collect();
    bytes.sort();
    bytes
}

struct Store {
    spends: Vec<(SpendAddress, SignedSpend)>,
    broken: Vec<SpendAddress>,
}

impl Store {
    fn get(&self, addr: &SpendAddress) -> Result<SignedSpend, StoreError> {
        if self.broken.contains(addr) {
            return Err(StoreError::Transient);
        }
        match self.spends.iter().find(|(a, _)| a == addr) {
            Some((_, s)) => Ok(s.clone()),
            None => Err(StoreError::Missing),
        }
    }
}

fn build_from(store: &Store, root: SpendAddress) -> Result<(SpendDag, usize), BuildError> {
    let mut build = ForwardBuild::start(root, store.get(&root))?;
    while !build.is_done() {
        let batch = build.batch();
        let results = batch.iter().map(|a| store.get(a)).collect();
        build.apply(results);
    }
    let generations = build.generation();
    Ok((build.finish(), generations))
}

#[test]
fn single_node_chain_to_utxo() {
    let s0 = spend(0, tx(100, &[99], &[0]), tx(1, &[0], &[1]));
    let store = Store { spends: vec![(addr(0), s0.clone())], broken: vec![] };
    let (dag, _) = build_from(&store, addr(0)).unwrap();
    assert_eq!(dag.len(), 1);
    assert_eq!(dag.get(&addr(0)), Some(DagEntry::Spend(s0)));
    assert_eq!(dag.get_utxos(), vec![addr(1)]);
    assert_eq!(dag.root(), Some(addr(0)));
}

#[test]
fn two_generation_build() {
    let s0 = spend(0, tx(100, &[99], &[0]), tx(1, &[0], &[1]));
    let s1 = spend(1, tx(1, &[0], &[1]), tx(2, &[1], &[2, 3]));
    let store = Store {
        spends: vec![(addr(0), s0.clone()), (addr(1), s1.clone())],
        broken: vec![],
    };
    let (dag, generations) = build_from(&store, addr(0)).unwrap();
    assert_eq!(dag.len(), 2);
    assert_eq!(dag.get(&addr(0)), Some(DagEntry::Spend(s0)));
    assert_eq!(dag.get(&addr(1)), Some(DagEntry::Spend(s1)));
    assert_eq!(sorted(dag.get_utxos()), sorted(vec![addr(2), addr(3)]));
    assert_eq!(generations, 2);
}

#[test]
fn unspent_root_gives_an_empty_dag() {
    let store = Store { spends: vec![], broken: vec![] };
    let (dag, generations) = build_from(&store, addr(0)).unwrap();
    assert!(dag.is_empty());
    assert_eq!(dag.root(), None);
    assert_eq!(generations, 0);
}

#[test]
fn failed_root_lookup_fails_the_build() {
    let store = Store { spends: vec![], broken: vec![addr(0)] };
    assert_eq!(build_from(&store, addr(0)).err(), Some(BuildError::FailedToGetSpend));
}

#[test]
fn failed_lookup_below_the_root_is_passed_over() {
    let s0 = spend(0, tx(100, &[99], &[0]), tx(1, &[0], &[1, 2]));
    let s2 = spend(2, tx(1, &[0], &[1, 2]), tx(3, &[2], &[4]));
    let store = Store {
        spends: vec![(addr(0), s0), (addr(2), s2.clone())],
        broken: vec![addr(1)],
    };
    let (dag, generations) = build_from(&store, addr(0)).unwrap();
    assert_eq!(dag.len(), 2);
    assert_eq!(dag.get(&addr(2)), Some(DagEntry::Spend(s2)));
    assert_eq!(sorted(dag.get_utxos()), sorted(vec![addr(1), addr(4)]));
    assert_eq!(generations, 2);
}

#[test]
fn transaction_shared_by_two_spends_is_followed_once() {
    // a diamond: two outputs of the first transaction are spent in one transaction
    let shared = tx(5, &[1, 2], &[3]);
    let s0 = spend(0, tx(100, &[99], &[0]), tx(1, &[0], &[1, 2]));
    let s1 = spend(1, tx(1, &[0], &[1, 2]), shared.clone());
    let s2 = spend(2, tx(1, &[0], &[1, 2]), shared.clone());
    let s3 = spend(3, shared.clone(), tx(6, &[3], &[4]));
    let store = Store {
        spends: vec![(addr(0), s0), (addr(1), s1), (addr(2), s2), (addr(3), s3)],
        broken: vec![],
    };
    let mut build = ForwardBuild::start(addr(0), store.get(&addr(0))).unwrap();
    assert_eq!(build.batch(), vec![addr(1), addr(2)]);
    let results = build.batch().iter().map(|a| store.get(a)).collect();
    build.apply(results);
    assert_eq!(build.generation(), 1);
    assert_eq!(build.batch(), vec![addr(3)]);
    let results = build.batch().iter().map(|a| store.get(a)).collect();
    build.apply(results);
    assert_eq!(build.batch(), vec![addr(4)]);
    build.apply(vec![Err(StoreError::Missing)]);
    assert!(build.is_done());
    assert_eq!(build.generation(), 3);
    let dag = build.finish();
    assert_eq!(dag.len(), 4);
    assert_eq!(dag.get_utxos(), vec![addr(4)]);
}

#[test]
fn known_transaction_is_not_followed_again() {
    // the spend at 1 spends a transaction with the hash of the one already followed
    let first = tx(1, &[0], &[1]);
    let s0 = spend(0, tx(100, &[99], &[0]), first.clone());
    let s1 = spend(1, first.clone(), first.clone());
    let store = Store { spends: vec![(addr(0), s0), (addr(1), s1)], broken: vec![] };
    let (dag, generations) = build_from(&store, addr(0)).unwrap();
    assert_eq!(dag.len(), 2);
    assert_eq!(generations, 1);
    assert!(dag.get_utxos().is_empty());
}

#[test]
fn applying_to_a_finished_build_changes_nothing() {
    let store = Store { spends: vec![], broken: vec![] };
    let mut build = ForwardBuild::start(addr(0), store.get(&addr(0))).unwrap();
    assert!(build.is_done());
    assert!(build.batch().is_empty());
    build.apply(vec![]);
    assert!(build.is_done());
    assert_eq!(build.generation(), 0);
}

#[test]
fn double_spend_met_on_the_way_is_kept() {
    let s0 = spend(0, tx(100, &[99], &[0]), tx(1, &[0], &[1, 1]));
    let s1 = spend(1, tx(1, &[0], &[1, 1]), tx(2, &[1], &[2]));
    let mut s1b = s1.clone();
    s1b.token = 99;
    let mut build = ForwardBuild::start(addr(0), Ok(s0)).unwrap();
    assert_eq!(build.batch(), vec![addr(1), addr(1)]);
    build.apply(vec![Ok(s1.clone()), Ok(s1b.clone())]);
    assert_eq!(build.batch(), vec![addr(2)]);
    let dag = build.finish();
    assert_eq!(dag.get(&addr(1)), Some(DagEntry::DoubleSpend(vec![s1, s1b])));
}

#[test]
fn helpers_keep_each_hash_once() {
    let mut known = vec![Digest::new([1; 32])];
    learn_hashes(&mut known, &vec![tx(1, &[], &[]), tx(2, &[], &[]), tx(2, &[], &[])]);
    assert_eq!(known, vec![Digest::new([1; 32]), Digest::new([2; 32])]);
    assert!(contains_digest(&known, &Digest::new([2; 32])));
    assert!(!contains_digest(&known, &Digest::new([3; 32])));
    let found = vec![tx(2, &[], &[]), tx(3, &[], &[7]), tx(3, &[], &[8]), tx(4, &[], &[])];
    let next = select_unseen(&found, &known);
    assert_eq!(next, vec![tx(3, &[], &[7]), tx(4, &[], &[])]);
    assert!(contains_hash(&next, &Digest::new([4; 32])));
    assert!(!contains_hash(&next, &Digest::new([2; 32])));
    let mut addrs = vec![addr(9)];
    append_addresses(&mut addrs, &vec![key(1), key(2)]);
    assert_eq!(addrs, vec![addr(9), addr(1), addr(2)]);
}

#[test]
fn memory_store_answers_what_it_holds() {
    let mut store = MemoryStore::new();
    assert_eq!(store.len(), 0);
    let s0 = spend(0, tx(100, &[99], &[0]), tx(1, &[0], &[1]));
    let other = spend(0, tx(100, &[99], &[0]), tx(7, &[0], &[8]));
    assert!(store.put(addr(0), s0.clone()));
    assert!(!store.put(addr(0), other));
    assert_eq!(store.len(), 1);
    assert_eq!(store.get(&addr(0)), Ok(s0.clone()));
    assert_eq!(store.get(&addr(1)), Err(StoreError::Missing));
    assert_eq!(
        store.get_all(&vec![addr(1), addr(0)]),
        vec![Err(StoreError::Missing), Ok(s0)]
    );
    assert_eq!(store.get_all(&vec![]), vec![]);
}

#[test]
fn build_from_a_memory_store_gathers_what_can_be_reached() {
    let mut store = MemoryStore::new();
    let s0 = spend(0, tx(100, &[99], &[0]), tx(1, &[0], &[1, 2]));
    let s1 = spend(1, tx(1, &[0], &[1, 2]), tx(2, &[1], &[3]));
    let s3 = spend(3, tx(2, &[1], &[3]), tx(3, &[3], &[4]));
    let apart = spend(9, tx(50, &[51], &[9]), tx(52, &[9], &[10]));
    store.put(addr(0), s0.clone());
    store.put(addr(1), s1.clone());
    store.put(addr(3), s3.clone());
    store.put(addr(9), apart);
    let dag = store.build_from(addr(0));
    assert_eq!(dag.len(), 3);
    assert_eq!(dag.root(), Some(addr(0)));
    assert_eq!(dag.get(&addr(0)), Some(DagEntry::Spend(s0)));
    assert_eq!(dag.get(&addr(1)), Some(DagEntry::Spend(s1)));
    assert_eq!(dag.get(&addr(3)), Some(DagEntry::Spend(s3)));
    assert_eq!(dag.get(&addr(9)), None);
    assert_eq!(sorted(dag.get_utxos()), sorted(vec![addr(2), addr(4)]));
    let unspent = store.build_from(addr(2));
    assert!(unspent.is_empty());
    assert_eq!(unspent.root(), None);
}

#[test]
fn build_from_a_memory_store_ends_on_a_circle() {
    let mut store = MemoryStore::new();
    store.put(addr(0), spend(0, tx(2, &[1], &[0]), tx(1, &[0], &[1])));
    store.put(addr(1), spend(1, tx(1, &[0], &[1]), tx(2, &[1], &[0])));
    let dag = store.build_from(addr(0));
    assert_eq!(dag.len(), 2);
    assert!(dag.get_utxos().is_empty());
}
