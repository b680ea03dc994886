use spend_dag::backward::{all_spend_key, dedup_spends, failure_cause, BackwardExtend, ExtendPhase};
use spend_dag::dag::{DagEntry, SpendDag};
use spend_dag::error::{BuildError, VerifyFailure};
use spend_dag::keys::{Digest, SpendAddress, UniquePubkey};
use spend_dag::store::StoreError;
use spend_dag::transaction::{Genesis, SignedSpend, Transaction};

fn key(n: u8) -> UniquePubkey {
    UniquePubkey::new([n; 48])
}

fn addr(n: u8) -> SpendAddress {
    SpendAddress::from_unique_pubkey(&key(n))
}

fn tx(hash: u8, inputs: &[u8], outputs: &[u8]) -> Transaction {
    Transaction {
        hash: Digest::new([hash; 32]),
        inputs: inputs.iter().map(|k| key(*k)).collect(),
        outputs: outputs.iter().map(|k| key(*k)).collect(),
    }
}

fn spend(k: u8, parent: Transaction, spent: Transaction) -> SignedSpend {
    SignedSpend {
        unique_pubkey: key(k),
        spent_tx: spent,
        reason: Digest::new([0; 32]),
        token: 10,
        parent_tx: parent,
        derived_key_sig: [k; 96],
    }
}

const GENESIS_KEY: u8 = 200;

fn genesis_tx() -> Transaction {
    tx(201, &[GENESIS_KEY], &[GENESIS_KEY])
}

fn genesis() -> Genesis {
    Genesis { src_tx: genesis_tx(), id: key(GENESIS_KEY) }
}

struct Store {
    spends: Vec<(SpendAddress, SignedSpend)>,
    broken: Vec<SpendAddress>,
}

impl Store {
    fn get(&self, addr: &SpendAddress) -> Result<SignedSpend, StoreError> {
        if self.broken.contains(addr) {
            return Err(StoreError::Transient);
        }
        match self.spends.iter().find(|(a, _)| a == addr) {
            Some((_, s)) => Ok(s.clone()),
            None => Err(StoreError::Missing),
        }
    }
}

// the verdict that the tests use in place of the cryptography: a transaction
// verifies unless its hash is in `invalid`
fn extend_until(
    store: &Store,
    invalid: &[u8],
    dag: SpendDag,
    addr: SpendAddress,
    new_spend: SignedSpend,
) -> (SpendDag, Result<(), BuildError>, usize) {
    let mut extend = BackwardExtend::start(dag, genesis(), addr, new_spend);
    loop {
        match extend.phase() {
            ExtendPhase::Fetching => {
                let batch = extend.batch();
                extend.fetched(batch.iter().map(|a| store.get(a)).collect());
            }
            ExtendPhase::Verifying => {
                let tx = extend.current().unwrap();
                let spends = extend.spends_to_verify();
                assert!(!spends.is_empty() || tx.inputs.is_empty());
                extend.verified(!invalid.contains(&tx.hash.bytes[0]));
            }
            _ => break,
        }
    }
    let depth = extend.depth();
    let (dag, outcome) = extend.finish();
    (dag, outcome, depth)
}

// Sk -> P0 -> S1 -> Ta -> S2 -> Tb -> S3 -> genesis transaction -> genesis spend
fn chain() -> (Store, SignedSpend, SignedSpend, SignedSpend, SignedSpend) {
    let p0 = tx(10, &[1], &[9]);
    let ta = tx(11, &[2], &[1]);
    let tb = tx(12, &[3], &[2]);
    let sk = spend(9, p0.clone(), tx(20, &[9], &[30]));
    let s1 = spend(1, ta.clone(), p0);
    let s2 = spend(2, tb.clone(), ta);
    let s3 = spend(3, genesis_tx(), tb);
    let g = spend(GENESIS_KEY, genesis_tx(), genesis_tx());
    let store = Store {
        spends: vec![
            (addr(1), s1.clone()),
            (addr(2), s2.clone()),
            (addr(3), s3.clone()),
            (addr(GENESIS_KEY), g),
        ],
        broken: vec![],
    };
    (store, sk, s1, s2, s3)
}

#[test]
fn backward_extend_to_genesis() {
    let (store, sk, s1, s2, s3) = chain();
    let (dag, outcome, depth) = extend_until(&store, &[], SpendDag::new(), addr(9), sk.clone());
    assert_eq!(outcome, Ok(()));
    assert_eq!(dag.len(), 4);
    assert_eq!(dag.get(&addr(9)), Some(DagEntry::Spend(sk)));
    assert_eq!(dag.get(&addr(1)), Some(DagEntry::Spend(s1)));
    assert_eq!(dag.get(&addr(2)), Some(DagEntry::Spend(s2)));
    assert_eq!(dag.get(&addr(3)), Some(DagEntry::Spend(s3)));
    assert_eq!(dag.get(&addr(GENESIS_KEY)), None);
    assert_eq!(depth, 4);
    assert_eq!(dag.root(), Some(addr(9)));
}

#[test]
fn backward_extend_meeting_existing_dag() {
    let s1 = spend(1, tx(11, &[7], &[1]), tx(10, &[1], &[2]));
    let s2 = spend(2, tx(10, &[1], &[2]), tx(20, &[2], &[30]));
    let store = Store { spends: vec![(addr(1), s1.clone())], broken: vec![] };
    let mut dag = SpendDag::new();
    dag.insert(addr(1), s1.clone());
    let (dag, outcome, depth) = extend_until(&store, &[], dag, addr(2), s2.clone());
    assert_eq!(outcome, Ok(()));
    assert_eq!(depth, 1);
    assert_eq!(dag.len(), 2);
    assert_eq!(dag.get(&addr(1)), Some(DagEntry::Spend(s1)));
    assert_eq!(dag.get(&addr(2)), Some(DagEntry::Spend(s2)));
}

#[test]
fn backward_extend_aborts_on_missing_ancestor() {
    let (mut store, sk, s1, _, _) = chain();
    store.spends.retain(|(a, _)| *a != addr(2));
    let (dag, outcome, _) = extend_until(&store, &[], SpendDag::new(), addr(9), sk.clone());
    assert_eq!(
        outcome,
        Err(BuildError::CouldNotVerifyTransfer { depth: 1, cause: VerifyFailure::MissingSpend })
    );
    assert_eq!(dag.len(), 2);
    assert_eq!(dag.get(&addr(9)), Some(DagEntry::Spend(sk)));
    assert_eq!(dag.get(&addr(1)), Some(DagEntry::Spend(s1)));
    assert_eq!(dag.get(&addr(2)), None);
    assert_eq!(dag.get(&addr(3)), None);
}

#[test]
fn backward_extend_aborts_on_failed_lookup() {
    let (mut store, sk, _, _, _) = chain();
    store.broken.push(addr(1));
    let (dag, outcome, _) = extend_until(&store, &[], SpendDag::new(), addr(9), sk);
    assert_eq!(
        outcome,
        Err(BuildError::CouldNotVerifyTransfer { depth: 0, cause: VerifyFailure::FetchFailed })
    );
    assert_eq!(dag.len(), 1);
}

#[test]
fn backward_extend_aborts_on_invalid_transaction() {
    let (store, sk, s1, _, _) = chain();
    let (dag, outcome, _) = extend_until(&store, &[11], SpendDag::new(), addr(9), sk);
    assert_eq!(
        outcome,
        Err(BuildError::CouldNotVerifyTransfer {
            depth: 1,
            cause: VerifyFailure::InvalidTransaction
        })
    );
    assert_eq!(dag.len(), 2);
    assert_eq!(dag.get(&addr(1)), Some(DagEntry::Spend(s1)));
    assert_eq!(dag.get(&addr(2)), None);
}

#[test]
fn known_spend_needs_no_extend() {
    let (store, sk, _, _, _) = chain();
    let mut dag = SpendDag::new();
    dag.insert(addr(9), sk.clone());
    let extend = BackwardExtend::start(dag, genesis(), addr(9), sk);
    assert_eq!(extend.phase(), ExtendPhase::Done);
    assert!(extend.batch().is_empty());
    assert_eq!(extend.current(), None);
    let (dag, outcome) = extend.finish();
    assert_eq!(outcome, Ok(()));
    assert_eq!(dag.len(), 1);
    assert!(store.get(&addr(1)).is_ok());
}

#[test]
fn extend_given_up_is_unverified() {
    let (_, sk, _, _, _) = chain();
    let extend = BackwardExtend::start(SpendDag::new(), genesis(), addr(9), sk);
    assert_eq!(extend.phase(), ExtendPhase::Fetching);
    let (dag, outcome) = extend.finish();
    assert_eq!(
        outcome,
        Err(BuildError::CouldNotVerifyTransfer { depth: 0, cause: VerifyFailure::Incomplete })
    );
    assert_eq!(dag.len(), 1);
}

#[test]
fn steps_out_of_turn_change_nothing() {
    let (store, sk, _, _, _) = chain();
    let mut extend = BackwardExtend::start(SpendDag::new(), genesis(), addr(9), sk);
    extend.verified(true);
    assert_eq!(extend.phase(), ExtendPhase::Fetching);
    assert_eq!(extend.batch(), vec![addr(1)]);
    extend.fetched(vec![store.get(&addr(1))]);
    assert_eq!(extend.phase(), ExtendPhase::Verifying);
    assert!(extend.batch().is_empty());
    extend.fetched(vec![]);
    assert_eq!(extend.phase(), ExtendPhase::Verifying);
    assert_eq!(extend.spends_to_verify().len(), 1);
}

#[test]
fn genesis_transaction_with_a_foreign_spend_is_verified_like_any_other() {
    // the parent is the genesis transaction, but the spend found does not spend the genesis key
    let sk = spend(9, genesis_tx(), tx(20, &[9], &[30]));
    let odd = spend(5, tx(1, &[2], &[5]), genesis_tx());
    let store = Store { spends: vec![(addr(GENESIS_KEY), odd)], broken: vec![] };
    let mut extend = BackwardExtend::start(SpendDag::new(), genesis(), addr(9), sk);
    extend.fetched(vec![store.get(&addr(GENESIS_KEY))]);
    assert_eq!(extend.phase(), ExtendPhase::Verifying);
    extend.verified(false);
    assert_eq!(
        extend.phase(),
        ExtendPhase::Failed(BuildError::CouldNotVerifyTransfer {
            depth: 0,
            cause: VerifyFailure::InvalidTransaction
        })
    );
}

#[test]
fn transaction_without_inputs_goes_to_the_verdict() {
    let sk = spend(9, tx(10, &[], &[9]), tx(20, &[9], &[30]));
    let mut extend = BackwardExtend::start(SpendDag::new(), genesis(), addr(9), sk);
    assert!(extend.batch().is_empty());
    extend.fetched(vec![]);
    assert_eq!(extend.phase(), ExtendPhase::Verifying);
    assert!(extend.spends_to_verify().is_empty());
}

#[test]
fn shared_ancestor_is_verified_once() {
    // the parent has two inputs whose spends share their parent transaction
    let top = tx(12, &[3], &[1, 2]);
    let p0 = tx(10, &[1, 2], &[9]);
    let sk = spend(9, p0.clone(), tx(20, &[9], &[30]));
    let s1 = spend(1, top.clone(), p0.clone());
    let s2 = spend(2, top.clone(), p0);
    let s3 = spend(3, genesis_tx(), top);
    let g = spend(GENESIS_KEY, genesis_tx(), genesis_tx());
    let store = Store {
        spends: vec![(addr(1), s1), (addr(2), s2), (addr(3), s3), (addr(GENESIS_KEY), g)],
        broken: vec![],
    };
    let mut extend = BackwardExtend::start(SpendDag::new(), genesis(), addr(9), sk);
    assert_eq!(extend.batch(), vec![addr(1), addr(2)]);
    extend.fetched(vec![store.get(&addr(1)), store.get(&addr(2))]);
    extend.verified(true);
    assert_eq!(extend.depth(), 1);
    assert_eq!(extend.batch(), vec![addr(3)]);
    extend.fetched(vec![store.get(&addr(3))]);
    extend.verified(true);
    assert_eq!(extend.depth(), 2);
    assert_eq!(extend.batch(), vec![addr(GENESIS_KEY)]);
    extend.fetched(vec![store.get(&addr(GENESIS_KEY))]);
    assert_eq!(extend.phase(), ExtendPhase::Done);
    let (dag, outcome) = extend.finish();
    assert_eq!(outcome, Ok(()));
    assert_eq!(dag.len(), 4);
}

#[test]
fn helpers_of_the_extend() {
    let a = spend(1, tx(1, &[], &[]), tx(2, &[], &[]));
    let b = spend(2, tx(1, &[], &[]), tx(2, &[], &[]));
    assert_eq!(dedup_spends(&vec![a.clone(), b.clone(), a.clone()]), vec![a.clone(), b.clone()]);
    assert!(all_spend_key(&vec![a.clone(), a.clone()], &key(1)));
    assert!(!all_spend_key(&vec![a, b], &key(1)));
    assert!(all_spend_key(&vec![], &key(1)));
    assert_eq!(failure_cause(StoreError::Missing), VerifyFailure::MissingSpend);
    assert_eq!(failure_cause(StoreError::Transient), VerifyFailure::FetchFailed);
}
