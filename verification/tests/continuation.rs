use spend_dag::continuation::Continuation;
use spend_dag::dag::SpendDag;
use spend_dag::error::BuildError;
use spend_dag::keys::{Digest, SpendAddress, UniquePubkey};
use spend_dag::service::{parse_decimal, word_ranges, NodeServiceManager, ProcessEntry};
use spend_dag::transaction::{SignedSpend, Transaction};

fn key(n: u8) -> UniquePubkey {
    UniquePubkey::new([n; 48])
}

fn addr(n: u8) -> SpendAddress {
    SpendAddress::from_unique_pubkey(&key(n))
}

fn tx(hash: u8, inputs: &[u8], outputs: &[u8]) -> Transaction {
    Transaction {
        hash: Digest::new([hash; 32]),
        inputs: inputs.iter().map(|k| key(*k)).collect(),
        outputs: outputs.iter().map(|k| key(*k)).collect(),
    }
}

fn spend(k: u8, parent: Transaction, spent: Transaction) -> SignedSpend {
    SignedSpend {
        unique_pubkey: key(k),
        spent_tx: spent,
        reason: Digest::new([0; 32]),
        token: 10,
        parent_tx: parent,
        derived_key_sig: [k; 96],
    }
}

fn start() -> SpendDag {
    let mut dag = SpendDag::new();
    dag.insert(addr(0), spend(0, tx(100, &[99], &[0]), tx(1, &[0], &[1, 2])));
    dag
}

fn sub(k: u8) -> SpendDag {
    let mut dag = SpendDag::new();
    dag.insert(addr(k), spend(k, tx(1, &[0], &[1, 2]), tx(k + 10, &[k], &[k + 20])));
    dag
}

#[test]
fn continuation_starts_at_the_utxos() {
    let dag = start();
    let c = Continuation::begin(&dag);
    assert_eq!(c.roots(), &vec![addr(1), addr(2)]);
    assert_eq!(c.conclude(), Ok(()));
    assert!(c.failures().is_empty());
}

#[test]
fn continuation_merges_what_comes_in() {
    let mut dag = start();
    let mut c = Continuation::begin(&dag);
    c.absorb(&mut dag, Ok(sub(1)));
    c.absorb(&mut dag, Ok(sub(2)));
    assert_eq!(c.conclude(), Ok(()));
    assert_eq!(dag.len(), 3);
    assert_eq!(dag.get_utxos(), vec![addr(21), addr(22)]);
    assert_eq!(dag.root(), Some(addr(0)));
}

#[test]
fn one_failed_build_does_not_fail_the_others() {
    let mut dag = start();
    let mut c = Continuation::begin(&dag);
    c.absorb(&mut dag, Err(BuildError::FailedToGetSpend));
    assert_eq!(dag.len(), 1);
    assert_eq!(c.conclude(), Err(BuildError::FailedToGetSpend));
    c.absorb(&mut dag, Ok(sub(2)));
    assert_eq!(c.conclude(), Ok(()));
    assert_eq!(c.failures(), &vec![BuildError::FailedToGetSpend]);
    assert_eq!(dag.len(), 2);
}

#[test]
fn lost_build_is_a_hard_error() {
    let mut dag = start();
    let mut c = Continuation::begin(&dag);
    c.absorb(&mut dag, Ok(sub(1)));
    c.build_lost();
    assert_eq!(c.conclude(), Err(BuildError::FailedToGetSpend));
}

#[test]
fn nothing_to_continue_is_a_success() {
    let dag = SpendDag::new();
    let c = Continuation::begin(&dag);
    assert!(c.roots().is_empty());
    assert_eq!(c.conclude(), Ok(()));
}

#[test]
fn process_is_found_by_name() {
    let manager = NodeServiceManager::new();
    let processes = vec![
        ProcessEntry { pid: 7, name: "init".to_string() },
        ProcessEntry { pid: 12, name: "safenode1".to_string() },
        ProcessEntry { pid: 15, name: "safenode1".to_string() },
    ];
    assert_eq!(manager.find_process_pid(&processes, &"safenode1".to_string()), Some(12));
    assert_eq!(manager.find_process_pid(&processes, &"init".to_string()), Some(7));
    assert_eq!(manager.find_process_pid(&processes, &"safenode2".to_string()), None);
    assert_eq!(manager.find_process_pid(&vec![], &"init".to_string()), None);
}

#[test]
fn new_user_id_follows_the_greatest() {
    let manager = NodeServiceManager::new();
    assert_eq!(manager.greatest_id(&vec![501, 88, 502, 3]), 502);
    assert_eq!(manager.greatest_id(&vec![]), 0);
    assert_eq!(manager.next_unique_id(&vec![501, 88, 502, 3]), Some(503));
    assert_eq!(manager.next_unique_id(&vec![]), Some(1));
    assert_eq!(manager.next_unique_id(&vec![1, u32::MAX]), None);
}

fn ids_by_the_string_library(listing: &str) -> Vec<u32> {
    let mut ids = vec![];
    for line in listing.lines() {
        let parts: Vec<&str> = line.split_whitespace().collect();
        if parts.len() == 2 {
            if let Ok(id) = parts[1].parse::<u32>() {
                ids.push(id);
            }
        }
    }
    ids
}

#[test]
fn user_ids_are_read_from_a_listing() {
    let manager = NodeServiceManager::new();
    let listing = "_www   70\nroot 0\ndaemon\t1\nnobody -2\n  alice   501  \nbob 502 staff\n\ncarol +503\n";
    assert_eq!(manager.user_ids(listing), vec![70, 0, 1, 501, 503]);
    assert_eq!(manager.user_ids(""), vec![]);
    assert_eq!(manager.user_ids("one\n"), vec![]);
    assert_eq!(manager.user_ids("a 4294967295\nb 4294967296\nc 00000000007"), vec![4294967295, 7]);
    assert_eq!(manager.next_unique_id(&manager.user_ids(listing)), Some(504));
}

#[test]
fn user_ids_agree_with_the_string_library() {
    let manager = NodeServiceManager::new();
    for listing in [
        "a 1\r\nb 2\r\n",
        "a 1\rb 2\n",
        "a\u{a0}7\n\u{3000}b\u{2003}8\u{85}",
        "x +\ny -1\nz 1x\nw 12 \n v 99999999999999999999\nu ٣\nt 0x10",
        "no newline 5",
        "a 5",
        "\n\n a 1 \n",
    ] {
        assert_eq!(manager.user_ids(listing), ids_by_the_string_library(listing));
    }
}

#[test]
fn helpers_of_the_listing() {
    let chars: Vec<char> = " ab  c +12 ".chars().collect();
    assert_eq!(word_ranges(&chars, 0, chars.len()), vec![(1, 3), (5, 6), (7, 10)]);
    assert_eq!(word_ranges(&chars, 1, 3), vec![(1, 3)]);
    assert_eq!(word_ranges(&chars, 3, 5), vec![]);
    assert_eq!(parse_decimal(&chars, 7, 10), Some(12));
    assert_eq!(parse_decimal(&chars, 8, 10), Some(12));
    assert_eq!(parse_decimal(&chars, 7, 8), None);
    assert_eq!(parse_decimal(&chars, 1, 3), None);
    assert_eq!(parse_decimal(&chars, 3, 3), None);
}
