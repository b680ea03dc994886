use spend_dag::daemon::{next_node_number, Daemon, NodeStatus, StartStep, StopStep, DAEMON_DEFAULT_PORT};
use spend_dag::keys::{Digest, UniquePubkey};
use spend_dag::payments::{
    all_spends_in, same_spend_set, single_cash_note, total_cost, ResendCount, SendError,
    MAX_RESEND_ATTEMPTS,
};
use spend_dag::transaction::{SignedSpend, Transaction};

fn tx(hash: u8) -> Transaction {
    Transaction { hash: Digest::new([hash; 32]), inputs: vec![], outputs: vec![] }
}

fn spend(k: u8) -> SignedSpend {
    SignedSpend {
        unique_pubkey: UniquePubkey::new([k; 48]),
        spent_tx: tx(1),
        reason: Digest::new([0; 32]),
        token: 10,
        parent_tx: tx(2),
        derived_key_sig: [k; 96],
    }
}

#[test]
fn total_cost_adds_every_payment() {
    assert_eq!(total_cost(&vec![]), Some(0));
    assert_eq!(total_cost(&vec![vec![], vec![]]), Some(0));
    assert_eq!(total_cost(&vec![vec![1, 2, 3], vec![], vec![10]]), Some(16));
    assert_eq!(total_cost(&vec![vec![u64::MAX - 1], vec![1]]), Some(u64::MAX));
}

#[test]
fn total_cost_too_high_is_none() {
    assert_eq!(total_cost(&vec![vec![u64::MAX], vec![1]]), None);
    assert_eq!(total_cost(&vec![vec![u64::MAX, 1, 5]]), None);
    assert_eq!(total_cost(&vec![vec![1 << 63], vec![1 << 63], vec![0]]), None);
}

#[test]
fn spend_sets_compare_without_order() {
    assert!(same_spend_set(&vec![], &vec![]));
    assert!(same_spend_set(&vec![spend(1), spend(2)], &vec![spend(2), spend(1)]));
    assert!(same_spend_set(&vec![spend(1), spend(1)], &vec![spend(1)]));
    assert!(!same_spend_set(&vec![spend(1)], &vec![spend(1), spend(2)]));
    assert!(!same_spend_set(&vec![spend(1), spend(3)], &vec![spend(1), spend(2)]));
    assert!(all_spends_in(&vec![spend(1)], &vec![spend(1), spend(2)]));
    assert!(!all_spends_in(&vec![spend(1), spend(2)], &vec![spend(1)]));
}

#[test]
fn one_cash_note_is_expected() {
    assert_eq!(single_cash_note(1), Ok(0));
    assert_eq!(single_cash_note(0), Err(SendError::NoCashNotes));
    assert_eq!(single_cash_note(2), Err(SendError::MultipleCashNotes));
    assert_eq!(single_cash_note(usize::MAX), Err(SendError::MultipleCashNotes));
}

#[test]
fn resending_stops_after_twelve() {
    let mut count = ResendCount::new();
    let mut resends = 0;
    loop {
        resends += 1;
        if !count.resent() {
            break;
        }
    }
    assert_eq!(resends, 12);
    assert_eq!(count.attempts, MAX_RESEND_ATTEMPTS + 1);
    assert!(!count.resent());
    assert_eq!(count.attempts, 11);
    let mut full = ResendCount { attempts: 255 };
    assert!(!full.resent());
    assert_eq!(full.attempts, 255);
}

#[test]
fn daemon_that_never_ran_needs_no_stop() {
    assert_eq!(DAEMON_DEFAULT_PORT, 12500);
    let daemon = Daemon::added();
    assert_eq!(daemon, Daemon { pid: None, status: NodeStatus::Added });
    assert_eq!(daemon.stop_step(), StopStep::NotStarted);
    assert_eq!(daemon.start_step(), StartStep::Start);
    let removed = Daemon { pid: None, status: NodeStatus::Removed };
    assert_eq!(removed.stop_step(), StopStep::WasRemoved);
    let stopped = Daemon { pid: None, status: NodeStatus::Stopped };
    assert_eq!(stopped.stop_step(), StopStep::AlreadyStopped);
    assert_eq!(stopped.start_step(), StartStep::Start);
}

#[test]
fn running_daemon_is_probed_first() {
    let mut daemon = Daemon::added();
    daemon.started(77);
    assert_eq!(daemon, Daemon { pid: Some(77), status: NodeStatus::Running });
    assert_eq!(daemon.start_step(), StartStep::Probe(77));
    assert_eq!(daemon.stop_step(), StopStep::Probe(77));
    assert!(Daemon::must_start(false));
    assert!(!Daemon::must_start(true));
    daemon.stopped();
    assert_eq!(daemon, Daemon { pid: None, status: NodeStatus::Stopped });
    let broken = Daemon { pid: None, status: NodeStatus::Running };
    assert_eq!(broken.stop_step(), StopStep::PidNotSet);
}

#[test]
fn next_node_takes_the_next_number() {
    assert_eq!(next_node_number(0), (1, 1));
    assert_eq!(next_node_number(17), (18, 18));
    assert_eq!(next_node_number(65535), (65536, 0));
    assert_eq!(next_node_number(65536), (65537, 1));
}
