//! What a wallet client works out around a payment: what a set of storage
//! payments costs in all, whether the network holds the spends of a cash
//! note, and how long to go on resending an unconfirmed transfer.

use vstd::prelude::*;
use crate::dag::position_of;
use crate::transaction::{spends_view, SignedSpend, SpendView};

verus! {

/// The sum of a sequence of costs.
pub open spec fn sum(costs: Seq<u64>) -> int
    decreases costs.len(),
{
    if costs.len() == 0 {
        0
    } else {
        sum(costs.drop_last()) + costs.last()
    }
}

/// The sum of the costs of all payments: for each piece of data, what each
/// of its payees is paid.
pub open spec fn total(payments: Seq<Seq<u64>>) -> int
    decreases payments.len(),
{
    if payments.len() == 0 {
        0
    } else {
        total(payments.drop_last()) + sum(payments.last())
    }
}

/// A sum is not negative, and no smaller than the sum of a part of it.
pub proof fn lemma_sum_grows(costs: Seq<u64>, n: int)
    requires
        0 <= n <= costs.len(),
    ensures
        0 <= sum(costs.take(n)) <= sum(costs),
    decreases costs.len(),
{
    if n == costs.len() {
        assert(costs.take(n) =~= costs);
        if costs.len() > 0 {
            lemma_sum_grows(costs.drop_last(), n - 1);
            assert(costs.drop_last().take(n - 1) =~= costs.drop_last());
        }
    } else {
        assert(costs.drop_last().take(n) =~= costs.take(n));
        lemma_sum_grows(costs.drop_last(), n);
    }
}

/// A total is not negative, and no smaller than the total of a part of it.
pub proof fn lemma_total_grows(payments: Seq<Seq<u64>>, n: int)
    requires
        0 <= n <= payments.len(),
    ensures
        0 <= total(payments.take(n)) <= total(payments),
    decreases payments.len(),
{
    if n == payments.len() {
        assert(payments.take(n) =~= payments);
        if payments.len() > 0 {
            lemma_total_grows(payments.drop_last(), n - 1);
            assert(payments.drop_last().take(n - 1) =~= payments.drop_last());
            lemma_sum_grows(payments.last(), 0);
        }
    } else {
        assert(payments.drop_last().take(n) =~= payments.take(n));
        lemma_total_grows(payments.drop_last(), n);
        lemma_sum_grows(payments.last(), 0);
    }
}

/// What all the payments cost together, unless that is more than an amount
/// can hold.
pub fn total_cost(payments: &Vec<Vec<u64>>) -> (cost: Option<u64>)
    ensures
        match cost {
            Some(cost) => cost == total(payments.deep_view()),
            None => total(payments.deep_view()) > u64::MAX,
        },
{
    let ghost all = payments.deep_view();
    let mut cost: u64 = 0;
    let mut i: usize = 0;
    assert(all.take(0) =~= Seq::<Seq<u64>>::empty());
    while i < payments.len()
        invariant
            i <= payments@.len(),
            all == payments.deep_view(),
            all.len() == payments@.len(),
            cost == total(all.take(i as int)),
        decreases payments@.len() - i,
    {
        let costs = &payments[i];
        let ghost row = all[i as int];
        assert(row == costs@);
        let ghost before = cost;
        let mut j: usize = 0;
        assert(row.take(0) =~= Seq::<u64>::empty());
        while j < costs.len()
            invariant
                j <= costs@.len(),
                i < payments@.len(),
                all == payments.deep_view(),
                all.len() == payments@.len(),
                row == all[i as int],
                row == costs@,
                before == total(all.take(i as int)),
                cost == before + sum(row.take(j as int)),
            decreases costs@.len() - j,
        {
            proof {
                assert(row.take(j + 1).drop_last() =~= row.take(j as int));
                assert(row.take(j + 1).last() == costs@[j as int]);
            }
            match cost.checked_add(costs[j]) {
                Some(more) => {
                    cost = more;
                },
                None => {
                    proof {
                        lemma_sum_grows(row, j + 1);
                        assert(all.take(i + 1).drop_last() =~= all.take(i as int));
                        assert(all.take(i + 1).last() == row);
                        lemma_total_grows(all, i + 1);
                    }
                    return None;
                },
            }
            j += 1;
        }
        proof {
            assert(row.take(j as int) =~= row);
            assert(all.take(i + 1).drop_last() =~= all.take(i as int));
            assert(all.take(i + 1).last() == row);
        }
        i += 1;
    }
    assert(all.take(i as int) =~= all);
    Some(cost)
}

/// Whether each spend of `a` stands in `b`.
pub fn all_spends_in(a: &Vec<SignedSpend>, b: &Vec<SignedSpend>) -> (r: bool)
    ensures
        r == spends_view(a@).to_set().subset_of(spends_view(b@).to_set()),
{
    let ghost av = spends_view(a@);
    let ghost bv = spends_view(b@);
    let mut i: usize = 0;
    while i < a.len()
        invariant
            i <= a.len(),
            av == spends_view(a@),
            bv == spends_view(b@),
            forall|k: int| 0 <= k < i ==> bv.contains(#[trigger] av[k]),
        decreases a.len() - i,
    {
        let at = position_of(b, &a[i]);
        if at.is_none() {
            assert(av[i as int] == a@[i as int]@);
            assert(av.to_set().contains(av[i as int]));
            return false;
        }
        proof {
            assert(bv[at->Some_0 as int] == a@[i as int]@);
            assert(av[i as int] == a@[i as int]@);
        }
        i += 1;
    }
    assert forall|s: SpendView| av.to_set().contains(s) implies bv.to_set().contains(s) by {
        let k = choose|k: int| 0 <= k < av.len() && av[k] == s;
        assert(bv.contains(av[k]));
    }
    true
}

/// Whether the spends that the network returned are those that the cash note
/// carries: the same set, whatever the order and however often a spend
/// stands in either.
pub fn same_spend_set(received: &Vec<SignedSpend>, expected: &Vec<SignedSpend>) -> (r: bool)
    ensures
        r == (spends_view(received@).to_set() == spends_view(expected@).to_set()),
{
    let r = all_spends_in(received, expected) && all_spends_in(expected, received);
    assert(r == (spends_view(received@).to_set() =~= spends_view(expected@).to_set()));
    r
}

/// Why a transfer gave no cash note to hand back.
#[derive(Clone, Copy, Debug, PartialEq, Eq, Structural)]
pub enum SendError {
    /// The wallet made no cash note.
    NoCashNotes,
    /// The wallet made several cash notes where one payee was paid.
    MultipleCashNotes,
}

/// A transfer to one payee makes exactly one cash note: the index of the
/// note to hand back, or what is wrong with the number of notes made.
pub fn single_cash_note(created: usize) -> (r: Result<usize, SendError>)
    ensures
        r == (if created == 1 {
            Ok::<usize, SendError>(0)
        } else if created == 0 {
            Err::<usize, SendError>(SendError::NoCashNotes)
        } else {
            Err::<usize, SendError>(SendError::MultipleCashNotes)
        }),
{
    if created == 1 {
        Ok(0)
    } else if created == 0 {
        Err(SendError::NoCashNotes)
    } else {
        Err(SendError::MultipleCashNotes)
    }
}

/// How often an unconfirmed transfer is sent again before the sender gives
/// up: once more than this.
pub const MAX_RESEND_ATTEMPTS: u8 = 10;

/// The count of the resends of one transfer.
#[derive(Clone, Copy, Debug, PartialEq, Eq, Structural)]
pub struct ResendCount {
    pub attempts: u8,
}

impl ResendCount {
    /// The count before the first resend.
    pub fn new() -> (count: ResendCount)
        ensures
            count.attempts == 0,
    {
        ResendCount { attempts: 0 }
    }

    /// Notes one more resend and says whether to go on. After a resend that
    /// found more than `MAX_RESEND_ATTEMPTS` before it, the sender gives up
    /// and the count stays.
    pub fn resent(&mut self) -> (go_on: bool)
        ensures
            go_on == (old(self).attempts <= MAX_RESEND_ATTEMPTS),
            final(self).attempts == (if go_on {
                old(self).attempts + 1
            } else {
                old(self).attempts as int
            }),
    {
        if self.attempts > MAX_RESEND_ATTEMPTS {
            false
        } else {
            self.attempts += 1;
            true
        }
    }
}

} // verus!
