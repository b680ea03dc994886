//! What a forward build gathers from a store that answers every lookup,
//! and such a store held in memory.
//!
//! The store is a map from an address to the spend stored there; an address
//! outside the map is unspent. Run against such a store, a build ends after
//! finitely many generations exactly when finitely many spends can be reached
//! from the root, and the DAG then holds those spends and no others.

use vstd::prelude::*;
use crate::dag::{inserted, spends_at, DagEntry, SpendDag};
use crate::forward::{
    absorbed,
    batch_addresses,
    begun,
    build_inv,
    found_txs,
    hashes,
    lemma_begun_inv,
    lemma_stepped_inv,
    lemma_unseen,
    spent_hashes,
    stepped,
    unseen,
    BuildView,
    ForwardBuild,
};
use crate::keys::{addresses_view, content_name, SpendAddress};
use crate::store::{result_view, results_view, StoreError};
use crate::transaction::{addresses_of, spends_view, SignedSpend, SpendView, TxView};

verus! {

/// What the store answers for `addr`.
pub open spec fn answer(store: Map<Seq<u8>, SpendView>, addr: Seq<u8>) -> Result<
    SpendView,
    StoreError,
> {
    if store.dom().contains(addr) {
        Ok(store[addr])
    } else {
        Err(StoreError::Missing)
    }
}

/// What the store answers for each address of a batch.
pub open spec fn answers(store: Map<Seq<u8>, SpendView>, addrs: Seq<Seq<u8>>) -> Seq<
    Result<SpendView, StoreError>,
> {
    Seq::new(addrs.len(), |i: int| answer(store, addrs[i]))
}

/// The build from `root` against `store` after at most `n` generations.
pub open spec fn run(store: Map<Seq<u8>, SpendView>, root: Seq<u8>, n: nat) -> BuildView
    decreases n,
{
    if n == 0 {
        begun(root, answer(store, root))->Some_0
    } else {
        let b = run(store, root, (n - 1) as nat);
        if b.to_follow.len() == 0 {
            b
        } else {
            stepped(b, answers(store, batch_addresses(b.to_follow)))
        }
    }
}

/// Whether the store holds a spend at `c` whose key is an output of the
/// transaction that the spend at `a` spent.
pub open spec fn child_of(store: Map<Seq<u8>, SpendView>, a: Seq<u8>, c: Seq<u8>) -> bool {
    &&& store.dom().contains(a)
    &&& store.dom().contains(c)
    &&& exists|j: int|
        0 <= j < store[a].spent_tx.outputs.len() && content_name(
            #[trigger] store[a].spent_tx.outputs[j],
        ) == c
}

/// Whether `a` is reached from `root` in `n` steps from a spend to a child.
pub open spec fn reaches(store: Map<Seq<u8>, SpendView>, root: Seq<u8>, a: Seq<u8>, n: nat) -> bool
    decreases n,
{
    if n == 0 {
        a == root && store.dom().contains(root)
    } else {
        exists|p: Seq<u8>| #[trigger]
            child_of(store, p, a) && reaches(store, root, p, (n - 1) as nat)
    }
}

/// Whether the spend at `a` can be reached from `root`.
pub open spec fn reachable(store: Map<Seq<u8>, SpendView>, root: Seq<u8>, a: Seq<u8>) -> bool {
    exists|n: nat| reaches(store, root, a, n)
}

/// The addresses of the spends that can be reached from `root`.
pub open spec fn reachable_set(store: Map<Seq<u8>, SpendView>, root: Seq<u8>) -> Set<Seq<u8>> {
    Set::new(|a: Seq<u8>| reachable(store, root, a))
}

/// Whether a hash stands for one transaction in the store: two spends whose
/// spent transactions have one hash spent the same transaction.
pub open spec fn faithful(store: Map<Seq<u8>, SpendView>) -> bool {
    forall|a: Seq<u8>, b: Seq<u8>|
        store.dom().contains(a) && store.dom().contains(b) && (#[trigger] store[a]).spent_tx.hash
            == (#[trigger] store[b]).spent_tx.hash ==> store[a].spent_tx == store[b].spent_tx
}

/// Whether `dag` holds at each of its addresses the one spend that the store
/// has there.
pub open spec fn mirrors(store: Map<Seq<u8>, SpendView>, dag: Map<Seq<u8>, Seq<SpendView>>) -> bool {
    forall|a: Seq<u8>| #[trigger]
        dag.dom().contains(a) ==> store.dom().contains(a) && dag[a] == seq![store[a]]
}

/// Whether `tx` was spent by a spend that `dag` holds.
pub open spec fn spent_in(
    store: Map<Seq<u8>, SpendView>,
    dag: Map<Seq<u8>, Seq<SpendView>>,
    tx: TxView,
) -> bool {
    exists|a: Seq<u8>|
        dag.dom().contains(a) && store.dom().contains(a) && (#[trigger] store[a]).spent_tx == tx
}

/// Whether `dag` holds every child of the spend at `a` that the store has.
pub open spec fn children_held(
    store: Map<Seq<u8>, SpendView>,
    dag: Map<Seq<u8>, Seq<SpendView>>,
    a: Seq<u8>,
) -> bool {
    forall|j: int|
        0 <= j < store[a].spent_tx.outputs.len() && store.dom().contains(
            content_name(#[trigger] store[a].spent_tx.outputs[j]),
        ) ==> dag.dom().contains(content_name(store[a].spent_tx.outputs[j]))
}

/// What holds of a build against `store` at every generation.
pub open spec fn run_inv(store: Map<Seq<u8>, SpendView>, root: Seq<u8>, b: BuildView) -> bool {
    &&& mirrors(store, b.dag)
    &&& forall|a: Seq<u8>| #[trigger] b.dag.dom().contains(a) ==> reachable(store, root, a)
    &&& forall|t: int| 0 <= t < b.to_follow.len() ==> spent_in(store, b.dag, #[trigger] b.to_follow[t])
    &&& store.dom().contains(root) ==> b.dag.dom().contains(root)
    &&& forall|a: Seq<u8>| #[trigger]
        b.dag.dom().contains(a) ==> b.known.contains(store[a].spent_tx.hash) || hashes(
            b.to_follow,
        ).contains(store[a].spent_tx.hash)
    &&& forall|a: Seq<u8>|
        store.dom().contains(a) && b.known.contains(store[a].spent_tx.hash)
            ==> #[trigger] children_held(store, b.dag, a)
}

/// Absorbing the store's answers keeps the DAG a mirror of the store, and
/// adds exactly the addresses of the batch at which the store has a spend.
pub proof fn lemma_absorbed_answers(
    store: Map<Seq<u8>, SpendView>,
    m: Map<Seq<u8>, Seq<SpendView>>,
    addrs: Seq<Seq<u8>>,
)
    requires
        mirrors(store, m),
    ensures
        mirrors(store, absorbed(m, addrs, answers(store, addrs))),
        forall|a: Seq<u8>| #[trigger]
            absorbed(m, addrs, answers(store, addrs)).dom().contains(a) <==> m.dom().contains(a)
                || (addrs.contains(a) && store.dom().contains(a)),
    decreases addrs.len(),
{
    let all = answers(store, addrs);
    let after = absorbed(m, addrs, all);
    if addrs.len() > 0 {
        let front = addrs.drop_last();
        let c = addrs.last();
        assert(all.drop_last() =~= answers(store, front));
        let before = absorbed(m, front, answers(store, front));
        lemma_absorbed_answers(store, m, front);
        assert(all.last() == answer(store, c));
        if store.dom().contains(c) {
            let spend = store[c];
            assert(after == inserted(before, c, spend));
            if before.dom().contains(c) {
                assert(before[c] == seq![spend]);
                assert(before[c][0] == spend);
                assert(spends_at(before, c).contains(spend));
                assert(after =~= before);
            } else {
                assert(after[c] =~= seq![spend]);
            }
        } else {
            assert(after == before);
        }
        assert forall|a: Seq<u8>| #[trigger]
            after.dom().contains(a) <==> m.dom().contains(a) || (addrs.contains(a)
                && store.dom().contains(a)) by {
            if front.contains(a) {
                let k = choose|k: int| 0 <= k < front.len() && front[k] == a;
                assert(addrs[k] == a);
            }
            if addrs.contains(a) {
                let k = choose|k: int| 0 <= k < addrs.len() && addrs[k] == a;
                if k < front.len() {
                    assert(front[k] == a);
                }
            }
            assert(addrs[addrs.len() - 1] == c);
        }
    } else {
        assert(after == m);
        assert forall|a: Seq<u8>| #[trigger]
            after.dom().contains(a) <==> m.dom().contains(a) || (addrs.contains(a)
                && store.dom().contains(a)) by {
            assert(!addrs.contains(a));
        }
    }
}

/// Whether `tx` was spent by the spend that the store has at an address of
/// `addrs`.
pub open spec fn spent_at_one_of(store: Map<Seq<u8>, SpendView>, addrs: Seq<Seq<u8>>, tx: TxView) -> bool {
    exists|i: int|
        0 <= i < addrs.len() && store.dom().contains(#[trigger] addrs[i]) && tx
            == store[addrs[i]].spent_tx
}

/// The transactions found by the store's answers are those that the spends
/// at the addresses of the batch spent.
pub proof fn lemma_found_answers(store: Map<Seq<u8>, SpendView>, addrs: Seq<Seq<u8>>)
    ensures
        forall|k: int|
            0 <= k < found_txs(answers(store, addrs)).len() ==> spent_at_one_of(
                store,
                addrs,
                #[trigger] found_txs(answers(store, addrs))[k],
            ),
        forall|i: int|
            0 <= i < addrs.len() && store.dom().contains(#[trigger] addrs[i]) ==> found_txs(
                answers(store, addrs),
            ).contains(store[addrs[i]].spent_tx),
    decreases addrs.len(),
{
    let all = answers(store, addrs);
    let found = found_txs(all);
    if addrs.len() > 0 {
        let front = addrs.drop_last();
        let c = addrs.last();
        assert(all.drop_last() =~= answers(store, front));
        let found_front = found_txs(answers(store, front));
        lemma_found_answers(store, front);
        assert(all.last() == answer(store, c));
        assert forall|k: int| 0 <= k < found.len() implies spent_at_one_of(
            store,
            addrs,
            #[trigger] found[k],
        ) by {
            if k < found_front.len() {
                assert(found[k] == found_front[k]);
                assert(spent_at_one_of(store, front, found_front[k]));
                let i = choose|i: int|
                    0 <= i < front.len() && store.dom().contains(#[trigger] front[i])
                        && found_front[k] == store[front[i]].spent_tx;
                assert(addrs[i] == front[i]);
            } else {
                assert(addrs[addrs.len() - 1] == c);
                assert(found[k] == store[c].spent_tx);
            }
        }
        assert forall|i: int|
            0 <= i < addrs.len() && store.dom().contains(
                #[trigger] addrs[i],
            ) implies found.contains(store[addrs[i]].spent_tx) by {
            if i < front.len() {
                assert(front[i] == addrs[i]);
                let tx = store[addrs[i]].spent_tx;
                assert(found_front.contains(tx));
                let k = choose|k: int| 0 <= k < found_front.len() && found_front[k] == tx;
                assert(found[k] == tx);
            } else {
                assert(found[found_front.len() as int] == store[c].spent_tx);
            }
        }
    }
}

/// The addresses of a batch are those of the outputs of its transactions.
pub proof fn lemma_batch_members(txs: Seq<TxView>)
    ensures
        forall|c: Seq<u8>|
            batch_addresses(txs).contains(c) ==> exists|t: int, j: int|
                0 <= t < txs.len() && 0 <= j < txs[t].outputs.len() && c == content_name(
                    #[trigger] txs[t].outputs[j],
                ),
        forall|t: int, j: int|
            0 <= t < txs.len() && 0 <= j < txs[t].outputs.len() ==> batch_addresses(txs).contains(
                content_name(#[trigger] txs[t].outputs[j]),
            ),
    decreases txs.len(),
{
    let all = batch_addresses(txs);
    if txs.len() > 0 {
        let front = txs.drop_last();
        let last = txs.last();
        let head = batch_addresses(front);
        let more = addresses_of(last.outputs);
        lemma_batch_members(front);
        assert(all == head + more);
        assert forall|c: Seq<u8>| all.contains(c) implies exists|t: int, j: int|
            0 <= t < txs.len() && 0 <= j < txs[t].outputs.len() && c == content_name(
                #[trigger] txs[t].outputs[j],
            ) by {
            let k = choose|k: int| 0 <= k < all.len() && all[k] == c;
            if k < head.len() {
                assert(head[k] == c);
                assert(head.contains(c));
                let (t, j) = choose|t: int, j: int|
                    0 <= t < front.len() && 0 <= j < front[t].outputs.len() && c == content_name(
                        #[trigger] front[t].outputs[j],
                    );
                assert(txs[t] == front[t]);
                assert(c == content_name(txs[t].outputs[j]));
            } else {
                let j = k - head.len();
                assert(more[j] == c);
                assert(c == content_name(txs[txs.len() - 1].outputs[j]));
            }
        }
        assert forall|t: int, j: int|
            0 <= t < txs.len() && 0 <= j < txs[t].outputs.len() implies all.contains(
            content_name(#[trigger] txs[t].outputs[j]),
        ) by {
            let c = content_name(txs[t].outputs[j]);
            if t < front.len() {
                assert(front[t] == txs[t]);
                assert(head.contains(content_name(front[t].outputs[j])));
                let k = choose|k: int| 0 <= k < head.len() && head[k] == c;
                assert(all[k] == c);
            } else {
                assert(more[j] == c);
                assert(all[head.len() + j] == c);
            }
        }
    }
}

/// Each transaction of the next generation is one of those found.
pub proof fn lemma_unseen_members(txs: Seq<TxView>, known: Set<Seq<u8>>)
    ensures
        forall|i: int|
            0 <= i < unseen(txs, known).len() ==> txs.contains(#[trigger] unseen(txs, known)[i]),
    decreases txs.len(),
{
    if txs.len() > 0 {
        let front = unseen(txs.drop_last(), known);
        lemma_unseen_members(txs.drop_last(), known);
        let next = unseen(txs, known);
        assert forall|i: int| 0 <= i < next.len() implies txs.contains(#[trigger] next[i]) by {
            if i < front.len() {
                assert(next[i] == front[i]);
                assert(txs.drop_last().contains(front[i]));
                let k = choose|k: int|
                    0 <= k < txs.drop_last().len() && txs.drop_last()[k] == front[i];
                assert(txs[k] == front[i]);
            } else {
                assert(next[i] == txs[txs.len() - 1]);
            }
        }
    }
}

/// One generation against the store keeps what holds of the build.
pub proof fn lemma_step_inv(store: Map<Seq<u8>, SpendView>, root: Seq<u8>, b: BuildView)
    requires
        faithful(store),
        run_inv(store, root, b),
        b.to_follow.len() > 0,
    ensures
        run_inv(store, root, stepped(b, answers(store, batch_addresses(b.to_follow)))),
{
    let addrs = batch_addresses(b.to_follow);
    let all = answers(store, addrs);
    let w = stepped(b, all);
    let found = found_txs(all);
    assert(w.dag == absorbed(b.dag, addrs, all));
    lemma_absorbed_answers(store, b.dag, addrs);
    lemma_found_answers(store, addrs);
    lemma_batch_members(b.to_follow);
    lemma_unseen(found, w.known);
    lemma_unseen_members(found, w.known);
    assert forall|a: Seq<u8>| #[trigger] w.dag.dom().contains(a) implies reachable(
        store,
        root,
        a,
    ) by {
        if !b.dag.dom().contains(a) {
            assert(addrs.contains(a) && store.dom().contains(a));
            let (t, j) = choose|t: int, j: int|
                0 <= t < b.to_follow.len() && 0 <= j < b.to_follow[t].outputs.len() && a
                    == content_name(#[trigger] b.to_follow[t].outputs[j]);
            assert(spent_in(store, b.dag, b.to_follow[t]));
            let p = choose|p: Seq<u8>|
                b.dag.dom().contains(p) && store.dom().contains(p) && (
                #[trigger] store[p]).spent_tx == b.to_follow[t];
            assert(store[p].spent_tx.outputs[j] == b.to_follow[t].outputs[j]);
            assert(child_of(store, p, a));
            assert(reachable(store, root, p));
            let n = choose|n: nat| reaches(store, root, p, n);
            assert(reaches(store, root, a, n + 1));
        }
    }
    assert forall|t: int| 0 <= t < w.to_follow.len() implies spent_in(
        store,
        w.dag,
        #[trigger] w.to_follow[t],
    ) by {
        let tx = w.to_follow[t];
        assert(found.contains(tx));
        let k = choose|k: int| 0 <= k < found.len() && found[k] == tx;
        assert(spent_at_one_of(store, addrs, found[k]));
        let i = choose|i: int|
            0 <= i < addrs.len() && store.dom().contains(#[trigger] addrs[i]) && found[k]
                == store[addrs[i]].spent_tx;
        assert(addrs.contains(addrs[i]));
        assert(w.dag.dom().contains(addrs[i]));
    }
    assert forall|a: Seq<u8>| #[trigger] w.dag.dom().contains(a) implies w.known.contains(
        store[a].spent_tx.hash,
    ) || hashes(w.to_follow).contains(store[a].spent_tx.hash) by {
        let h = store[a].spent_tx.hash;
        if b.dag.dom().contains(a) {
            if !b.known.contains(h) {
                assert(hashes(b.to_follow).contains(h));
                assert(hashes(b.to_follow).to_set().contains(h));
            }
        } else {
            assert(addrs.contains(a) && store.dom().contains(a));
            let i = choose|i: int| 0 <= i < addrs.len() && addrs[i] == a;
            assert(found.contains(store[addrs[i]].spent_tx));
            let k = choose|k: int| 0 <= k < found.len() && found[k] == store[a].spent_tx;
            assert(w.known.contains(found[k].hash) || hashes(w.to_follow).contains(found[k].hash));
        }
    }
    assert forall|a: Seq<u8>|
        store.dom().contains(a) && w.known.contains(
            store[a].spent_tx.hash,
        ) implies #[trigger] children_held(store, w.dag, a) by {
        let h = store[a].spent_tx.hash;
        if b.known.contains(h) {
            assert(children_held(store, b.dag, a));
            assert forall|j: int|
                0 <= j < store[a].spent_tx.outputs.len() && store.dom().contains(
                    content_name(#[trigger] store[a].spent_tx.outputs[j]),
                ) implies w.dag.dom().contains(content_name(store[a].spent_tx.outputs[j])) by {
                let c = content_name(store[a].spent_tx.outputs[j]);
                assert(b.dag.dom().contains(c));
                assert(absorbed(b.dag, addrs, all).dom().contains(c));
            }
        } else {
            assert(hashes(b.to_follow).to_set().contains(h));
            let t = choose|t: int| 0 <= t < hashes(b.to_follow).len() && hashes(b.to_follow)[t]
                == h;
            assert(b.to_follow[t].hash == h);
            assert(spent_in(store, b.dag, b.to_follow[t]));
            let p = choose|p: Seq<u8>|
                b.dag.dom().contains(p) && store.dom().contains(p) && (
                #[trigger] store[p]).spent_tx == b.to_follow[t];
            assert(store[a].spent_tx == store[p].spent_tx);
            assert forall|j: int|
                0 <= j < store[a].spent_tx.outputs.len() && store.dom().contains(
                    content_name(#[trigger] store[a].spent_tx.outputs[j]),
                ) implies w.dag.dom().contains(content_name(store[a].spent_tx.outputs[j])) by {
                let c = content_name(store[a].spent_tx.outputs[j]);
                assert(b.to_follow[t].outputs[j] == store[a].spent_tx.outputs[j]);
                assert(addrs.contains(content_name(b.to_follow[t].outputs[j])));
                assert(addrs.contains(c) && store.dom().contains(c));
                assert(absorbed(b.dag, addrs, all).dom().contains(c));
            }
        }
    }
}

/// What holds of the build against `store` after any number of generations.
pub proof fn lemma_run_inv(store: Map<Seq<u8>, SpendView>, root: Seq<u8>, n: nat)
    requires
        faithful(store),
    ensures
        run_inv(store, root, run(store, root, n)),
        build_inv(run(store, root, n)),
        run(store, root, n).to_follow.len() > 0 ==> run(store, root, n).generation == n,
    decreases n,
{
    if n == 0 {
        let b = run(store, root, 0);
        lemma_begun_inv(root, answer(store, root));
        if store.dom().contains(root) {
            let spend = store[root];
            assert(b.dag[root] =~= seq![spend]);
            assert(reaches(store, root, root, 0));
            assert(hashes(b.to_follow)[0] == spend.spent_tx.hash);
            assert forall|t: int| 0 <= t < b.to_follow.len() implies spent_in(
                store,
                b.dag,
                #[trigger] b.to_follow[t],
            ) by {
                assert(b.dag.dom().contains(root) && store[root].spent_tx == b.to_follow[t]);
            }
        }
    } else {
        let b = run(store, root, (n - 1) as nat);
        lemma_run_inv(store, root, (n - 1) as nat);
        if b.to_follow.len() > 0 {
            lemma_step_inv(store, root, b);
            lemma_stepped_inv(b, answers(store, batch_addresses(b.to_follow)));
        }
    }
}

/// A build that is done has gathered exactly the spends that can be reached
/// from the root: the DAG holds each of them, as the store has it, and
/// nothing else. So only finitely many spends can be reached, and the DAG
/// has as many addresses as there are such spends.
pub proof fn lemma_done_build_is_reachable_set(
    store: Map<Seq<u8>, SpendView>,
    root: Seq<u8>,
    n: nat,
)
    requires
        faithful(store),
        run(store, root, n).to_follow.len() == 0,
    ensures
        run(store, root, n).dag.dom() == reachable_set(store, root),
        mirrors(store, run(store, root, n).dag),
        reachable_set(store, root).finite(),
        run(store, root, n).dag.dom().len() == reachable_set(store, root).len(),
{
    let b = run(store, root, n);
    lemma_run_inv(store, root, n);
    assert forall|a: Seq<u8>| reachable(store, root, a) implies b.dag.dom().contains(a) by {
        let k = choose|k: nat| reaches(store, root, a, k);
        lemma_reached_is_held(store, root, b, a, k);
    }
    assert(b.dag.dom() =~= reachable_set(store, root));
}

/// In a build that is done, the DAG holds whatever is reached from the root.
pub proof fn lemma_reached_is_held(
    store: Map<Seq<u8>, SpendView>,
    root: Seq<u8>,
    b: BuildView,
    a: Seq<u8>,
    k: nat,
)
    requires
        run_inv(store, root, b),
        b.to_follow.len() == 0,
        reaches(store, root, a, k),
    ensures
        b.dag.dom().contains(a),
    decreases k,
{
    if k > 0 {
        let p = choose|p: Seq<u8>| #[trigger]
            child_of(store, p, a) && reaches(store, root, p, (k - 1) as nat);
        lemma_reached_is_held(store, root, b, p, (k - 1) as nat);
        assert(b.known.contains(store[p].spent_tx.hash));
        assert(children_held(store, b.dag, p));
        let j = choose|j: int|
            0 <= j < store[p].spent_tx.outputs.len() && content_name(
                #[trigger] store[p].spent_tx.outputs[j],
            ) == a;
        assert(b.dag.dom().contains(content_name(store[p].spent_tx.outputs[j])));
    }
}

/// Where finitely many spends can be reached from the root, the build is
/// done after as many generations as there are such spends, at the latest.
pub proof fn lemma_finite_reach_terminates(store: Map<Seq<u8>, SpendView>, root: Seq<u8>)
    requires
        faithful(store),
        reachable_set(store, root).finite(),
    ensures
        run(store, root, reachable_set(store, root).len()).to_follow.len() == 0,
{
    let all = reachable_set(store, root);
    let n = all.len();
    let b = run(store, root, n);
    lemma_run_inv(store, root, n);
    if b.to_follow.len() > 0 {
        let w = run(store, root, n + 1);
        lemma_run_inv(store, root, n + 1);
        assert(w.generation == n + 1);
        let hash_at = |a: Seq<u8>| store[a].spent_tx.hash;
        let image = w.dag.dom().map(hash_at);
        vstd::set_lib::lemma_map_size_bound(w.dag.dom(), image, hash_at);
        assert forall|h: Seq<u8>| w.known.contains(h) implies image.contains(h) by {
            assert(spent_hashes(w.dag).contains(h));
            let (a, i) = choose|a: Seq<u8>, i: int|
                w.dag.dom().contains(a) && 0 <= i < w.dag[a].len() && (
                #[trigger] w.dag[a][i]).spent_tx.hash == h;
            assert(w.dag[a] == seq![store[a]]);
            assert(w.dag.dom().contains(a) && h == hash_at(a));
        }
        vstd::set_lib::lemma_len_subset(w.known, image);
        assert(w.dag.dom().subset_of(all));
        vstd::set_lib::lemma_len_subset(w.dag.dom(), all);
    }
}

/// Whatever the store holds, the DAG of a build against it mirrors it, and
/// the build has applied as many generations as it was run for while it is
/// not done.
pub proof fn lemma_run_mirrors(store: Map<Seq<u8>, SpendView>, root: Seq<u8>, n: nat)
    ensures
        mirrors(store, run(store, root, n).dag),
        build_inv(run(store, root, n)),
        run(store, root, n).to_follow.len() > 0 ==> run(store, root, n).generation == n,
        run(store, root, n).root == run(store, root, 0).root,
    decreases n,
{
    if n == 0 {
        let b = run(store, root, 0);
        lemma_begun_inv(root, answer(store, root));
        if store.dom().contains(root) {
            assert(b.dag[root] =~= seq![store[root]]);
        }
    } else {
        let b = run(store, root, (n - 1) as nat);
        lemma_run_mirrors(store, root, (n - 1) as nat);
        if b.to_follow.len() > 0 {
            lemma_absorbed_answers(store, b.dag, batch_addresses(b.to_follow));
            lemma_stepped_inv(b, answers(store, batch_addresses(b.to_follow)));
        }
    }
}

/// A build whose DAG mirrors a store of finitely many spends knows no more
/// hashes than the store has spends.
pub proof fn lemma_known_bound(store: Map<Seq<u8>, SpendView>, b: BuildView)
    requires
        store.dom().finite(),
        mirrors(store, b.dag),
        build_inv(b),
    ensures
        b.known.len() <= store.dom().len(),
{
    let hash_at = |a: Seq<u8>| store[a].spent_tx.hash;
    let image = b.dag.dom().map(hash_at);
    vstd::set_lib::lemma_map_size_bound(b.dag.dom(), image, hash_at);
    assert forall|h: Seq<u8>| b.known.contains(h) implies image.contains(h) by {
        assert(spent_hashes(b.dag).contains(h));
        let (a, i) = choose|a: Seq<u8>, i: int|
            b.dag.dom().contains(a) && 0 <= i < b.dag[a].len() && (
            #[trigger] b.dag[a][i]).spent_tx.hash == h;
        assert(b.dag[a] == seq![store[a]]);
        assert(b.dag.dom().contains(a) && h == hash_at(a));
    }
    vstd::set_lib::lemma_len_subset(b.known, image);
    assert(b.dag.dom().subset_of(store.dom()));
    vstd::set_lib::lemma_len_subset(b.dag.dom(), store.dom());
}

/// A store of spends held in memory: at most one spend at an address.
pub struct MemoryStore {
    spends: SpendDag,
}

impl View for MemoryStore {
    type V = Map<Seq<u8>, SpendView>;

    closed spec fn view(&self) -> Map<Seq<u8>, SpendView> {
        Map::new(|a: Seq<u8>| self.spends@.dom().contains(a), |a: Seq<u8>| self.spends@[a][0])
    }
}

impl MemoryStore {
    /// The invariant of the store.
    pub closed spec fn wf(&self) -> bool {
        self.spends.wf()
    }

    /// A store of finitely many spends holds finitely many addresses.
    pub proof fn lemma_finite(&self)
        requires
            self.wf(),
        ensures
            self@.dom().finite(),
    {
        self.spends.lemma_well_formed();
        assert(self@.dom() =~= self.spends@.dom());
    }

    /// A store without a spend.
    pub fn new() -> (store: MemoryStore)
        ensures
            store.wf(),
            store@ == Map::<Seq<u8>, SpendView>::empty(),
    {
        let store = MemoryStore { spends: SpendDag::new() };
        assert(store@ =~= Map::<Seq<u8>, SpendView>::empty());
        store
    }

    /// How many spends the store holds.
    pub fn len(&self) -> (n: usize)
        requires
            self.wf(),
        ensures
            n == self@.dom().len(),
    {
        assert(self@.dom() =~= self.spends@.dom());
        self.spends.len()
    }

    /// Stores `spend` at `addr` unless the store has a spend there, and
    /// says whether it did.
    pub fn put(&mut self, addr: SpendAddress, spend: SignedSpend) -> (stored: bool)
        requires
            old(self).wf(),
        ensures
            final(self).wf(),
            stored == !old(self)@.dom().contains(addr@),
            final(self)@ == (if stored {
                old(self)@.insert(addr@, spend@)
            } else {
                old(self)@
            }),
    {
        if self.spends.contains(&addr) {
            return false;
        }
        let ghost before = self.spends@;
        let ghost held = spend@;
        self.spends.insert(addr, spend);
        proof {
            assert(self.spends@[addr@] =~= seq![held]);
            assert(self@ =~= old(self)@.insert(addr@, held));
        }
        true
    }

    /// What the store answers for `addr`: the spend that it holds there, or
    /// that none is there.
    pub fn get(&self, addr: &SpendAddress) -> (r: Result<SignedSpend, StoreError>)
        requires
            self.wf(),
        ensures
            result_view(r) == answer(self@, addr@),
    {
        proof {
            self.spends.lemma_well_formed();
        }
        match self.spends.get(addr) {
            Some(DagEntry::Spend(spend)) => {
                assert(self.spends@[addr@][0] == spend@);
                Ok(spend)
            },
            Some(DagEntry::DoubleSpend(spends)) => {
                assert(spends_view(spends@).len() > 0);
                let spend = spends[0].clone();
                assert(spends_view(spends@)[0] == spends@[0]@);
                Ok(spend)
            },
            None => Err(StoreError::Missing),
        }
    }

    /// What the store answers for each address of a batch, in order.
    pub fn get_all(&self, addrs: &Vec<SpendAddress>) -> (results: Vec<Result<SignedSpend, StoreError>>)
        requires
            self.wf(),
        ensures
            results_view(results@) == answers(self@, addresses_view(addrs@)),
    {
        let mut results: Vec<Result<SignedSpend, StoreError>> = Vec::new();
        let mut i: usize = 0;
        while i < addrs.len()
            invariant
                i <= addrs@.len(),
                self.wf(),
                results@.len() == i,
                forall|k: int|
                    0 <= k < i ==> result_view(#[trigger] results@[k]) == answer(
                        self@,
                        addrs@[k]@,
                    ),
            decreases addrs@.len() - i,
        {
            results.push(self.get(&addrs[i]));
            i += 1;
        }
        assert(results_view(results@) =~= answers(self@, addresses_view(addrs@)));
        results
    }

    /// Builds the DAG forward from `root` against this store, generation by
    /// generation, until no transaction is left to follow. The build is done
    /// after no more generations than the store has spends. Where a hash
    /// stands for one transaction in the store, the DAG holds exactly the
    /// spends that can be reached from the root, each as the store has it.
    pub fn build_from(&self, root: SpendAddress) -> (dag: SpendDag)
        requires
            self.wf(),
        ensures
            dag.wf(),
            exists|n: nat|
                n <= self@.dom().len() && (#[trigger] run(self@, root@, n)).to_follow.len() == 0
                    && dag@ == run(self@, root@, n).dag,
            dag.root_view() == run(self@, root@, 0).root,
            mirrors(self@, dag@),
            faithful(self@) ==> dag@.dom() == reachable_set(self@, root@),
    {
        let ghost store = self@;
        proof {
            self.lemma_finite();
            lemma_run_mirrors(store, root@, 0);
        }
        let first = self.get(&root);
        let mut build = match ForwardBuild::start(root, first) {
            Ok(build) => build,
            Err(_) => {
                assert(false);
                return SpendDag::new();
            },
        };
        let ghost g: nat = 0;
        proof {
            lemma_known_bound(store, build@);
        }
        while !build.is_done()
            invariant
                self.wf(),
                store == self@,
                store.dom().finite(),
                build.wf(),
                build@ == run(store, root@, g),
                build@.generation == g,
                build@.known.len() <= store.dom().len(),
            decreases store.dom().len() - build@.known.len(),
        {
            let ghost before = build@;
            let batch = build.batch();
            let results = self.get_all(&batch);
            proof {
                build.lemma_inv();
                assert(results@.len() == results_view(results@).len());
                lemma_stepped_inv(before, results_view(results@));
                lemma_run_mirrors(store, root@, g + 1);
                lemma_known_bound(store, run(store, root@, g + 1));
            }
            build.apply(results);
            proof {
                g = g + 1;
            }
        }
        proof {
            build.lemma_inv();
            lemma_run_mirrors(store, root@, g);
            assert(g <= store.dom().len());
            if faithful(store) {
                lemma_done_build_is_reachable_set(store, root@, g);
            }
        }
        build.finish()
    }
}

} // verus!
