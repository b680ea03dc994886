//! Extending the DAG backward: from a new spend up through its ancestors,
//! until each line of descent meets a spend that the DAG holds already or
//! Genesis, with every parent transaction verified on the way.
//!
//! The extend does no lookups and no cryptography itself. For the parent
//! transaction at hand it says which addresses it needs (`batch`), takes the
//! answers (`fetched`), hands out the spends to verify the transaction
//! against (`spends_to_verify`) and takes the verdict (`verified`).

use vstd::prelude::*;
use crate::dag::{
    inserted,
    is_double_spend,
    lemma_insert_monotonic,
    lemma_record_holds,
    position_of,
    record_all,
    root_after,
    spends_at,
    SpendDag,
};
use crate::error::{BuildError, VerifyFailure};
use crate::forward::{append_addresses, hashes, lemma_unseen, select_unseen, unseen};
use crate::keys::{addresses_view, digests_view, Digest, SpendAddress, UniquePubkey};
use crate::store::{results_view, StoreError};
use crate::transaction::{
    addresses_of,
    spends_view,
    txs_view,
    Genesis,
    GenesisView,
    SignedSpend,
    SpendView,
    Transaction,
    TxView,
};

verus! {

/// Where an extend stands.
#[derive(Clone, Copy, Debug, PartialEq, Eq, Structural)]
pub enum ExtendPhase {
    /// The spends of the inputs of the parent transaction at hand are wanted.
    Fetching,
    /// The verdict on the parent transaction at hand is wanted.
    Verifying,
    /// Every line of descent met a known spend or Genesis.
    Done,
    /// An ancestor could not be verified.
    Failed(BuildError),
}

/// One parent transaction that the extend has dealt with.
#[verifier::ext_equal]
pub struct CheckView {
    /// The transaction.
    pub tx: TxView,
    /// The addresses of its inputs.
    pub addrs: Seq<Seq<u8>>,
    /// The spends found at those addresses, in the same order.
    pub spends: Seq<SpendView>,
    /// Whether it was accepted as the genesis transaction, without a verdict.
    pub at_genesis: bool,
}

/// An extend as a mathematical value.
#[verifier::ext_equal]
pub struct ExtendView {
    /// The DAG as it stands.
    pub dag: Map<Seq<u8>, Seq<SpendView>>,
    /// The root of the DAG: the one it came with, else the address of the
    /// new spend.
    pub root: Option<Seq<u8>>,
    /// The genesis constant of the session.
    pub genesis: GenesisView,
    /// The parent transactions of the current depth.
    pub to_verify: Seq<TxView>,
    /// The index in `to_verify` of the transaction at hand.
    pub cursor: nat,
    /// While a verdict is wanted: the spends found for the transaction at
    /// hand, each with the address it was found at.
    pub awaiting: Seq<(Seq<u8>, SpendView)>,
    /// The parent transactions of the spends that were new, for the next depth.
    pub next: Seq<TxView>,
    /// The hashes of the transactions dealt with.
    pub verified: Set<Seq<u8>>,
    /// How many depths are completed.
    pub depth: nat,
    pub phase: ExtendPhase,
    /// The DAG as it was handed in.
    pub initial: Map<Seq<u8>, Seq<SpendView>>,
    /// The spends that the extend added to the DAG, oldest first.
    pub added: Seq<SpendView>,
    /// The transactions dealt with, oldest first.
    pub checks: Seq<CheckView>,
}

/// The first error among the answers, if there is one.
pub open spec fn first_failure(results: Seq<Result<SpendView, StoreError>>) -> Option<StoreError>
    decreases results.len(),
{
    if results.len() == 0 {
        None
    } else {
        match first_failure(results.drop_last()) {
            Some(e) => Some(e),
            None => match results.last() {
                Ok(_) => None,
                Err(e) => Some(e),
            },
        }
    }
}

/// What a failed lookup means for the extend.
pub open spec fn cause_of(e: StoreError) -> VerifyFailure {
    match e {
        StoreError::Missing => VerifyFailure::MissingSpend,
        StoreError::Transient => VerifyFailure::FetchFailed,
    }
}

/// Each address with the spend found there, for as many answers as there
/// are; a failed lookup has no pair.
pub open spec fn found_pairs(addrs: Seq<Seq<u8>>, results: Seq<Result<SpendView, StoreError>>) -> Seq<
    (Seq<u8>, SpendView),
>
    decreases results.len(),
{
    if results.len() == 0 {
        Seq::empty()
    } else {
        let front = found_pairs(addrs.drop_last(), results.drop_last());
        match results.last() {
            Ok(spend) => front.push((addrs.last(), spend)),
            Err(_) => front,
        }
    }
}

/// The spends of a sequence of pairs, in order.
pub open spec fn spends_of(pairs: Seq<(Seq<u8>, SpendView)>) -> Seq<SpendView> {
    Seq::new(pairs.len(), |i: int| pairs[i].1)
}

/// The addresses of a sequence of pairs, in order.
pub open spec fn addrs_of(pairs: Seq<(Seq<u8>, SpendView)>) -> Seq<Seq<u8>> {
    Seq::new(pairs.len(), |i: int| pairs[i].0)
}

/// The set of spends that a transaction is verified against: each spend once,
/// in the order in which it was first found.
pub open spec fn distinct(spends: Seq<SpendView>) -> Seq<SpendView> {
    record_all(Seq::empty(), spends)
}

/// Whether `tx` with these input spends is the end of a line of descent: it
/// is the genesis transaction, and its one input spend spends the genesis key.
pub open spec fn at_genesis(g: GenesisView, tx: TxView, spends: Seq<SpendView>) -> bool {
    &&& tx == g.src_tx
    &&& distinct(spends).len() == 1
    &&& forall|i: int| 0 <= i < spends.len() ==> (#[trigger] spends[i]).unique_pubkey == g.id
}

/// The DAG after each pair was checked and inserted, in order.
pub open spec fn inserted_all(m: Map<Seq<u8>, Seq<SpendView>>, pairs: Seq<(Seq<u8>, SpendView)>) -> Map<
    Seq<u8>,
    Seq<SpendView>,
>
    decreases pairs.len(),
{
    if pairs.len() == 0 {
        m
    } else {
        inserted(inserted_all(m, pairs.drop_last()), pairs.last().0, pairs.last().1)
    }
}

/// The spends among `pairs` that were new to the DAG at their turn, in order.
pub open spec fn new_spends(m: Map<Seq<u8>, Seq<SpendView>>, pairs: Seq<(Seq<u8>, SpendView)>) -> Seq<
    SpendView,
>
    decreases pairs.len(),
{
    if pairs.len() == 0 {
        Seq::empty()
    } else {
        let front = new_spends(m, pairs.drop_last());
        let before = inserted_all(m, pairs.drop_last());
        if spends_at(before, pairs.last().0).contains(pairs.last().1) {
            front
        } else {
            front.push(pairs.last().1)
        }
    }
}

/// The parent transactions of a sequence of spends, in order.
pub open spec fn parents_of(spends: Seq<SpendView>) -> Seq<TxView> {
    Seq::new(spends.len(), |i: int| spends[i].parent_tx)
}

/// The extend after the transaction at hand was dealt with: its hash is
/// verified, and the next transaction of the depth is at hand. After the last
/// one the next depth begins, with the parents gathered whose hash is not
/// verified; if there is none, the extend is done.
pub open spec fn advanced(v: ExtendView, check: CheckView) -> ExtendView {
    let verified = v.verified.insert(v.to_verify[v.cursor as int].hash);
    if v.cursor + 1 < v.to_verify.len() {
        ExtendView {
            cursor: v.cursor + 1,
            awaiting: Seq::empty(),
            verified,
            phase: ExtendPhase::Fetching,
            checks: v.checks.push(check),
            ..v
        }
    } else {
        let to_verify = unseen(v.next, verified);
        ExtendView {
            to_verify,
            cursor: 0,
            awaiting: Seq::empty(),
            next: Seq::empty(),
            verified,
            depth: v.depth + 1,
            phase: if to_verify.len() == 0 {
                ExtendPhase::Done
            } else {
                ExtendPhase::Fetching
            },
            checks: v.checks.push(check),
            ..v
        }
    }
}

/// The extend after the answers for the transaction at hand. One failed
/// lookup, missing or transient, fails the extend. The genesis transaction
/// with its one genesis spend is accepted as it is. For any other
/// transaction the verdict is wanted next.
pub open spec fn after_fetched(v: ExtendView, results: Seq<Result<SpendView, StoreError>>) -> ExtendView {
    if v.phase != ExtendPhase::Fetching {
        v
    } else {
        match first_failure(results) {
            Some(e) => ExtendView {
                phase: ExtendPhase::Failed(
                    BuildError::CouldNotVerifyTransfer {
                        depth: v.depth as usize,
                        cause: cause_of(e),
                    },
                ),
                ..v
            },
            None => {
                let tx = v.to_verify[v.cursor as int];
                let pairs = found_pairs(addresses_of(tx.inputs), results);
                if at_genesis(v.genesis, tx, spends_of(pairs)) {
                    advanced(
                        v,
                        CheckView {
                            tx,
                            addrs: addrs_of(pairs),
                            spends: spends_of(pairs),
                            at_genesis: true,
                        },
                    )
                } else {
                    ExtendView { awaiting: pairs, phase: ExtendPhase::Verifying, ..v }
                }
            },
        }
    }
}

/// The extend after the verdict on the transaction at hand. A transaction
/// that does not verify fails the extend. Otherwise each spend found is
/// checked and inserted at its address, and the parent of each that was new
/// is kept for the next depth.
pub open spec fn after_verified(v: ExtendView, valid: bool) -> ExtendView {
    if v.phase != ExtendPhase::Verifying {
        v
    } else if !valid {
        ExtendView {
            awaiting: Seq::empty(),
            phase: ExtendPhase::Failed(
                BuildError::CouldNotVerifyTransfer {
                    depth: v.depth as usize,
                    cause: VerifyFailure::InvalidTransaction,
                },
            ),
            ..v
        }
    } else {
        let fresh = new_spends(v.dag, v.awaiting);
        advanced(
            ExtendView {
                dag: inserted_all(v.dag, v.awaiting),
                next: v.next + parents_of(fresh),
                added: v.added + fresh,
                ..v
            },
            CheckView {
                tx: v.to_verify[v.cursor as int],
                addrs: addrs_of(v.awaiting),
                spends: spends_of(v.awaiting),
                at_genesis: false,
            },
        )
    }
}

/// The extend at its start: the new spend is checked and inserted. If the
/// DAG held it already there is nothing to do; else its parent transaction
/// is the first to verify.
pub open spec fn started(
    dag: Map<Seq<u8>, Seq<SpendView>>,
    root: Option<Seq<u8>>,
    genesis: GenesisView,
    addr: Seq<u8>,
    spend: SpendView,
) -> ExtendView {
    let is_new = !spends_at(dag, addr).contains(spend);
    ExtendView {
        dag: inserted(dag, addr, spend),
        root: root_after(root, addr),
        genesis,
        to_verify: if is_new {
            seq![spend.parent_tx]
        } else {
            Seq::empty()
        },
        cursor: 0,
        awaiting: Seq::empty(),
        next: Seq::empty(),
        verified: Set::empty(),
        depth: 0,
        phase: if is_new {
            ExtendPhase::Fetching
        } else {
            ExtendPhase::Done
        },
        initial: dag,
        added: if is_new {
            seq![spend]
        } else {
            Seq::empty()
        },
        checks: Seq::empty(),
    }
}

/// Whether the hash `h` is verified or still due: it is that of a
/// transaction of this depth that is not dealt with, or of one kept for the
/// next depth.
pub open spec fn verified_or_due(v: ExtendView, h: Seq<u8>) -> bool {
    ||| v.verified.contains(h)
    ||| exists|i: int| v.cursor <= i < v.to_verify.len() && (#[trigger] v.to_verify[i]).hash == h
    ||| hashes(v.next).contains(h)
}

/// What a transaction that was dealt with rests on: it was the genesis
/// transaction with its genesis spend, or it was verified against the spends
/// found at the addresses of its inputs, and the DAG holds each of them.
pub open spec fn check_holds(v: ExtendView, c: CheckView) -> bool {
    &&& c.addrs.len() == c.spends.len()
    &&& c.addrs == addresses_of(c.tx.inputs)
    &&& c.at_genesis ==> at_genesis(v.genesis, c.tx, c.spends)
    &&& !c.at_genesis ==> forall|j: int|
        0 <= j < c.spends.len() ==> spends_at(v.dag, c.addrs[j]).contains(#[trigger] c.spends[j])
}

/// What holds of every extend.
pub open spec fn extend_inv(v: ExtendView) -> bool {
    &&& v.root is Some
    &&& v.phase is Failed ==> v.phase->Failed_0 is CouldNotVerifyTransfer
    &&& hashes(v.to_verify).no_duplicates()
    &&& forall|i: int|
        0 <= i < v.to_verify.len() ==> (v.verified.contains((#[trigger] v.to_verify[i]).hash) <==> i
            < v.cursor)
    &&& v.verified.finite()
    &&& v.depth + v.cursor <= v.verified.len()
    &&& v.cursor <= v.to_verify.len()
    &&& (v.phase is Fetching || v.phase is Verifying) ==> v.cursor < v.to_verify.len()
    &&& v.phase is Done ==> v.to_verify.len() == 0 && v.next.len() == 0
    &&& !(v.phase is Verifying) ==> v.awaiting.len() == 0
    &&& v.phase is Verifying ==> addrs_of(v.awaiting) == addresses_of(
        v.to_verify[v.cursor as int].inputs,
    )
    &&& forall|a: Seq<u8>, s: SpendView| #[trigger]
        spends_at(v.dag, a).contains(s) ==> spends_at(v.initial, a).contains(s) || v.added.contains(s)
    &&& forall|k: int| 0 <= k < v.added.len() ==> verified_or_due(v, (#[trigger] v.added[k]).parent_tx.hash)
    &&& forall|h: Seq<u8>| #[trigger]
        v.verified.contains(h) ==> exists|c: int| 0 <= c < v.checks.len() && (#[trigger] v.checks[c]).tx.hash == h
    &&& forall|c: int| 0 <= c < v.checks.len() ==> check_holds(v, #[trigger] v.checks[c])
}

/// Each address with the spend found there, as mathematical values.
pub open spec fn pairs_view(addrs: Seq<SpendAddress>, spends: Seq<SignedSpend>) -> Seq<
    (Seq<u8>, SpendView),
> {
    Seq::new(spends.len(), |i: int| (addrs[i]@, spends[i]@))
}

/// An error among the first answers is the first error among all of them.
pub proof fn lemma_first_failure_stable(results: Seq<Result<SpendView, StoreError>>, n: int)
    requires
        0 <= n <= results.len(),
        first_failure(results.take(n)) is Some,
    ensures
        first_failure(results) == first_failure(results.take(n)),
    decreases results.len(),
{
    if n == results.len() {
        assert(results.take(n) =~= results);
    } else {
        assert(results.drop_last().take(n) =~= results.take(n));
        lemma_first_failure_stable(results.drop_last(), n);
    }
}

/// Where no lookup failed, each address has its pair.
pub proof fn lemma_found_pairs_complete(
    addrs: Seq<Seq<u8>>,
    results: Seq<Result<SpendView, StoreError>>,
)
    requires
        addrs.len() == results.len(),
        first_failure(results) is None,
    ensures
        addrs_of(found_pairs(addrs, results)) == addrs,
        found_pairs(addrs, results).len() == results.len(),
        forall|i: int| 0 <= i < results.len() ==> results[i] == Ok::<SpendView, StoreError>(
            #[trigger] found_pairs(addrs, results)[i].1,
        ),
    decreases results.len(),
{
    if results.len() == 0 {
        assert(addrs_of(found_pairs(addrs, results)) =~= addrs);
    } else {
        lemma_found_pairs_complete(addrs.drop_last(), results.drop_last());
        let front = found_pairs(addrs.drop_last(), results.drop_last());
        let all = found_pairs(addrs, results);
        assert(all =~= front.push((addrs.last(), results.last()->Ok_0)));
        assert forall|i: int| 0 <= i < addrs.len() implies addrs_of(all)[i] == addrs[i] by {
            if i < addrs.len() - 1 {
                assert(all[i] == front[i]);
                assert(addrs_of(front)[i] == addrs.drop_last()[i]);
            }
        }
        assert(addrs_of(all) =~= addrs);
        assert forall|i: int| 0 <= i < results.len() implies results[i] == Ok::<
            SpendView,
            StoreError,
        >(#[trigger] all[i].1) by {
            if i < results.len() - 1 {
                assert(all[i] == front[i]);
                assert(results.drop_last()[i] == results[i]);
            }
        }
    }
}

/// Inserting pairs takes nothing away and changes no other address.
pub proof fn lemma_inserted_all(m: Map<Seq<u8>, Seq<SpendView>>, pairs: Seq<(Seq<u8>, SpendView)>)
    ensures
        forall|a: Seq<u8>, s: SpendView| #[trigger]
            spends_at(m, a).contains(s) ==> spends_at(inserted_all(m, pairs), a).contains(s),
        forall|j: int|
            0 <= j < pairs.len() ==> spends_at(inserted_all(m, pairs), pairs[j].0).contains(
                #[trigger] pairs[j].1,
            ),
        forall|a: Seq<u8>, s: SpendView| #[trigger]
            spends_at(inserted_all(m, pairs), a).contains(s) ==> spends_at(m, a).contains(s)
                || new_spends(m, pairs).contains(s),
    decreases pairs.len(),
{
    if pairs.len() > 0 {
        let front = pairs.drop_last();
        let before = inserted_all(m, front);
        let (addr, spend) = pairs.last();
        let after = inserted_all(m, pairs);
        lemma_inserted_all(m, front);
        lemma_record_holds(spends_at(before, addr), spend);
        assert forall|a: Seq<u8>, s: SpendView| #[trigger]
            spends_at(m, a).contains(s) implies spends_at(after, a).contains(s) by {
            lemma_insert_monotonic(before, addr, spend, a);
        }
        assert forall|j: int| 0 <= j < pairs.len() implies spends_at(after, pairs[j].0).contains(
            #[trigger] pairs[j].1,
        ) by {
            if j < front.len() {
                assert(front[j] == pairs[j]);
                lemma_insert_monotonic(before, addr, spend, pairs[j].0);
            }
        }
        assert forall|a: Seq<u8>, s: SpendView| #[trigger]
            spends_at(after, a).contains(s) implies spends_at(m, a).contains(s) || new_spends(
            m,
            pairs,
        ).contains(s) by {
            let fresh = new_spends(m, pairs);
            let fresh_front = new_spends(m, front);
            if fresh_front.contains(s) {
                let k = choose|k: int| 0 <= k < fresh_front.len() && fresh_front[k] == s;
                assert(fresh[k] == s);
            }
            if a != addr {
                assert(spends_at(after, a) == spends_at(before, a));
                assert(spends_at(before, a).contains(s));
            }
            if a == addr && !spends_at(before, a).contains(s) {
                let held = spends_at(before, addr);
                let now = spends_at(after, a);
                let k = choose|k: int| 0 <= k < now.len() && now[k] == s;
                if k < held.len() {
                    assert(held[k] == s);
                }
                assert(s == spend);
                assert(fresh[fresh_front.len() as int] == s);
            }
        }
    }
}

/// The invariant does not depend on the phase and on what awaits a verdict
/// beyond what it says of them.
pub proof fn lemma_same_work_inv(v: ExtendView, w: ExtendView)
    requires
        extend_inv(v),
        w.dag == v.dag,
        w.root == v.root,
        w.phase is Failed ==> w.phase->Failed_0 is CouldNotVerifyTransfer,
        w.genesis == v.genesis,
        w.to_verify == v.to_verify,
        w.cursor == v.cursor,
        w.next == v.next,
        w.verified == v.verified,
        w.depth == v.depth,
        w.initial == v.initial,
        w.added == v.added,
        w.checks == v.checks,
        (w.phase is Fetching || w.phase is Verifying) ==> w.cursor < w.to_verify.len(),
        w.phase is Done ==> w.to_verify.len() == 0 && w.next.len() == 0,
        !(w.phase is Verifying) ==> w.awaiting.len() == 0,
        w.phase is Verifying ==> addrs_of(w.awaiting) == addresses_of(
            w.to_verify[w.cursor as int].inputs,
        ),
    ensures
        extend_inv(w),
{
    assert forall|k: int| 0 <= k < w.added.len() implies verified_or_due(
        w,
        (#[trigger] w.added[k]).parent_tx.hash,
    ) by {
        let x = v.added[k].parent_tx.hash;
        assert(verified_or_due(v, x));
        if v.verified.contains(x) {
        } else if exists|i: int|
            v.cursor <= i < v.to_verify.len() && (#[trigger] v.to_verify[i]).hash == x {
            let i = choose|i: int|
                v.cursor <= i < v.to_verify.len() && (#[trigger] v.to_verify[i]).hash == x;
            assert(w.cursor <= i < w.to_verify.len() && w.to_verify[i].hash == x);
        } else {
        }
    }
    assert forall|c: int| 0 <= c < w.checks.len() implies check_holds(w, #[trigger] w.checks[c]) by {
        assert(check_holds(v, v.checks[c]));
    }
}

/// The invariant is kept when the transaction at hand is dealt with.
pub proof fn lemma_advanced_inv(v: ExtendView, check: CheckView)
    requires
        extend_inv(v),
        v.phase is Fetching || v.phase is Verifying,
        check.tx == v.to_verify[v.cursor as int],
        check_holds(v, check),
    ensures
        extend_inv(advanced(v, check)),
        advanced(v, check).verified.len() == v.verified.len() + 1,
{
    let w = advanced(v, check);
    let h = v.to_verify[v.cursor as int].hash;
    assert(!v.verified.contains(h));
    assert(hashes(v.to_verify)[v.cursor as int] == h);
    assert forall|i: int| 0 <= i < v.to_verify.len() && i != v.cursor implies (
    #[trigger] v.to_verify[i]).hash != h by {
        assert(hashes(v.to_verify)[i] == v.to_verify[i].hash);
    }
    lemma_unseen(v.next, w.verified);
    assert forall|c: int| 0 <= c < w.checks.len() implies check_holds(w, #[trigger] w.checks[c]) by {
        if c < v.checks.len() {
            assert(w.checks[c] == v.checks[c]);
            assert(check_holds(v, v.checks[c]));
        }
    }
    assert forall|x: Seq<u8>| #[trigger] w.verified.contains(x) implies exists|c: int|
        0 <= c < w.checks.len() && (#[trigger] w.checks[c]).tx.hash == x by {
        if x == h {
            assert(w.checks[v.checks.len() as int].tx.hash == x);
        } else {
            let c = choose|c: int| 0 <= c < v.checks.len() && (#[trigger] v.checks[c]).tx.hash == x;
            assert(w.checks[c].tx.hash == x);
        }
    }
    assert forall|k: int| 0 <= k < w.added.len() implies verified_or_due(
        w,
        (#[trigger] w.added[k]).parent_tx.hash,
    ) by {
        let x = v.added[k].parent_tx.hash;
        assert(verified_or_due(v, x));
        if v.verified.contains(x) {
        } else if exists|i: int|
            v.cursor <= i < v.to_verify.len() && (#[trigger] v.to_verify[i]).hash == x {
            let i = choose|i: int|
                v.cursor <= i < v.to_verify.len() && (#[trigger] v.to_verify[i]).hash == x;
            if i == v.cursor {
            } else {
                assert(v.cursor + 1 < v.to_verify.len());
                assert(w.cursor <= i < w.to_verify.len() && w.to_verify[i].hash == x);
            }
        } else {
            if v.cursor + 1 < v.to_verify.len() {
            } else {
                let j = choose|j: int| 0 <= j < hashes(v.next).len() && hashes(v.next)[j] == x;
                assert(v.next[j].hash == x);
                if !w.verified.contains(x) {
                    let t = choose|t: int|
                        0 <= t < hashes(w.to_verify).len() && hashes(w.to_verify)[t] == x;
                    assert(w.cursor <= t < w.to_verify.len() && w.to_verify[t].hash == x);
                }
            }
        }
    }
}

/// The invariant is kept when the spends found for a verified transaction
/// are inserted.
pub proof fn lemma_inserted_inv(v: ExtendView)
    requires
        extend_inv(v),
        v.phase is Verifying,
    ensures
        extend_inv(
            ExtendView {
                dag: inserted_all(v.dag, v.awaiting),
                next: v.next + parents_of(new_spends(v.dag, v.awaiting)),
                added: v.added + new_spends(v.dag, v.awaiting),
                ..v
            },
        ),
        check_holds(
            ExtendView {
                dag: inserted_all(v.dag, v.awaiting),
                next: v.next + parents_of(new_spends(v.dag, v.awaiting)),
                added: v.added + new_spends(v.dag, v.awaiting),
                ..v
            },
            CheckView {
                tx: v.to_verify[v.cursor as int],
                addrs: addrs_of(v.awaiting),
                spends: spends_of(v.awaiting),
                at_genesis: false,
            },
        ),
{
    let fresh = new_spends(v.dag, v.awaiting);
    let w = ExtendView {
        dag: inserted_all(v.dag, v.awaiting),
        next: v.next + parents_of(fresh),
        added: v.added + fresh,
        ..v
    };
    lemma_inserted_all(v.dag, v.awaiting);
    assert forall|a: Seq<u8>, s: SpendView| #[trigger]
        spends_at(w.dag, a).contains(s) implies spends_at(w.initial, a).contains(s)
        || w.added.contains(s) by {
        if spends_at(v.dag, a).contains(s) {
            if v.added.contains(s) {
                let k = choose|k: int| 0 <= k < v.added.len() && v.added[k] == s;
                assert(w.added[k] == s);
            }
        } else {
            let k = choose|k: int| 0 <= k < fresh.len() && fresh[k] == s;
            assert(w.added[v.added.len() + k] == s);
        }
    }
    assert forall|k: int| 0 <= k < w.added.len() implies verified_or_due(
        w,
        (#[trigger] w.added[k]).parent_tx.hash,
    ) by {
        let x = w.added[k].parent_tx.hash;
        assert(w.next.len() == v.next.len() + fresh.len());
        if k < v.added.len() {
            assert(w.added[k] == v.added[k]);
            assert(verified_or_due(v, x));
            if v.verified.contains(x) {
            } else if exists|i: int|
                v.cursor <= i < v.to_verify.len() && (#[trigger] v.to_verify[i]).hash == x {
                let i = choose|i: int|
                    v.cursor <= i < v.to_verify.len() && (#[trigger] v.to_verify[i]).hash == x;
                assert(w.cursor <= i < w.to_verify.len() && w.to_verify[i].hash == x);
            } else {
                let j = choose|j: int| 0 <= j < hashes(v.next).len() && hashes(v.next)[j] == x;
                assert(w.next[j] == v.next[j]);
                assert(hashes(w.next)[j] == x);
            }
        } else {
            let j = k - v.added.len();
            assert(w.added[k] == fresh[j]);
            assert(w.next[v.next.len() + j] == parents_of(fresh)[j]);
            assert(hashes(w.next)[v.next.len() + j] == x);
        }
    }
    assert forall|c: int| 0 <= c < w.checks.len() implies check_holds(w, #[trigger] w.checks[c]) by {
        assert(check_holds(v, v.checks[c]));
    }
    let check = CheckView {
        tx: v.to_verify[v.cursor as int],
        addrs: addrs_of(v.awaiting),
        spends: spends_of(v.awaiting),
        at_genesis: false,
    };
    assert forall|j: int| 0 <= j < check.spends.len() implies spends_at(
        w.dag,
        check.addrs[j],
    ).contains(#[trigger] check.spends[j]) by {
        assert(check.spends[j] == v.awaiting[j].1);
        assert(check.addrs[j] == v.awaiting[j].0);
    }
}

/// Whether the parent transaction of `spend` was dealt with, by its hash,
/// and rests on what `check_holds` says.
pub open spec fn parent_verified(v: ExtendView, spend: SpendView) -> bool {
    exists|c: int|
        0 <= c < v.checks.len() && (#[trigger] v.checks[c]).tx.hash == spend.parent_tx.hash
            && check_holds(v, v.checks[c])
}

/// Every spend that a finished extend added has a parent transaction that
/// was dealt with: one that was verified against spends which the DAG holds,
/// each spend new or known before, or the genesis transaction with the
/// genesis spend. And every spend that the DAG holds beyond those it began
/// with was added in this way.
pub proof fn lemma_ancestry_verified(v: ExtendView)
    requires
        extend_inv(v),
        v.phase is Done,
    ensures
        forall|k: int| 0 <= k < v.added.len() ==> parent_verified(v, #[trigger] v.added[k]),
        forall|a: Seq<u8>, s: SpendView| #[trigger]
            spends_at(v.dag, a).contains(s) ==> spends_at(v.initial, a).contains(s)
                || v.added.contains(s),
{
    assert forall|k: int| 0 <= k < v.added.len() implies parent_verified(
        v,
        #[trigger] v.added[k],
    ) by {
        let x = v.added[k].parent_tx.hash;
        assert(verified_or_due(v, x));
        assert(hashes(v.next).len() == 0);
        assert(v.verified.contains(x));
        let c = choose|c: int| 0 <= c < v.checks.len() && (#[trigger] v.checks[c]).tx.hash == x;
        assert(check_holds(v, v.checks[c]));
    }
}

/// Whether `check` is the one that dealt with the parent transaction of
/// `spend`, by its hash.
pub open spec fn is_parent_check(v: ExtendView, spend: SpendView, c: int) -> bool {
    0 <= c < v.checks.len() && v.checks[c].tx.hash == spend.parent_tx.hash
}

/// Whether a line of descent ends at `spend`: the DAG held it before the
/// extend, or its parent transaction was accepted as the genesis transaction.
pub open spec fn is_settled(v: ExtendView, spend: SpendView) -> bool {
    ||| exists|a: Seq<u8>| #[trigger] spends_at(v.initial, a).contains(spend)
    ||| exists|c: int| is_parent_check(v, spend, c) && (#[trigger] v.checks[c]).at_genesis
}

/// Whether `parent` is one of the spends that the parent transaction of
/// `spend` was verified against.
pub open spec fn rests_on(v: ExtendView, spend: SpendView, parent: SpendView) -> bool {
    exists|c: int, j: int|
        is_parent_check(v, spend, c) && !v.checks[c].at_genesis && 0 <= j
            < v.checks[c].spends.len() && #[trigger] v.checks[c].spends[j] == parent
}

/// Whether a path of at most `n` verified parent transactions leads from
/// `spend` to a spend that the DAG held before, or to Genesis.
pub open spec fn leads_home(v: ExtendView, spend: SpendView, n: nat) -> bool
    decreases n,
{
    is_settled(v, spend) || (n > 0 && exists|parent: SpendView| #[trigger]
        rests_on(v, spend, parent) && leads_home(v, parent, (n - 1) as nat))
}

/// Whether `line` is a line of spends that the extend added, none of them
/// settled, each resting on the next.
pub open spec fn is_open_line(v: ExtendView, line: Seq<SpendView>) -> bool {
    &&& line.len() > 0
    &&& forall|i: int|
        0 <= i < line.len() ==> v.added.contains(#[trigger] line[i]) && !is_settled(v, line[i])
    &&& forall|i: int| 0 <= i < line.len() - 1 ==> rests_on(v, #[trigger] line[i], line[i + 1])
}

/// Whether a line of unsettled spends that begins at `spend` returns to a
/// spend that it has passed: the spends verify each other in a circle.
pub open spec fn circles_from(v: ExtendView, spend: SpendView) -> bool {
    exists|line: Seq<SpendView>| #[trigger]
        is_open_line(v, line) && line[0] == spend && !line.no_duplicates()
}

/// An open line without a circle is no longer than the spends added, and
/// its end leads home.
pub proof fn lemma_open_line_ends(v: ExtendView, line: Seq<SpendView>) -> (n: nat)
    requires
        extend_inv(v),
        v.phase is Done,
        forall|c: int|
            0 <= c < v.checks.len() && !(#[trigger] v.checks[c]).at_genesis
                ==> v.checks[c].spends.len() > 0,
        is_open_line(v, line),
        !circles_from(v, line[0]),
    ensures
        leads_home(v, line.last(), n),
    decreases v.added.len() - line.len(),
{
    assert(line.no_duplicates());
    line.unique_seq_to_set();
    vstd::seq_lib::seq_to_set_is_finite(v.added);
    assert(line.to_set().subset_of(v.added.to_set())) by {
        assert forall|x: SpendView| line.to_set().contains(x) implies v.added.to_set().contains(
            x,
        ) by {
            let k = choose|k: int| 0 <= k < line.len() && line[k] == x;
            assert(v.added.contains(line[k]));
        }
    }
    vstd::set_lib::lemma_len_subset(line.to_set(), v.added.to_set());
    v.added.lemma_cardinality_of_set();
    let spend = line.last();
    assert(v.added.contains(spend));
    let k = choose|k: int| 0 <= k < v.added.len() && v.added[k] == spend;
    lemma_ancestry_verified(v);
    assert(parent_verified(v, v.added[k]));
    let c = choose|c: int|
        0 <= c < v.checks.len() && (#[trigger] v.checks[c]).tx.hash == spend.parent_tx.hash
            && check_holds(v, v.checks[c]);
    assert(is_parent_check(v, spend, c));
    assert(!v.checks[c].at_genesis);
    let parent = v.checks[c].spends[0];
    assert(rests_on(v, spend, parent));
    assert(spends_at(v.dag, v.checks[c].addrs[0]).contains(parent));
    if is_settled(v, parent) {
        assert(leads_home(v, parent, 0));
        1
    } else {
        assert(v.added.contains(parent));
        let longer = line.push(parent);
        assert forall|i: int| 0 <= i < longer.len() implies v.added.contains(#[trigger] longer[i])
            && !is_settled(v, longer[i]) by {
            if i < line.len() {
                assert(longer[i] == line[i]);
            }
        }
        assert forall|i: int| 0 <= i < longer.len() - 1 implies rests_on(
            v,
            #[trigger] longer[i],
            longer[i + 1],
        ) by {
            if i < line.len() - 1 {
                assert(rests_on(v, line[i], line[i + 1]));
            }
        }
        assert(is_open_line(v, longer) && longer[0] == line[0]);
        if line.len() >= v.added.len() {
            assert(!longer.no_duplicates()) by {
                if longer.no_duplicates() {
                    longer.unique_seq_to_set();
                    assert(longer.to_set().subset_of(v.added.to_set())) by {
                        assert forall|x: SpendView|
                            longer.to_set().contains(x) implies v.added.to_set().contains(x) by {
                            let i = choose|i: int| 0 <= i < longer.len() && longer[i] == x;
                            assert(v.added.contains(longer[i]));
                        }
                    }
                    vstd::set_lib::lemma_len_subset(longer.to_set(), v.added.to_set());
                }
            }
        }
        assert(longer.no_duplicates());
        let n = lemma_open_line_ends(v, longer);
        assert(longer.last() == parent);
        n + 1
    }
}

/// A finished extend leaves a path of verified parent transactions from the
/// new spend to a spend that the DAG held before, or to Genesis, if every
/// transaction that was verified has an input spend and the spends that the
/// extend added do not verify each other in a circle.
pub proof fn lemma_path_to_known_or_genesis(v: ExtendView)
    requires
        extend_inv(v),
        v.phase is Done,
        v.added.len() > 0,
        forall|c: int|
            0 <= c < v.checks.len() && !(#[trigger] v.checks[c]).at_genesis
                ==> v.checks[c].spends.len() > 0,
        !circles_from(v, v.added[0]),
    ensures
        exists|n: nat| leads_home(v, v.added[0], n),
{
    let spend = v.added[0];
    if is_settled(v, spend) {
        assert(leads_home(v, spend, 0));
    } else {
        let line = seq![spend];
        assert(v.added.contains(v.added[0]));
        assert(is_open_line(v, line));
        let n = lemma_open_line_ends(v, line);
        assert(leads_home(v, spend, n));
    }
}

/// What an extend is told: the answers to a batch, or the verdict on a
/// transaction.
pub enum ExtendEvent {
    Fetched(Seq<Result<SpendView, StoreError>>),
    Verified(bool),
}

/// The extend after it was told `event`.
pub open spec fn after_event(v: ExtendView, event: ExtendEvent) -> ExtendView {
    match event {
        ExtendEvent::Fetched(results) => after_fetched(v, results),
        ExtendEvent::Verified(valid) => after_verified(v, valid),
    }
}

/// The extend after it was told each of `events`, in order.
pub open spec fn after_events(v: ExtendView, events: Seq<ExtendEvent>) -> ExtendView
    decreases events.len(),
{
    if events.len() == 0 {
        v
    } else {
        after_event(after_events(v, events.drop_last()), events.last())
    }
}

/// Whatever an extend is told, its DAG keeps every spend that it holds.
pub proof fn lemma_events_keep_spends(v: ExtendView, events: Seq<ExtendEvent>)
    ensures
        forall|a: Seq<u8>, s: SpendView| #[trigger]
            spends_at(v.dag, a).contains(s) ==> spends_at(after_events(v, events).dag, a).contains(
                s,
            ),
        forall|a: Seq<u8>|
            is_double_spend(v.dag, a) ==> #[trigger] is_double_spend(
                after_events(v, events).dag,
                a,
            ),
    decreases events.len(),
{
    if events.len() > 0 {
        let before = after_events(v, events.drop_last());
        let after = after_events(v, events);
        lemma_events_keep_spends(v, events.drop_last());
        lemma_inserted_all(before.dag, before.awaiting);
        assert(after.dag == before.dag || after.dag == inserted_all(before.dag, before.awaiting));
        assert forall|a: Seq<u8>, s: SpendView| #[trigger]
            spends_at(v.dag, a).contains(s) implies spends_at(after.dag, a).contains(s) by {
            assert(spends_at(before.dag, a).contains(s));
        }
        assert forall|a: Seq<u8>| is_double_spend(v.dag, a) implies #[trigger] is_double_spend(
            after.dag,
            a,
        ) by {
            assert(is_double_spend(before.dag, a));
            lemma_inserted_all_grows(before.dag, before.awaiting, a);
        }
    }
}

/// Inserting pairs makes no address hold fewer spends.
pub proof fn lemma_inserted_all_grows(
    m: Map<Seq<u8>, Seq<SpendView>>,
    pairs: Seq<(Seq<u8>, SpendView)>,
    a: Seq<u8>,
)
    ensures
        spends_at(inserted_all(m, pairs), a).len() >= spends_at(m, a).len(),
    decreases pairs.len(),
{
    if pairs.len() > 0 {
        lemma_inserted_all_grows(m, pairs.drop_last(), a);
        let before = inserted_all(m, pairs.drop_last());
        lemma_record_holds(spends_at(before, pairs.last().0), pairs.last().1);
    }
}

/// A new spend at an address that holds another leaves a double spend
/// there, with both spends, whatever the extend is told afterwards and
/// however it ends.
pub proof fn lemma_extend_marks_double_spend(
    dag: Map<Seq<u8>, Seq<SpendView>>,
    root: Option<Seq<u8>>,
    genesis: GenesisView,
    addr: Seq<u8>,
    held: SpendView,
    new_spend: SpendView,
    events: Seq<ExtendEvent>,
)
    requires
        spends_at(dag, addr).contains(held),
        held != new_spend,
    ensures
        spends_at(after_events(started(dag, root, genesis, addr, new_spend), events).dag, addr).contains(
            held,
        ),
        spends_at(after_events(started(dag, root, genesis, addr, new_spend), events).dag, addr).contains(
            new_spend,
        ),
        is_double_spend(after_events(started(dag, root, genesis, addr, new_spend), events).dag, addr),
{
    let v = started(dag, root, genesis, addr, new_spend);
    lemma_record_holds(spends_at(dag, addr), new_spend);
    let both = spends_at(v.dag, addr);
    assert(both.contains(held) && both.contains(new_spend));
    let i = choose|i: int| 0 <= i < both.len() && both[i] == held;
    let j = choose|j: int| 0 <= j < both.len() && both[j] == new_spend;
    assert(i != j);
    assert(is_double_spend(v.dag, addr));
    lemma_events_keep_spends(v, events);
}

/// The spends of `spends`, each once, in the order in which it first stands.
pub fn dedup_spends(spends: &Vec<SignedSpend>) -> (once: Vec<SignedSpend>)
    ensures
        spends_view(once@) == distinct(spends_view(spends@)),
{
    let ghost all = spends_view(spends@);
    let mut once: Vec<SignedSpend> = Vec::new();
    let mut i: usize = 0;
    assert(spends_view(once@) =~= distinct(all.take(0)));
    while i < spends.len()
        invariant
            i <= spends.len(),
            all == spends_view(spends@),
            spends_view(once@) == distinct(all.take(i as int)),
        decreases spends.len() - i,
    {
        let ghost held = spends_view(once@);
        let seen = position_of(&once, &spends[i]);
        if seen.is_none() {
            once.push(spends[i].clone());
        }
        proof {
            assert(all.take(i + 1).drop_last() =~= all.take(i as int));
            assert(all.take(i + 1).last() == spends@[i as int]@);
            if seen is None {
                assert(spends_view(once@) =~= held.push(spends@[i as int]@));
            } else {
                assert(held[seen->Some_0 as int] == spends@[i as int]@);
                assert(spends_view(once@) =~= held);
            }
        }
        i += 1;
    }
    assert(all.take(i as int) =~= all);
    once
}

/// Whether every spend of `spends` spends the key `key`.
pub fn all_spend_key(spends: &Vec<SignedSpend>, key: &UniquePubkey) -> (b: bool)
    ensures
        b == (forall|i: int|
            0 <= i < spends_view(spends@).len() ==> (#[trigger] spends_view(
                spends@,
            )[i]).unique_pubkey == key@),
{
    let mut i: usize = 0;
    while i < spends.len()
        invariant
            i <= spends.len(),
            forall|j: int| 0 <= j < i ==> spends@[j]@.unique_pubkey == key@,
        decreases spends.len() - i,
    {
        if spends[i].unique_pubkey != *key {
            assert(spends_view(spends@)[i as int].unique_pubkey != key@);
            return false;
        }
        i += 1;
    }
    assert forall|j: int| 0 <= j < spends_view(spends@).len() implies (#[trigger] spends_view(
        spends@,
    )[j]).unique_pubkey == key@ by {
        assert(spends_view(spends@)[j] == spends@[j]@);
    }
    true
}

/// What a failed lookup means for the extend.
pub fn failure_cause(e: StoreError) -> (cause: VerifyFailure)
    ensures
        cause == cause_of(e),
{
    match e {
        StoreError::Missing => VerifyFailure::MissingSpend,
        StoreError::Transient => VerifyFailure::FetchFailed,
    }
}

/// A backward extend in progress. It holds the DAG until it is finished.
pub struct BackwardExtend {
    dag: SpendDag,
    genesis: Genesis,
    to_verify: Vec<Transaction>,
    cursor: usize,
    awaiting_addrs: Vec<SpendAddress>,
    awaiting_spends: Vec<SignedSpend>,
    next: Vec<Transaction>,
    verified: Vec<Digest>,
    depth: usize,
    phase: ExtendPhase,
    initial: Ghost<Map<Seq<u8>, Seq<SpendView>>>,
    added: Ghost<Seq<SpendView>>,
    checks: Ghost<Seq<CheckView>>,
}

impl View for BackwardExtend {
    type V = ExtendView;

    closed spec fn view(&self) -> ExtendView {
        ExtendView {
            dag: self.dag@,
            root: self.dag.root_view(),
            genesis: self.genesis@,
            to_verify: txs_view(self.to_verify@),
            cursor: self.cursor as nat,
            awaiting: pairs_view(self.awaiting_addrs@, self.awaiting_spends@),
            next: txs_view(self.next@),
            verified: digests_view(self.verified@).to_set(),
            depth: self.depth as nat,
            phase: self.phase,
            initial: self.initial@,
            added: self.added@,
            checks: self.checks@,
        }
    }
}

impl BackwardExtend {
    /// The invariant of an extend.
    pub closed spec fn wf(&self) -> bool {
        &&& self.dag.wf()
        &&& digests_view(self.verified@).no_duplicates()
        &&& self.awaiting_addrs@.len() == self.awaiting_spends@.len()
        &&& extend_inv(self@)
    }

    /// What holds of the view of every extend.
    pub proof fn lemma_inv(&self)
        requires
            self.wf(),
        ensures
            extend_inv(self@),
    {
    }

    /// Begins an extend of `dag` with `new_spend`, seen at `addr`.
    pub fn start(dag: SpendDag, genesis: Genesis, addr: SpendAddress, new_spend: SignedSpend) -> (extend:
        BackwardExtend)
        requires
            dag.wf(),
        ensures
            extend.wf(),
            extend@ == started(dag@, dag.root_view(), genesis@, addr@, new_spend@),
    {
        let ghost initial = dag@;
        let ghost initial_root = dag.root_view();
        let ghost spend = new_spend@;
        let parent = new_spend.parent_tx.clone();
        let mut dag = dag;
        let is_new = dag.check_and_insert(addr, new_spend);
        let mut to_verify: Vec<Transaction> = Vec::new();
        if is_new {
            to_verify.push(parent);
        }
        let extend = BackwardExtend {
            dag,
            genesis,
            to_verify,
            cursor: 0,
            awaiting_addrs: Vec::new(),
            awaiting_spends: Vec::new(),
            next: Vec::new(),
            verified: Vec::new(),
            depth: 0,
            phase: if is_new {
                ExtendPhase::Fetching
            } else {
                ExtendPhase::Done
            },
            initial: Ghost(initial),
            added: Ghost(
                if is_new {
                    seq![spend]
                } else {
                    Seq::empty()
                },
            ),
            checks: Ghost(Seq::empty()),
        };
        proof {
            let v = extend@;
            let w = started(initial, initial_root, genesis@, addr@, spend);
            assert(v.to_verify =~= w.to_verify);
            assert(v.awaiting =~= w.awaiting);
            assert(v.next =~= w.next);
            assert(v.verified =~= w.verified);
            assert(v =~= w);
            lemma_record_holds(spends_at(initial, addr@), spend);
            assert forall|a: Seq<u8>, s: SpendView| #[trigger]
                spends_at(v.dag, a).contains(s) implies spends_at(v.initial, a).contains(s)
                || v.added.contains(s) by {
                if a == addr@ && !spends_at(initial, a).contains(s) {
                    let held = spends_at(initial, a);
                    let now = spends_at(v.dag, a);
                    let k = choose|k: int| 0 <= k < now.len() && now[k] == s;
                    if k < held.len() {
                        assert(held[k] == s);
                    }
                    assert(s == spend);
                    assert(v.added[0] == s);
                }
            }
            assert forall|k: int| 0 <= k < v.added.len() implies verified_or_due(
                v,
                (#[trigger] v.added[k]).parent_tx.hash,
            ) by {
                assert(v.to_verify[0].hash == spend.parent_tx.hash);
            }
        }
        extend
    }

    /// Where the extend stands.
    pub fn phase(&self) -> (phase: ExtendPhase)
        ensures
            phase == self@.phase,
    {
        self.phase
    }

    /// How many depths are completed.
    pub fn depth(&self) -> (depth: usize)
        ensures
            depth == self@.depth,
    {
        self.depth
    }

    /// The parent transaction at hand, while there is one.
    pub fn current(&self) -> (tx: Option<Transaction>)
        requires
            self.wf(),
        ensures
            match tx {
                Some(tx) => (self@.phase is Fetching || self@.phase is Verifying) && tx@
                    == self@.to_verify[self@.cursor as int],
                None => !(self@.phase is Fetching || self@.phase is Verifying),
            },
    {
        match self.phase {
            ExtendPhase::Fetching | ExtendPhase::Verifying => Some(
                self.to_verify[self.cursor].clone(),
            ),
            _ => None,
        }
    }

    /// The addresses to look up next, as one batch: those of the inputs of
    /// the parent transaction at hand while its spends are wanted, none
    /// otherwise.
    pub fn batch(&self) -> (addrs: Vec<SpendAddress>)
        requires
            self.wf(),
        ensures
            addresses_view(addrs@) == (if self@.phase is Fetching {
                addresses_of(self@.to_verify[self@.cursor as int].inputs)
            } else {
                Seq::empty()
            }),
    {
        let mut addrs: Vec<SpendAddress> = Vec::new();
        match self.phase {
            ExtendPhase::Fetching => {
                assert(addresses_view(addrs@) =~= Seq::<Seq<u8>>::empty());
                append_addresses(&mut addrs, &self.to_verify[self.cursor].inputs);
                assert(addresses_view(addrs@) =~= addresses_of(
                    self@.to_verify[self@.cursor as int].inputs,
                ));
            },
            _ => {
                assert(addresses_view(addrs@) =~= Seq::<Seq<u8>>::empty());
            },
        }
        addrs
    }

    /// The spends to verify the parent transaction at hand against, each
    /// once, while the verdict is wanted; none otherwise.
    pub fn spends_to_verify(&self) -> (spends: Vec<SignedSpend>)
        requires
            self.wf(),
        ensures
            spends_view(spends@) == distinct(spends_of(self@.awaiting)),
    {
        let spends = dedup_spends(&self.awaiting_spends);
        assert(spends_view(self.awaiting_spends@) =~= spends_of(self@.awaiting));
        spends
    }

    fn advance(&mut self, Ghost(check): Ghost<CheckView>)
        requires
            old(self).wf(),
            old(self)@.phase is Fetching || old(self)@.phase is Verifying,
            check.tx == old(self)@.to_verify[old(self)@.cursor as int],
            check_holds(old(self)@, check),
        ensures
            final(self).wf(),
            final(self)@ == advanced(old(self)@, check),
    {
        let ghost v = self@;
        let ghost held = digests_view(self.verified@);
        let hash = self.to_verify[self.cursor].hash;
        proof {
            lemma_advanced_inv(v, check);
            held.unique_seq_to_set();
            assert(!held.contains(hash@));
        }
        self.verified.push(hash);
        proof {
            let now = digests_view(self.verified@);
            assert(now =~= held.push(hash@));
            assert forall|x: int, y: int|
                0 <= x < now.len() && 0 <= y < now.len() && x != y implies now[x] != now[y] by {
                if x < held.len() {
                    assert(held.contains(held[x]));
                }
                if y < held.len() {
                    assert(held.contains(held[y]));
                }
            }
            assert(now.to_set() =~= v.verified.insert(hash@)) by {
                assert forall|h: Seq<u8>| now.to_set().contains(h) <==> v.verified.insert(
                    hash@,
                ).contains(h) by {
                    if now.contains(h) {
                        let k = choose|k: int| 0 <= k < now.len() && now[k] == h;
                        if k < held.len() {
                            assert(held[k] == h);
                        }
                    }
                    if held.contains(h) {
                        let k = choose|k: int| 0 <= k < held.len() && held[k] == h;
                        assert(now[k] == h);
                    }
                    if h == hash@ {
                        assert(now[held.len() as int] == h);
                    }
                }
            }
            now.unique_seq_to_set();
            assert(self.depth + self.cursor < self.verified.len());
        }
        self.checks = Ghost(self.checks@.push(check));
        self.awaiting_addrs = Vec::new();
        self.awaiting_spends = Vec::new();
        if self.cursor + 1 < self.to_verify.len() {
            self.cursor += 1;
            self.phase = ExtendPhase::Fetching;
        } else {
            self.to_verify = select_unseen(&self.next, &self.verified);
            self.next = Vec::new();
            self.cursor = 0;
            self.depth += 1;
            self.phase = if self.to_verify.len() == 0 {
                ExtendPhase::Done
            } else {
                ExtendPhase::Fetching
            };
        }
        proof {
            let w = advanced(v, check);
            assert(self@.awaiting =~= w.awaiting);
            assert(self@.next =~= w.next);
            assert(self@.to_verify =~= w.to_verify);
            assert(self@ =~= w);
        }
    }

    /// Takes the answers to the batch of the parent transaction at hand, in
    /// the order of `batch`. One failed lookup, missing or transient, fails
    /// the extend. The genesis transaction whose one input spend spends the
    /// genesis key ends its line of descent: it is taken as verified, and its
    /// spend is not inserted. For any other transaction the verdict is wanted
    /// next. An extend that wants no answers stays as it is.
    pub fn fetched(&mut self, results: Vec<Result<SignedSpend, StoreError>>)
        requires
            old(self).wf(),
            old(self)@.phase is Fetching ==> results@.len() == old(self)@.to_verify[old(
                self,
            )@.cursor as int].inputs.len(),
        ensures
            final(self).wf(),
            final(self)@ == after_fetched(old(self)@, results_view(results@)),
    {
        match self.phase {
            ExtendPhase::Fetching => {},
            _ => {
                return ;
            },
        }
        let ghost v = self@;
        let ghost answers = results_view(results@);
        let ghost wanted = addresses_of(v.to_verify[v.cursor as int].inputs);
        let addrs = self.batch();
        assert(addrs@.len() == addresses_view(addrs@).len());
        let mut spends: Vec<SignedSpend> = Vec::new();
        let mut i: usize = 0;
        assert(pairs_view(addrs@, spends@) =~= found_pairs(wanted.take(0), answers.take(0)));
        while i < results.len()
            invariant
                i <= results@.len(),
                addrs@.len() == results@.len(),
                addresses_view(addrs@) == wanted,
                answers == results_view(results@),
                spends@.len() == i,
                first_failure(answers.take(i as int)) is None,
                pairs_view(addrs@, spends@) == found_pairs(
                    wanted.take(i as int),
                    answers.take(i as int),
                ),
                *self == *old(self),
                self@ == v,
                self.wf(),
                v.phase is Fetching,
            decreases results@.len() - i,
        {
            proof {
                assert(wanted.take(i + 1).drop_last() =~= wanted.take(i as int));
                assert(answers.take(i + 1).drop_last() =~= answers.take(i as int));
                assert(wanted.take(i + 1).last() == addrs@[i as int]@);
                assert(answers.take(i + 1).last() == answers[i as int]);
            }
            match &results[i] {
                Ok(spend) => {
                    let ghost held = pairs_view(addrs@, spends@);
                    spends.push(spend.clone());
                    assert(pairs_view(addrs@, spends@) =~= held.push((addrs@[i as int]@, spend@)));
                },
                Err(e) => {
                    proof {
                        assert(first_failure(answers.take(i + 1)) == Some(*e));
                        lemma_first_failure_stable(answers, i + 1);
                    }
                    self.phase = ExtendPhase::Failed(
                        BuildError::CouldNotVerifyTransfer {
                            depth: self.depth,
                            cause: failure_cause(*e),
                        },
                    );
                    proof {
                        assert(self@ =~= after_fetched(v, answers));
                        lemma_same_work_inv(v, self@);
                    }
                    return ;
                },
            }
            i += 1;
        }
        proof {
            assert(wanted.take(i as int) =~= wanted);
            assert(answers.take(i as int) =~= answers);
            lemma_found_pairs_complete(wanted, answers);
        }
        let ghost pairs = found_pairs(wanted, answers);
        assert(spends_view(spends@) =~= spends_of(pairs));
        let once = dedup_spends(&spends);
        let genesis_reached = self.to_verify[self.cursor] == self.genesis.src_tx && once.len() == 1
            && all_spend_key(&spends, &self.genesis.id);
        if genesis_reached {
            self.advance(
                Ghost(
                    CheckView {
                        tx: v.to_verify[v.cursor as int],
                        addrs: addrs_of(pairs),
                        spends: spends_of(pairs),
                        at_genesis: true,
                    },
                ),
            );
        } else {
            self.awaiting_addrs = addrs;
            self.awaiting_spends = spends;
            self.phase = ExtendPhase::Verifying;
            proof {
                assert(self@.awaiting =~= pairs);
                assert(self@ =~= after_fetched(v, answers));
                lemma_same_work_inv(v, self@);
            }
        }
    }

    /// Takes the verdict on the parent transaction at hand: whether it
    /// verifies against `spends_to_verify`. A transaction that does not
    /// verify fails the extend. Otherwise each spend found is checked and
    /// inserted at the address it was found at, and the parent transaction of
    /// each spend that was new is kept for the next depth. An extend that
    /// wants no verdict stays as it is.
    pub fn verified(&mut self, valid: bool)
        requires
            old(self).wf(),
        ensures
            final(self).wf(),
            final(self)@ == after_verified(old(self)@, valid),
    {
        match self.phase {
            ExtendPhase::Verifying => {},
            _ => {
                return ;
            },
        }
        let ghost v = self@;
        if !valid {
            self.awaiting_addrs = Vec::new();
            self.awaiting_spends = Vec::new();
            self.phase = ExtendPhase::Failed(
                BuildError::CouldNotVerifyTransfer {
                    depth: self.depth,
                    cause: VerifyFailure::InvalidTransaction,
                },
            );
            proof {
                assert(self@.awaiting =~= Seq::<(Seq<u8>, SpendView)>::empty());
                assert(self@ =~= after_verified(v, valid));
                lemma_same_work_inv(v, self@);
            }
            return ;
        }
        let mut j: usize = 0;
        assert(txs_view(self.next@) =~= v.next + parents_of(new_spends(v.dag, v.awaiting.take(0))));
        while j < self.awaiting_spends.len()
            invariant
                j <= self.awaiting_spends@.len(),
                self.awaiting_addrs@.len() == self.awaiting_spends@.len(),
                v.awaiting == pairs_view(self.awaiting_addrs@, self.awaiting_spends@),
                self.dag.wf(),
                v.root is Some,
                self.dag.root_view() == v.root,
                self.dag@ == inserted_all(v.dag, v.awaiting.take(j as int)),
                txs_view(self.next@) == v.next + parents_of(
                    new_spends(v.dag, v.awaiting.take(j as int)),
                ),
                self.genesis == old(self).genesis,
                self.to_verify == old(self).to_verify,
                self.cursor == old(self).cursor,
                self.awaiting_addrs == old(self).awaiting_addrs,
                self.awaiting_spends == old(self).awaiting_spends,
                self.verified == old(self).verified,
                self.depth == old(self).depth,
                self.phase == old(self).phase,
                self.initial == old(self).initial,
                self.added == old(self).added,
                self.checks == old(self).checks,
            decreases self.awaiting_spends@.len() - j,
        {
            let ghost held = txs_view(self.next@);
            let ghost fresh = new_spends(v.dag, v.awaiting.take(j as int));
            let spend = self.awaiting_spends[j].clone();
            let parent = spend.parent_tx.clone();
            let is_new = self.dag.check_and_insert(self.awaiting_addrs[j], spend);
            if is_new {
                self.next.push(parent);
            }
            proof {
                let upto = v.awaiting.take(j + 1);
                assert(upto.drop_last() =~= v.awaiting.take(j as int));
                assert(upto.last() == v.awaiting[j as int]);
                let fresh2 = new_spends(v.dag, upto);
                if is_new {
                    assert(fresh2 =~= fresh.push(v.awaiting[j as int].1));
                    assert(txs_view(self.next@) =~= held.push(v.awaiting[j as int].1.parent_tx));
                    assert(parents_of(fresh2) =~= parents_of(fresh).push(
                        v.awaiting[j as int].1.parent_tx,
                    ));
                } else {
                    assert(fresh2 =~= fresh);
                    assert(txs_view(self.next@) =~= held);
                }
                assert(txs_view(self.next@) =~= v.next + parents_of(fresh2));
            }
            j += 1;
        }
        proof {
            assert(v.awaiting.take(j as int) =~= v.awaiting);
        }
        self.added = Ghost(v.added + new_spends(v.dag, v.awaiting));
        proof {
            lemma_inserted_inv(v);
            let mid = ExtendView {
                dag: inserted_all(v.dag, v.awaiting),
                next: v.next + parents_of(new_spends(v.dag, v.awaiting)),
                added: v.added + new_spends(v.dag, v.awaiting),
                ..v
            };
            assert(self@ =~= mid);
        }
        self.advance(
            Ghost(
                CheckView {
                    tx: v.to_verify[v.cursor as int],
                    addrs: addrs_of(v.awaiting),
                    spends: spends_of(v.awaiting),
                    at_genesis: false,
                },
            ),
        );
    }

    /// The DAG as the extend leaves it, and how the extend ended: `Ok` when
    /// it is done, the failure when it failed. An extend that is given up
    /// half-way leaves the chain unverified.
    pub fn finish(self) -> (r: (SpendDag, Result<(), BuildError>))
        requires
            self.wf(),
        ensures
            r.0.wf(),
            r.0@ == self@.dag,
            r.0.root_view() == self@.root,
            r.1 == (match self@.phase {
                ExtendPhase::Done => Ok::<(), BuildError>(()),
                ExtendPhase::Failed(e) => Err::<(), BuildError>(e),
                _ => Err::<(), BuildError>(
                    BuildError::CouldNotVerifyTransfer {
                        depth: self@.depth as usize,
                        cause: VerifyFailure::Incomplete,
                    },
                ),
            }),
    {
        let outcome = match self.phase {
            ExtendPhase::Done => Ok(()),
            ExtendPhase::Failed(e) => Err(e),
            _ => Err(
                BuildError::CouldNotVerifyTransfer {
                    depth: self.depth,
                    cause: VerifyFailure::Incomplete,
                },
            ),
        };
        (self.dag, outcome)
    }
}

} // verus!
