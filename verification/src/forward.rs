//! Building the DAG forward: from a root spend down to the unspent outputs,
//! one generation of transactions at a time.
//!
//! The build does no lookups itself. It says which addresses the current
//! generation needs (`batch`), takes the answers to all of them at once
//! (`apply`), and is done when no transaction is left to follow.

use vstd::prelude::*;
use crate::dag::{inserted, lemma_record_holds, spends_at, SpendDag};
use crate::error::BuildError;
use crate::keys::{addresses_view, digests_view, Digest, SpendAddress, UniquePubkey, keys_view};
use crate::store::{result_view, results_view, StoreError};
use crate::transaction::{addresses_of, txs_view, SignedSpend, SpendView, Transaction, TxView};

verus! {

/// The hashes of a sequence of transactions, in order.
pub open spec fn hashes(txs: Seq<TxView>) -> Seq<Seq<u8>> {
    Seq::new(txs.len(), |i: int| txs[i].hash)
}

/// The addresses that a generation looks up: for each transaction in turn,
/// the address of each of its outputs.
pub open spec fn batch_addresses(txs: Seq<TxView>) -> Seq<Seq<u8>>
    decreases txs.len(),
{
    if txs.len() == 0 {
        Seq::empty()
    } else {
        batch_addresses(txs.drop_last()) + addresses_of(txs.last().outputs)
    }
}

/// The DAG `m` after the answers `results` to the lookups of `addrs`: each
/// spend that was found is inserted at its address, in order.
pub open spec fn absorbed(
    m: Map<Seq<u8>, Seq<SpendView>>,
    addrs: Seq<Seq<u8>>,
    results: Seq<Result<SpendView, StoreError>>,
) -> Map<Seq<u8>, Seq<SpendView>>
    decreases results.len(),
{
    if results.len() == 0 {
        m
    } else {
        let before = absorbed(m, addrs.drop_last(), results.drop_last());
        match results.last() {
            Ok(spend) => inserted(before, addrs.last(), spend),
            Err(_) => before,
        }
    }
}

/// The transactions that the found spends spent, in order.
pub open spec fn found_txs(results: Seq<Result<SpendView, StoreError>>) -> Seq<TxView>
    decreases results.len(),
{
    if results.len() == 0 {
        Seq::empty()
    } else {
        match results.last() {
            Ok(spend) => found_txs(results.drop_last()).push(spend.spent_tx),
            Err(_) => found_txs(results.drop_last()),
        }
    }
}

/// Those of `txs` whose hash is not in `known`, each hash once: of two
/// transactions with one hash the first stays.
pub open spec fn unseen(txs: Seq<TxView>, known: Set<Seq<u8>>) -> Seq<TxView>
    decreases txs.len(),
{
    if txs.len() == 0 {
        Seq::empty()
    } else {
        let front = unseen(txs.drop_last(), known);
        let tx = txs.last();
        if known.contains(tx.hash) || hashes(front).contains(tx.hash) {
            front
        } else {
            front.push(tx)
        }
    }
}

/// A forward build as a mathematical value.
#[verifier::ext_equal]
pub struct BuildView {
    /// The spends gathered so far.
    pub dag: Map<Seq<u8>, Seq<SpendView>>,
    /// The root of the DAG: the address that the build began at, once the
    /// DAG holds its spend.
    pub root: Option<Seq<u8>>,
    /// The transactions of the current generation.
    pub to_follow: Seq<TxView>,
    /// The hashes of the transactions of the generations before.
    pub known: Set<Seq<u8>>,
    /// How many generations were applied.
    pub generation: nat,
}

/// The build after one generation: the answers are absorbed, the hashes of
/// the generation become known, and the next generation is made of the
/// transactions found whose hash is not known.
pub open spec fn stepped(b: BuildView, results: Seq<Result<SpendView, StoreError>>) -> BuildView {
    let known = b.known.union(hashes(b.to_follow).to_set());
    BuildView {
        dag: absorbed(b.dag, batch_addresses(b.to_follow), results),
        root: b.root,
        to_follow: unseen(found_txs(results), known),
        known,
        generation: b.generation + 1,
    }
}

/// The build at its start, from the store's answer for the root. A spend
/// becomes the first entry of the DAG and its spent transaction the first
/// generation. A missing spend means that the root is unspent: there is
/// nothing to follow. A failed lookup gives no build.
pub open spec fn begun(root: Seq<u8>, first: Result<SpendView, StoreError>) -> Option<BuildView> {
    match first {
        Ok(spend) => Some(
            BuildView {
                dag: inserted(Map::empty(), root, spend),
                root: Some(root),
                to_follow: seq![spend.spent_tx],
                known: Set::empty(),
                generation: 0,
            },
        ),
        Err(StoreError::Missing) => Some(
            BuildView {
                dag: Map::empty(),
                root: None,
                to_follow: Seq::empty(),
                known: Set::empty(),
                generation: 0,
            },
        ),
        Err(StoreError::Transient) => None,
    }
}

/// The hashes of the transactions that the spends of `m` spent.
pub open spec fn spent_hashes(m: Map<Seq<u8>, Seq<SpendView>>) -> Set<Seq<u8>> {
    Set::new(
        |h: Seq<u8>|
            exists|addr: Seq<u8>, i: int|
                m.dom().contains(addr) && 0 <= i < m[addr].len() && (#[trigger] m[addr][i]).spent_tx.hash
                    == h,
    )
}

/// What holds of every build: no hash is followed twice, and every
/// transaction that was or is followed was spent by a spend of the DAG.
pub open spec fn build_inv(b: BuildView) -> bool {
    &&& hashes(b.to_follow).no_duplicates()
    &&& forall|i: int| 0 <= i < b.to_follow.len() ==> !b.known.contains(#[trigger] b.to_follow[i].hash)
    &&& b.dag.dom().finite()
    &&& b.to_follow.len() > 0 ==> b.root is Some
    &&& b.known.finite()
    &&& b.generation <= b.known.len()
    &&& b.known.subset_of(spent_hashes(b.dag))
    &&& hashes(b.to_follow).to_set().subset_of(spent_hashes(b.dag))
}

/// Inserting a spend keeps every spent hash and adds that of the spend.
pub proof fn lemma_inserted_spent_hashes(
    m: Map<Seq<u8>, Seq<SpendView>>,
    addr: Seq<u8>,
    spend: SpendView,
)
    ensures
        spent_hashes(m).subset_of(spent_hashes(inserted(m, addr, spend))),
        spent_hashes(inserted(m, addr, spend)).contains(spend.spent_tx.hash),
{
    let after = inserted(m, addr, spend);
    let held = spends_at(m, addr);
    lemma_record_holds(held, spend);
    assert forall|h: Seq<u8>| spent_hashes(m).contains(h) implies spent_hashes(after).contains(
        h,
    ) by {
        let (a, i) = choose|a: Seq<u8>, i: int|
            m.dom().contains(a) && 0 <= i < m[a].len() && (#[trigger] m[a][i]).spent_tx.hash == h;
        if a == addr {
            assert(after[a][i] == m[a][i]);
        } else {
            assert(after[a][i] == m[a][i]);
        }
        assert(after.dom().contains(a) && 0 <= i < after[a].len() && after[a][i].spent_tx.hash
            == h);
    }
    let k = choose|k: int| 0 <= k < after[addr].len() && after[addr][k] == spend;
    assert(after.dom().contains(addr) && 0 <= k < after[addr].len() && after[addr][k].spent_tx.hash
        == spend.spent_tx.hash);
}

/// Absorbing a batch keeps every spent hash and adds those of the
/// transactions found.
pub proof fn lemma_absorbed_spent_hashes(
    m: Map<Seq<u8>, Seq<SpendView>>,
    addrs: Seq<Seq<u8>>,
    results: Seq<Result<SpendView, StoreError>>,
)
    ensures
        spent_hashes(m).subset_of(spent_hashes(absorbed(m, addrs, results))),
        hashes(found_txs(results)).to_set().subset_of(spent_hashes(absorbed(m, addrs, results))),
        m.dom().finite() ==> absorbed(m, addrs, results).dom().finite(),
    decreases results.len(),
{
    if results.len() == 0 {
        assert(hashes(found_txs(results)).to_set() =~= Set::<Seq<u8>>::empty());
    } else {
        let before = absorbed(m, addrs.drop_last(), results.drop_last());
        lemma_absorbed_spent_hashes(m, addrs.drop_last(), results.drop_last());
        let front = found_txs(results.drop_last());
        match results.last() {
            Ok(spend) => {
                lemma_inserted_spent_hashes(before, addrs.last(), spend);
                let after = inserted(before, addrs.last(), spend);
                assert forall|h: Seq<u8>|
                    hashes(found_txs(results)).to_set().contains(h) implies spent_hashes(
                    after,
                ).contains(h) by {
                    let all = hashes(found_txs(results));
                    let k = choose|k: int| 0 <= k < all.len() && all[k] == h;
                    if k < front.len() {
                        assert(hashes(front)[k] == h);
                        assert(hashes(front).to_set().contains(h));
                    }
                }
            },
            Err(_) => {},
        }
    }
}

/// The next generation holds no hash twice and none that is known, and each
/// of its transactions is one of those found.
pub proof fn lemma_unseen(txs: Seq<TxView>, known: Set<Seq<u8>>)
    ensures
        hashes(unseen(txs, known)).no_duplicates(),
        forall|i: int|
            0 <= i < unseen(txs, known).len() ==> !known.contains(
                (#[trigger] unseen(txs, known)[i]).hash,
            ),
        hashes(unseen(txs, known)).to_set().subset_of(hashes(txs).to_set()),
        forall|i: int|
            0 <= i < txs.len() ==> known.contains((#[trigger] txs[i]).hash) || hashes(
                unseen(txs, known),
            ).contains(txs[i].hash),
    decreases txs.len(),
{
    let next = unseen(txs, known);
    if txs.len() == 0 {
        assert(hashes(next).to_set() =~= Set::<Seq<u8>>::empty());
    } else {
        let front = unseen(txs.drop_last(), known);
        let tx = txs.last();
        lemma_unseen(txs.drop_last(), known);
        assert forall|h: Seq<u8>| hashes(front).to_set().contains(h) implies hashes(
            txs,
        ).to_set().contains(h) by {
            assert(hashes(txs.drop_last()).to_set().contains(h));
            let k = choose|k: int|
                0 <= k < hashes(txs.drop_last()).len() && hashes(txs.drop_last())[k] == h;
            assert(hashes(txs)[k] == h);
        }
        assert(hashes(txs)[txs.len() - 1] == tx.hash);
        if known.contains(tx.hash) || hashes(front).contains(tx.hash) {
            assert forall|i: int| 0 <= i < txs.len() implies known.contains(
                (#[trigger] txs[i]).hash,
            ) || hashes(next).contains(txs[i].hash) by {
                if i < txs.len() - 1 {
                    assert(txs.drop_last()[i] == txs[i]);
                }
            }
        } else {
            assert(hashes(next) =~= hashes(front).push(tx.hash));
            assert forall|x: int, y: int|
                0 <= x < hashes(next).len() && 0 <= y < hashes(next).len() && x
                    != y implies hashes(next)[x] != hashes(next)[y] by {
                if x < front.len() {
                    assert(hashes(front).contains(hashes(front)[x]));
                }
                if y < front.len() {
                    assert(hashes(front).contains(hashes(front)[y]));
                }
            }
            assert forall|i: int| 0 <= i < next.len() implies !known.contains(
                (#[trigger] next[i]).hash,
            ) by {
                if i < front.len() {
                    assert(next[i] == front[i]);
                }
            }
            assert forall|h: Seq<u8>| hashes(next).to_set().contains(h) implies hashes(
                txs,
            ).to_set().contains(h) by {
                let k = choose|k: int| 0 <= k < hashes(next).len() && hashes(next)[k] == h;
                if k < front.len() {
                    assert(hashes(front)[k] == h);
                    assert(hashes(front).to_set().contains(h));
                }
            }
            assert forall|i: int| 0 <= i < txs.len() implies known.contains(
                (#[trigger] txs[i]).hash,
            ) || hashes(next).contains(txs[i].hash) by {
                if i < txs.len() - 1 {
                    assert(txs.drop_last()[i] == txs[i]);
                    if hashes(front).contains(txs[i].hash) {
                        let k = choose|k: int|
                            0 <= k < hashes(front).len() && hashes(front)[k] == txs[i].hash;
                        assert(hashes(next)[k] == txs[i].hash);
                    }
                } else {
                    assert(hashes(next)[front.len() as int] == tx.hash);
                }
            }
        }
    }
}

/// A build satisfies its invariant from the start.
pub proof fn lemma_begun_inv(root: Seq<u8>, first: Result<SpendView, StoreError>)
    requires
        begun(root, first) is Some,
    ensures
        build_inv(begun(root, first)->Some_0),
{
    let b = begun(root, first)->Some_0;
    match first {
        Ok(spend) => {
            assert(hashes(b.to_follow)[0] == spend.spent_tx.hash);
            assert(b.dag[root] =~= seq![spend]);
            assert(b.dag.dom().contains(root) && b.dag[root][0].spent_tx.hash
                == spend.spent_tx.hash);
            assert(spent_hashes(b.dag).contains(spend.spent_tx.hash));
            assert forall|h: Seq<u8>| hashes(b.to_follow).to_set().contains(h) implies spent_hashes(
                b.dag,
            ).contains(h) by {
                let k = choose|k: int| 0 <= k < hashes(b.to_follow).len() && hashes(b.to_follow)[k]
                    == h;
                assert(k == 0);
            }
        },
        Err(_) => {
            assert(hashes(b.to_follow).to_set() =~= Set::<Seq<u8>>::empty());
        },
    }
}

/// A generation that is not empty makes at least one more hash known, and
/// leaves the build's invariant in place.
pub proof fn lemma_stepped_inv(b: BuildView, results: Seq<Result<SpendView, StoreError>>)
    requires
        build_inv(b),
        b.to_follow.len() > 0,
        results.len() == batch_addresses(b.to_follow).len(),
    ensures
        build_inv(stepped(b, results)),
        stepped(b, results).known.len() == b.known.len() + b.to_follow.len(),
{
    let after = stepped(b, results);
    let followed = hashes(b.to_follow);
    lemma_unseen(found_txs(results), after.known);
    vstd::seq_lib::seq_to_set_is_finite(followed);
    followed.unique_seq_to_set();
    assert(b.known.disjoint(followed.to_set())) by {
        assert forall|h: Seq<u8>| !(b.known.contains(h) && followed.to_set().contains(h)) by {
            if followed.contains(h) {
                let k = choose|k: int| 0 <= k < followed.len() && followed[k] == h;
                assert(b.to_follow[k].hash == h);
            }
        }
    }
    vstd::set_lib::lemma_set_disjoint_lens(b.known, followed.to_set());
    lemma_absorbed_spent_hashes(b.dag, batch_addresses(b.to_follow), results);
}

/// The generations are kept apart: which hashes are known after a generation
/// does not depend on the answers to that generation, so nothing that is
/// learnt while a generation is fetched makes a hash known before the whole
/// generation is in. What is known after the next generation depends on the
/// answers to this one alone.
pub proof fn lemma_generation_barrier(
    b: BuildView,
    answers: Seq<Result<SpendView, StoreError>>,
    others: Seq<Result<SpendView, StoreError>>,
    next_answers: Seq<Result<SpendView, StoreError>>,
    next_others: Seq<Result<SpendView, StoreError>>,
)
    ensures
        stepped(b, answers).known == stepped(b, others).known,
        stepped(b, answers).known == b.known.union(hashes(b.to_follow).to_set()),
        stepped(stepped(b, answers), next_answers).known == stepped(
            stepped(b, answers),
            next_others,
        ).known,
{
}

/// Appends the address of each key to `addrs`, in order.
pub fn append_addresses(addrs: &mut Vec<SpendAddress>, keys: &Vec<UniquePubkey>)
    ensures
        addresses_view(final(addrs)@) == addresses_view(old(addrs)@) + addresses_of(
            keys_view(keys@),
        ),
{
    let ghost before = addresses_view(addrs@);
    let ghost more = addresses_of(keys_view(keys@));
    let mut i: usize = 0;
    assert(addresses_view(addrs@) =~= before + more.take(0));
    while i < keys.len()
        invariant
            i <= keys.len(),
            more == addresses_of(keys_view(keys@)),
            addresses_view(addrs@) == before + more.take(i as int),
        decreases keys.len() - i,
    {
        let ghost held = addresses_view(addrs@);
        let addr = SpendAddress::from_unique_pubkey(&keys[i]);
        addrs.push(addr);
        proof {
            assert(keys_view(keys@)[i as int] == keys@[i as int]@);
            assert(more[i as int] == addr@);
            assert(addresses_view(addrs@) =~= held.push(addr@));
            assert(more.take(i + 1) =~= more.take(i as int).push(addr@));
            assert(addresses_view(addrs@) =~= before + more.take(i + 1));
        }
        i += 1;
    }
    assert(more.take(i as int) =~= more);
}

/// Whether a digest with the bytes of `digest` stands in `digests`.
pub fn contains_digest(digests: &Vec<Digest>, digest: &Digest) -> (b: bool)
    ensures
        b == digests_view(digests@).contains(digest@),
{
    let mut i: usize = 0;
    while i < digests.len()
        invariant
            i <= digests.len(),
            forall|j: int| 0 <= j < i ==> digests@[j]@ != digest@,
        decreases digests.len() - i,
    {
        if digests[i] == *digest {
            assert(digests_view(digests@)[i as int] == digest@);
            return true;
        }
        i += 1;
    }
    assert forall|j: int| 0 <= j < digests_view(digests@).len() implies digests_view(digests@)[j]
        != digest@ by {
        assert(digests_view(digests@)[j] == digests@[j]@);
    }
    false
}

/// Whether a transaction with the hash `hash` stands in `txs`.
pub fn contains_hash(txs: &Vec<Transaction>, hash: &Digest) -> (b: bool)
    ensures
        b == hashes(txs_view(txs@)).contains(hash@),
{
    let mut i: usize = 0;
    while i < txs.len()
        invariant
            i <= txs.len(),
            forall|j: int| 0 <= j < i ==> txs@[j]@.hash != hash@,
        decreases txs.len() - i,
    {
        if txs[i].hash == *hash {
            assert(hashes(txs_view(txs@))[i as int] == hash@);
            return true;
        }
        i += 1;
    }
    assert forall|j: int| 0 <= j < hashes(txs_view(txs@)).len() implies hashes(txs_view(txs@))[j]
        != hash@ by {
        assert(hashes(txs_view(txs@))[j] == txs@[j]@.hash);
    }
    false
}

/// Adds to `known` the hash of each transaction of `txs` that it does not
/// hold yet.
pub fn learn_hashes(known: &mut Vec<Digest>, txs: &Vec<Transaction>)
    requires
        digests_view(old(known)@).no_duplicates(),
    ensures
        digests_view(final(known)@).no_duplicates(),
        digests_view(final(known)@).to_set() == digests_view(old(known)@).to_set().union(
            hashes(txs_view(txs@)).to_set(),
        ),
{
    let ghost before = digests_view(known@).to_set();
    let ghost all = hashes(txs_view(txs@));
    let mut i: usize = 0;
    assert(all.take(0).to_set() =~= Set::<Seq<u8>>::empty());
    assert(before.union(all.take(0).to_set()) =~= before);
    while i < txs.len()
        invariant
            i <= txs.len(),
            all == hashes(txs_view(txs@)),
            digests_view(known@).no_duplicates(),
            digests_view(known@).to_set() == before.union(all.take(i as int).to_set()),
        decreases txs.len() - i,
    {
        let ghost held = digests_view(known@);
        let hash = txs[i].hash;
        let fresh = !contains_digest(known, &hash);
        if fresh {
            known.push(hash);
        }
        proof {
            let now = digests_view(known@);
            let done = all.take(i as int);
            let next = all.take(i + 1);
            assert(next =~= done.push(hash@));
            if fresh {
                assert(now =~= held.push(hash@));
                assert forall|x: int, y: int|
                    0 <= x < now.len() && 0 <= y < now.len() && x != y implies now[x] != now[y] by {
                    if x < held.len() {
                        assert(held.contains(held[x]));
                    }
                    if y < held.len() {
                        assert(held.contains(held[y]));
                    }
                }
            } else {
                assert(now =~= held);
            }
            assert forall|h: Seq<u8>| now.to_set().contains(h) <==> before.union(
                next.to_set(),
            ).contains(h) by {
                if now.contains(h) {
                    let k = choose|k: int| 0 <= k < now.len() && now[k] == h;
                    if k < held.len() {
                        assert(held[k] == h);
                        assert(held.to_set().contains(h));
                        if done.contains(h) {
                            let d = choose|d: int| 0 <= d < done.len() && done[d] == h;
                            assert(next[d] == h);
                        }
                    } else {
                        assert(next[i as int] == h);
                    }
                }
                if before.contains(h) {
                    assert(held.to_set().contains(h));
                    let k = choose|k: int| 0 <= k < held.len() && held[k] == h;
                    assert(now[k] == h);
                }
                if next.contains(h) {
                    let d = choose|d: int| 0 <= d < next.len() && next[d] == h;
                    if d < done.len() {
                        assert(done[d] == h);
                        assert(done.to_set().contains(h));
                        assert(held.to_set().contains(h));
                        let k = choose|k: int| 0 <= k < held.len() && held[k] == h;
                        assert(now[k] == h);
                    } else {
                        assert(h == hash@);
                        if fresh {
                            assert(now[held.len() as int] == h);
                        } else {
                            assert(held.contains(h));
                        }
                    }
                }
            }
            assert(now.to_set() =~= before.union(next.to_set()));
        }
        i += 1;
    }
    assert(all.take(i as int) =~= all);
}

/// The next generation: those of `txs` whose hash `known` does not hold,
/// each hash once.
pub fn select_unseen(txs: &Vec<Transaction>, known: &Vec<Digest>) -> (next: Vec<Transaction>)
    ensures
        txs_view(next@) == unseen(txs_view(txs@), digests_view(known@).to_set()),
{
    let ghost all = txs_view(txs@);
    let ghost known_set = digests_view(known@).to_set();
    let mut next: Vec<Transaction> = Vec::new();
    let mut i: usize = 0;
    assert(txs_view(next@) =~= unseen(all.take(0), known_set));
    while i < txs.len()
        invariant
            i <= txs.len(),
            all == txs_view(txs@),
            known_set == digests_view(known@).to_set(),
            txs_view(next@) == unseen(all.take(i as int), known_set),
        decreases txs.len() - i,
    {
        let ghost front = txs_view(next@);
        let hash = txs[i].hash;
        let skip = contains_digest(known, &hash) || contains_hash(&next, &hash);
        if !skip {
            next.push(txs[i].clone());
        }
        proof {
            let done = all.take(i as int);
            let upto = all.take(i + 1);
            assert(upto.drop_last() =~= done);
            assert(upto.last() == txs@[i as int]@);
            if !skip {
                assert(txs_view(next@) =~= front.push(txs@[i as int]@));
            } else {
                assert(txs_view(next@) =~= front);
            }
        }
        i += 1;
    }
    assert(all.take(i as int) =~= all);
    next
}

/// A forward build in progress.
pub struct ForwardBuild {
    dag: SpendDag,
    to_follow: Vec<Transaction>,
    known: Vec<Digest>,
    generation: usize,
}

impl View for ForwardBuild {
    type V = BuildView;

    closed spec fn view(&self) -> BuildView {
        BuildView {
            dag: self.dag@,
            root: self.dag.root_view(),
            to_follow: txs_view(self.to_follow@),
            known: digests_view(self.known@).to_set(),
            generation: self.generation as nat,
        }
    }
}

impl ForwardBuild {
    /// The invariant of a build.
    pub closed spec fn wf(&self) -> bool {
        &&& self.dag.wf()
        &&& digests_view(self.known@).no_duplicates()
        &&& build_inv(self@)
    }

    /// What holds of the view of every build.
    pub proof fn lemma_inv(&self)
        requires
            self.wf(),
        ensures
            build_inv(self@),
    {
    }

    /// Begins a build at `root` with the store's answer for `root`. A spend
    /// becomes the first entry of the DAG and its spent transaction the first
    /// generation. A missing spend means that the root is unspent: the build
    /// is done at once, with an empty DAG. A failed lookup fails the build.
    pub fn start(root: SpendAddress, first: Result<SignedSpend, StoreError>) -> (r: Result<
        ForwardBuild,
        BuildError,
    >)
        ensures
            match begun(root@, result_view(first)) {
                Some(b) => r is Ok && r->Ok_0.wf() && r->Ok_0@ == b,
                None => r == Err::<ForwardBuild, BuildError>(BuildError::FailedToGetSpend),
            },
    {
        proof {
            if begun(root@, result_view(first)) is Some {
                lemma_begun_inv(root@, result_view(first));
            }
        }
        match first {
            Ok(spend) => {
                let mut dag = SpendDag::new();
                let mut to_follow: Vec<Transaction> = Vec::new();
                to_follow.push(spend.spent_tx.clone());
                let ghost held = spend@;
                dag.insert(root, spend);
                let build = ForwardBuild { dag, to_follow, known: Vec::new(), generation: 0 };
                proof {
                    assert(build@.to_follow =~= seq![held.spent_tx]);
                    assert(build@.known =~= Set::<Seq<u8>>::empty());
                    assert(build@ =~= begun(root@, Ok(held))->Some_0);
                }
                Ok(build)
            },
            Err(StoreError::Missing) => {
                let build = ForwardBuild {
                    dag: SpendDag::new(),
                    to_follow: Vec::new(),
                    known: Vec::new(),
                    generation: 0,
                };
                proof {
                    assert(build@.to_follow =~= Seq::<TxView>::empty());
                    assert(build@.known =~= Set::<Seq<u8>>::empty());
                    assert(build@ =~= begun(root@, Err(StoreError::Missing))->Some_0);
                }
                Ok(build)
            },
            Err(StoreError::Transient) => Err(BuildError::FailedToGetSpend),
        }
    }

    /// Whether no transaction is left to follow.
    pub fn is_done(&self) -> (done: bool)
        ensures
            done == (self@.to_follow.len() == 0),
    {
        self.to_follow.len() == 0
    }

    /// How many generations were applied.
    pub fn generation(&self) -> (n: usize)
        ensures
            n == self@.generation,
    {
        self.generation
    }

    /// The addresses to look up for the current generation, as one batch.
    pub fn batch(&self) -> (addrs: Vec<SpendAddress>)
        ensures
            addresses_view(addrs@) == batch_addresses(self@.to_follow),
    {
        let ghost txs = txs_view(self.to_follow@);
        let mut addrs: Vec<SpendAddress> = Vec::new();
        let mut t: usize = 0;
        assert(addresses_view(addrs@) =~= batch_addresses(txs.take(0)));
        while t < self.to_follow.len()
            invariant
                t <= self.to_follow@.len(),
                txs == txs_view(self.to_follow@),
                addresses_view(addrs@) == batch_addresses(txs.take(t as int)),
            decreases self.to_follow@.len() - t,
        {
            append_addresses(&mut addrs, &self.to_follow[t].outputs);
            proof {
                let upto = txs.take(t + 1);
                assert(upto.drop_last() =~= txs.take(t as int));
                assert(upto.last() == self.to_follow@[t as int]@);
            }
            t += 1;
        }
        assert(txs.take(t as int) =~= txs);
        addrs
    }

    /// Takes the answers to the whole batch of the current generation, in
    /// the order of `batch`. Each spend found is inserted at its address; a
    /// missing spend marks an unspent output and a failed lookup is passed
    /// over: neither changes the DAG. The hashes of the generation become
    /// known, and the transactions that the found spends spent make the next
    /// generation, but for those whose hash is known. A build that is done
    /// stays as it is.
    pub fn apply(&mut self, results: Vec<Result<SignedSpend, StoreError>>)
        requires
            old(self).wf(),
            results@.len() == batch_addresses(old(self)@.to_follow).len(),
        ensures
            final(self).wf(),
            final(self)@ == (if old(self)@.to_follow.len() == 0 {
                old(self)@
            } else {
                stepped(old(self)@, results_view(results@))
            }),
    {
        if self.to_follow.len() == 0 {
            return ;
        }
        let addrs = self.batch();
        let ghost start = self@;
        let ghost answers = results_view(results@);
        let ghost wanted = batch_addresses(start.to_follow);
        let mut found: Vec<Transaction> = Vec::new();
        let mut i: usize = 0;
        assert(txs_view(found@) =~= found_txs(answers.take(0)));
        assert(addrs@.len() == addresses_view(addrs@).len());
        while i < results.len()
            invariant
                i <= results@.len(),
                results@.len() == addrs@.len(),
                addresses_view(addrs@) == wanted,
                answers == results_view(results@),
                self.dag.wf(),
                start.root is Some,
                self.dag.root_view() == start.root,
                self.dag@ == absorbed(start.dag, wanted.take(i as int), answers.take(i as int)),
                txs_view(found@) == found_txs(answers.take(i as int)),
                self.to_follow == old(self).to_follow,
                self.known == old(self).known,
                self.generation == old(self).generation,
            decreases results@.len() - i,
        {
            let ghost front = txs_view(found@);
            match &results[i] {
                Ok(spend) => {
                    self.dag.insert(addrs[i], spend.clone());
                    found.push(spend.spent_tx.clone());
                    assert(txs_view(found@) =~= front.push(spend@.spent_tx));
                },
                Err(_) => {},
            }
            proof {
                assert(wanted.take(i + 1).drop_last() =~= wanted.take(i as int));
                assert(answers.take(i + 1).drop_last() =~= answers.take(i as int));
                assert(wanted.take(i + 1).last() == addrs@[i as int]@);
                assert(answers.take(i + 1).last() == answers[i as int]);
            }
            i += 1;
        }
        proof {
            assert(wanted.take(i as int) =~= wanted);
            assert(answers.take(i as int) =~= answers);
            lemma_stepped_inv(start, answers);
            digests_view(self.known@).unique_seq_to_set();
        }
        learn_hashes(&mut self.known, &self.to_follow);
        proof {
            let now = digests_view(self.known@);
            now.unique_seq_to_set();
            assert(now.to_set() == stepped(start, answers).known);
            assert(now.len() == start.known.len() + start.to_follow.len());
            assert(now.len() == self.known@.len());
            assert(self.generation < self.known.len());
        }
        self.to_follow = select_unseen(&found, &self.known);
        self.generation += 1;
    }

    /// The DAG as it stands. The build may be given up at any generation.
    pub fn finish(self) -> (dag: SpendDag)
        requires
            self.wf(),
        ensures
            dag.wf(),
            dag@ == self@.dag,
            dag.root_view() == self@.root,
    {
        self.dag
    }
}

} // verus!
