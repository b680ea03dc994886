//! Auditing a DAG as a whole: which transactions it holds, which spends it
//! has for the inputs of a transaction, and what is wrong with it.
//!
//! The audit never changes the DAG and never stops at the first finding: it
//! returns every issue it finds.

use vstd::prelude::*;
use vstd::std_specs::cmp::PartialEqSpecImpl;
use crate::dag::{
    is_double_spend,
    is_output_of,
    lemma_output_before_all,
    lemma_output_before_next_slot,
    lemma_output_before_next_spend,
    lemma_output_before_step,
    lemma_slot_lookup,
    output_at,
    output_before,
    position_of,
    slot_addrs,
    slots_wf,
    view_of,
    Slot,
    SpendDag,
};
use crate::forward::contains_digest;
use crate::keys::{digests_view, Digest, SpendAddress, UniquePubkey, content_name, keys_view};
use crate::transaction::{spends_view, txs_view, Genesis, GenesisView, SignedSpend, SpendView, Transaction, TxView};

verus! {

/// Whether a spend of `m` meets `pred`.
pub open spec fn any_spend(m: Map<Seq<u8>, Seq<SpendView>>, pred: spec_fn(SpendView) -> bool) -> bool {
    exists|addr: Seq<u8>, i: int|
        m.dom().contains(addr) && 0 <= i < m[addr].len() && pred(#[trigger] m[addr][i])
}

/// The spends that spend `key`.
pub open spec fn spends_key(key: Seq<u8>) -> spec_fn(SpendView) -> bool {
    |s: SpendView| s.unique_pubkey == key
}

/// The spends that name `tx`, as the transaction that made their key or as
/// the one that spent it.
pub open spec fn names_tx(tx: TxView) -> spec_fn(SpendView) -> bool {
    |s: SpendView| s.parent_tx == tx || s.spent_tx == tx
}

/// The spends that are `spend`.
pub open spec fn is_spend(spend: SpendView) -> spec_fn(SpendView) -> bool {
    |s: SpendView| s == spend
}

/// Whether `m` holds a spend of `key`.
pub open spec fn holds_key(m: Map<Seq<u8>, Seq<SpendView>>, key: Seq<u8>) -> bool {
    any_spend(m, spends_key(key))
}

/// Whether `tx` is a transaction of `m`: a spend of `m` names it.
pub open spec fn is_contained_tx(m: Map<Seq<u8>, Seq<SpendView>>, tx: TxView) -> bool {
    any_spend(m, names_tx(tx))
}

/// Whether `m` holds a spend for every input of `tx`.
pub open spec fn inputs_complete(m: Map<Seq<u8>, Seq<SpendView>>, tx: TxView) -> bool {
    forall|j: int| 0 <= j < tx.inputs.len() ==> holds_key(m, #[trigger] tx.inputs[j])
}

/// Whether the spend of `key` is one that `m` should hold and does not: the
/// key is not the genesis key, and it is an output of a transaction that a
/// spend of `m` spent, so a build that follows outputs has asked for it.
pub open spec fn input_lacking(m: Map<Seq<u8>, Seq<SpendView>>, g: GenesisView, key: Seq<u8>) -> bool {
    !holds_key(m, key) && key != g.id && is_output_of(m, content_name(key))
}

/// Whether `tx` has an input whose spend `m` should hold and does not.
pub open spec fn inputs_lacking(m: Map<Seq<u8>, Seq<SpendView>>, g: GenesisView, tx: TxView) -> bool {
    exists|j: int| 0 <= j < tx.inputs.len() && input_lacking(m, g, #[trigger] tx.inputs[j])
}

pub(crate) open spec fn slot_spend(slots: Seq<Slot>, s: int, p: int) -> SpendView {
    slots[s].spends@[p]@
}

pub(crate) open spec fn any_spend_before(
    slots: Seq<Slot>,
    s: int,
    p: int,
    pred: spec_fn(SpendView) -> bool,
) -> bool {
    exists|s1: int, p1: int|
        0 <= s1 < slots.len() && 0 <= p1 < slots[s1].spends@.len() && (s1 < s || (s1 == s && p1
            < p)) && pred(#[trigger] slot_spend(slots, s1, p1))
}

pub(crate) proof fn lemma_any_spend_step(
    slots: Seq<Slot>,
    s: int,
    p: int,
    pred: spec_fn(SpendView) -> bool,
)
    requires
        0 <= s < slots.len(),
        0 <= p < slots[s].spends@.len(),
    ensures
        any_spend_before(slots, s, p + 1, pred) <==> any_spend_before(slots, s, p, pred) || pred(
            slot_spend(slots, s, p),
        ),
{
    if any_spend_before(slots, s, p + 1, pred) {
        let (s1, p1) = choose|s1: int, p1: int|
            0 <= s1 < slots.len() && 0 <= p1 < slots[s1].spends@.len() && (s1 < s || (s1 == s
                && p1 < p + 1)) && pred(#[trigger] slot_spend(slots, s1, p1));
        if !(s1 == s && p1 == p) {
            assert(s1 < s || (s1 == s && p1 < p));
        }
    }
    if any_spend_before(slots, s, p, pred) {
        let (s1, p1) = choose|s1: int, p1: int|
            0 <= s1 < slots.len() && 0 <= p1 < slots[s1].spends@.len() && (s1 < s || (s1 == s
                && p1 < p)) && pred(#[trigger] slot_spend(slots, s1, p1));
        assert(s1 < s || (s1 == s && p1 < p + 1));
    }
    if pred(slot_spend(slots, s, p)) {
        assert(s < s || (s == s && p < p + 1));
    }
}

pub(crate) proof fn lemma_any_spend_next_slot(
    slots: Seq<Slot>,
    s: int,
    pred: spec_fn(SpendView) -> bool,
)
    requires
        0 <= s < slots.len(),
    ensures
        any_spend_before(slots, s, slots[s].spends@.len() as int, pred) == any_spend_before(
            slots,
            s + 1,
            0,
            pred,
        ),
{
    let n = slots[s].spends@.len() as int;
    if any_spend_before(slots, s, n, pred) {
        let (s1, p1) = choose|s1: int, p1: int|
            0 <= s1 < slots.len() && 0 <= p1 < slots[s1].spends@.len() && (s1 < s || (s1 == s
                && p1 < n)) && pred(#[trigger] slot_spend(slots, s1, p1));
        assert(s1 < s + 1 || (s1 == s + 1 && p1 < 0));
    }
    if any_spend_before(slots, s + 1, 0, pred) {
        let (s1, p1) = choose|s1: int, p1: int|
            0 <= s1 < slots.len() && 0 <= p1 < slots[s1].spends@.len() && (s1 < s + 1 || (s1 == s
                + 1 && p1 < 0)) && pred(#[trigger] slot_spend(slots, s1, p1));
        assert(s1 < s || (s1 == s && p1 < n));
    }
}

pub(crate) proof fn lemma_any_spend_grows(
    slots: Seq<Slot>,
    s: int,
    p: int,
    pred: spec_fn(SpendView) -> bool,
)
    requires
        slots_wf(slots),
        any_spend_before(slots, s, p, pred),
    ensures
        any_spend(view_of(slots), pred),
{
    let (s1, p1) = choose|s1: int, p1: int|
        0 <= s1 < slots.len() && 0 <= p1 < slots[s1].spends@.len() && (s1 < s || (s1 == s && p1
            < p)) && pred(#[trigger] slot_spend(slots, s1, p1));
    assert(s1 < slots.len() || (s1 == slots.len() && p1 < 0));
    lemma_any_spend_all(slots, pred);
}

pub(crate) proof fn lemma_any_spend_all(slots: Seq<Slot>, pred: spec_fn(SpendView) -> bool)
    requires
        slots_wf(slots),
    ensures
        any_spend_before(slots, slots.len() as int, 0, pred) == any_spend(view_of(slots), pred),
{
    let m = view_of(slots);
    let n = slots.len() as int;
    if any_spend_before(slots, n, 0, pred) {
        let (s1, p1) = choose|s1: int, p1: int|
            0 <= s1 < slots.len() && 0 <= p1 < slots[s1].spends@.len() && (s1 < n || (s1 == n
                && p1 < 0)) && pred(#[trigger] slot_spend(slots, s1, p1));
        lemma_slot_lookup(slots, s1);
        let addr = slots[s1].addr@;
        assert(m[addr][p1] == slot_spend(slots, s1, p1));
    }
    if any_spend(m, pred) {
        let (addr, i) = choose|addr: Seq<u8>, i: int|
            m.dom().contains(addr) && 0 <= i < m[addr].len() && pred(#[trigger] m[addr][i]);
        let addrs = slot_addrs(slots);
        let s1 = addrs.index_of(addr);
        assert(0 <= s1 < addrs.len() && addrs[s1] == addr);
        lemma_slot_lookup(slots, s1);
        assert(m[addr][i] == slot_spend(slots, s1, i));
        assert(s1 < n || (s1 == n && i < 0));
    }
}

/// Whether a transaction equal to `tx` stands in `txs`.
pub fn contains_tx(txs: &Vec<Transaction>, tx: &Transaction) -> (b: bool)
    ensures
        b == txs_view(txs@).contains(tx@),
{
    let mut i: usize = 0;
    while i < txs.len()
        invariant
            i <= txs.len(),
            forall|j: int| 0 <= j < i ==> txs@[j]@ != tx@,
        decreases txs.len() - i,
    {
        if txs[i] == *tx {
            assert(txs_view(txs@)[i as int] == tx@);
            return true;
        }
        i += 1;
    }
    assert forall|j: int| 0 <= j < txs_view(txs@).len() implies txs_view(txs@)[j] != tx@ by {
        assert(txs_view(txs@)[j] == txs@[j]@);
    }
    false
}

/// Whether a key equal to `key` stands in `keys`.
pub fn contains_key(keys: &Vec<UniquePubkey>, key: &UniquePubkey) -> (b: bool)
    ensures
        b == keys_view(keys@).contains(key@),
{
    let mut i: usize = 0;
    while i < keys.len()
        invariant
            i <= keys.len(),
            forall|j: int| 0 <= j < i ==> keys@[j]@ != key@,
        decreases keys.len() - i,
    {
        if keys[i] == *key {
            assert(keys_view(keys@)[i as int] == key@);
            return true;
        }
        i += 1;
    }
    assert forall|j: int| 0 <= j < keys_view(keys@).len() implies keys_view(keys@)[j] != key@ by {
        assert(keys_view(keys@)[j] == keys@[j]@);
    }
    false
}

impl SpendDag {
    /// Whether the DAG holds a spend of `key`, at whatever address.
    pub fn holds_key(&self, key: &UniquePubkey) -> (b: bool)
        requires
            self.wf(),
        ensures
            b == holds_key(self@, key@),
    {
        let ghost pred = spends_key(key@);
        proof {
            self.lemma_unfold();
        }
        let mut s: usize = 0;
        while s < self.slots.len()
            invariant
                s <= self.slots@.len(),
                slots_wf(self.slots@),
                self@ == view_of(self.slots@),
                pred == spends_key(key@),
                !any_spend_before(self.slots@, s as int, 0, pred),
            decreases self.slots@.len() - s,
        {
            let mut p: usize = 0;
            while p < self.slots[s].spends.len()
                invariant
                    s < self.slots@.len(),
                    p <= self.slots@[s as int].spends@.len(),
                    slots_wf(self.slots@),
                    self@ == view_of(self.slots@),
                    pred == spends_key(key@),
                    !any_spend_before(self.slots@, s as int, p as int, pred),
                decreases self.slots@[s as int].spends@.len() - p,
            {
                proof {
                    lemma_any_spend_step(self.slots@, s as int, p as int, pred);
                }
                if self.slots[s].spends[p].unique_pubkey == *key {
                    proof {
                        assert(pred(slot_spend(self.slots@, s as int, p as int)));
                        lemma_any_spend_step(self.slots@, s as int, p as int, pred);
                        lemma_any_spend_grows(self.slots@, s as int, p + 1, pred);
                    }
                    return true;
                }
                p += 1;
            }
            proof {
                lemma_any_spend_next_slot(self.slots@, s as int, pred);
            }
            s += 1;
        }
        proof {
            lemma_any_spend_all(self.slots@, pred);
        }
        false
    }

    /// The transactions of the DAG: those that its spends name as parent or
    /// as spent transaction, each once.
    pub fn transactions(&self) -> (txs: Vec<Transaction>)
        requires
            self.wf(),
        ensures
            txs_view(txs@).no_duplicates(),
            forall|tx: TxView|
                #![trigger txs_view(txs@).contains(tx)]
                #![trigger is_contained_tx(self@, tx)]
                txs_view(txs@).contains(tx) <==> is_contained_tx(self@, tx),
    {
        let mut txs: Vec<Transaction> = Vec::new();
        proof {
            self.lemma_unfold();
        }
        let mut s: usize = 0;
        while s < self.slots.len()
            invariant
                s <= self.slots@.len(),
                slots_wf(self.slots@),
                self@ == view_of(self.slots@),
                txs_view(txs@).no_duplicates(),
                forall|tx: TxView|
                    txs_view(txs@).contains(tx) <==> any_spend_before(
                        self.slots@,
                        s as int,
                        0,
                        names_tx(tx),
                    ),
            decreases self.slots@.len() - s,
        {
            let mut p: usize = 0;
            while p < self.slots[s].spends.len()
                invariant
                    s < self.slots@.len(),
                    p <= self.slots@[s as int].spends@.len(),
                    slots_wf(self.slots@),
                    self@ == view_of(self.slots@),
                    txs_view(txs@).no_duplicates(),
                    forall|tx: TxView|
                        txs_view(txs@).contains(tx) <==> any_spend_before(
                            self.slots@,
                            s as int,
                            p as int,
                            names_tx(tx),
                        ),
                decreases self.slots@[s as int].spends@.len() - p,
            {
                let ghost held = txs_view(txs@);
                let spend = &self.slots[s].spends[p];
                push_new_tx(&mut txs, &spend.parent_tx);
                push_new_tx(&mut txs, &spend.spent_tx);
                proof {
                    let now = txs_view(txs@);
                    assert forall|tx: TxView| now.contains(tx) <==> any_spend_before(
                        self.slots@,
                        s as int,
                        p + 1,
                        names_tx(tx),
                    ) by {
                        lemma_any_spend_step(self.slots@, s as int, p as int, names_tx(tx));
                        assert(held.contains(tx) <==> any_spend_before(
                            self.slots@,
                            s as int,
                            p as int,
                            names_tx(tx),
                        ));
                    }
                }
                p += 1;
            }
            proof {
                assert forall|tx: TxView|
                    any_spend_before(self.slots@, s as int, p as int, names_tx(tx))
                        == any_spend_before(self.slots@, s + 1, 0, names_tx(tx)) by {
                    lemma_any_spend_next_slot(self.slots@, s as int, names_tx(tx));
                }
            }
            s += 1;
        }
        proof {
            assert forall|tx: TxView| txs_view(txs@).contains(tx) <==> is_contained_tx(
                self@,
                tx,
            ) by {
                lemma_any_spend_all(self.slots@, names_tx(tx));
            }
        }
        txs
    }
}

/// Appends `tx` to `txs` unless an equal transaction stands there already.
pub fn push_new_tx(txs: &mut Vec<Transaction>, tx: &Transaction)
    requires
        txs_view(old(txs)@).no_duplicates(),
    ensures
        txs_view(final(txs)@).no_duplicates(),
        forall|t: TxView|
            txs_view(final(txs)@).contains(t) <==> txs_view(old(txs)@).contains(t) || t == tx@,
{
    let ghost held = txs_view(txs@);
    if !contains_tx(txs, tx) {
        txs.push(tx.clone());
        proof {
            let now = txs_view(txs@);
            assert(now =~= held.push(tx@));
            assert forall|x: int, y: int|
                0 <= x < now.len() && 0 <= y < now.len() && x != y implies now[x] != now[y] by {
                if x < held.len() {
                    assert(held.contains(held[x]));
                }
                if y < held.len() {
                    assert(held.contains(held[y]));
                }
            }
            assert forall|t: TxView| now.contains(t) <==> held.contains(t) || t == tx@ by {
                if now.contains(t) {
                    let k = choose|k: int| 0 <= k < now.len() && now[k] == t;
                    if k < held.len() {
                        assert(held[k] == t);
                    }
                }
                if held.contains(t) {
                    let k = choose|k: int| 0 <= k < held.len() && held[k] == t;
                    assert(now[k] == t);
                }
                if t == tx@ {
                    assert(now[held.len() as int] == t);
                }
            }
        }
    } else {
        assert(txs_view(txs@) =~= held);
    }
}

pub(crate) proof fn lemma_output_before_grows(slots: Seq<Slot>, s: int, p: int, o: int, a: Seq<u8>)
    requires
        slots_wf(slots),
        0 <= s <= slots.len(),
        output_before(slots, s, p, o, a),
    ensures
        is_output_of(view_of(slots), a),
{
    let (s1, p1, o1) = choose|s1: int, p1: int, o1: int|
        crate::dag::output_in_range(slots, s1, p1, o1) && crate::dag::comes_before(
            s1,
            p1,
            o1,
            s,
            p,
            o,
        ) && #[trigger] output_at(slots, s1, p1, o1) == a;
    assert(crate::dag::comes_before(s1, p1, o1, slots.len() as int, 0, 0));
    lemma_output_before_all(slots, a);
}

/// Whether the address `p` holds a spend whose spent transaction is, by its
/// hash, the parent transaction of a spend at the address `c`.
pub open spec fn is_parent_of(m: Map<Seq<u8>, Seq<SpendView>>, p: Seq<u8>, c: Seq<u8>) -> bool {
    &&& m.dom().contains(p)
    &&& m.dom().contains(c)
    &&& exists|i: int, j: int|
        0 <= i < m[p].len() && 0 <= j < m[c].len() && (#[trigger] m[p][i]).spent_tx.hash == (
        #[trigger] m[c][j]).parent_tx.hash
}

/// Whether a line of `n` parents leads to the address `a`: `a` has a parent,
/// which has a parent, and so on `n` times, all within `m`.
pub open spec fn has_ancestry(m: Map<Seq<u8>, Seq<SpendView>>, a: Seq<u8>, n: nat) -> bool
    decreases n,
{
    if n == 0 {
        m.dom().contains(a)
    } else {
        exists|p: Seq<u8>| #[trigger] is_parent_of(m, p, a) && has_ancestry(m, p, (n - 1) as nat)
    }
}

/// Whether the address `a` lies on a cycle or below one: a line of parents
/// leads to it that is as long as the DAG has addresses, so that an address
/// stands on that line twice.
pub open spec fn in_cycle(m: Map<Seq<u8>, Seq<SpendView>>, a: Seq<u8>) -> bool {
    has_ancestry(m, a, m.dom().len())
}

impl SpendDag {
    /// Whether `addr` is the address of an output of a transaction that a
    /// spend of the DAG spent.
    pub fn is_output_address(&self, addr: &SpendAddress) -> (b: bool)
        requires
            self.wf(),
        ensures
            b == is_output_of(self@, addr@),
    {
        proof {
            self.lemma_unfold();
        }
        let mut s: usize = 0;
        while s < self.slots.len()
            invariant
                s <= self.slots@.len(),
                slots_wf(self.slots@),
                self@ == view_of(self.slots@),
                !output_before(self.slots@, s as int, 0, 0, addr@),
            decreases self.slots@.len() - s,
        {
            let mut p: usize = 0;
            while p < self.slots[s].spends.len()
                invariant
                    s < self.slots@.len(),
                    p <= self.slots@[s as int].spends@.len(),
                    slots_wf(self.slots@),
                    self@ == view_of(self.slots@),
                    !output_before(self.slots@, s as int, p as int, 0, addr@),
                decreases self.slots@[s as int].spends@.len() - p,
            {
                let outputs = &self.slots[s].spends[p].spent_tx.outputs;
                let mut o: usize = 0;
                while o < outputs.len()
                    invariant
                        s < self.slots@.len(),
                        p < self.slots@[s as int].spends@.len(),
                        outputs == &self.slots@[s as int].spends@[p as int].spent_tx.outputs,
                        o <= outputs@.len(),
                        slots_wf(self.slots@),
                        self@ == view_of(self.slots@),
                        !output_before(self.slots@, s as int, p as int, o as int, addr@),
                    decreases outputs@.len() - o,
                {
                    let at = SpendAddress::from_unique_pubkey(&outputs[o]);
                    proof {
                        lemma_output_before_step(self.slots@, s as int, p as int, o as int, addr@);
                    }
                    if at == *addr {
                        proof {
                            lemma_output_before_grows(
                                self.slots@,
                                s as int,
                                p as int,
                                o + 1,
                                addr@,
                            );
                        }
                        return true;
                    }
                    o += 1;
                }
                proof {
                    lemma_output_before_next_spend(self.slots@, s as int, p as int, addr@);
                }
                p += 1;
            }
            proof {
                lemma_output_before_next_slot(self.slots@, s as int, addr@);
            }
            s += 1;
        }
        proof {
            lemma_output_before_all(self.slots@, addr@);
        }
        false
    }

    /// The spends that the DAG holds for the inputs of `tx`: each spend whose
    /// key is an input of `tx`, once. These are the spends to verify `tx`
    /// against.
    pub fn input_spends(&self, tx: &Transaction) -> (spends: Vec<SignedSpend>)
        requires
            self.wf(),
        ensures
            spends_view(spends@).no_duplicates(),
            forall|sp: SpendView|
                #![trigger spends_view(spends@).contains(sp)]
                #![trigger any_spend(self@, is_spend(sp))]
                spends_view(spends@).contains(sp) <==> tx@.inputs.contains(sp.unique_pubkey)
                    && any_spend(self@, is_spend(sp)),
    {
        let mut spends: Vec<SignedSpend> = Vec::new();
        proof {
            self.lemma_unfold();
        }
        let mut s: usize = 0;
        while s < self.slots.len()
            invariant
                s <= self.slots@.len(),
                slots_wf(self.slots@),
                self@ == view_of(self.slots@),
                spends_view(spends@).no_duplicates(),
                forall|sp: SpendView|
                    spends_view(spends@).contains(sp) <==> tx@.inputs.contains(sp.unique_pubkey)
                        && any_spend_before(self.slots@, s as int, 0, is_spend(sp)),
            decreases self.slots@.len() - s,
        {
            let mut p: usize = 0;
            while p < self.slots[s].spends.len()
                invariant
                    s < self.slots@.len(),
                    p <= self.slots@[s as int].spends@.len(),
                    slots_wf(self.slots@),
                    self@ == view_of(self.slots@),
                    spends_view(spends@).no_duplicates(),
                    forall|sp: SpendView|
                        spends_view(spends@).contains(sp) <==> tx@.inputs.contains(
                            sp.unique_pubkey,
                        ) && any_spend_before(self.slots@, s as int, p as int, is_spend(sp)),
                decreases self.slots@[s as int].spends@.len() - p,
            {
                let ghost held = spends_view(spends@);
                let spend = &self.slots[s].spends[p];
                let wanted = contains_key(&tx.inputs, &spend.unique_pubkey);
                let at = position_of(&spends, spend);
                let fresh = wanted && at.is_none();
                if fresh {
                    spends.push(spend.clone());
                }
                proof {
                    let now = spends_view(spends@);
                    let here = slot_spend(self.slots@, s as int, p as int);
                    assert(here == spend@);
                    assert(wanted == tx@.inputs.contains(here.unique_pubkey));
                    if at is Some {
                        assert(held[at->Some_0 as int] == here);
                    }
                    assert(held.contains(here) == (at is Some));
                    if fresh {
                        assert(now =~= held.push(here));
                        assert forall|x: int, y: int|
                            0 <= x < now.len() && 0 <= y < now.len() && x != y implies now[x]
                            != now[y] by {
                            if x < held.len() {
                                assert(held.contains(held[x]));
                            }
                            if y < held.len() {
                                assert(held.contains(held[y]));
                            }
                        }
                    } else {
                        assert(now =~= held);
                    }
                    assert forall|sp: SpendView| now.contains(sp) <==> tx@.inputs.contains(
                        sp.unique_pubkey,
                    ) && any_spend_before(self.slots@, s as int, p + 1, is_spend(sp)) by {
                        lemma_any_spend_step(self.slots@, s as int, p as int, is_spend(sp));
                        assert(held.contains(sp) <==> tx@.inputs.contains(sp.unique_pubkey)
                            && any_spend_before(self.slots@, s as int, p as int, is_spend(sp)));
                        assert(is_spend(sp)(here) == (here == sp));
                        if fresh {
                            if now.contains(sp) {
                                let k = choose|k: int| 0 <= k < now.len() && now[k] == sp;
                                if k < held.len() {
                                    assert(held[k] == sp);
                                }
                            }
                            if held.contains(sp) {
                                let k = choose|k: int| 0 <= k < held.len() && held[k] == sp;
                                assert(now[k] == sp);
                            }
                            assert(now[held.len() as int] == here);
                        }
                    }
                }
                p += 1;
            }
            proof {
                assert forall|sp: SpendView|
                    any_spend_before(self.slots@, s as int, p as int, is_spend(sp))
                        == any_spend_before(self.slots@, s + 1, 0, is_spend(sp)) by {
                    lemma_any_spend_next_slot(self.slots@, s as int, is_spend(sp));
                }
            }
            s += 1;
        }
        proof {
            assert forall|sp: SpendView|
                spends_view(spends@).contains(sp) <==> tx@.inputs.contains(sp.unique_pubkey)
                    && any_spend(self@, is_spend(sp)) by {
                lemma_any_spend_all(self.slots@, is_spend(sp));
            }
        }
        spends
    }

    /// Whether the DAG holds a spend for every input of `tx`.
    pub fn inputs_complete(&self, tx: &Transaction) -> (b: bool)
        requires
            self.wf(),
        ensures
            b == inputs_complete(self@, tx@),
    {
        let mut j: usize = 0;
        while j < tx.inputs.len()
            invariant
                j <= tx.inputs@.len(),
                self.wf(),
                forall|k: int| 0 <= k < j ==> holds_key(self@, #[trigger] tx@.inputs[k]),
            decreases tx.inputs@.len() - j,
        {
            assert(tx@.inputs[j as int] == tx.inputs@[j as int]@);
            if !self.holds_key(&tx.inputs[j]) {
                return false;
            }
            j += 1;
        }
        true
    }

    /// Whether `tx` has an input whose spend the DAG should hold and does
    /// not.
    pub fn inputs_lacking(&self, genesis: &Genesis, tx: &Transaction) -> (b: bool)
        requires
            self.wf(),
        ensures
            b == inputs_lacking(self@, genesis@, tx@),
    {
        let mut j: usize = 0;
        while j < tx.inputs.len()
            invariant
                j <= tx.inputs@.len(),
                self.wf(),
                forall|k: int|
                    0 <= k < j ==> !input_lacking(self@, genesis@, #[trigger] tx@.inputs[k]),
            decreases tx.inputs@.len() - j,
        {
            assert(tx@.inputs[j as int] == tx.inputs@[j as int]@);
            let key = &tx.inputs[j];
            if !self.holds_key(key) && *key != genesis.id {
                let addr = SpendAddress::from_unique_pubkey(key);
                if self.is_output_address(&addr) {
                    return true;
                }
            }
            j += 1;
        }
        false
    }

    fn slot_is_parent(&self, p: usize, c: usize) -> (b: bool)
        requires
            self.wf(),
            p < self.slots@.len(),
            c < self.slots@.len(),
        ensures
            b == is_parent_of(self@, self.slots@[p as int].addr@, self.slots@[c as int].addr@),
    {
        proof {
            self.lemma_unfold();
            lemma_slot_lookup(self.slots@, p as int);
            lemma_slot_lookup(self.slots@, c as int);
        }
        let ghost pa = self.slots@[p as int].addr@;
        let ghost ca = self.slots@[c as int].addr@;
        let parents = &self.slots[p].spends;
        let children = &self.slots[c].spends;
        let mut i: usize = 0;
        while i < parents.len()
            invariant
                i <= parents@.len(),
                pa == self.slots@[p as int].addr@,
                ca == self.slots@[c as int].addr@,
                self@.dom().contains(pa),
                self@.dom().contains(ca),
                self@[pa] == spends_view(parents@),
                self@[ca] == spends_view(children@),
                forall|x: int, y: int|
                    0 <= x < i && 0 <= y < children@.len() ==> (#[trigger] self@[pa][x]).spent_tx.hash
                        != (#[trigger] self@[ca][y]).parent_tx.hash,
            decreases parents@.len() - i,
        {
            let mut j: usize = 0;
            while j < children.len()
                invariant
                    i < parents@.len(),
                    j <= children@.len(),
                    pa == self.slots@[p as int].addr@,
                    ca == self.slots@[c as int].addr@,
                    self@.dom().contains(pa),
                    self@.dom().contains(ca),
                    self@[pa] == spends_view(parents@),
                    self@[ca] == spends_view(children@),
                    forall|x: int, y: int|
                        0 <= x < i && 0 <= y < children@.len() ==> (
                        #[trigger] self@[pa][x]).spent_tx.hash != (
                        #[trigger] self@[ca][y]).parent_tx.hash,
                    forall|y: int|
                        0 <= y < j ==> self@[pa][i as int].spent_tx.hash != (
                        #[trigger] self@[ca][y]).parent_tx.hash,
                decreases children@.len() - j,
            {
                if parents[i].spent_tx.hash == children[j].parent_tx.hash {
                    assert(self@[pa][i as int].spent_tx.hash == self@[ca][j as int].parent_tx.hash);
                    return true;
                }
                j += 1;
            }
            i += 1;
        }
        false
    }

    /// The addresses that lie on a cycle or below one, each once.
    pub fn cycle_addresses(&self) -> (addrs: Vec<SpendAddress>)
        requires
            self.wf(),
        ensures
            crate::keys::addresses_view(addrs@).no_duplicates(),
            forall|a: Seq<u8>|
                #![trigger crate::keys::addresses_view(addrs@).contains(a)]
                #![trigger in_cycle(self@, a)]
                crate::keys::addresses_view(addrs@).contains(a) <==> in_cycle(self@, a),
    {
        proof {
            self.lemma_unfold();
            crate::dag::lemma_view_of_well_formed(self.slots@);
        }
        let n = self.slots.len();
        let mut alive: Vec<bool> = Vec::new();
        let mut c: usize = 0;
        while c < n
            invariant
                c <= n,
                n == self.slots@.len(),
                slots_wf(self.slots@),
                self@ == view_of(self.slots@),
                alive@.len() == c,
                forall|k: int|
                    0 <= k < c ==> alive@[k] == has_ancestry(self@, self.slots@[k].addr@, 0),
            decreases n - c,
        {
            proof {
                lemma_slot_lookup(self.slots@, c as int);
            }
            alive.push(true);
            c += 1;
        }
        let mut round: usize = 0;
        while round < n
            invariant
                round <= n,
                n == self.slots@.len(),
                self.wf(),
                slots_wf(self.slots@),
                self@ == view_of(self.slots@),
                alive@.len() == n,
                forall|k: int|
                    0 <= k < n ==> alive@[k] == has_ancestry(
                        self@,
                        self.slots@[k].addr@,
                        round as nat,
                    ),
            decreases n - round,
        {
            let mut next: Vec<bool> = Vec::new();
            let mut c: usize = 0;
            while c < n
                invariant
                    c <= n,
                    round < n,
                    n == self.slots@.len(),
                    self.wf(),
                    slots_wf(self.slots@),
                    self@ == view_of(self.slots@),
                    alive@.len() == n,
                    next@.len() == c,
                    forall|k: int|
                        0 <= k < n ==> alive@[k] == has_ancestry(
                            self@,
                            self.slots@[k].addr@,
                            round as nat,
                        ),
                    forall|k: int|
                        0 <= k < c ==> next@[k] == has_ancestry(
                            self@,
                            self.slots@[k].addr@,
                            (round + 1) as nat,
                        ),
                decreases n - c,
            {
                let ghost ca = self.slots@[c as int].addr@;
                let mut found = false;
                let mut p: usize = 0;
                while p < n
                    invariant
                        p <= n,
                        c < n,
                        round < n,
                        n == self.slots@.len(),
                        self.wf(),
                        slots_wf(self.slots@),
                        self@ == view_of(self.slots@),
                        ca == self.slots@[c as int].addr@,
                        alive@.len() == n,
                        forall|k: int|
                            0 <= k < n ==> alive@[k] == has_ancestry(
                                self@,
                                self.slots@[k].addr@,
                                round as nat,
                            ),
                        found ==> has_ancestry(self@, ca, (round + 1) as nat),
                        !found ==> forall|k: int|
                            0 <= k < p ==> !(alive@[k] && is_parent_of(
                                self@,
                                #[trigger] self.slots@[k].addr@,
                                ca,
                            )),
                    decreases n - p,
                {
                    if !found && alive[p] && self.slot_is_parent(p, c) {
                        found = true;
                        proof {
                            let pa = self.slots@[p as int].addr@;
                            assert(is_parent_of(self@, pa, ca) && has_ancestry(
                                self@,
                                pa,
                                round as nat,
                            ));
                        }
                    }
                    p += 1;
                }
                proof {
                    if !found {
                        assert forall|pa: Seq<u8>| !(#[trigger] is_parent_of(self@, pa, ca)
                            && has_ancestry(self@, pa, round as nat)) by {
                            if is_parent_of(self@, pa, ca) {
                                let addrs = slot_addrs(self.slots@);
                                let k = addrs.index_of(pa);
                                assert(0 <= k < addrs.len() && addrs[k] == pa);
                                assert(self.slots@[k].addr@ == pa);
                            }
                        }
                    }
                }
                next.push(found);
                c += 1;
            }
            alive = next;
            round += 1;
        }
        let mut addrs: Vec<SpendAddress> = Vec::new();
        let ghost all = slot_addrs(self.slots@);
        let mut c: usize = 0;
        while c < n
            invariant
                c <= n,
                n == self.slots@.len(),
                n == self@.dom().len(),
                slots_wf(self.slots@),
                self@ == view_of(self.slots@),
                all == slot_addrs(self.slots@),
                alive@.len() == n,
                forall|k: int| 0 <= k < n ==> alive@[k] == in_cycle(self@, self.slots@[k].addr@),
                crate::keys::addresses_view(addrs@).no_duplicates(),
                forall|a: Seq<u8>|
                    crate::keys::addresses_view(addrs@).contains(a) <==> in_cycle(self@, a)
                        && all.take(c as int).contains(a),
            decreases n - c,
        {
            let ghost held = crate::keys::addresses_view(addrs@);
            let ghost here = self.slots@[c as int].addr@;
            if alive[c] {
                addrs.push(self.slots[c].addr);
            }
            proof {
                let now = crate::keys::addresses_view(addrs@);
                assert(all[c as int] == here);
                assert(all.take(c + 1) =~= all.take(c as int).push(here));
                assert(!all.take(c as int).contains(here)) by {
                    if all.take(c as int).contains(here) {
                        let k = choose|k: int|
                            0 <= k < all.take(c as int).len() && all.take(c as int)[k] == here;
                        assert(all[k] == here);
                    }
                }
                if alive@[c as int] {
                    assert(now =~= held.push(here));
                    assert forall|x: int, y: int|
                        0 <= x < now.len() && 0 <= y < now.len() && x != y implies now[x]
                        != now[y] by {
                        if x < held.len() {
                            assert(held.contains(held[x]));
                        }
                        if y < held.len() {
                            assert(held.contains(held[y]));
                        }
                    }
                } else {
                    assert(now =~= held);
                }
                assert forall|a: Seq<u8>| now.contains(a) <==> in_cycle(self@, a) && all.take(
                    c + 1,
                ).contains(a) by {
                    let before = all.take(c as int);
                    let upto = all.take(c + 1);
                    assert(held.contains(a) <==> in_cycle(self@, a) && before.contains(a));
                    assert(alive@[c as int] == in_cycle(self@, here));
                    if upto.contains(a) {
                        let k = choose|k: int| 0 <= k < upto.len() && upto[k] == a;
                        if k < before.len() {
                            assert(before[k] == a);
                        }
                    }
                    if before.contains(a) {
                        let k = choose|k: int| 0 <= k < before.len() && before[k] == a;
                        assert(upto[k] == a);
                    }
                    assert(upto[c as int] == here);
                    if alive@[c as int] {
                        if now.contains(a) {
                            let k = choose|k: int| 0 <= k < now.len() && now[k] == a;
                            if k < held.len() {
                                assert(held[k] == a);
                            }
                        }
                        if held.contains(a) {
                            let k = choose|k: int| 0 <= k < held.len() && held[k] == a;
                            assert(now[k] == a);
                        }
                        assert(now[held.len() as int] == here);
                    }
                }
            }
            c += 1;
        }
        proof {
            assert(all.take(c as int) =~= all);
            assert forall|a: Seq<u8>|
                crate::keys::addresses_view(addrs@).contains(a) <==> in_cycle(self@, a) by {
                if in_cycle(self@, a) {
                    lemma_ancestry_in_dag(self@, a, self@.dom().len());
                }
            }
        }
        addrs
    }
}

/// Whether `line` is a line of parents in `m`: each address but the last is
/// a parent of the next.
pub open spec fn is_line(m: Map<Seq<u8>, Seq<SpendView>>, line: Seq<Seq<u8>>) -> bool {
    &&& line.len() > 0
    &&& forall|i: int| 0 <= i < line.len() ==> m.dom().contains(#[trigger] line[i])
    &&& forall|i: int| 0 <= i < line.len() - 1 ==> is_parent_of(m, #[trigger] line[i], line[i + 1])
}

/// A line of `n` parents that leads to `a`, where there is one.
pub proof fn lemma_ancestry_line(m: Map<Seq<u8>, Seq<SpendView>>, a: Seq<u8>, n: nat) -> (line: Seq<
    Seq<u8>,
>)
    requires
        has_ancestry(m, a, n),
    ensures
        is_line(m, line),
        line.len() == n + 1,
        line.last() == a,
    decreases n,
{
    if n == 0 {
        seq![a]
    } else {
        let p = choose|p: Seq<u8>| #[trigger]
            is_parent_of(m, p, a) && has_ancestry(m, p, (n - 1) as nat);
        let front = lemma_ancestry_line(m, p, (n - 1) as nat);
        let line = front.push(a);
        assert forall|i: int| 0 <= i < line.len() - 1 implies is_parent_of(
            m,
            #[trigger] line[i],
            line[i + 1],
        ) by {
            if i < front.len() - 1 {
                assert(is_parent_of(m, front[i], front[i + 1]));
            }
        }
        line
    }
}

/// The end of a line of parents has an ancestry as long as any tail of the
/// line.
pub proof fn lemma_line_ancestry(m: Map<Seq<u8>, Seq<SpendView>>, line: Seq<Seq<u8>>, n: nat)
    requires
        is_line(m, line),
        n < line.len(),
    ensures
        has_ancestry(m, line.last(), n),
    decreases n,
{
    if n > 0 {
        let front = line.drop_last();
        assert forall|i: int| 0 <= i < front.len() - 1 implies is_parent_of(
            m,
            #[trigger] front[i],
            front[i + 1],
        ) by {
            assert(is_parent_of(m, line[i], line[i + 1]));
        }
        lemma_line_ancestry(m, front, (n - 1) as nat);
        assert(is_parent_of(m, line[line.len() - 2], line[line.len() - 1]));
        assert(front.last() == line[line.len() - 2]);
    }
}

/// A line of parents on which an address stands twice can be made as long
/// as one likes: the end of the line has an ancestry of every length.
pub proof fn lemma_line_with_cycle(
    m: Map<Seq<u8>, Seq<SpendView>>,
    line: Seq<Seq<u8>>,
    i: int,
    j: int,
    n: nat,
)
    requires
        is_line(m, line),
        0 <= i < j < line.len(),
        line[i] == line[j],
    ensures
        has_ancestry(m, line.last(), n),
    decreases
            (if n + 1 > line.len() {
                n + 1 - line.len()
            } else {
                0
            }),
{
    if n < line.len() {
        lemma_line_ancestry(m, line, n);
    } else {
        let longer = line.take(j + 1) + line.skip(i + 1);
        assert(longer.len() == line.len() + (j - i));
        assert forall|k: int| 0 <= k < longer.len() implies m.dom().contains(
            #[trigger] longer[k],
        ) by {
            if k <= j {
                assert(longer[k] == line[k]);
            } else {
                assert(longer[k] == line[k - (j - i)]);
            }
        }
        assert forall|k: int| 0 <= k < longer.len() - 1 implies is_parent_of(
            m,
            #[trigger] longer[k],
            longer[k + 1],
        ) by {
            if k < j {
                assert(longer[k] == line[k] && longer[k + 1] == line[k + 1]);
                assert(is_parent_of(m, line[k], line[k + 1]));
            } else if k == j {
                assert(longer[k] == line[j]);
                assert(longer[k + 1] == line[i + 1]);
                assert(is_parent_of(m, line[i], line[i + 1]));
            } else {
                let at = k - (j - i);
                assert(longer[k] == line[at] && longer[k + 1] == line[at + 1]);
                assert(is_parent_of(m, line[at], line[at + 1]));
            }
        }
        assert(longer[i] == line[i] && longer[j] == line[j]);
        assert(longer.last() == line.last());
        lemma_line_with_cycle(m, longer, i, j, n);
    }
}

/// An address is in a cycle, as `in_cycle` has it, exactly if lines of
/// parents of every length lead to it. In a DAG of finitely many addresses
/// that is so only on a cycle or below one: a line longer than the DAG has
/// addresses passes one of them twice.
pub proof fn lemma_in_cycle_is_endless(m: Map<Seq<u8>, Seq<SpendView>>, a: Seq<u8>, n: nat)
    requires
        m.dom().finite(),
        in_cycle(m, a),
    ensures
        has_ancestry(m, a, n),
{
    let line = lemma_ancestry_line(m, a, m.dom().len());
    if line.no_duplicates() {
        line.unique_seq_to_set();
        assert(line.to_set().subset_of(m.dom())) by {
            assert forall|x: Seq<u8>| line.to_set().contains(x) implies m.dom().contains(x) by {
                let k = choose|k: int| 0 <= k < line.len() && line[k] == x;
                assert(m.dom().contains(line[k]));
            }
        }
        vstd::set_lib::lemma_len_subset(line.to_set(), m.dom());
        assert(false);
    } else {
        let (i, j) = choose|i: int, j: int|
            0 <= i < line.len() && 0 <= j < line.len() && i != j && line[i] == line[j];
        if i < j {
            lemma_line_with_cycle(m, line, i, j, n);
        } else {
            lemma_line_with_cycle(m, line, j, i, n);
        }
    }
}

/// A line of parents leads only to an address of the DAG.
pub proof fn lemma_ancestry_in_dag(m: Map<Seq<u8>, Seq<SpendView>>, a: Seq<u8>, n: nat)
    requires
        has_ancestry(m, a, n),
    ensures
        m.dom().contains(a),
{
    if n > 0 {
        let p = choose|p: Seq<u8>| #[trigger]
            is_parent_of(m, p, a) && has_ancestry(m, p, (n - 1) as nat);
    }
}

/// Something wrong with a DAG. An issue is a finding, not a failure.
#[derive(Clone, Copy, Debug)]
pub enum Issue {
    /// The DAG holds no spend at the root it was audited from.
    MissingRoot(SpendAddress),
    /// The transaction with this hash has all its input spends in the DAG
    /// and does not verify against them.
    InvalidTransaction(Digest),
    /// The transaction with this hash lacks an input spend that the DAG
    /// should hold.
    MissingInputs(Digest),
    /// The address lies on a cycle of spends or below one.
    Cycle(SpendAddress),
    /// The address holds two or more different spends.
    DoubleSpend(SpendAddress),
}

/// An issue as a mathematical value.
pub enum IssueView {
    MissingRoot(Seq<u8>),
    InvalidTransaction(Seq<u8>),
    MissingInputs(Seq<u8>),
    Cycle(Seq<u8>),
    DoubleSpend(Seq<u8>),
}

impl View for Issue {
    type V = IssueView;

    open spec fn view(&self) -> IssueView {
        match self {
            Issue::MissingRoot(a) => IssueView::MissingRoot(a@),
            Issue::InvalidTransaction(h) => IssueView::InvalidTransaction(h@),
            Issue::MissingInputs(h) => IssueView::MissingInputs(h@),
            Issue::Cycle(a) => IssueView::Cycle(a@),
            Issue::DoubleSpend(a) => IssueView::DoubleSpend(a@),
        }
    }
}

impl PartialEq for Issue {
    fn eq(&self, other: &Self) -> (r: bool) {
        match (self, other) {
            (Issue::MissingRoot(a), Issue::MissingRoot(b)) => a == b,
            (Issue::InvalidTransaction(a), Issue::InvalidTransaction(b)) => a == b,
            (Issue::MissingInputs(a), Issue::MissingInputs(b)) => a == b,
            (Issue::Cycle(a), Issue::Cycle(b)) => a == b,
            (Issue::DoubleSpend(a), Issue::DoubleSpend(b)) => a == b,
            _ => false,
        }
    }
}

impl PartialEqSpecImpl for Issue {
    open spec fn obeys_eq_spec() -> bool {
        true
    }

    open spec fn eq_spec(&self, other: &Self) -> bool {
        self@ == other@
    }
}

impl Eq for Issue {

}

/// The views of a sequence of issues, in order.
pub open spec fn issues_view(issues: Seq<Issue>) -> Seq<IssueView> {
    Seq::new(issues.len(), |i: int| issues[i]@)
}

/// Whether `tx` is a transaction of `m` that has all its input spends there.
pub open spec fn is_complete_tx(m: Map<Seq<u8>, Seq<SpendView>>, tx: TxView) -> bool {
    is_contained_tx(m, tx) && inputs_complete(m, tx)
}

/// Whether `tx` is a transaction of `m` that lacks an input spend.
pub open spec fn is_lacking_tx(m: Map<Seq<u8>, Seq<SpendView>>, g: GenesisView, tx: TxView) -> bool {
    is_contained_tx(m, tx) && inputs_lacking(m, g, tx)
}

/// Whether `issue` is a finding of the audit of `m` from `root`, where
/// `rejected` holds the hashes of the transactions that did not verify
/// against their input spends.
pub open spec fn issue_holds(
    m: Map<Seq<u8>, Seq<SpendView>>,
    root: Seq<u8>,
    g: GenesisView,
    rejected: Set<Seq<u8>>,
    issue: IssueView,
) -> bool {
    match issue {
        IssueView::MissingRoot(a) => a == root && !m.dom().contains(root),
        IssueView::InvalidTransaction(h) => rejected.contains(h) && exists|tx: TxView| #[trigger]
            is_complete_tx(m, tx) && tx.hash == h,
        IssueView::MissingInputs(h) => exists|tx: TxView| #[trigger]
            is_lacking_tx(m, g, tx) && tx.hash == h,
        IssueView::Cycle(a) => in_cycle(m, a),
        IssueView::DoubleSpend(a) => is_double_spend(m, a),
    }
}

/// Appends `issue` to `issues` unless it stands there already.
pub fn push_new_issue(issues: &mut Vec<Issue>, issue: Issue)
    ensures
        forall|x: IssueView| #[trigger]
            issues_view(final(issues)@).contains(x) <==> issues_view(old(issues)@).contains(x)
                || x == issue@,
{
    let ghost held = issues_view(issues@);
    let mut i: usize = 0;
    let mut found = false;
    while i < issues.len()
        invariant
            i <= issues.len(),
            held == issues_view(issues@),
            found == (exists|k: int| 0 <= k < i && held[k] == issue@),
        decreases issues.len() - i,
    {
        if issues[i] == issue {
            assert(held[i as int] == issue@);
            found = true;
        }
        i += 1;
    }
    if !found {
        issues.push(issue);
    }
    proof {
        let now = issues_view(issues@);
        if !found {
            assert(now =~= held.push(issue@));
            assert(now[held.len() as int] == issue@);
        } else {
            assert(now =~= held);
            assert(held.contains(issue@));
        }
        assert forall|x: IssueView| now.contains(x) <==> held.contains(x) || x == issue@ by {
            if now.contains(x) {
                let k = choose|k: int| 0 <= k < now.len() && now[k] == x;
                if k < held.len() {
                    assert(held[k] == x);
                }
            }
            if held.contains(x) {
                let k = choose|k: int| 0 <= k < held.len() && held[k] == x;
                assert(now[k] == x);
            }
        }
    }
}

impl SpendDag {
    /// The addresses that hold a double spend, each once.
    pub fn double_spends(&self) -> (addrs: Vec<SpendAddress>)
        requires
            self.wf(),
        ensures
            forall|a: Seq<u8>|
                #![trigger crate::keys::addresses_view(addrs@).contains(a)]
                #![trigger is_double_spend(self@, a)]
                crate::keys::addresses_view(addrs@).contains(a) <==> is_double_spend(self@, a),
    {
        proof {
            self.lemma_unfold();
        }
        let mut addrs: Vec<SpendAddress> = Vec::new();
        let ghost all = slot_addrs(self.slots@);
        let mut c: usize = 0;
        while c < self.slots.len()
            invariant
                c <= self.slots@.len(),
                slots_wf(self.slots@),
                self@ == view_of(self.slots@),
                all == slot_addrs(self.slots@),
                forall|a: Seq<u8>|
                    crate::keys::addresses_view(addrs@).contains(a) <==> is_double_spend(self@, a)
                        && all.take(c as int).contains(a),
            decreases self.slots@.len() - c,
        {
            let ghost held = crate::keys::addresses_view(addrs@);
            let ghost here = self.slots@[c as int].addr@;
            let marked = self.slots[c].spends.len() >= 2;
            if marked {
                addrs.push(self.slots[c].addr);
            }
            proof {
                let now = crate::keys::addresses_view(addrs@);
                lemma_slot_lookup(self.slots@, c as int);
                assert(marked == is_double_spend(self@, here));
                assert(all[c as int] == here);
                if marked {
                    assert(now =~= held.push(here));
                    assert(now[held.len() as int] == here);
                } else {
                    assert(now =~= held);
                }
                assert forall|a: Seq<u8>| now.contains(a) <==> is_double_spend(self@, a)
                    && all.take(c + 1).contains(a) by {
                    let before = all.take(c as int);
                    let upto = all.take(c + 1);
                    assert(held.contains(a) <==> is_double_spend(self@, a) && before.contains(a));
                    if upto.contains(a) {
                        let k = choose|k: int| 0 <= k < upto.len() && upto[k] == a;
                        if k < before.len() {
                            assert(before[k] == a);
                        }
                    }
                    if before.contains(a) {
                        let k = choose|k: int| 0 <= k < before.len() && before[k] == a;
                        assert(upto[k] == a);
                    }
                    assert(upto[c as int] == here);
                    if now.contains(a) {
                        let k = choose|k: int| 0 <= k < now.len() && now[k] == a;
                        if k < held.len() {
                            assert(held[k] == a);
                        }
                    }
                    if held.contains(a) {
                        let k = choose|k: int| 0 <= k < held.len() && held[k] == a;
                        assert(now[k] == a);
                    }
                }
            }
            c += 1;
        }
        proof {
            assert(all.take(c as int) =~= all);
            assert forall|a: Seq<u8>|
                crate::keys::addresses_view(addrs@).contains(a) <==> is_double_spend(
                    self@,
                    a,
                ) by {
                if is_double_spend(self@, a) {
                    assert(self@.dom().contains(a));
                }
            }
        }
        addrs
    }

    /// Audits the whole DAG from `root` and returns every finding: a missing
    /// root, each transaction that lacks an input spend, each transaction
    /// that has them all and whose hash is in `rejected`, each address on or
    /// below a cycle, and each double spend. `rejected` holds the hashes of
    /// the transactions that did not verify against `input_spends`.
    pub fn verify(&self, root: &SpendAddress, genesis: &Genesis, rejected: &Vec<Digest>) -> (issues:
        Vec<Issue>)
        requires
            self.wf(),
        ensures
            forall|issue: IssueView|
                #![trigger issues_view(issues@).contains(issue)]
                #![trigger issue_holds(self@, root@, genesis@, digests_view(rejected@).to_set(), issue)]
                issues_view(issues@).contains(issue) <==> issue_holds(
                    self@,
                    root@,
                    genesis@,
                    digests_view(rejected@).to_set(),
                    issue,
                ),
    {
        let ghost m = self@;
        let ghost g = genesis@;
        let ghost bad = digests_view(rejected@).to_set();
        let mut issues: Vec<Issue> = Vec::new();
        if !self.contains(root) {
            push_new_issue(&mut issues, Issue::MissingRoot(*root));
        }
        assert forall|x: IssueView| issues_view(issues@).contains(x) <==> (x is MissingRoot
            && issue_holds(m, root@, g, bad, x)) by {
            if issues_view(issues@).contains(x) {
                let k = choose|k: int|
                    0 <= k < issues_view(issues@).len() && issues_view(issues@)[k] == x;
            }
        }
        let txs = self.transactions();
        let ghost all = txs_view(txs@);
        let mut t: usize = 0;
        while t < txs.len()
            invariant
                t <= txs@.len(),
                self.wf(),
                m == self@,
                g == genesis@,
                bad == digests_view(rejected@).to_set(),
                all == txs_view(txs@),
                forall|x: IssueView| #[trigger]
                    issues_view(issues@).contains(x) <==> (x is MissingRoot && issue_holds(
                        m,
                        root@,
                        g,
                        bad,
                        x,
                    )) || (x matches IssueView::InvalidTransaction(h) && bad.contains(h)
                        && exists|k: int|
                        0 <= k < t && inputs_complete(m, #[trigger] all[k]) && all[k].hash == h)
                        || (x matches IssueView::MissingInputs(h) && exists|k: int|
                        0 <= k < t && inputs_lacking(m, g, #[trigger] all[k]) && all[k].hash == h),
            decreases txs@.len() - t,
        {
            let ghost held = issues_view(issues@);
            let tx = &txs[t];
            assert(all[t as int] == tx@);
            let complete = self.inputs_complete(tx);
            let lacking = !complete && self.inputs_lacking(genesis, tx);
            let invalid = complete && contains_digest(rejected, &tx.hash);
            if invalid {
                push_new_issue(&mut issues, Issue::InvalidTransaction(tx.hash));
            } else if lacking {
                push_new_issue(&mut issues, Issue::MissingInputs(tx.hash));
            }
            proof {
                let now = issues_view(issues@);
                assert(inputs_lacking(m, g, tx@) ==> !inputs_complete(m, tx@)) by {
                    if inputs_lacking(m, g, tx@) {
                        let j = choose|j: int|
                            0 <= j < tx@.inputs.len() && input_lacking(
                                m,
                                g,
                                #[trigger] tx@.inputs[j],
                            );
                        assert(!holds_key(m, tx@.inputs[j]));
                    }
                }
                assert forall|x: IssueView|
                    now.contains(x) <==> (x is MissingRoot && issue_holds(m, root@, g, bad, x)) || (
                    x matches IssueView::InvalidTransaction(h) && bad.contains(h) && exists|k: int|
                        0 <= k < t + 1 && inputs_complete(m, #[trigger] all[k]) && all[k].hash == h)
                        || (x matches IssueView::MissingInputs(h) && exists|k: int|
                        0 <= k < t + 1 && inputs_lacking(m, g, #[trigger] all[k]) && all[k].hash
                            == h) by {
                    match x {
                        IssueView::InvalidTransaction(h) => {
                            if exists|k: int|
                                0 <= k < t + 1 && inputs_complete(m, #[trigger] all[k])
                                    && all[k].hash == h {
                                let k = choose|k: int|
                                    0 <= k < t + 1 && inputs_complete(m, #[trigger] all[k])
                                        && all[k].hash == h;
                                if k < t {
                                    assert(0 <= k < t && inputs_complete(m, all[k]) && all[k].hash
                                        == h);
                                }
                            }
                            if exists|k: int|
                                0 <= k < t && inputs_complete(m, #[trigger] all[k]) && all[k].hash
                                    == h {
                                let k = choose|k: int|
                                    0 <= k < t && inputs_complete(m, #[trigger] all[k])
                                        && all[k].hash == h;
                                assert(0 <= k < t + 1 && inputs_complete(m, all[k]) && all[k].hash
                                    == h);
                            }
                            if complete && h == tx@.hash {
                                assert(0 <= t < t + 1 && inputs_complete(m, all[t as int])
                                    && all[t as int].hash == h);
                            }
                        },
                        IssueView::MissingInputs(h) => {
                            if exists|k: int|
                                0 <= k < t + 1 && inputs_lacking(m, g, #[trigger] all[k])
                                    && all[k].hash == h {
                                let k = choose|k: int|
                                    0 <= k < t + 1 && inputs_lacking(m, g, #[trigger] all[k])
                                        && all[k].hash == h;
                                if k < t {
                                    assert(0 <= k < t && inputs_lacking(m, g, all[k])
                                        && all[k].hash == h);
                                }
                            }
                            if exists|k: int|
                                0 <= k < t && inputs_lacking(m, g, #[trigger] all[k])
                                    && all[k].hash == h {
                                let k = choose|k: int|
                                    0 <= k < t && inputs_lacking(m, g, #[trigger] all[k])
                                        && all[k].hash == h;
                                assert(0 <= k < t + 1 && inputs_lacking(m, g, all[k])
                                    && all[k].hash == h);
                            }
                            if lacking && h == tx@.hash {
                                assert(0 <= t < t + 1 && inputs_lacking(m, g, all[t as int])
                                    && all[t as int].hash == h);
                            }
                        },
                        _ => {},
                    }
                }
            }
            t += 1;
        }
        let ghost after_txs = issues_view(issues@);
        proof {
            assert forall|x: IssueView|
                after_txs.contains(x) <==> (x is MissingRoot && issue_holds(m, root@, g, bad, x))
                    || (x matches IssueView::InvalidTransaction(h) && bad.contains(h)
                    && exists|k: int|
                    0 <= k < all.len() && inputs_complete(m, #[trigger] all[k]) && all[k].hash == h)
                    || (x matches IssueView::MissingInputs(h) && exists|k: int|
                    0 <= k < all.len() && inputs_lacking(m, g, #[trigger] all[k]) && all[k].hash
                        == h) by {
                assert(issues_view(issues@).contains(x) == after_txs.contains(x));
            }
        }
        let cycles = self.cycle_addresses();
        let mut c: usize = 0;
        while c < cycles.len()
            invariant
                c <= cycles@.len(),
                forall|x: IssueView| #[trigger]
                    issues_view(issues@).contains(x) <==> after_txs.contains(x) || (
                    x matches IssueView::Cycle(a) && crate::keys::addresses_view(cycles@).take(
                        c as int,
                    ).contains(a)),
            decreases cycles@.len() - c,
        {
            let ghost held = issues_view(issues@);
            let ghost seen = crate::keys::addresses_view(cycles@);
            push_new_issue(&mut issues, Issue::Cycle(cycles[c]));
            proof {
                let now = issues_view(issues@);
                let here = seen[c as int];
                assert(here == cycles@[c as int]@);
                lemma_take_contains(seen, c as int);
                assert forall|x: IssueView|
                    now.contains(x) <==> after_txs.contains(x) || (x matches IssueView::Cycle(a)
                        && seen.take(c + 1).contains(a)) by {
                    assert(now.contains(x) <==> held.contains(x) || x == IssueView::Cycle(here));
                    assert(held.contains(x) <==> after_txs.contains(x) || (
                    x matches IssueView::Cycle(a) && seen.take(c as int).contains(a)));
                    if let IssueView::Cycle(a) = x {
                        assert(seen.take(c + 1).contains(a) <==> seen.take(c as int).contains(a)
                            || a == here);
                    }
                }
            }
            c += 1;
        }
        let ghost after_cycles = issues_view(issues@);
        proof {
            let seen = crate::keys::addresses_view(cycles@);
            assert(seen.take(c as int) =~= seen);
            assert forall|x: IssueView|
                after_cycles.contains(x) <==> after_txs.contains(x) || (
                x matches IssueView::Cycle(a) && seen.contains(a)) by {
                assert(issues_view(issues@).contains(x) <==> after_txs.contains(x) || (
                x matches IssueView::Cycle(a) && seen.take(c as int).contains(a)));
            }
        }
        let doubles = self.double_spends();
        let mut d: usize = 0;
        while d < doubles.len()
            invariant
                d <= doubles@.len(),
                forall|x: IssueView| #[trigger]
                    issues_view(issues@).contains(x) <==> after_cycles.contains(x) || (
                    x matches IssueView::DoubleSpend(a) && crate::keys::addresses_view(
                        doubles@,
                    ).take(d as int).contains(a)),
            decreases doubles@.len() - d,
        {
            let ghost held = issues_view(issues@);
            let ghost seen = crate::keys::addresses_view(doubles@);
            push_new_issue(&mut issues, Issue::DoubleSpend(doubles[d]));
            proof {
                let now = issues_view(issues@);
                let here = seen[d as int];
                assert(here == doubles@[d as int]@);
                lemma_take_contains(seen, d as int);
                assert forall|x: IssueView|
                    now.contains(x) <==> after_cycles.contains(x) || (
                    x matches IssueView::DoubleSpend(a) && seen.take(d + 1).contains(a)) by {
                    assert(now.contains(x) <==> held.contains(x) || x == IssueView::DoubleSpend(
                        here,
                    ));
                    assert(held.contains(x) <==> after_cycles.contains(x) || (
                    x matches IssueView::DoubleSpend(a) && seen.take(d as int).contains(a)));
                    if let IssueView::DoubleSpend(a) = x {
                        assert(seen.take(d + 1).contains(a) <==> seen.take(d as int).contains(a)
                            || a == here);
                    }
                }
            }
            d += 1;
        }
        proof {
            assert(crate::keys::addresses_view(doubles@).take(d as int)
                =~= crate::keys::addresses_view(doubles@));
            let cycles_seen = crate::keys::addresses_view(cycles@);
            let doubles_seen = crate::keys::addresses_view(doubles@);
            assert forall|x: IssueView|
                issues_view(issues@).contains(x) <==> issue_holds(m, root@, g, bad, x) by {
                assert(issues_view(issues@).contains(x) <==> after_cycles.contains(x) || (
                x matches IssueView::DoubleSpend(a) && doubles_seen.contains(a)));
                assert(after_cycles.contains(x) <==> after_txs.contains(x) || (
                x matches IssueView::Cycle(a) && cycles_seen.contains(a)));
                assert(after_txs.contains(x) <==> (x is MissingRoot && issue_holds(
                    m,
                    root@,
                    g,
                    bad,
                    x,
                )) || (x matches IssueView::InvalidTransaction(h) && bad.contains(h)
                    && exists|k: int|
                    0 <= k < all.len() && inputs_complete(m, #[trigger] all[k]) && all[k].hash == h)
                    || (x matches IssueView::MissingInputs(h) && exists|k: int|
                    0 <= k < all.len() && inputs_lacking(m, g, #[trigger] all[k]) && all[k].hash
                        == h));
                match x {
                    IssueView::Cycle(a) => {
                        assert(cycles_seen.contains(a) <==> in_cycle(m, a));
                    },
                    IssueView::DoubleSpend(a) => {
                        assert(doubles_seen.contains(a) <==> is_double_spend(m, a));
                    },
                    IssueView::InvalidTransaction(h) => {
                        if exists|k: int|
                            0 <= k < all.len() && inputs_complete(m, #[trigger] all[k])
                                && all[k].hash == h {
                            let k = choose|k: int|
                                0 <= k < all.len() && inputs_complete(m, #[trigger] all[k])
                                    && all[k].hash == h;
                            assert(all.contains(all[k]));
                            assert(is_complete_tx(m, all[k]));
                        }
                        if exists|tx: TxView| #[trigger] is_complete_tx(m, tx) && tx.hash == h {
                            let tx = choose|tx: TxView| #[trigger]
                                is_complete_tx(m, tx) && tx.hash == h;
                            assert(all.contains(tx));
                            let k = choose|k: int| 0 <= k < all.len() && all[k] == tx;
                            assert(inputs_complete(m, all[k]) && all[k].hash == h);
                        }
                    },
                    IssueView::MissingInputs(h) => {
                        if exists|k: int|
                            0 <= k < all.len() && inputs_lacking(m, g, #[trigger] all[k])
                                && all[k].hash == h {
                            let k = choose|k: int|
                                0 <= k < all.len() && inputs_lacking(m, g, #[trigger] all[k])
                                    && all[k].hash == h;
                            assert(all.contains(all[k]));
                            assert(is_lacking_tx(m, g, all[k]));
                        }
                        if exists|tx: TxView| #[trigger] is_lacking_tx(m, g, tx) && tx.hash == h {
                            let tx = choose|tx: TxView| #[trigger]
                                is_lacking_tx(m, g, tx) && tx.hash == h;
                            assert(all.contains(tx));
                            let k = choose|k: int| 0 <= k < all.len() && all[k] == tx;
                            assert(inputs_lacking(m, g, all[k]) && all[k].hash == h);
                        }
                    },
                    _ => {},
                }
            }
        }
        issues
    }
}

/// What stands among the first `n + 1` items stands among the first `n` or
/// is the item at `n`.
pub proof fn lemma_take_contains<T>(s: Seq<T>, n: int)
    requires
        0 <= n < s.len(),
    ensures
        forall|x: T| #[trigger] s.take(n + 1).contains(x) <==> s.take(n).contains(x) || x == s[n],
{
    assert forall|x: T| s.take(n + 1).contains(x) <==> s.take(n).contains(x) || x == s[n] by {
        let before = s.take(n);
        let upto = s.take(n + 1);
        if upto.contains(x) {
            let k = choose|k: int| 0 <= k < upto.len() && upto[k] == x;
            if k < n {
                assert(before[k] == x);
            }
        }
        if before.contains(x) {
            let k = choose|k: int| 0 <= k < before.len() && before[k] == x;
            assert(upto[k] == x);
        }
        assert(upto[n] == s[n]);
    }
}

} // verus!
