//! The spend DAG: for each address, the spends that were seen there.
//!
//! The DAG is viewed as a map from an address to the sequence of distinct
//! spends recorded at it, oldest first. One spend is the normal case; two or
//! more are a double spend, and every one of them is kept.

use vstd::prelude::*;
use vstd::std_specs::cmp::PartialEqSpecImpl;
use crate::keys::{addresses_view, SpendAddress, content_name};
use crate::transaction::{spends_view, SignedSpend, SpendView};

verus! {

/// The spends recorded at `addr`; none where the address is absent.
pub open spec fn spends_at(m: Map<Seq<u8>, Seq<SpendView>>, addr: Seq<u8>) -> Seq<SpendView> {
    if m.dom().contains(addr) {
        m[addr]
    } else {
        Seq::empty()
    }
}

/// `spends` after `spend` was seen: unchanged if it is there already, else
/// with `spend` at the end.
pub open spec fn record(spends: Seq<SpendView>, spend: SpendView) -> Seq<SpendView> {
    if spends.contains(spend) {
        spends
    } else {
        spends.push(spend)
    }
}

/// `spends` after each spend of `more` was seen, in order.
pub open spec fn record_all(spends: Seq<SpendView>, more: Seq<SpendView>) -> Seq<SpendView>
    decreases more.len(),
{
    if more.len() == 0 {
        spends
    } else {
        record(record_all(spends, more.drop_last()), more.last())
    }
}

/// The DAG `m` after `spend` was seen at `addr`.
pub open spec fn inserted(m: Map<Seq<u8>, Seq<SpendView>>, addr: Seq<u8>, spend: SpendView) -> Map<
    Seq<u8>,
    Seq<SpendView>,
> {
    m.insert(addr, record(spends_at(m, addr), spend))
}

/// The DAG that holds what `m1` and `m2` hold: at each address the spends of
/// `m1`, then those of `m2` that `m1` did not have.
pub open spec fn merged(m1: Map<Seq<u8>, Seq<SpendView>>, m2: Map<Seq<u8>, Seq<SpendView>>) -> Map<
    Seq<u8>,
    Seq<SpendView>,
> {
    Map::new(
        |a: Seq<u8>| m1.dom().contains(a) || m2.dom().contains(a),
        |a: Seq<u8>| record_all(spends_at(m1, a), spends_at(m2, a)),
    )
}

/// Whether `addr` holds a double spend in `m`.
pub open spec fn is_double_spend(m: Map<Seq<u8>, Seq<SpendView>>, addr: Seq<u8>) -> bool {
    spends_at(m, addr).len() >= 2
}

/// What every DAG's view satisfies: finitely many addresses, and at each of
/// them at least one spend and no spend twice.
pub open spec fn well_formed(m: Map<Seq<u8>, Seq<SpendView>>) -> bool {
    &&& m.dom().finite()
    &&& forall|a: Seq<u8>| #[trigger]
        m.dom().contains(a) ==> m[a].len() > 0 && m[a].no_duplicates()
}

/// The root that a DAG has after an insert at `addr`.
pub open spec fn root_after(root: Option<Seq<u8>>, addr: Seq<u8>) -> Option<Seq<u8>> {
    if root is Some {
        root
    } else {
        Some(addr)
    }
}

/// What the DAG holds at one address.
#[derive(Debug)]
pub enum DagEntry {
    /// The one spend seen at the address.
    Spend(SignedSpend),
    /// Two or more different spends seen at the address, oldest first.
    DoubleSpend(Vec<SignedSpend>),
}

impl View for DagEntry {
    type V = Seq<SpendView>;

    open spec fn view(&self) -> Seq<SpendView> {
        match self {
            DagEntry::Spend(spend) => seq![spend@],
            DagEntry::DoubleSpend(spends) => spends_view(spends@),
        }
    }
}

/// Whether two vectors of spends hold the same spends in the same order.
pub fn spends_eq(a: &Vec<SignedSpend>, b: &Vec<SignedSpend>) -> (r: bool)
    ensures
        r == (spends_view(a@) == spends_view(b@)),
{
    if a.len() != b.len() {
        assert(spends_view(a@).len() != spends_view(b@).len());
        return false;
    }
    let mut i: usize = 0;
    while i < a.len()
        invariant
            i <= a.len(),
            a.len() == b.len(),
            forall|j: int| 0 <= j < i ==> a@[j]@ == b@[j]@,
        decreases a.len() - i,
    {
        if a[i] != b[i] {
            assert(spends_view(a@)[i as int] != spends_view(b@)[i as int]);
            return false;
        }
        i += 1;
    }
    assert(spends_view(a@) =~= spends_view(b@));
    true
}

impl PartialEq for DagEntry {
    fn eq(&self, other: &Self) -> (r: bool) {
        match (self, other) {
            (DagEntry::Spend(a), DagEntry::Spend(b)) => {
                let r = a == b;
                assert(r == (seq![a@] =~= seq![b@])) by {
                    if seq![a@] == seq![b@] {
                        assert(seq![a@][0] == seq![b@][0]);
                    }
                }
                r
            },
            (DagEntry::DoubleSpend(a), DagEntry::DoubleSpend(b)) => spends_eq(a, b),
            _ => false,
        }
    }
}

impl PartialEqSpecImpl for DagEntry {
    open spec fn obeys_eq_spec() -> bool {
        true
    }

    open spec fn eq_spec(&self, other: &Self) -> bool {
        (self is Spend) == (other is Spend) && self@ == other@
    }
}

impl Eq for DagEntry {

}

pub(crate) struct Slot {
    pub(crate) addr: SpendAddress,
    pub(crate) spends: Vec<SignedSpend>,
}

/// A graph of spends keyed by address. The edges are not stored: they follow
/// from the transactions that the spends name.
pub struct SpendDag {
    pub(crate) slots: Vec<Slot>,
    pub(crate) root: Option<SpendAddress>,
}

pub(crate) open spec fn slot_addrs(slots: Seq<Slot>) -> Seq<Seq<u8>> {
    Seq::new(slots.len(), |i: int| slots[i].addr@)
}

pub(crate) open spec fn view_of(slots: Seq<Slot>) -> Map<Seq<u8>, Seq<SpendView>> {
    Map::new(
        |a: Seq<u8>| slot_addrs(slots).contains(a),
        |a: Seq<u8>| spends_view(slots[slot_addrs(slots).index_of(a)].spends@),
    )
}

pub(crate) open spec fn slots_wf(slots: Seq<Slot>) -> bool {
    &&& slot_addrs(slots).no_duplicates()
    &&& forall|i: int|
        0 <= i < slots.len() ==> (#[trigger] slots[i]).spends@.len() > 0 && spends_view(
            slots[i].spends@,
        ).no_duplicates()
}

pub(crate) proof fn lemma_slot_lookup(slots: Seq<Slot>, i: int)
    requires
        slot_addrs(slots).no_duplicates(),
        0 <= i < slots.len(),
    ensures
        view_of(slots).dom().contains(slots[i].addr@),
        view_of(slots)[slots[i].addr@] == spends_view(slots[i].spends@),
        slot_addrs(slots).index_of(slots[i].addr@) == i,
{
    let addrs = slot_addrs(slots);
    assert(addrs[i] == slots[i].addr@);
    let k = addrs.index_of(slots[i].addr@);
    assert(0 <= k < addrs.len() && addrs[k] == slots[i].addr@);
}

pub(crate) proof fn lemma_view_of_push(slots: Seq<Slot>, slot: Slot)
    requires
        slot_addrs(slots).no_duplicates(),
        !slot_addrs(slots).contains(slot.addr@),
    ensures
        slot_addrs(slots.push(slot)).no_duplicates(),
        view_of(slots.push(slot)) == view_of(slots).insert(slot.addr@, spends_view(slot.spends@)),
{
    let after = slots.push(slot);
    let addrs = slot_addrs(slots);
    let addrs2 = slot_addrs(after);
    assert(addrs2 =~= addrs.push(slot.addr@));
    assert forall|i: int, j: int| 0 <= i < addrs2.len() && 0 <= j < addrs2.len() && i != j implies addrs2[i]
        != addrs2[j] by {
        if i < addrs.len() {
            assert(addrs[i] == addrs2[i]);
        }
        if j < addrs.len() {
            assert(addrs[j] == addrs2[j]);
        }
    }
    let m = view_of(slots).insert(slot.addr@, spends_view(slot.spends@));
    assert forall|a: Seq<u8>| view_of(after).dom().contains(a) <==> m.dom().contains(a) by {
        if addrs2.contains(a) {
            let k = choose|k: int| 0 <= k < addrs2.len() && addrs2[k] == a;
            if k < addrs.len() {
                assert(addrs[k] == a);
            }
        }
        if addrs.contains(a) {
            let k = choose|k: int| 0 <= k < addrs.len() && addrs[k] == a;
            assert(addrs2[k] == a);
        }
        if a == slot.addr@ {
            assert(addrs2[addrs.len() as int] == a);
        }
    }
    assert forall|a: Seq<u8>| view_of(after).dom().contains(a) implies view_of(after)[a] == m[a] by {
        let k = addrs2.index_of(a);
        assert(0 <= k < addrs2.len() && addrs2[k] == a);
        lemma_slot_lookup(after, k);
        if k < addrs.len() {
            assert(addrs[k] == a);
            lemma_slot_lookup(slots, k);
        }
    }
    assert(view_of(after) =~= m);
}

pub(crate) proof fn lemma_view_of_update(slots: Seq<Slot>, i: int, slot: Slot)
    requires
        slot_addrs(slots).no_duplicates(),
        0 <= i < slots.len(),
        slot.addr@ == slots[i].addr@,
    ensures
        slot_addrs(slots.update(i, slot)) == slot_addrs(slots),
        view_of(slots.update(i, slot)) == view_of(slots).insert(
            slot.addr@,
            spends_view(slot.spends@),
        ),
{
    let after = slots.update(i, slot);
    let addrs = slot_addrs(slots);
    assert(slot_addrs(after) =~= addrs);
    let m = view_of(slots).insert(slot.addr@, spends_view(slot.spends@));
    lemma_slot_lookup(slots, i);
    assert forall|a: Seq<u8>| view_of(after).dom().contains(a) implies view_of(after)[a] == m[a] by {
        let k = addrs.index_of(a);
        assert(0 <= k < addrs.len() && addrs[k] == a);
        lemma_slot_lookup(after, k);
        lemma_slot_lookup(slots, k);
    }
    assert(view_of(after) =~= m);
}

pub(crate) proof fn lemma_view_of_well_formed(slots: Seq<Slot>)
    requires
        slots_wf(slots),
    ensures
        well_formed(view_of(slots)),
        view_of(slots).dom().len() == slots.len(),
{
    let addrs = slot_addrs(slots);
    assert(view_of(slots).dom() =~= addrs.to_set());
    vstd::seq_lib::seq_to_set_is_finite(addrs);
    addrs.unique_seq_to_set();
    assert forall|a: Seq<u8>| #[trigger]
        view_of(slots).dom().contains(a) implies view_of(slots)[a].len() > 0 && view_of(
        slots,
    )[a].no_duplicates() by {
        let k = addrs.index_of(a);
        assert(0 <= k < addrs.len() && addrs[k] == a);
        lemma_slot_lookup(slots, k);
    }
}

/// The index at which `spend` stands in `spends`, if it is there.
pub fn position_of(spends: &Vec<SignedSpend>, spend: &SignedSpend) -> (at: Option<usize>)
    ensures
        match at {
            Some(i) => i < spends.len() && spends@[i as int]@ == spend@,
            None => !spends_view(spends@).contains(spend@),
        },
{
    let mut i: usize = 0;
    while i < spends.len()
        invariant
            i <= spends.len(),
            forall|j: int| 0 <= j < i ==> spends@[j]@ != spend@,
        decreases spends.len() - i,
    {
        if spends[i] == *spend {
            return Some(i);
        }
        i += 1;
    }
    assert forall|j: int| 0 <= j < spends_view(spends@).len() implies spends_view(spends@)[j]
        != spend@ by {
        assert(spends_view(spends@)[j] == spends@[j]@);
    }
    None
}

/// A copy of a vector of spends.
pub fn clone_spends(spends: &Vec<SignedSpend>) -> (copy: Vec<SignedSpend>)
    ensures
        spends_view(copy@) == spends_view(spends@),
{
    let mut copy: Vec<SignedSpend> = Vec::new();
    let mut i: usize = 0;
    while i < spends.len()
        invariant
            i <= spends.len(),
            copy@.len() == i,
            forall|j: int| 0 <= j < i ==> copy@[j]@ == spends@[j]@,
        decreases spends.len() - i,
    {
        copy.push(spends[i].clone());
        i += 1;
    }
    assert(spends_view(copy@) =~= spends_view(spends@));
    copy
}

impl View for SpendDag {
    type V = Map<Seq<u8>, Seq<SpendView>>;

    closed spec fn view(&self) -> Map<Seq<u8>, Seq<SpendView>> {
        view_of(self.slots@)
    }
}

impl SpendDag {
    /// The invariant of the DAG: no address twice, no address without a
    /// spend, no spend twice at one address, and a root once it holds a spend.
    pub closed spec fn wf(&self) -> bool {
        &&& slots_wf(self.slots@)
        &&& self.slots@.len() > 0 ==> self.root is Some
    }

    /// The designated root, if one was set.
    pub closed spec fn root_view(&self) -> Option<Seq<u8>> {
        match self.root {
            Some(addr) => Some(addr@),
            None => None,
        }
    }

    pub(crate) proof fn lemma_unfold(&self)
        ensures
            self.wf() == (slots_wf(self.slots@) && (self.slots@.len() > 0 ==> self.root is Some)),
            self@ == view_of(self.slots@),
    {
    }

    /// The view of a DAG is finite, and holds at each address at least one
    /// spend and no spend twice.
    pub proof fn lemma_well_formed(&self)
        requires
            self.wf(),
        ensures
            well_formed(self@),
    {
        lemma_view_of_well_formed(self.slots@);
    }

    /// An empty DAG without a root.
    pub fn new() -> (dag: SpendDag)
        ensures
            dag.wf(),
            dag@ == Map::<Seq<u8>, Seq<SpendView>>::empty(),
            dag.root_view() is None,
    {
        let dag = SpendDag { slots: Vec::new(), root: None };
        assert(dag@ =~= Map::<Seq<u8>, Seq<SpendView>>::empty());
        dag
    }

    /// An empty DAG whose root is `root`.
    pub fn with_root(root: SpendAddress) -> (dag: SpendDag)
        ensures
            dag.wf(),
            dag@ == Map::<Seq<u8>, Seq<SpendView>>::empty(),
            dag.root_view() == Some(root@),
    {
        let dag = SpendDag { slots: Vec::new(), root: Some(root) };
        assert(dag@ =~= Map::<Seq<u8>, Seq<SpendView>>::empty());
        dag
    }

    /// The designated root: the address of the first insert, unless one was
    /// given when the DAG was made.
    pub fn root(&self) -> (root: Option<SpendAddress>)
        ensures
            match root {
                Some(addr) => self.root_view() == Some(addr@),
                None => self.root_view() is None,
            },
    {
        self.root
    }

    fn find(&self, addr: &SpendAddress) -> (at: Option<usize>)
        ensures
            match at {
                Some(i) => i < self.slots@.len() && self.slots@[i as int].addr@ == addr@,
                None => !slot_addrs(self.slots@).contains(addr@),
            },
    {
        let mut i: usize = 0;
        while i < self.slots.len()
            invariant
                i <= self.slots@.len(),
                forall|j: int| 0 <= j < i ==> self.slots@[j].addr@ != addr@,
            decreases self.slots@.len() - i,
        {
            if self.slots[i].addr == *addr {
                return Some(i);
            }
            i += 1;
        }
        assert forall|j: int| 0 <= j < slot_addrs(self.slots@).len() implies slot_addrs(
            self.slots@,
        )[j] != addr@ by {
            assert(slot_addrs(self.slots@)[j] == self.slots@[j].addr@);
        }
        None
    }

    /// The number of addresses that hold a spend.
    pub fn len(&self) -> (n: usize)
        requires
            self.wf(),
        ensures
            n == self@.dom().len(),
    {
        proof {
            lemma_view_of_well_formed(self.slots@);
        }
        self.slots.len()
    }

    /// Whether no address holds a spend.
    pub fn is_empty(&self) -> (b: bool)
        requires
            self.wf(),
        ensures
            b == (self@.dom().len() == 0),
    {
        proof {
            lemma_view_of_well_formed(self.slots@);
        }
        self.slots.len() == 0
    }

    /// Whether a spend was seen at `addr`.
    pub fn contains(&self, addr: &SpendAddress) -> (b: bool)
        requires
            self.wf(),
        ensures
            b == self@.dom().contains(addr@),
    {
        match self.find(addr) {
            Some(i) => {
                proof {
                    lemma_slot_lookup(self.slots@, i as int);
                }
                true
            },
            None => false,
        }
    }

    /// Records `spend` at `addr` and says whether it was new there. A spend
    /// that differs from what the address already holds is new: it is kept
    /// beside the others, and the address then holds a double spend.
    pub fn check_and_insert(&mut self, addr: SpendAddress, spend: SignedSpend) -> (is_new: bool)
        requires
            old(self).wf(),
        ensures
            final(self).wf(),
            is_new == !spends_at(old(self)@, addr@).contains(spend@),
            final(self)@ == inserted(old(self)@, addr@, spend@),
            final(self).root_view() == root_after(old(self).root_view(), addr@),
    {
        if self.root.is_none() {
            self.root = Some(addr);
        }
        match self.find(&addr) {
            None => {
                let ghost before = self.slots@;
                let mut spends: Vec<SignedSpend> = Vec::new();
                spends.push(spend);
                let slot = Slot { addr, spends };
                proof {
                    assert(spends_view(slot.spends@) =~= seq![spend@]);
                    assert(seq![spend@] =~= Seq::<SpendView>::empty().push(spend@));
                    lemma_view_of_push(before, slot);
                }
                self.slots.push(slot);
                true
            },
            Some(i) => {
                let ghost before = self.slots@;
                proof {
                    lemma_slot_lookup(before, i as int);
                }
                match position_of(&self.slots[i].spends, &spend) {
                    Some(_) => {
                        proof {
                            let held = spends_view(before[i as int].spends@);
                            assert(held.contains(spend@)) by {
                                let k = choose|k: int|
                                    0 <= k < before[i as int].spends@.len() && before[i as int].spends@[k]@
                                        == spend@;
                                assert(held[k] == spend@);
                            }
                            assert(self@ =~= inserted(self@, addr@, spend@));
                        }
                        false
                    },
                    None => {
                        self.slots[i].spends.push(spend);
                        proof {
                            let slot = self.slots@[i as int];
                            let held = spends_view(before[i as int].spends@);
                            assert(spends_view(slot.spends@) =~= held.push(spend@));
                            assert(self.slots@ =~= before.update(i as int, slot));
                            lemma_view_of_update(before, i as int, slot);
                            assert forall|a: int, b: int|
                                0 <= a < held.push(spend@).len() && 0 <= b < held.push(
                                    spend@,
                                ).len() && a != b implies held.push(spend@)[a] != held.push(
                                spend@,
                            )[b] by {
                                if a < held.len() {
                                    assert(held.contains(held[a]));
                                }
                                if b < held.len() {
                                    assert(held.contains(held[b]));
                                }
                            }
                        }
                        true
                    },
                }
            },
        }
    }

    /// Records `spend` at `addr`, whatever the address holds already.
    pub fn insert(&mut self, addr: SpendAddress, spend: SignedSpend)
        requires
            old(self).wf(),
        ensures
            final(self).wf(),
            final(self)@ == inserted(old(self)@, addr@, spend@),
            final(self).root_view() == root_after(old(self).root_view(), addr@),
    {
        let _ = self.check_and_insert(addr, spend);
    }

    /// What the DAG holds at `addr`: nothing, one spend, or a double spend
    /// with every spend that was seen there.
    pub fn get(&self, addr: &SpendAddress) -> (entry: Option<DagEntry>)
        requires
            self.wf(),
        ensures
            match entry {
                Some(e) => self@.dom().contains(addr@) && e@ == self@[addr@] && (e is Spend
                    <==> self@[addr@].len() == 1),
                None => !self@.dom().contains(addr@),
            },
    {
        match self.find(addr) {
            None => None,
            Some(i) => {
                proof {
                    lemma_slot_lookup(self.slots@, i as int);
                }
                let spends = &self.slots[i].spends;
                if spends.len() == 1 {
                    let spend = spends[0].clone();
                    assert(seq![spend@] =~= spends_view(spends@));
                    Some(DagEntry::Spend(spend))
                } else {
                    Some(DagEntry::DoubleSpend(clone_spends(spends)))
                }
            },
        }
    }

    /// The spends seen at `addr`, oldest first.
    pub fn spends(&self, addr: &SpendAddress) -> (spends: Vec<SignedSpend>)
        requires
            self.wf(),
        ensures
            spends_view(spends@) == spends_at(self@, addr@),
    {
        match self.find(addr) {
            None => {
                let spends: Vec<SignedSpend> = Vec::new();
                assert(spends_view(spends@) =~= Seq::<SpendView>::empty());
                spends
            },
            Some(i) => {
                proof {
                    lemma_slot_lookup(self.slots@, i as int);
                }
                clone_spends(&self.slots[i].spends)
            },
        }
    }

    /// The addresses that hold a spend, each once.
    pub fn addresses(&self) -> (addrs: Vec<SpendAddress>)
        requires
            self.wf(),
        ensures
            addresses_view(addrs@).no_duplicates(),
            addresses_view(addrs@).to_set() == self@.dom(),
    {
        let mut addrs: Vec<SpendAddress> = Vec::new();
        let mut i: usize = 0;
        while i < self.slots.len()
            invariant
                i <= self.slots@.len(),
                addrs@.len() == i,
                forall|j: int| 0 <= j < i ==> addrs@[j]@ == self.slots@[j].addr@,
            decreases self.slots@.len() - i,
        {
            addrs.push(self.slots[i].addr);
            i += 1;
        }
        assert(addresses_view(addrs@) =~= slot_addrs(self.slots@));
        assert(slot_addrs(self.slots@).to_set() =~= self@.dom());
        addrs
    }

    fn merge_slot(&mut self, slot: &Slot)
        requires
            old(self).wf(),
            slot.spends@.len() > 0,
        ensures
            final(self).wf(),
            final(self)@ == old(self)@.insert(
                slot.addr@,
                record_all(spends_at(old(self)@, slot.addr@), spends_view(slot.spends@)),
            ),
            final(self).root_view() == root_after(old(self).root_view(), slot.addr@),
    {
        let ghost before = self@;
        let ghost more = spends_view(slot.spends@);
        let mut j: usize = 0;
        while j < slot.spends.len()
            invariant
                j <= slot.spends@.len(),
                more == spends_view(slot.spends@),
                self.wf(),
                j == 0 ==> self@ == before && self.root_view() == old(self).root_view(),
                j > 0 ==> self@ == before.insert(
                    slot.addr@,
                    record_all(spends_at(before, slot.addr@), more.take(j as int)),
                ),
                j > 0 ==> self.root_view() == root_after(old(self).root_view(), slot.addr@),
            decreases slot.spends@.len() - j,
        {
            let ghost held = self@;
            self.insert(slot.addr, slot.spends[j].clone());
            proof {
                let a = slot.addr@;
                let done = more.take(j as int);
                let next = more.take(j + 1);
                assert(next.drop_last() =~= done);
                assert(next.last() == slot.spends@[j as int]@);
                if j == 0 {
                    assert(done.len() == 0);
                }
                assert(spends_at(held, a) == record_all(spends_at(before, a), done));
                assert(self@ =~= before.insert(a, record_all(spends_at(before, a), next)));
            }
            j += 1;
        }
        assert(more.take(j as int) =~= more);
    }

    /// Takes over everything that `other` holds. An address that both hold
    /// keeps its own spends and gets those of `other` that it did not have.
    pub fn merge(&mut self, other: SpendDag)
        requires
            old(self).wf(),
            other.wf(),
        ensures
            final(self).wf(),
            final(self)@ == merged(old(self)@, other@),
            final(self).root_view() == (if old(self).root_view() is Some {
                old(self).root_view()
            } else {
                other.root_view()
            }),
    {
        let ghost before = self@;
        if self.root.is_none() {
            self.root = other.root;
        }
        let ghost root = self.root_view();
        let mut i: usize = 0;
        assert(self@ =~= merged(before, view_of(other.slots@.take(0)))) by {
            assert(view_of(other.slots@.take(0)).dom() =~= Set::<Seq<u8>>::empty());
            lemma_merged_empty(before);
        }
        while i < other.slots.len()
            invariant
                i <= other.slots@.len(),
                self.wf(),
                other.wf(),
                self@ == merged(before, view_of(other.slots@.take(i as int))),
                self.root_view() == root,
                other.slots@.len() > 0 ==> root is Some,
            decreases other.slots@.len() - i,
        {
            self.merge_slot(&other.slots[i]);
            proof {
                lemma_merged_step(before, other.slots@, i as int);
            }
            i += 1;
        }
        assert(other.slots@.take(i as int) =~= other.slots@);
    }

    /// The frontier of unspent outputs: the addresses of the output keys of
    /// the transactions that the spends of this DAG spent, but for the
    /// addresses that the DAG holds. Each address stands once.
    pub fn get_utxos(&self) -> (utxos: Vec<SpendAddress>)
        requires
            self.wf(),
        ensures
            addresses_view(utxos@).no_duplicates(),
            forall|a: Seq<u8>|
                #![trigger addresses_view(utxos@).contains(a)]
                #![trigger is_utxo(self@, a)]
                addresses_view(utxos@).contains(a) <==> is_utxo(self@, a),
    {
        let mut utxos: Vec<SpendAddress> = Vec::new();
        let mut s: usize = 0;
        while s < self.slots.len()
            invariant
                s <= self.slots@.len(),
                self.wf(),
                addresses_view(utxos@).no_duplicates(),
                forall|a: Seq<u8>|
                    addresses_view(utxos@).contains(a) <==> !self@.dom().contains(a)
                        && output_before(self.slots@, s as int, 0, 0, a),
            decreases self.slots@.len() - s,
        {
            let mut p: usize = 0;
            while p < self.slots[s].spends.len()
                invariant
                    s < self.slots@.len(),
                    p <= self.slots@[s as int].spends@.len(),
                    self.wf(),
                    addresses_view(utxos@).no_duplicates(),
                    forall|a: Seq<u8>|
                        addresses_view(utxos@).contains(a) <==> !self@.dom().contains(a)
                            && output_before(self.slots@, s as int, p as int, 0, a),
                decreases self.slots@[s as int].spends@.len() - p,
            {
                let outputs = &self.slots[s].spends[p].spent_tx.outputs;
                let mut o: usize = 0;
                while o < outputs.len()
                    invariant
                        s < self.slots@.len(),
                        p < self.slots@[s as int].spends@.len(),
                        outputs == &self.slots@[s as int].spends@[p as int].spent_tx.outputs,
                        o <= outputs@.len(),
                        self.wf(),
                        addresses_view(utxos@).no_duplicates(),
                        forall|a: Seq<u8>|
                            addresses_view(utxos@).contains(a) <==> !self@.dom().contains(a)
                                && output_before(self.slots@, s as int, p as int, o as int, a),
                    decreases outputs@.len() - o,
                {
                    let addr = SpendAddress::from_unique_pubkey(&outputs[o]);
                    let ghost held = addresses_view(utxos@);
                    let fresh = !self.contains(&addr) && !contains_address(&utxos, &addr);
                    if fresh {
                        utxos.push(addr);
                    }
                    proof {
                        let now = addresses_view(utxos@);
                        if fresh {
                            assert(now =~= held.push(addr@));
                            assert forall|x: int, y: int|
                                0 <= x < now.len() && 0 <= y < now.len() && x != y implies now[x]
                                != now[y] by {
                                if x < held.len() {
                                    assert(held.contains(held[x]));
                                }
                                if y < held.len() {
                                    assert(held.contains(held[y]));
                                }
                            }
                        } else {
                            assert(now =~= held);
                        }
                        assert forall|a: Seq<u8>|
                            now.contains(a) <==> !self@.dom().contains(a) && output_before(
                                self.slots@,
                                s as int,
                                p as int,
                                o + 1,
                                a,
                            ) by {
                            lemma_output_before_step(self.slots@, s as int, p as int, o as int, a);
                            if fresh {
                                if now.contains(a) {
                                    let k = choose|k: int| 0 <= k < now.len() && now[k] == a;
                                    if k < held.len() {
                                        assert(held[k] == a);
                                    }
                                }
                                if held.contains(a) {
                                    let k = choose|k: int| 0 <= k < held.len() && held[k] == a;
                                    assert(now[k] == a);
                                }
                                assert(now[held.len() as int] == addr@);
                            }
                        }
                    }
                    o += 1;
                }
                proof {
                    assert forall|a: Seq<u8>|
                        output_before(self.slots@, s as int, p as int, o as int, a)
                            == output_before(self.slots@, s as int, p + 1, 0, a) by {
                        lemma_output_before_next_spend(self.slots@, s as int, p as int, a);
                    }
                }
                p += 1;
            }
            proof {
                assert forall|a: Seq<u8>|
                    output_before(self.slots@, s as int, p as int, 0, a) == output_before(
                        self.slots@,
                        s + 1,
                        0,
                        0,
                        a,
                    ) by {
                    lemma_output_before_next_slot(self.slots@, s as int, a);
                }
            }
            s += 1;
        }
        proof {
            assert forall|a: Seq<u8>| addresses_view(utxos@).contains(a) <==> is_utxo(self@, a) by {
                lemma_output_before_all(self.slots@, a);
            }
        }
        utxos
    }
}

/// Whether `addr` stands in `addrs`.
pub fn contains_address(addrs: &Vec<SpendAddress>, addr: &SpendAddress) -> (b: bool)
    ensures
        b == addresses_view(addrs@).contains(addr@),
{
    let mut i: usize = 0;
    while i < addrs.len()
        invariant
            i <= addrs.len(),
            forall|j: int| 0 <= j < i ==> addrs@[j]@ != addr@,
        decreases addrs.len() - i,
    {
        if addrs[i] == *addr {
            assert(addresses_view(addrs@)[i as int] == addr@);
            return true;
        }
        i += 1;
    }
    assert forall|j: int| 0 <= j < addresses_view(addrs@).len() implies addresses_view(addrs@)[j]
        != addr@ by {
        assert(addresses_view(addrs@)[j] == addrs@[j]@);
    }
    false
}

/// Whether `a` is the address of an output key of a transaction that a spend
/// of `m` spent.
pub open spec fn is_output_of(m: Map<Seq<u8>, Seq<SpendView>>, a: Seq<u8>) -> bool {
    exists|addr: Seq<u8>, i: int, j: int|
        m.dom().contains(addr) && 0 <= i < m[addr].len() && 0 <= j
            < m[addr][i].spent_tx.outputs.len() && content_name(
            #[trigger] m[addr][i].spent_tx.outputs[j],
        ) == a
}

/// Whether `a` is an unspent output of `m`: the address of an output of a
/// spent transaction, at which `m` holds no spend.
pub open spec fn is_utxo(m: Map<Seq<u8>, Seq<SpendView>>, a: Seq<u8>) -> bool {
    !m.dom().contains(a) && is_output_of(m, a)
}

pub(crate) open spec fn output_at(slots: Seq<Slot>, s: int, p: int, o: int) -> Seq<u8> {
    content_name(slots[s].spends@[p].spent_tx.outputs@[o]@)
}

pub(crate) open spec fn output_in_range(slots: Seq<Slot>, s: int, p: int, o: int) -> bool {
    0 <= s < slots.len() && 0 <= p < slots[s].spends@.len() && 0 <= o
        < slots[s].spends@[p].spent_tx.outputs@.len()
}

pub(crate) open spec fn comes_before(s1: int, p1: int, o1: int, s: int, p: int, o: int) -> bool {
    s1 < s || (s1 == s && (p1 < p || (p1 == p && o1 < o)))
}

pub(crate) open spec fn output_before(slots: Seq<Slot>, s: int, p: int, o: int, a: Seq<u8>) -> bool {
    exists|s1: int, p1: int, o1: int|
        output_in_range(slots, s1, p1, o1) && comes_before(s1, p1, o1, s, p, o)
            && #[trigger] output_at(slots, s1, p1, o1) == a
}

pub(crate) proof fn lemma_output_before_step(slots: Seq<Slot>, s: int, p: int, o: int, a: Seq<u8>)
    requires
        output_in_range(slots, s, p, o),
    ensures
        output_before(slots, s, p, o + 1, a) <==> output_before(slots, s, p, o, a) || output_at(
            slots,
            s,
            p,
            o,
        ) == a,
{
    if output_before(slots, s, p, o + 1, a) {
        let (s1, p1, o1) = choose|s1: int, p1: int, o1: int|
            output_in_range(slots, s1, p1, o1) && comes_before(s1, p1, o1, s, p, o + 1)
                && #[trigger] output_at(slots, s1, p1, o1) == a;
        if !(s1 == s && p1 == p && o1 == o) {
            assert(comes_before(s1, p1, o1, s, p, o));
        }
    }
    if output_before(slots, s, p, o, a) {
        let (s1, p1, o1) = choose|s1: int, p1: int, o1: int|
            output_in_range(slots, s1, p1, o1) && comes_before(s1, p1, o1, s, p, o)
                && #[trigger] output_at(slots, s1, p1, o1) == a;
        assert(comes_before(s1, p1, o1, s, p, o + 1));
    }
    if output_at(slots, s, p, o) == a {
        assert(comes_before(s, p, o, s, p, o + 1));
    }
}

pub(crate) proof fn lemma_output_before_next_spend(slots: Seq<Slot>, s: int, p: int, a: Seq<u8>)
    requires
        0 <= s < slots.len(),
        0 <= p < slots[s].spends@.len(),
    ensures
        output_before(slots, s, p, slots[s].spends@[p].spent_tx.outputs@.len() as int, a)
            == output_before(slots, s, p + 1, 0, a),
{
    let n = slots[s].spends@[p].spent_tx.outputs@.len() as int;
    if output_before(slots, s, p, n, a) {
        let (s1, p1, o1) = choose|s1: int, p1: int, o1: int|
            output_in_range(slots, s1, p1, o1) && comes_before(s1, p1, o1, s, p, n)
                && #[trigger] output_at(slots, s1, p1, o1) == a;
        assert(comes_before(s1, p1, o1, s, p + 1, 0));
    }
    if output_before(slots, s, p + 1, 0, a) {
        let (s1, p1, o1) = choose|s1: int, p1: int, o1: int|
            output_in_range(slots, s1, p1, o1) && comes_before(s1, p1, o1, s, p + 1, 0)
                && #[trigger] output_at(slots, s1, p1, o1) == a;
        assert(comes_before(s1, p1, o1, s, p, n));
    }
}

pub(crate) proof fn lemma_output_before_next_slot(slots: Seq<Slot>, s: int, a: Seq<u8>)
    requires
        0 <= s < slots.len(),
    ensures
        output_before(slots, s, slots[s].spends@.len() as int, 0, a) == output_before(
            slots,
            s + 1,
            0,
            0,
            a,
        ),
{
    let n = slots[s].spends@.len() as int;
    if output_before(slots, s, n, 0, a) {
        let (s1, p1, o1) = choose|s1: int, p1: int, o1: int|
            output_in_range(slots, s1, p1, o1) && comes_before(s1, p1, o1, s, n, 0)
                && #[trigger] output_at(slots, s1, p1, o1) == a;
        assert(comes_before(s1, p1, o1, s + 1, 0, 0));
    }
    if output_before(slots, s + 1, 0, 0, a) {
        let (s1, p1, o1) = choose|s1: int, p1: int, o1: int|
            output_in_range(slots, s1, p1, o1) && comes_before(s1, p1, o1, s + 1, 0, 0)
                && #[trigger] output_at(slots, s1, p1, o1) == a;
        assert(comes_before(s1, p1, o1, s, n, 0));
    }
}

pub(crate) proof fn lemma_output_before_all(slots: Seq<Slot>, a: Seq<u8>)
    requires
        slots_wf(slots),
    ensures
        output_before(slots, slots.len() as int, 0, 0, a) == is_output_of(view_of(slots), a),
{
    let m = view_of(slots);
    let n = slots.len() as int;
    if output_before(slots, n, 0, 0, a) {
        let (s1, p1, o1) = choose|s1: int, p1: int, o1: int|
            output_in_range(slots, s1, p1, o1) && comes_before(s1, p1, o1, n, 0, 0)
                && #[trigger] output_at(slots, s1, p1, o1) == a;
        lemma_slot_lookup(slots, s1);
        let addr = slots[s1].addr@;
        assert(m[addr][p1] == slots[s1].spends@[p1]@);
        assert(m[addr][p1].spent_tx.outputs[o1] == slots[s1].spends@[p1].spent_tx.outputs@[o1]@);
        assert(content_name(m[addr][p1].spent_tx.outputs[o1]) == a);
    }
    if is_output_of(m, a) {
        let (addr, i, j) = choose|addr: Seq<u8>, i: int, j: int|
            m.dom().contains(addr) && 0 <= i < m[addr].len() && 0 <= j
                < m[addr][i].spent_tx.outputs.len() && content_name(
                #[trigger] m[addr][i].spent_tx.outputs[j],
            ) == a;
        let addrs = slot_addrs(slots);
        let s1 = addrs.index_of(addr);
        assert(0 <= s1 < addrs.len() && addrs[s1] == addr);
        lemma_slot_lookup(slots, s1);
        assert(m[addr][i] == slots[s1].spends@[i]@);
        assert(m[addr][i].spent_tx.outputs[j] == slots[s1].spends@[i].spent_tx.outputs@[j]@);
        assert(output_in_range(slots, s1, i, j));
        assert(comes_before(s1, i, j, n, 0, 0));
        assert(output_at(slots, s1, i, j) == a);
    }
}

pub(crate) proof fn lemma_merged_empty(m: Map<Seq<u8>, Seq<SpendView>>)
    ensures
        forall|m2: Map<Seq<u8>, Seq<SpendView>>|
            m2.dom() =~= Set::<Seq<u8>>::empty() ==> #[trigger] merged(m, m2) == m,
{
    assert forall|m2: Map<Seq<u8>, Seq<SpendView>>|
        m2.dom() =~= Set::<Seq<u8>>::empty() implies #[trigger] merged(m, m2) == m by {
        assert(merged(m, m2) =~= m);
    }
}

pub(crate) proof fn lemma_merged_step(before: Map<Seq<u8>, Seq<SpendView>>, slots: Seq<Slot>, i: int)
    requires
        slots_wf(slots),
        0 <= i < slots.len(),
    ensures
        merged(before, view_of(slots.take(i + 1))) == merged(
            before,
            view_of(slots.take(i)),
        ).insert(
            slots[i].addr@,
            record_all(
                spends_at(merged(before, view_of(slots.take(i))), slots[i].addr@),
                spends_view(slots[i].spends@),
            ),
        ),
{
    let done = slots.take(i);
    let next = slots.take(i + 1);
    let a = slots[i].addr@;
    let addrs = slot_addrs(slots);
    assert(addrs[i] == a);
    assert(next =~= done.push(slots[i]));
    assert(slot_addrs(done) =~= addrs.take(i));
    assert(!slot_addrs(done).contains(a)) by {
        if slot_addrs(done).contains(a) {
            let k = choose|k: int| 0 <= k < slot_addrs(done).len() && slot_addrs(done)[k] == a;
            assert(addrs[k] == a);
        }
    }
    assert(slot_addrs(done).no_duplicates()) by {
        assert forall|x: int, y: int|
            0 <= x < slot_addrs(done).len() && 0 <= y < slot_addrs(done).len() && x
                != y implies slot_addrs(done)[x] != slot_addrs(done)[y] by {
            assert(addrs[x] == slot_addrs(done)[x]);
            assert(addrs[y] == slot_addrs(done)[y]);
        }
    }
    lemma_view_of_push(done, slots[i]);
    let v0 = view_of(done);
    let v1 = view_of(next);
    assert(!v0.dom().contains(a));
    assert(spends_at(merged(before, v0), a) =~= spends_at(before, a));
    assert(merged(before, v1) =~= merged(before, v0).insert(
        a,
        record_all(spends_at(before, a), spends_view(slots[i].spends@)),
    ));
}

/// A spend that was recorded is there, and recording it again changes
/// nothing.
pub proof fn lemma_record_holds(spends: Seq<SpendView>, spend: SpendView)
    ensures
        record(spends, spend).contains(spend),
        record(record(spends, spend), spend) == record(spends, spend),
        forall|other: SpendView| spends.contains(other) ==> record(spends, spend).contains(other),
        record(spends, spend).len() >= spends.len(),
{
    let after = record(spends, spend);
    if !spends.contains(spend) {
        assert(after[spends.len() as int] == spend);
    }
    assert forall|other: SpendView| spends.contains(other) implies after.contains(other) by {
        let k = choose|k: int| 0 <= k < spends.len() && spends[k] == other;
        assert(after[k] == other);
    }
}

/// Checking and inserting the same spend at the same address twice: the
/// second call finds the spend there, so it returns `false`, and it leaves
/// the DAG as the first call left it.
pub proof fn lemma_check_and_insert_idempotent(
    m: Map<Seq<u8>, Seq<SpendView>>,
    addr: Seq<u8>,
    spend: SpendView,
)
    ensures
        spends_at(inserted(m, addr, spend), addr).contains(spend),
        inserted(inserted(m, addr, spend), addr, spend) == inserted(m, addr, spend),
{
    lemma_record_holds(spends_at(m, addr), spend);
    assert(inserted(inserted(m, addr, spend), addr, spend) =~= inserted(m, addr, spend));
}

/// No insert takes anything away: what an address held it still holds, and
/// an address that held a double spend holds one afterwards.
pub proof fn lemma_insert_monotonic(
    m: Map<Seq<u8>, Seq<SpendView>>,
    addr: Seq<u8>,
    spend: SpendView,
    at: Seq<u8>,
)
    ensures
        m.dom().contains(at) ==> inserted(m, addr, spend).dom().contains(at),
        forall|held: SpendView|
            spends_at(m, at).contains(held) ==> spends_at(inserted(m, addr, spend), at).contains(
                held,
            ),
        is_double_spend(m, at) ==> is_double_spend(inserted(m, addr, spend), at),
{
    lemma_record_holds(spends_at(m, addr), spend);
}

/// Two different spends inserted at one address leave a double spend there,
/// and inserting either of them again changes nothing.
pub proof fn lemma_double_spend_marked(
    m: Map<Seq<u8>, Seq<SpendView>>,
    addr: Seq<u8>,
    first: SpendView,
    second: SpendView,
)
    requires
        first != second,
    ensures
        is_double_spend(inserted(inserted(m, addr, first), addr, second), addr),
        inserted(inserted(inserted(m, addr, first), addr, second), addr, first) == inserted(
            inserted(m, addr, first),
            addr,
            second,
        ),
        inserted(inserted(inserted(m, addr, first), addr, second), addr, second) == inserted(
            inserted(m, addr, first),
            addr,
            second,
        ),
{
    let m1 = inserted(m, addr, first);
    let m2 = inserted(m1, addr, second);
    let held = spends_at(m2, addr);
    lemma_record_holds(spends_at(m, addr), first);
    lemma_record_holds(spends_at(m1, addr), second);
    assert(held.contains(first) && held.contains(second));
    let i = choose|i: int| 0 <= i < held.len() && held[i] == first;
    let j = choose|j: int| 0 <= j < held.len() && held[j] == second;
    assert(i != j);
    assert(inserted(m2, addr, first) =~= m2);
    assert(inserted(m2, addr, second) =~= m2);
}

/// The spends of `record_all(spends, more)` are those of `spends` and those
/// of `more`.
pub proof fn lemma_record_all_set(spends: Seq<SpendView>, more: Seq<SpendView>)
    ensures
        record_all(spends, more).to_set() == spends.to_set().union(more.to_set()),
        spends.no_duplicates() ==> record_all(spends, more).no_duplicates(),
    decreases more.len(),
{
    if more.len() == 0 {
        assert(more.to_set() =~= Set::<SpendView>::empty());
        assert(spends.to_set().union(more.to_set()) =~= spends.to_set());
    } else {
        let front = more.drop_last();
        let last = more.last();
        lemma_record_all_set(spends, front);
        let held = record_all(spends, front);
        let after = record(held, last);
        lemma_record_holds(held, last);
        assert forall|x: SpendView|
            after.to_set().contains(x) <==> spends.to_set().union(more.to_set()).contains(x) by {
            if after.contains(x) {
                let k = choose|k: int| 0 <= k < after.len() && after[k] == x;
                if k < held.len() {
                    assert(held[k] == x);
                    assert(held.to_set().contains(x));
                    if front.contains(x) {
                        let f = choose|f: int| 0 <= f < front.len() && front[f] == x;
                        assert(more[f] == x);
                    }
                } else {
                    assert(x == last);
                    assert(more[more.len() - 1] == x);
                }
            }
            if spends.contains(x) {
                assert(held.to_set().contains(x));
            }
            if more.contains(x) {
                let k = choose|k: int| 0 <= k < more.len() && more[k] == x;
                if k < front.len() {
                    assert(front[k] == x);
                    assert(front.to_set().contains(x));
                    assert(held.to_set().contains(x));
                }
            }
        }
        assert(after.to_set() =~= spends.to_set().union(more.to_set()));
        if spends.no_duplicates() && !held.contains(last) {
            assert forall|x: int, y: int|
                0 <= x < after.len() && 0 <= y < after.len() && x != y implies after[x]
                != after[y] by {
                if x < held.len() {
                    assert(held.contains(held[x]));
                }
                if y < held.len() {
                    assert(held.contains(held[y]));
                }
            }
        }
    }
}

/// Merging in either order gives the same addresses and, at each address,
/// the same spends: only the order of the spends of a double spend differs.
pub proof fn lemma_merge_commutes(
    m1: Map<Seq<u8>, Seq<SpendView>>,
    m2: Map<Seq<u8>, Seq<SpendView>>,
)
    ensures
        merged(m1, m2).dom() == merged(m2, m1).dom(),
        forall|a: Seq<u8>| #[trigger]
            spends_at(merged(m1, m2), a).to_set() == spends_at(merged(m2, m1), a).to_set(),
        well_formed(m1) && well_formed(m2) ==> forall|a: Seq<u8>| #[trigger]
            is_double_spend(merged(m1, m2), a) == is_double_spend(merged(m2, m1), a),
{
    assert(merged(m1, m2).dom() =~= merged(m2, m1).dom());
    assert forall|a: Seq<u8>| #[trigger]
        spends_at(merged(m1, m2), a).to_set() == spends_at(merged(m2, m1), a).to_set() by {
        lemma_record_all_set(spends_at(m1, a), spends_at(m2, a));
        lemma_record_all_set(spends_at(m2, a), spends_at(m1, a));
        assert(spends_at(m1, a).to_set().union(spends_at(m2, a).to_set()) =~= spends_at(
            m2,
            a,
        ).to_set().union(spends_at(m1, a).to_set()));
    }
    if well_formed(m1) && well_formed(m2) {
        assert forall|a: Seq<u8>| #[trigger]
            is_double_spend(merged(m1, m2), a) == is_double_spend(merged(m2, m1), a) by {
            let x = spends_at(merged(m1, m2), a);
            let y = spends_at(merged(m2, m1), a);
            assert(x.to_set() == y.to_set());
            lemma_record_all_set(spends_at(m1, a), spends_at(m2, a));
            lemma_record_all_set(spends_at(m2, a), spends_at(m1, a));
            assert(spends_at(m1, a).no_duplicates());
            assert(spends_at(m2, a).no_duplicates());
            assert(x.no_duplicates());
            assert(y.no_duplicates());
            x.unique_seq_to_set();
            y.unique_seq_to_set();
        }
    }
}

/// The DAG `m` after each DAG of `subs` was merged into it, in order.
pub open spec fn merged_all(
    m: Map<Seq<u8>, Seq<SpendView>>,
    subs: Seq<Map<Seq<u8>, Seq<SpendView>>>,
) -> Map<Seq<u8>, Seq<SpendView>>
    decreases subs.len(),
{
    if subs.len() == 0 {
        m
    } else {
        merged(merged_all(m, subs.drop_last()), subs.last())
    }
}

/// Whether one of `subs` holds `spend` at `addr`.
pub open spec fn held_by_one(
    subs: Seq<Map<Seq<u8>, Seq<SpendView>>>,
    addr: Seq<u8>,
    spend: SpendView,
) -> bool {
    exists|i: int| 0 <= i < subs.len() && spends_at(#[trigger] subs[i], addr).contains(spend)
}

/// Whether one of `subs` holds a spend at `addr`.
pub open spec fn reached_by_one(subs: Seq<Map<Seq<u8>, Seq<SpendView>>>, addr: Seq<u8>) -> bool {
    exists|i: int| 0 <= i < subs.len() && (#[trigger] subs[i]).dom().contains(addr)
}

/// A merge holds at an address what either DAG held there.
pub proof fn lemma_merged_holds(
    m1: Map<Seq<u8>, Seq<SpendView>>,
    m2: Map<Seq<u8>, Seq<SpendView>>,
    addr: Seq<u8>,
    spend: SpendView,
)
    ensures
        spends_at(merged(m1, m2), addr).contains(spend) <==> spends_at(m1, addr).contains(spend)
            || spends_at(m2, addr).contains(spend),
{
    lemma_record_all_set(spends_at(m1, addr), spends_at(m2, addr));
    let both = record_all(spends_at(m1, addr), spends_at(m2, addr));
    assert(both.to_set().contains(spend) <==> spends_at(m1, addr).to_set().contains(spend)
        || spends_at(m2, addr).to_set().contains(spend));
    if merged(m1, m2).dom().contains(addr) {
        assert(spends_at(merged(m1, m2), addr) == both);
    } else {
        assert(spends_at(m1, addr) =~= Seq::<SpendView>::empty());
        assert(spends_at(m2, addr) =~= Seq::<SpendView>::empty());
    }
}

/// After any number of merges the DAG holds at an address what it held
/// there before and what one of the merged DAGs held there, and nothing
/// else; and it holds the addresses that it held and those that one of the
/// merged DAGs held.
pub proof fn lemma_merged_all_holds(
    m: Map<Seq<u8>, Seq<SpendView>>,
    subs: Seq<Map<Seq<u8>, Seq<SpendView>>>,
    addr: Seq<u8>,
    spend: SpendView,
)
    ensures
        spends_at(merged_all(m, subs), addr).contains(spend) <==> spends_at(m, addr).contains(
            spend,
        ) || held_by_one(subs, addr, spend),
        merged_all(m, subs).dom().contains(addr) <==> m.dom().contains(addr) || reached_by_one(
            subs,
            addr,
        ),
    decreases subs.len(),
{
    if subs.len() > 0 {
        let front = subs.drop_last();
        let last = subs.last();
        lemma_merged_all_holds(m, front, addr, spend);
        lemma_merged_holds(merged_all(m, front), last, addr, spend);
        if held_by_one(front, addr, spend) {
            let i = choose|i: int|
                0 <= i < front.len() && spends_at(#[trigger] front[i], addr).contains(spend);
            assert(subs[i] == front[i]);
        }
        if held_by_one(subs, addr, spend) {
            let i = choose|i: int|
                0 <= i < subs.len() && spends_at(#[trigger] subs[i], addr).contains(spend);
            if i < front.len() {
                assert(front[i] == subs[i]);
            }
        }
        if spends_at(last, addr).contains(spend) {
            assert(spends_at(subs[subs.len() - 1], addr).contains(spend));
        }
        if reached_by_one(front, addr) {
            let i = choose|i: int| 0 <= i < front.len() && (#[trigger] front[i]).dom().contains(addr);
            assert(subs[i] == front[i]);
        }
        if reached_by_one(subs, addr) {
            let i = choose|i: int| 0 <= i < subs.len() && (#[trigger] subs[i]).dom().contains(addr);
            if i < front.len() {
                assert(front[i] == subs[i]);
            }
        }
        if last.dom().contains(addr) {
            assert(subs[subs.len() - 1].dom().contains(addr));
        }
    }
}

/// Merging the same DAGs in another order gives the same addresses and, at
/// each address, the same spends: only the order of the spends of a double
/// spend differs.
pub proof fn lemma_merge_order(
    m: Map<Seq<u8>, Seq<SpendView>>,
    subs: Seq<Map<Seq<u8>, Seq<SpendView>>>,
    reordered: Seq<Map<Seq<u8>, Seq<SpendView>>>,
)
    requires
        subs.to_multiset() == reordered.to_multiset(),
    ensures
        merged_all(m, subs).dom() == merged_all(m, reordered).dom(),
        forall|a: Seq<u8>| #[trigger]
            spends_at(merged_all(m, subs), a).to_set() == spends_at(
                merged_all(m, reordered),
                a,
            ).to_set(),
{
    subs.to_multiset_ensures();
    reordered.to_multiset_ensures();
    assert forall|x: Map<Seq<u8>, Seq<SpendView>>| subs.contains(x) <==> reordered.contains(x) by {
        assert(subs.contains(x) <==> subs.to_multiset().count(x) > 0);
        assert(reordered.contains(x) <==> reordered.to_multiset().count(x) > 0);
    }
    assert forall|a: Seq<u8>, s: SpendView|
        held_by_one(subs, a, s) <==> held_by_one(reordered, a, s) by {
        if held_by_one(subs, a, s) {
            let i = choose|i: int| 0 <= i < subs.len() && spends_at(#[trigger] subs[i], a).contains(s);
            assert(subs.contains(subs[i]));
            let j = choose|j: int| 0 <= j < reordered.len() && reordered[j] == subs[i];
            assert(spends_at(reordered[j], a).contains(s));
        }
        if held_by_one(reordered, a, s) {
            let i = choose|i: int|
                0 <= i < reordered.len() && spends_at(#[trigger] reordered[i], a).contains(s);
            assert(reordered.contains(reordered[i]));
            let j = choose|j: int| 0 <= j < subs.len() && subs[j] == reordered[i];
            assert(spends_at(subs[j], a).contains(s));
        }
    }
    assert forall|a: Seq<u8>| reached_by_one(subs, a) <==> reached_by_one(reordered, a) by {
        if reached_by_one(subs, a) {
            let i = choose|i: int| 0 <= i < subs.len() && (#[trigger] subs[i]).dom().contains(a);
            assert(subs.contains(subs[i]));
            let j = choose|j: int| 0 <= j < reordered.len() && reordered[j] == subs[i];
            assert(reordered[j].dom().contains(a));
        }
        if reached_by_one(reordered, a) {
            let i = choose|i: int|
                0 <= i < reordered.len() && (#[trigger] reordered[i]).dom().contains(a);
            assert(reordered.contains(reordered[i]));
            let j = choose|j: int| 0 <= j < subs.len() && subs[j] == reordered[i];
            assert(subs[j].dom().contains(a));
        }
    }
    assert forall|a: Seq<u8>|
        merged_all(m, subs).dom().contains(a) <==> merged_all(m, reordered).dom().contains(a) by {
        let any: SpendView = arbitrary();
        lemma_merged_all_holds(m, subs, a, any);
        lemma_merged_all_holds(m, reordered, a, any);
    }
    assert(merged_all(m, subs).dom() =~= merged_all(m, reordered).dom());
    assert forall|a: Seq<u8>| #[trigger]
        spends_at(merged_all(m, subs), a).to_set() == spends_at(
            merged_all(m, reordered),
            a,
        ).to_set() by {
        let x = spends_at(merged_all(m, subs), a);
        let y = spends_at(merged_all(m, reordered), a);
        assert forall|s: SpendView| x.to_set().contains(s) <==> y.to_set().contains(s) by {
            lemma_merged_all_holds(m, subs, a, s);
            lemma_merged_all_holds(m, reordered, a, s);
        }
        assert(x.to_set() =~= y.to_set());
    }
}

} // verus!
