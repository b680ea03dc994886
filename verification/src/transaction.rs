//! Transactions, signed spends and the genesis constant, as the audit reads
//! them: keys, digests and amounts.
//!
//! A transaction carries its own hash. Whoever builds a `Transaction` puts the
//! digest of the full transaction there; the audit compares transactions by
//! that digest and by their keys, and never recomputes it.

use vstd::prelude::*;
use vstd::std_specs::cmp::PartialEqSpecImpl;
use crate::keys::{bytes_eq, keys_view, Digest, SpendAddress, UniquePubkey, content_name};

verus! {

/// A transaction as a mathematical value.
#[verifier::ext_equal]
pub struct TxView {
    pub hash: Seq<u8>,
    pub inputs: Seq<Seq<u8>>,
    pub outputs: Seq<Seq<u8>>,
}

/// A signed spend as a mathematical value.
#[verifier::ext_equal]
pub struct SpendView {
    pub unique_pubkey: Seq<u8>,
    pub spent_tx: TxView,
    pub reason: Seq<u8>,
    pub token: u64,
    pub parent_tx: TxView,
    pub derived_key_sig: Seq<u8>,
}

/// The genesis constant as a mathematical value.
#[verifier::ext_equal]
pub struct GenesisView {
    pub src_tx: TxView,
    pub id: Seq<u8>,
}

/// A transfer of tokens from the keys in `inputs` to the keys in `outputs`.
#[derive(Debug)]
pub struct Transaction {
    pub hash: Digest,
    pub inputs: Vec<UniquePubkey>,
    pub outputs: Vec<UniquePubkey>,
}

/// The record that `unique_pubkey` was spent: it was created as an output of
/// `parent_tx` and consumed as an input of `spent_tx`.
#[derive(Debug)]
pub struct SignedSpend {
    pub unique_pubkey: UniquePubkey,
    pub spent_tx: Transaction,
    pub reason: Digest,
    pub token: u64,
    pub parent_tx: Transaction,
    pub derived_key_sig: [u8; 96],
}

/// The transaction and the key at which every chain of spends begins.
#[derive(Debug)]
pub struct Genesis {
    pub src_tx: Transaction,
    pub id: UniquePubkey,
}

impl View for Transaction {
    type V = TxView;

    open spec fn view(&self) -> TxView {
        TxView {
            hash: self.hash@,
            inputs: keys_view(self.inputs@),
            outputs: keys_view(self.outputs@),
        }
    }
}

impl View for SignedSpend {
    type V = SpendView;

    open spec fn view(&self) -> SpendView {
        SpendView {
            unique_pubkey: self.unique_pubkey@,
            spent_tx: self.spent_tx@,
            reason: self.reason@,
            token: self.token,
            parent_tx: self.parent_tx@,
            derived_key_sig: self.derived_key_sig@,
        }
    }
}

impl View for Genesis {
    type V = GenesisView;

    open spec fn view(&self) -> GenesisView {
        GenesisView { src_tx: self.src_tx@, id: self.id@ }
    }
}

/// The views of a sequence of transactions, in order.
pub open spec fn txs_view(txs: Seq<Transaction>) -> Seq<TxView> {
    Seq::new(txs.len(), |i: int| txs[i]@)
}

/// The views of a sequence of spends, in order.
pub open spec fn spends_view(spends: Seq<SignedSpend>) -> Seq<SpendView> {
    Seq::new(spends.len(), |i: int| spends[i]@)
}

/// The address at which the spend of each key is stored, in order.
pub open spec fn addresses_of(keys: Seq<Seq<u8>>) -> Seq<Seq<u8>> {
    Seq::new(keys.len(), |i: int| content_name(keys[i]))
}

/// Whether two vectors of keys hold the same keys in the same order.
pub fn keys_eq(a: &Vec<UniquePubkey>, b: &Vec<UniquePubkey>) -> (r: bool)
    ensures
        r == (keys_view(a@) == keys_view(b@)),
{
    if a.len() != b.len() {
        assert(keys_view(a@).len() != keys_view(b@).len());
        return false;
    }
    let mut i: usize = 0;
    while i < a.len()
        invariant
            i <= a.len(),
            a.len() == b.len(),
            forall|j: int| 0 <= j < i ==> a@[j]@ == b@[j]@,
        decreases a.len() - i,
    {
        if a[i] != b[i] {
            assert(keys_view(a@)[i as int] != keys_view(b@)[i as int]);
            return false;
        }
        i += 1;
    }
    assert(keys_view(a@) =~= keys_view(b@));
    true
}

/// A copy of a vector of keys.
pub fn clone_keys(keys: &Vec<UniquePubkey>) -> (copy: Vec<UniquePubkey>)
    ensures
        copy@ == keys@,
{
    let mut copy: Vec<UniquePubkey> = Vec::new();
    let mut i: usize = 0;
    while i < keys.len()
        invariant
            i <= keys.len(),
            copy@ == keys@.subrange(0, i as int),
        decreases keys.len() - i,
    {
        copy.push(keys[i]);
        assert(copy@ =~= keys@.subrange(0, i + 1));
        i += 1;
    }
    assert(copy@ =~= keys@);
    copy
}

impl PartialEq for Transaction {
    fn eq(&self, other: &Self) -> (r: bool) {
        let r = self.hash == other.hash && keys_eq(&self.inputs, &other.inputs) && keys_eq(
            &self.outputs,
            &other.outputs,
        );
        assert(r == (self@ =~= other@));
        r
    }
}

impl PartialEqSpecImpl for Transaction {
    open spec fn obeys_eq_spec() -> bool {
        true
    }

    open spec fn eq_spec(&self, other: &Self) -> bool {
        self@ == other@
    }
}

impl Eq for Transaction {

}

impl Clone for Transaction {
    fn clone(&self) -> (copy: Self)
        ensures
            copy@ == self@,
    {
        Transaction {
            hash: self.hash,
            inputs: clone_keys(&self.inputs),
            outputs: clone_keys(&self.outputs),
        }
    }
}

impl PartialEq for SignedSpend {
    fn eq(&self, other: &Self) -> (r: bool) {
        let r = self.unique_pubkey == other.unique_pubkey && self.spent_tx == other.spent_tx
            && self.reason == other.reason && self.token == other.token && self.parent_tx
            == other.parent_tx && bytes_eq(&self.derived_key_sig, &other.derived_key_sig);
        assert(r == (self@ =~= other@));
        r
    }
}

impl PartialEqSpecImpl for SignedSpend {
    open spec fn obeys_eq_spec() -> bool {
        true
    }

    open spec fn eq_spec(&self, other: &Self) -> bool {
        self@ == other@
    }
}

impl Eq for SignedSpend {

}

impl Clone for SignedSpend {
    fn clone(&self) -> (copy: Self)
        ensures
            copy@ == self@,
    {
        SignedSpend {
            unique_pubkey: self.unique_pubkey,
            spent_tx: self.spent_tx.clone(),
            reason: self.reason,
            token: self.token,
            parent_tx: self.parent_tx.clone(),
            derived_key_sig: self.derived_key_sig,
        }
    }
}

impl Clone for Genesis {
    fn clone(&self) -> (copy: Self)
        ensures
            copy@ == self@,
    {
        Genesis { src_tx: self.src_tx.clone(), id: self.id }
    }
}

impl Transaction {
    /// The hash under which the audit knows this transaction.
    pub fn hash(&self) -> (hash: Digest)
        ensures
            hash@ == self@.hash,
    {
        self.hash
    }
}

impl SignedSpend {
    /// The address at which this spend is stored: that of the key it spends.
    pub fn address(&self) -> (addr: SpendAddress)
        ensures
            addr@ == content_name(self@.unique_pubkey),
    {
        SpendAddress::from_unique_pubkey(&self.unique_pubkey)
    }
}

} // verus!
