//! Keys, addresses and digests, held as plain bytes.
//!
//! A value of each type is viewed as the sequence of its bytes; two values
//! are equal when their views are.

use vstd::prelude::*;
use vstd::std_specs::cmp::PartialEqSpecImpl;

verus! {

/// What `xor_name::XorName::from_content` returns for the given content.
pub uninterp spec fn content_name(content: Seq<u8>) -> Seq<u8>;

/// Calls `xor_name::XorName::from_content`, which hashes the content with
/// SHA3-256: the 32 bytes it returns are a function of the content alone.
#[verifier::external_body]
fn name_of_content(content: &[u8; 48]) -> (name: [u8; 32])
    ensures
        name@ == content_name(content@),
{
    xor_name::XorName::from_content(content).0
}

/// Whether two byte arrays hold the same bytes.
pub fn bytes_eq<const N: usize>(a: &[u8; N], b: &[u8; N]) -> (r: bool)
    ensures
        r == (a@ == b@),
{
    let mut i: usize = 0;
    while i < N
        invariant
            i <= N,
            a@.len() == N,
            b@.len() == N,
            forall|j: int| 0 <= j < i ==> a@[j] == b@[j],
        decreases N - i,
    {
        if a[i] != b[i] {
            return false;
        }
        i += 1;
    }
    assert(a@ =~= b@);
    true
}

/// The public key that identifies one spendable output.
#[derive(Clone, Copy, Debug)]
pub struct UniquePubkey {
    pub bytes: [u8; 48],
}

/// Where the spend of a key is looked up in the store.
#[derive(Clone, Copy, Debug)]
pub struct SpendAddress {
    pub bytes: [u8; 32],
}

/// A 256-bit digest: the hash of a transaction, or the reason of a spend.
#[derive(Clone, Copy, Debug)]
pub struct Digest {
    pub bytes: [u8; 32],
}

impl View for UniquePubkey {
    type V = Seq<u8>;

    open spec fn view(&self) -> Seq<u8> {
        self.bytes@
    }
}

impl View for SpendAddress {
    type V = Seq<u8>;

    open spec fn view(&self) -> Seq<u8> {
        self.bytes@
    }
}

impl View for Digest {
    type V = Seq<u8>;

    open spec fn view(&self) -> Seq<u8> {
        self.bytes@
    }
}

impl PartialEq for UniquePubkey {
    fn eq(&self, other: &Self) -> (r: bool) {
        bytes_eq(&self.bytes, &other.bytes)
    }
}

impl PartialEqSpecImpl for UniquePubkey {
    open spec fn obeys_eq_spec() -> bool {
        true
    }

    open spec fn eq_spec(&self, other: &Self) -> bool {
        self@ == other@
    }
}

impl Eq for UniquePubkey {

}

impl PartialEq for SpendAddress {
    fn eq(&self, other: &Self) -> (r: bool) {
        bytes_eq(&self.bytes, &other.bytes)
    }
}

impl PartialEqSpecImpl for SpendAddress {
    open spec fn obeys_eq_spec() -> bool {
        true
    }

    open spec fn eq_spec(&self, other: &Self) -> bool {
        self@ == other@
    }
}

impl Eq for SpendAddress {

}

impl PartialEq for Digest {
    fn eq(&self, other: &Self) -> (r: bool) {
        bytes_eq(&self.bytes, &other.bytes)
    }
}

impl PartialEqSpecImpl for Digest {
    open spec fn obeys_eq_spec() -> bool {
        true
    }

    open spec fn eq_spec(&self, other: &Self) -> bool {
        self@ == other@
    }
}

impl Eq for Digest {

}

impl UniquePubkey {
    /// The key with these bytes.
    pub fn new(bytes: [u8; 48]) -> (key: UniquePubkey)
        ensures
            key@ == bytes@,
    {
        UniquePubkey { bytes }
    }
}

impl Digest {
    /// The digest with these bytes.
    pub fn new(bytes: [u8; 32]) -> (digest: Digest)
        ensures
            digest@ == bytes@,
    {
        Digest { bytes }
    }
}

impl SpendAddress {
    /// The address with these bytes.
    pub fn new(bytes: [u8; 32]) -> (addr: SpendAddress)
        ensures
            addr@ == bytes@,
    {
        SpendAddress { bytes }
    }

    /// The address under which the spend of `key` is stored: the content
    /// name of the key's bytes, which is how the transfer library derives
    /// the address of a spend from its key.
    pub fn from_unique_pubkey(key: &UniquePubkey) -> (addr: SpendAddress)
        ensures
            addr@ == content_name(key@),
    {
        SpendAddress { bytes: name_of_content(&key.bytes) }
    }
}

/// The views of a sequence of keys, in order.
pub open spec fn keys_view(keys: Seq<UniquePubkey>) -> Seq<Seq<u8>> {
    Seq::new(keys.len(), |i: int| keys[i]@)
}

/// The views of a sequence of addresses, in order.
pub open spec fn addresses_view(addrs: Seq<SpendAddress>) -> Seq<Seq<u8>> {
    Seq::new(addrs.len(), |i: int| addrs[i]@)
}

/// The views of a sequence of digests, in order.
pub open spec fn digests_view(digests: Seq<Digest>) -> Seq<Seq<u8>> {
    Seq::new(digests.len(), |i: int| digests[i]@)
}

} // verus!
