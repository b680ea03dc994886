//! Whether a public key belongs to an address of the old ledger: the address
//! pays to the key itself, or to the key wrapped for segregated witness.
//!
//! Addresses and keys are read and compared by the `bitcoin` library. What
//! is decided from its answers is decided here.

use vstd::prelude::*;
use std::str::FromStr;
use crate::pubkeys::{parse_pubkey_rows, rows_of, rows_view, PubkeyRow, RowView};

verus! {

/// Whether `bitcoin::Address::from_str` accepts `address` and
/// `require_network` accepts what it returns for the main network.
pub uninterp spec fn on_main_network(address: Seq<char>) -> bool;

/// Whether `bitcoin::PublicKey::from_str` accepts `pk_hex`.
pub uninterp spec fn is_public_key(pk_hex: Seq<char>) -> bool;

/// What `bitcoin::Address::is_related_to_pubkey` returns for the address
/// that `address` is read as and the key that `pk_hex` is read as.
pub uninterp spec fn related_to_pubkey(address: Seq<char>, pk_hex: Seq<char>) -> bool;

/// Whether the address that `bitcoin::Address::p2shwpkh` makes of the key
/// that `pk_hex` is read as, on the main network, equals the address that
/// `address` is read as; nothing where it makes no address of the key.
pub uninterp spec fn wrapped_key_address_is(address: Seq<char>, pk_hex: Seq<char>) -> Option<bool>;

/// Calls `bitcoin::Address::from_str` and, on what it returns,
/// `require_network` with the main network: both depend on the text alone,
/// and the result says whether both accepted.
#[verifier::external_body]
fn address_on_main_network(address: &str) -> (accepted: bool)
    ensures
        accepted == on_main_network(address@),
{
    match bitcoin::Address::from_str(address) {
        Ok(read) => read.require_network(bitcoin::Network::Bitcoin).is_ok(),
        Err(_) => false,
    }
}

/// Calls `bitcoin::PublicKey::from_str`, which depends on the text alone,
/// and says whether it accepted.
#[verifier::external_body]
fn parses_as_public_key(pk_hex: &str) -> (accepted: bool)
    ensures
        accepted == is_public_key(pk_hex@),
{
    bitcoin::PublicKey::from_str(pk_hex).is_ok()
}

/// Calls `bitcoin::Address::is_related_to_pubkey` on the address and the key
/// that the two texts are read as, the address as `require_network` returns
/// it for the main network: it compares the payload of the address with
/// hashes of the key, so its result depends on the two texts alone.
#[verifier::external_body]
fn address_related_to_pubkey(address: &str, pk_hex: &str) -> (related: bool)
    requires
        on_main_network(address@),
        is_public_key(pk_hex@),
    ensures
        related == related_to_pubkey(address@, pk_hex@),
{
    match (bitcoin::Address::from_str(address), bitcoin::PublicKey::from_str(pk_hex)) {
        (Ok(read), Ok(key)) => match read.require_network(bitcoin::Network::Bitcoin) {
            Ok(checked) => checked.is_related_to_pubkey(&key),
            Err(_) => false,
        },
        _ => false,
    }
}

/// Calls `bitcoin::Address::p2shwpkh` on the key that `pk_hex` is read as,
/// for the main network, and compares the address it makes with the one that
/// `address` is read as, by the `==` of the library. It makes no address of
/// an uncompressed key. The result depends on the two texts alone.
#[verifier::external_body]
fn wrapped_key_address_equals(address: &str, pk_hex: &str) -> (same: Option<bool>)
    requires
        on_main_network(address@),
        is_public_key(pk_hex@),
    ensures
        same == wrapped_key_address_is(address@, pk_hex@),
{
    match (bitcoin::Address::from_str(address), bitcoin::PublicKey::from_str(pk_hex)) {
        (Ok(read), Ok(key)) => match bitcoin::Address::p2shwpkh(&key, bitcoin::Network::Bitcoin) {
            Ok(made) => Some(made == read),
            Err(_) => None,
        },
        _ => None,
    }
}

/// Whether a key belongs to an address, given what is known of the two: the
/// address pays to the key, or the address made of the wrapped key is the
/// address.
pub open spec fn key_belongs(related: bool, wrapped: Option<bool>) -> bool {
    related || wrapped == Some(true)
}

/// Whether the key that `pk_hex` stands for belongs to `address`.
pub open spec fn pk_matches_address(address: Seq<char>, pk_hex: Seq<char>) -> bool {
    on_main_network(address) && is_public_key(pk_hex) && key_belongs(
        related_to_pubkey(address, pk_hex),
        wrapped_key_address_is(address, pk_hex),
    )
}

/// Whether a key belongs to an address, given whether the address pays to
/// the key and whether the address made of the wrapped key is the address.
pub fn decide_key_belongs(related: bool, wrapped: Option<bool>) -> (belongs: bool)
    ensures
        belongs == key_belongs(related, wrapped),
{
    if related {
        return true;
    }
    match wrapped {
        Some(same) => same,
        None => false,
    }
}

/// Whether the key that `pk_hex` stands for belongs to `address`: both are
/// read, the address is one of the main network, and it pays to the key or
/// to the key wrapped for segregated witness.
pub fn maid_pk_matches_address(address: &str, pk_hex: &str) -> (matches: bool)
    ensures
        matches == pk_matches_address(address@, pk_hex@),
{
    if !address_on_main_network(address) {
        return false;
    }
    if !parses_as_public_key(pk_hex) {
        return false;
    }
    if address_related_to_pubkey(address, pk_hex) {
        return true;
    }
    decide_key_belongs(false, wrapped_key_address_equals(address, pk_hex))
}

/// The rows whose key belongs to their address.
pub open spec fn belonging() -> spec_fn(RowView) -> bool {
    |row: RowView| pk_matches_address(row.address, row.pk_hex)
}

/// The rows of `body` whose key belongs to their address, in the order of
/// its lines.
pub fn accepted_pubkey_rows(body: &str) -> (accepted: Vec<PubkeyRow>)
    ensures
        rows_view(accepted@) == rows_of(body@).filter(belonging()),
{
    let rows = parse_pubkey_rows(body);
    let ghost all = rows_view(rows@);
    let mut accepted: Vec<PubkeyRow> = Vec::new();
    let mut i: usize = 0;
    proof {
        reveal(Seq::filter);
        assert(rows_view(accepted@) =~= all.take(0).filter(belonging()));
    }
    while i < rows.len()
        invariant
            i <= rows@.len(),
            all == rows_view(rows@),
            rows_view(accepted@) == all.take(i as int).filter(belonging()),
        decreases rows@.len() - i,
    {
        let ghost held = rows_view(accepted@);
        let row = &rows[i];
        let matches = maid_pk_matches_address(row.address.as_str(), row.pk_hex.as_str());
        if matches {
            accepted.push(PubkeyRow { address: row.address.clone(), pk_hex: row.pk_hex.clone() });
        }
        proof {
            reveal(Seq::filter);
            let upto = all.take(i + 1);
            assert(upto.drop_last() =~= all.take(i as int));
            assert(upto.last() == row@);
            assert(belonging()(row@) == matches);
            if matches {
                assert(rows_view(accepted@) =~= held.push(row@));
            } else {
                assert(rows_view(accepted@) =~= held);
            }
        }
        i += 1;
    }
    assert(all.take(i as int) =~= all);
    accepted
}

} // verus!
