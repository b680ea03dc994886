//! The snapshot of balances that a faucet distributes from: each address
//! with what it owns, accepted only if the balances add up to the supply.

use vstd::prelude::*;
use crate::pubkeys::chars_of;
use std::str::FromStr;

verus! {

/// The number of nanos that the balances of a snapshot add up to.
pub const SNAPSHOT_SUPPLY: u64 = 452_552_412_000_000_000;

/// What `sn_transfers::NanoTokens::from_str` returns for `text`: the amount
/// in nanos, or nothing where it returns an error.
pub uninterp spec fn nano_tokens(text: Seq<char>) -> Option<u64>;

/// Calls `sn_transfers::NanoTokens::from_str`, which reads an amount of
/// tokens written as whole tokens, optionally followed by a point and a
/// fraction, and returns it in nanos or returns an error. What it returns
/// depends on the text alone. It adds the nanos of the fraction to those of
/// the whole tokens unchecked; every other step is checked. That sum is too
/// large only where the whole tokens are 18446744073, the most whose nanos
/// an amount holds, and the fraction is above 0.709551615: those texts are
/// left out.
#[verifier::external_body]
fn parse_nano_tokens(text: &str) -> (nanos: Option<u64>)
    requires
        !overflows(text@),
    ensures
        nanos == nano_tokens(text@),
{
    match sn_transfers::NanoTokens::from_str(text) {
        Ok(amount) => Some(amount.as_nano()),
        Err(_) => None,
    }
}

/// How many characters stand before the first point of `text`.
pub open spec fn units_len(text: Seq<char>) -> nat
    decreases text.len(),
{
    if text.len() == 0 || text[0] == '.' {
        0
    } else {
        1 + units_len(text.skip(1))
    }
}

/// What stands before the first point of `text`: the whole tokens.
pub open spec fn units_text(text: Seq<char>) -> Seq<char> {
    text.take(units_len(text) as int)
}

/// What stands after the first point of `text`: the fraction. Nothing where
/// `text` holds no point.
pub open spec fn fraction_text(text: Seq<char>) -> Seq<char> {
    if units_len(text) < text.len() {
        text.skip(units_len(text) as int + 1)
    } else {
        Seq::empty()
    }
}

/// `s` without a plus sign at its start.
pub open spec fn without_sign(s: Seq<char>) -> Seq<char> {
    if s.len() > 0 && s[0] == '+' {
        s.skip(1)
    } else {
        s
    }
}

/// `s` without the zeros at its start.
pub open spec fn without_leading_zeros(s: Seq<char>) -> Seq<char>
    decreases s.len(),
{
    if s.len() > 0 && s[0] == '0' {
        without_leading_zeros(s.skip(1))
    } else {
        s
    }
}

/// `s` without the zeros at its end.
pub open spec fn without_trailing_zeros(s: Seq<char>) -> Seq<char>
    decreases s.len(),
{
    if s.len() > 0 && s.last() == '0' {
        without_trailing_zeros(s.drop_last())
    } else {
        s
    }
}

/// The most whole tokens whose nanos an amount holds: 18446744073.
pub open spec fn most_units() -> Seq<char> {
    seq!['1', '8', '4', '4', '6', '7', '4', '4', '0', '7', '3']
}

/// The greatest fraction that an amount holds beside the most whole tokens:
/// 709551615 nanos.
pub open spec fn most_fraction() -> Seq<char> {
    seq!['7', '0', '9', '5', '5', '1', '6', '1', '5']
}

/// Whether each character of `s` is a decimal digit.
pub open spec fn all_digits(s: Seq<char>) -> bool {
    forall|i: int| 0 <= i < s.len() ==> '0' <= #[trigger] s[i] <= '9'
}

/// Whether the digits `f`, read as a fraction, stand for more than the
/// digits `limit` do: at the first place where they differ, `f` has the
/// greater digit. `f` is no longer than `limit`.
pub open spec fn exceeds(f: Seq<char>, limit: Seq<char>) -> bool
    decreases f.len(),
{
    if f.len() == 0 || limit.len() == 0 {
        false
    } else if f[0] != limit[0] {
        f[0] > limit[0]
    } else {
        exceeds(f.skip(1), limit.skip(1))
    }
}

/// Whether the nanos of `text` are more than an amount holds although its
/// whole tokens are not: the whole tokens, written with or without a plus
/// sign and leading zeros, are 18446744073, and the fraction, its trailing
/// zeros dropped, is one to nine digits that stand for more than 709551615
/// nanos.
pub open spec fn overflows(text: Seq<char>) -> bool {
    let fraction = without_trailing_zeros(fraction_text(text));
    &&& without_leading_zeros(without_sign(units_text(text))) == most_units()
    &&& 1 <= fraction.len() <= 9
    &&& all_digits(fraction)
    &&& exceeds(fraction, most_fraction())
}

/// The amount that `text` stands for, in nanos: what the transfer library
/// reads it as. There is none where the nanos are more than an amount holds.
pub open spec fn amount(text: Seq<char>) -> Option<u64> {
    if overflows(text) {
        None
    } else {
        nano_tokens(text)
    }
}

/// Where no point stands among the first `n` characters, they all count.
pub proof fn lemma_units_len(text: Seq<char>, n: int)
    requires
        0 <= n <= text.len(),
        forall|k: int| 0 <= k < n ==> text[k] != '.',
    ensures
        units_len(text) == n + units_len(text.skip(n)),
    decreases n,
{
    if n == 0 {
        assert(text.skip(0) =~= text);
    } else {
        assert forall|k: int| 0 <= k < n - 1 implies text.skip(1)[k] != '.' by {
            assert(text.skip(1)[k] == text[k + 1]);
        }
        lemma_units_len(text.skip(1), n - 1);
        assert(text.skip(1).skip(n - 1) =~= text.skip(n));
    }
}

/// Where zeros fill the first `n` characters and end there, the rest is
/// what stays.
pub proof fn lemma_leading_zeros(s: Seq<char>, n: int)
    requires
        0 <= n <= s.len(),
        forall|k: int| 0 <= k < n ==> s[k] == '0',
        n < s.len() ==> s[n] != '0',
    ensures
        without_leading_zeros(s) == s.skip(n),
    decreases n,
{
    if n == 0 {
        assert(s.skip(0) =~= s);
    } else {
        let rest = s.skip(1);
        assert forall|k: int| 0 <= k < n - 1 implies rest[k] == '0' by {
            assert(rest[k] == s[k + 1]);
        }
        if n - 1 < rest.len() {
            assert(rest[n - 1] == s[n]);
        }
        lemma_leading_zeros(rest, n - 1);
        assert(rest.skip(n - 1) =~= s.skip(n));
    }
}

/// Where zeros fill the characters from `n` on and begin there, what stands
/// before them is what stays.
pub proof fn lemma_trailing_zeros(s: Seq<char>, n: int)
    requires
        0 <= n <= s.len(),
        forall|k: int| n <= k < s.len() ==> s[k] == '0',
        n > 0 ==> s[n - 1] != '0',
    ensures
        without_trailing_zeros(s) == s.take(n),
    decreases s.len() - n,
{
    if n == s.len() {
        assert(s.take(n) =~= s);
    } else {
        let rest = s.drop_last();
        lemma_trailing_zeros(rest, n);
        assert(rest.take(n) =~= s.take(n));
    }
}

/// Digits that agree with the limit in their first `n` places exceed it
/// exactly if the rest exceeds the rest of the limit.
pub proof fn lemma_exceeds_after(f: Seq<char>, limit: Seq<char>, n: int)
    requires
        0 <= n <= f.len(),
        n <= limit.len(),
        forall|k: int| 0 <= k < n ==> f[k] == limit[k],
    ensures
        exceeds(f, limit) == exceeds(f.skip(n), limit.skip(n)),
    decreases n,
{
    if n == 0 {
        assert(f.skip(0) =~= f);
        assert(limit.skip(0) =~= limit);
    } else {
        assert forall|k: int| 0 <= k < n - 1 implies f.skip(1)[k] == limit.skip(1)[k] by {
            assert(f.skip(1)[k] == f[k + 1]);
            assert(limit.skip(1)[k] == limit[k + 1]);
        }
        lemma_exceeds_after(f.skip(1), limit.skip(1), n - 1);
        assert(f.skip(1).skip(n - 1) =~= f.skip(n));
        assert(limit.skip(1).skip(n - 1) =~= limit.skip(n));
    }
}

/// Whether the characters before `point`, written with or without a plus
/// sign and leading zeros, are the most whole tokens.
pub fn units_are_most(chars: &Vec<char>, point: usize) -> (most: bool)
    requires
        point <= chars@.len(),
    ensures
        most == (without_leading_zeros(without_sign(chars@.take(point as int))) == most_units()),
{
    let ghost units = chars@.take(point as int);
    let mut i: usize = 0;
    if point > 0 && chars[0] == '+' {
        i = 1;
    }
    let ghost unsigned = without_sign(units);
    let ghost from = i;
    assert(unsigned =~= chars@.subrange(from as int, point as int));
    while i < point && chars[i] == '0'
        invariant
            from <= i <= point,
            point <= chars@.len(),
            forall|k: int| from <= k < i ==> chars@[k] == '0',
        decreases point - i,
    {
        i += 1;
    }
    let ghost rest = chars@.subrange(i as int, point as int);
    proof {
        assert forall|k: int| 0 <= k < i - from implies unsigned[k] == '0' by {
            assert(unsigned[k] == chars@[from + k]);
        }
        if i < point {
            assert(unsigned[i - from] == chars@[i as int]);
        }
        lemma_leading_zeros(unsigned, i - from);
        assert(unsigned.skip(i - from) =~= rest);
    }
    if point - i != 11 {
        return false;
    }
    let most: [char; 11] = ['1', '8', '4', '4', '6', '7', '4', '4', '0', '7', '3'];
    assert(most@ =~= most_units());
    let mut k: usize = 0;
    while k < 11
        invariant
            k <= 11,
            i + 11 == point,
            point <= chars@.len(),
            rest == chars@.subrange(i as int, point as int),
            without_leading_zeros(without_sign(chars@.take(point as int))) == rest,
            most@ == most_units(),
            forall|j: int| 0 <= j < k ==> rest[j] == most_units()[j],
        decreases 11 - k,
    {
        if chars[i + k] != most[k] {
            assert(rest[k as int] != most_units()[k as int]);
            return false;
        }
        assert(rest[k as int] == chars@[i + k]);
        k += 1;
    }
    assert(rest =~= most_units());
    true
}

/// Whether the characters from `start` on, their trailing zeros dropped,
/// are one to nine digits that stand for more than the greatest fraction.
pub fn fraction_exceeds(chars: &Vec<char>, start: usize) -> (more: bool)
    requires
        start <= chars@.len(),
    ensures
        more == ({
            let fraction = without_trailing_zeros(chars@.skip(start as int));
            1 <= fraction.len() <= 9 && all_digits(fraction) && exceeds(fraction, most_fraction())
        }),
{
    let ghost all = chars@.skip(start as int);
    let mut end: usize = chars.len();
    while end > start && chars[end - 1] == '0'
        invariant
            start <= end <= chars@.len(),
            forall|k: int| end <= k < chars@.len() ==> chars@[k] == '0',
        decreases end - start,
    {
        end -= 1;
    }
    let ghost fraction = chars@.subrange(start as int, end as int);
    proof {
        assert forall|k: int| end - start <= k < all.len() implies all[k] == '0' by {
            assert(all[k] == chars@[start + k]);
        }
        if end > start {
            assert(all[end - start - 1] == chars@[end - 1]);
        }
        lemma_trailing_zeros(all, end - start);
        assert(all.take(end - start) =~= fraction);
    }
    let len = end - start;
    if len == 0 || len > 9 {
        return false;
    }
    let mut d: usize = 0;
    while d < len
        invariant
            d <= len,
            len == end - start,
            end <= chars@.len(),
            fraction == chars@.subrange(start as int, end as int),
            without_trailing_zeros(chars@.skip(start as int)) == fraction,
            forall|j: int| 0 <= j < d ==> '0' <= #[trigger] fraction[j] <= '9',
        decreases len - d,
    {
        let c = chars[start + d];
        assert(fraction[d as int] == c);
        if c < '0' || c > '9' {
            assert(!all_digits(fraction));
            return false;
        }
        d += 1;
    }
    let limit: [char; 9] = ['7', '0', '9', '5', '5', '1', '6', '1', '5'];
    assert(limit@ =~= most_fraction());
    let mut k: usize = 0;
    while k < len
        invariant
            k <= len,
            len <= 9,
            len == end - start,
            end <= chars@.len(),
            fraction == chars@.subrange(start as int, end as int),
            without_trailing_zeros(chars@.skip(start as int)) == fraction,
            limit@ == most_fraction(),
            all_digits(fraction),
            1 <= len,
            forall|j: int| 0 <= j < k ==> fraction[j] == most_fraction()[j],
        decreases len - k,
    {
        let c = chars[start + k];
        assert(fraction[k as int] == c);
        proof {
            lemma_exceeds_after(fraction, most_fraction(), k as int);
            assert(fraction.skip(k as int)[0] == c);
            assert(most_fraction().skip(k as int)[0] == limit@[k as int]);
        }
        if c != limit[k] {
            proof {
                let f = fraction.skip(k as int);
                let l = most_fraction().skip(k as int);
                assert(f.len() > 0 && l.len() > 0 && f[0] != l[0]);
                assert(exceeds(f, l) == (f[0] > l[0]));
            }
            return c > limit[k];
        }
        k += 1;
    }
    proof {
        lemma_exceeds_after(fraction, most_fraction(), len as int);
        assert(fraction.skip(len as int).len() == 0);
    }
    false
}

/// Reads an amount of tokens and returns it in nanos.
pub fn parse_amount(text: &str) -> (nanos: Option<u64>)
    ensures
        nanos == amount(text@),
{
    let chars = chars_of(text);
    let mut point: usize = 0;
    while point < chars.len() && chars[point] != '.'
        invariant
            point <= chars@.len(),
            forall|k: int| 0 <= k < point ==> chars@[k] != '.',
        decreases chars@.len() - point,
    {
        point += 1;
    }
    proof {
        lemma_units_len(chars@, point as int);
        if point < chars@.len() {
            assert(chars@.skip(point as int)[0] == '.');
        } else {
            assert(chars@.skip(point as int).len() == 0);
        }
        assert(units_len(text@) == point);
    }
    if point == chars.len() {
        assert(without_trailing_zeros(fraction_text(text@)).len() == 0);
        return parse_nano_tokens(text);
    }
    if units_are_most(&chars, point) && fraction_exceeds(&chars, point + 1) {
        None
    } else {
        parse_nano_tokens(text)
    }
}

/// One entry of a snapshot as it is published: an address, and its balance
/// and the part of it that is up for sale, both written as amounts of tokens.
#[derive(Debug)]
pub struct MaidBalance {
    pub address: String,
    pub balance: String,
    pub reserved: String,
}

/// An entry of a snapshot as a mathematical value.
pub struct MaidBalanceView {
    pub address: Seq<char>,
    pub balance: Seq<char>,
    pub reserved: Seq<char>,
}

impl View for MaidBalance {
    type V = MaidBalanceView;

    open spec fn view(&self) -> MaidBalanceView {
        MaidBalanceView { address: self.address@, balance: self.balance@, reserved: self.reserved@ }
    }
}

/// What an address owns, in nanos.
#[derive(Debug)]
pub struct AddressBalance {
    pub address: String,
    pub nanos: u64,
}

/// Why a snapshot is not accepted. `index` counts the entries from zero.
#[derive(Clone, Copy, Debug, PartialEq, Eq, Structural)]
pub enum SnapshotError {
    /// The balance of the entry is no amount.
    InvalidBalance { index: usize },
    /// The reserved part of the entry is no amount.
    InvalidReserved { index: usize },
    /// The balance and the reserved part of the entry are together more
    /// than an amount can hold.
    BalanceOverflow { index: usize },
    /// With this entry the total is more than an amount can hold.
    TotalOverflow { index: usize },
    /// The balances add up to `total`, which is not the supply.
    IncorrectTotal { total: u64 },
}

/// The views of a sequence of entries, in order.
pub open spec fn entries_view(entries: Seq<MaidBalance>) -> Seq<MaidBalanceView> {
    Seq::new(entries.len(), |i: int| entries[i]@)
}

/// The map from address to nanos that a sequence of balances stands for: of
/// two balances for one address the later counts.
pub open spec fn balances_map(balances: Seq<AddressBalance>) -> Map<Seq<char>, u64>
    decreases balances.len(),
{
    if balances.len() == 0 {
        Map::empty()
    } else {
        balances_map(balances.drop_last()).insert(balances.last().address@, balances.last().nanos)
    }
}

/// The entries read one after the other: the total so far and what each
/// address owns, which is its balance and its reserved part together; or
/// the first thing that is wrong.
pub open spec fn tallied(entries: Seq<MaidBalanceView>) -> Result<
    (int, Map<Seq<char>, u64>),
    SnapshotError,
>
    decreases entries.len(),
{
    if entries.len() == 0 {
        Ok((0, Map::empty()))
    } else {
        let index = (entries.len() - 1) as usize;
        let entry = entries.last();
        match tallied(entries.drop_last()) {
            Err(e) => Err(e),
            Ok((total, owned)) => match amount(entry.balance) {
                None => Err(SnapshotError::InvalidBalance { index }),
                Some(balance) => match amount(entry.reserved) {
                    None => Err(SnapshotError::InvalidReserved { index }),
                    Some(reserved) => if balance + reserved > u64::MAX {
                        Err(SnapshotError::BalanceOverflow { index })
                    } else if total + balance + reserved > u64::MAX {
                        Err(SnapshotError::TotalOverflow { index })
                    } else {
                        Ok(
                            (
                                total + balance + reserved,
                                owned.insert(entry.address, (balance + reserved) as u64),
                            ),
                        )
                    },
                },
            },
        }
    }
}

/// What a snapshot gives: what each address owns, if every entry is sound
/// and the total is the supply.
pub open spec fn snapshot_of(entries: Seq<MaidBalanceView>) -> Result<
    Map<Seq<char>, u64>,
    SnapshotError,
> {
    match tallied(entries) {
        Err(e) => Err(e),
        Ok((total, owned)) => if total == SNAPSHOT_SUPPLY {
            Ok(owned)
        } else {
            Err(SnapshotError::IncorrectTotal { total: total as u64 })
        },
    }
}

/// Reads the entries of a snapshot and returns what each address owns, one
/// balance for each entry in the order of the entries.
pub fn parse_snapshot(entries: &Vec<MaidBalance>) -> (r: Result<Vec<AddressBalance>, SnapshotError>)
    ensures
        match snapshot_of(entries_view(entries@)) {
            Ok(owned) => r is Ok && balances_map(r->Ok_0@) == owned && r->Ok_0@.len()
                == entries@.len(),
            Err(e) => r == Err::<Vec<AddressBalance>, SnapshotError>(e),
        },
{
    let ghost all = entries_view(entries@);
    let mut balances: Vec<AddressBalance> = Vec::new();
    let mut total: u64 = 0;
    let mut i: usize = 0;
    assert(all.take(0) =~= Seq::<MaidBalanceView>::empty());
    while i < entries.len()
        invariant
            i <= entries@.len(),
            all == entries_view(entries@),
            balances@.len() == i,
            tallied(all.take(i as int)) == Ok::<(int, Map<Seq<char>, u64>), SnapshotError>(
                (total as int, balances_map(balances@)),
            ),
        decreases entries@.len() - i,
    {
        let entry = &entries[i];
        proof {
            assert(all.take(i + 1).drop_last() =~= all.take(i as int));
            assert(all.take(i + 1).last() == entry@);
            assert(all.take(i + 1).len() - 1 == i);
        }
        let ghost upto = all.take(i + 1);
        let balance = match parse_amount(entry.balance.as_str()) {
            Some(balance) => balance,
            None => {
                proof {
                    lemma_tallied_fault(all, i + 1);
                }
                return Err(SnapshotError::InvalidBalance { index: i });
            },
        };
        let reserved = match parse_amount(entry.reserved.as_str()) {
            Some(reserved) => reserved,
            None => {
                proof {
                    lemma_tallied_fault(all, i + 1);
                }
                return Err(SnapshotError::InvalidReserved { index: i });
            },
        };
        let owned = match balance.checked_add(reserved) {
            Some(owned) => owned,
            None => {
                proof {
                    lemma_tallied_fault(all, i + 1);
                }
                return Err(SnapshotError::BalanceOverflow { index: i });
            },
        };
        total = match total.checked_add(owned) {
            Some(total) => total,
            None => {
                proof {
                    lemma_tallied_fault(all, i + 1);
                }
                return Err(SnapshotError::TotalOverflow { index: i });
            },
        };
        let ghost held = balances@;
        balances.push(AddressBalance { address: entry.address.clone(), nanos: owned });
        proof {
            assert(balances@.drop_last() =~= held);
        }
        i += 1;
    }
    assert(all.take(i as int) =~= all);
    if total != SNAPSHOT_SUPPLY {
        return Err(SnapshotError::IncorrectTotal { total });
    }
    Ok(balances)
}

/// What is wrong with the first entries is wrong with the snapshot.
pub proof fn lemma_tallied_fault(entries: Seq<MaidBalanceView>, n: int)
    requires
        0 <= n <= entries.len(),
        tallied(entries.take(n)) is Err,
    ensures
        tallied(entries) == tallied(entries.take(n)),
    decreases entries.len(),
{
    if n == entries.len() {
        assert(entries.take(n) =~= entries);
    } else {
        assert(entries.drop_last().take(n) =~= entries.take(n));
        lemma_tallied_fault(entries.drop_last(), n);
    }
}

} // verus!
