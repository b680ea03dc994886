//! The list of addresses and their public keys, as it is published: text
//! with one row to a line, an address and a key in each row, with a comma
//! between them.
//!
//! A line is a row if it has exactly two cells. What stands around a cell in
//! white space is not part of it, nor is the white space around the whole
//! text.

use vstd::prelude::*;
use vstd::string::StrSliceExecFns;

verus! {

/// Whether `c` is white space, as Unicode defines it.
pub open spec fn is_space(c: char) -> bool {
    let n = c as u32;
    (0x09 <= n <= 0x0d) || n == 0x20 || n == 0x85 || n == 0xa0 || n == 0x1680 || (0x2000 <= n
        <= 0x200a) || n == 0x2028 || n == 0x2029 || n == 0x202f || n == 0x205f || n == 0x3000
}

/// `s` without the white space at its start.
pub open spec fn trim_start(s: Seq<char>) -> Seq<char>
    decreases s.len(),
{
    if s.len() > 0 && is_space(s[0]) {
        trim_start(s.skip(1))
    } else {
        s
    }
}

/// `s` without the white space at its end.
pub open spec fn trim_end(s: Seq<char>) -> Seq<char>
    decreases s.len(),
{
    if s.len() > 0 && is_space(s.last()) {
        trim_end(s.drop_last())
    } else {
        s
    }
}

/// `s` without the white space at its start and at its end.
pub open spec fn trimmed(s: Seq<char>) -> Seq<char> {
    trim_end(trim_start(s))
}

/// The pieces of `s` between the occurrences of `sep`: one more than there
/// are occurrences, some of them empty where `sep` stands at an end of `s`
/// or twice in a row.
pub open spec fn split(s: Seq<char>, sep: char) -> Seq<Seq<char>>
    decreases s.len(),
{
    if s.len() == 0 {
        seq![Seq::empty()]
    } else {
        let front = split(s.drop_last(), sep);
        if s.last() == sep {
            front.push(Seq::empty())
        } else {
            front.drop_last().push(front.last().push(s.last()))
        }
    }
}

/// A row as a mathematical value.
pub struct RowView {
    pub address: Seq<char>,
    pub pk_hex: Seq<char>,
}

/// The row that a line holds, if it has exactly two cells.
pub open spec fn row_of(line: Seq<char>) -> Option<RowView> {
    let cells = split(line, ',');
    if cells.len() == 2 {
        Some(RowView { address: trimmed(cells[0]), pk_hex: trimmed(cells[1]) })
    } else {
        None
    }
}

/// The rows that a sequence of lines holds, in order.
pub open spec fn rows_from(lines: Seq<Seq<char>>) -> Seq<RowView>
    decreases lines.len(),
{
    if lines.len() == 0 {
        Seq::empty()
    } else {
        let front = rows_from(lines.drop_last());
        match row_of(lines.last()) {
            Some(row) => front.push(row),
            None => front,
        }
    }
}

/// The rows that a text holds.
pub open spec fn rows_of(body: Seq<char>) -> Seq<RowView> {
    rows_from(split(trimmed(body), '\n'))
}

/// An address with its public key, both as they are written.
#[derive(Debug, PartialEq, Eq)]
pub struct PubkeyRow {
    pub address: String,
    pub pk_hex: String,
}

impl View for PubkeyRow {
    type V = RowView;

    open spec fn view(&self) -> RowView {
        RowView { address: self.address@, pk_hex: self.pk_hex@ }
    }
}

/// The views of a sequence of rows, in order.
pub open spec fn rows_view(rows: Seq<PubkeyRow>) -> Seq<RowView> {
    Seq::new(rows.len(), |i: int| rows[i]@)
}

/// The pieces of `s` that a sequence of ranges stands for, in order.
pub open spec fn pieces(s: Seq<char>, ranges: Seq<(usize, usize)>) -> Seq<Seq<char>> {
    Seq::new(ranges.len(), |i: int| s.subrange(ranges[i].0 as int, ranges[i].1 as int))
}

/// Whether each range lies within the characters `from` to `to`.
pub open spec fn ranges_within(ranges: Seq<(usize, usize)>, from: int, to: int) -> bool {
    forall|i: int|
        0 <= i < ranges.len() ==> from <= (#[trigger] ranges[i]).0 <= ranges[i].1 <= to
}

/// Where white space fills the first `n` characters and ends there, the
/// rest is what stays.
pub proof fn lemma_trim_start(s: Seq<char>, n: int)
    requires
        0 <= n <= s.len(),
        forall|k: int| 0 <= k < n ==> is_space(s[k]),
        n < s.len() ==> !is_space(s[n]),
    ensures
        trim_start(s) == s.skip(n),
    decreases n,
{
    if n == 0 {
        assert(s.skip(0) =~= s);
    } else {
        let rest = s.skip(1);
        assert forall|k: int| 0 <= k < n - 1 implies is_space(rest[k]) by {
            assert(rest[k] == s[k + 1]);
        }
        if n - 1 < rest.len() {
            assert(rest[n - 1] == s[n]);
        }
        lemma_trim_start(rest, n - 1);
        assert(rest.skip(n - 1) =~= s.skip(n));
    }
}

/// Where white space fills the characters from `n` on and begins there, what
/// stands before it is what stays.
pub proof fn lemma_trim_end(s: Seq<char>, n: int)
    requires
        0 <= n <= s.len(),
        forall|k: int| n <= k < s.len() ==> is_space(s[k]),
        n > 0 ==> !is_space(s[n - 1]),
    ensures
        trim_end(s) == s.take(n),
    decreases s.len() - n,
{
    if n == s.len() {
        assert(s.take(n) =~= s);
    } else {
        let rest = s.drop_last();
        lemma_trim_end(rest, n);
        assert(rest.take(n) =~= s.take(n));
    }
}

/// Whether `c` is white space.
pub fn is_space_char(c: char) -> (b: bool)
    ensures
        b == is_space(c),
{
    let n = c as u32;
    (0x09 <= n && n <= 0x0d) || n == 0x20 || n == 0x85 || n == 0xa0 || n == 0x1680 || (0x2000
        <= n && n <= 0x200a) || n == 0x2028 || n == 0x2029 || n == 0x202f || n == 0x205f || n
        == 0x3000
}

/// The characters of `text`, in order.
pub fn chars_of(text: &str) -> (chars: Vec<char>)
    ensures
        chars@ == text@,
{
    let mut chars: Vec<char> = Vec::new();
    for c in it: text.chars()
        invariant
            it.seq() == text@,
            chars@ == it.seq().take(it.index() as int),
    {
        chars.push(c);
        assert(chars@ =~= it.seq().take(it.index() + 1));
    }
    assert(chars@ =~= text@);
    chars
}

/// The range of the characters `from` to `to` without the white space at
/// its start and at its end.
pub fn trim_range(chars: &Vec<char>, from: usize, to: usize) -> (range: (usize, usize))
    requires
        from <= to <= chars@.len(),
    ensures
        from <= range.0 <= range.1 <= to,
        chars@.subrange(range.0 as int, range.1 as int) == trimmed(
            chars@.subrange(from as int, to as int),
        ),
{
    let ghost s = chars@.subrange(from as int, to as int);
    let mut a: usize = from;
    while a < to && is_space_char(chars[a])
        invariant
            from <= a <= to,
            to <= chars@.len(),
            forall|k: int| from <= k < a ==> is_space(chars@[k]),
        decreases to - a,
    {
        a += 1;
    }
    proof {
        assert forall|k: int| 0 <= k < a - from implies is_space(s[k]) by {
            assert(s[k] == chars@[from + k]);
        }
        if a < to {
            assert(s[a - from] == chars@[a as int]);
        }
        lemma_trim_start(s, a - from);
    }
    let ghost rest = chars@.subrange(a as int, to as int);
    assert(rest =~= s.skip(a - from));
    let mut b: usize = to;
    while b > a && is_space_char(chars[b - 1])
        invariant
            a <= b <= to,
            to <= chars@.len(),
            forall|k: int| b <= k < to ==> is_space(chars@[k]),
        decreases b - a,
    {
        b -= 1;
    }
    proof {
        assert forall|k: int| b - a <= k < rest.len() implies is_space(rest[k]) by {
            assert(rest[k] == chars@[a + k]);
        }
        if b > a {
            assert(rest[b - a - 1] == chars@[b - 1]);
        }
        lemma_trim_end(rest, b - a);
        assert(rest.take(b - a) =~= chars@.subrange(a as int, b as int));
    }
    (a, b)
}

/// The ranges of the pieces of the characters `from` to `to` between the
/// occurrences of `sep`.
pub fn split_ranges(chars: &Vec<char>, from: usize, to: usize, sep: char) -> (ranges: Vec<
    (usize, usize),
>)
    requires
        from <= to <= chars@.len(),
    ensures
        ranges_within(ranges@, from as int, to as int),
        pieces(chars@, ranges@) == split(chars@.subrange(from as int, to as int), sep),
{
    let mut ranges: Vec<(usize, usize)> = Vec::new();
    let mut start: usize = from;
    let mut i: usize = from;
    proof {
        assert(chars@.subrange(from as int, from as int) =~= Seq::<char>::empty());
        assert(pieces(chars@, ranges@).push(chars@.subrange(start as int, i as int)) =~= seq![
            Seq::<char>::empty(),
        ]);
    }
    while i < to
        invariant
            from <= start <= i <= to,
            to <= chars@.len(),
            ranges_within(ranges@, from as int, to as int),
            pieces(chars@, ranges@).push(chars@.subrange(start as int, i as int)) == split(
                chars@.subrange(from as int, i as int),
                sep,
            ),
        decreases to - i,
    {
        let ghost done = pieces(chars@, ranges@);
        let ghost current = chars@.subrange(start as int, i as int);
        let ghost upto = chars@.subrange(from as int, i + 1);
        proof {
            assert(upto.drop_last() =~= chars@.subrange(from as int, i as int));
            assert(upto.last() == chars@[i as int]);
            assert(done.push(current).drop_last() =~= done);
            assert(done.push(current).last() == current);
        }
        if chars[i] == sep {
            ranges.push((start, i));
            start = i + 1;
            proof {
                assert(pieces(chars@, ranges@) =~= done.push(current));
                assert(chars@.subrange(start as int, i + 1) =~= Seq::<char>::empty());
            }
        } else {
            proof {
                assert(chars@.subrange(start as int, i + 1) =~= current.push(chars@[i as int]));
            }
        }
        i += 1;
    }
    let ghost done = pieces(chars@, ranges@);
    ranges.push((start, to));
    assert(pieces(chars@, ranges@) =~= done.push(chars@.subrange(start as int, to as int)));
    ranges
}

/// The rows that `body` holds, in the order of its lines.
pub fn parse_pubkey_rows(body: &str) -> (rows: Vec<PubkeyRow>)
    ensures
        rows_view(rows@) == rows_of(body@),
{
    let chars = chars_of(body);
    let ghost all = chars@;
    assert(all.subrange(0, all.len() as int) =~= all);
    let (start, end) = trim_range(&chars, 0, chars.len());
    let lines = split_ranges(&chars, start, end, '\n');
    let ghost texts = pieces(all, lines@);
    let mut rows: Vec<PubkeyRow> = Vec::new();
    let mut i: usize = 0;
    assert(rows_view(rows@) =~= rows_from(texts.take(0)));
    while i < lines.len()
        invariant
            i <= lines@.len(),
            all == chars@,
            all == body@,
            texts == pieces(all, lines@),
            ranges_within(lines@, start as int, end as int),
            end <= all.len(),
            rows_view(rows@) == rows_from(texts.take(i as int)),
        decreases lines@.len() - i,
    {
        let ghost held = rows_view(rows@);
        let (from, to) = lines[i];
        let cells = split_ranges(&chars, from, to, ',');
        proof {
            assert(texts.take(i + 1).drop_last() =~= texts.take(i as int));
            assert(texts.take(i + 1).last() == all.subrange(from as int, to as int));
            assert(pieces(all, cells@).len() == cells@.len());
        }
        if cells.len() == 2 {
            let (a0, a1) = trim_range(&chars, cells[0].0, cells[0].1);
            let (k0, k1) = trim_range(&chars, cells[1].0, cells[1].1);
            let address = body.substring_char(a0, a1).to_owned();
            let pk_hex = body.substring_char(k0, k1).to_owned();
            rows.push(PubkeyRow { address, pk_hex });
            proof {
                let found = pieces(all, cells@);
                assert(found[0] == all.subrange(cells@[0].0 as int, cells@[0].1 as int));
                assert(found[1] == all.subrange(cells@[1].0 as int, cells@[1].1 as int));
                assert(rows_view(rows@) =~= held.push(
                    RowView { address: trimmed(found[0]), pk_hex: trimmed(found[1]) },
                ));
            }
        } else {
            assert(rows_view(rows@) =~= held);
        }
        i += 1;
    }
    assert(texts.take(i as int) =~= texts);
    rows
}

} // verus!
