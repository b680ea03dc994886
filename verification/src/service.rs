//! What the node service manager decides without touching the machine: which
//! process carries a service's name, which user ids a listing of users
//! holds, and which id a new service user gets.

use vstd::prelude::*;
use crate::pubkeys::{
    chars_of,
    is_space,
    is_space_char,
    pieces,
    ranges_within,
    split,
    split_ranges,
};
use crate::snapshot::{all_digits, without_sign};

verus! {

/// A process of this machine, as the service manager sees it.
#[derive(Debug)]
pub struct ProcessEntry {
    pub pid: u32,
    pub name: String,
}

/// The service manager of this machine. Its dealings with the machine are
/// outside this library; what it works out from them is here.
#[derive(Debug)]
pub struct NodeServiceManager {}

/// Whether a process of `processes` before index `n` is named `name`.
pub open spec fn named_before(processes: Seq<ProcessEntry>, name: Seq<char>, n: int) -> bool {
    exists|i: int| 0 <= i < n && i < processes.len() && (#[trigger] processes[i]).name@ == name
}

/// Whether `id` is the greatest of `ids`, or zero where there is none.
pub open spec fn is_greatest(ids: Seq<u32>, id: u32) -> bool {
    &&& forall|i: int| 0 <= i < ids.len() ==> #[trigger] ids[i] <= id
    &&& ids.len() == 0 ==> id == 0
    &&& ids.len() > 0 ==> ids.contains(id)
}

impl NodeServiceManager {
    /// The service manager of this machine.
    pub fn new() -> (manager: NodeServiceManager) {
        NodeServiceManager {  }
    }

    /// The id of the first process named `name`, if there is one.
    pub fn find_process_pid(&self, processes: &Vec<ProcessEntry>, name: &String) -> (pid: Option<
        u32,
    >)
        ensures
            match pid {
                Some(pid) => exists|i: int|
                    0 <= i < processes@.len() && (#[trigger] processes@[i]).name@ == name@
                        && processes@[i].pid == pid && !named_before(processes@, name@, i),
                None => !named_before(processes@, name@, processes@.len() as int),
            },
    {
        let mut i: usize = 0;
        while i < processes.len()
            invariant
                i <= processes@.len(),
                !named_before(processes@, name@, i as int),
            decreases processes@.len() - i,
        {
            if processes[i].name == *name {
                return Some(processes[i].pid);
            }
            assert forall|k: int| 0 <= k < i + 1 && k < processes@.len() implies (
            #[trigger] processes@[k]).name@ != name@ by {
                if k < i {
                    assert(!named_before(processes@, name@, i as int));
                }
            }
            i += 1;
        }
        None
    }

    /// The greatest of the user ids in use, or zero where none is in use.
    pub fn greatest_id(&self, ids: &Vec<u32>) -> (max_id: u32)
        ensures
            is_greatest(ids@, max_id),
    {
        let mut max_id: u32 = 0;
        let mut i: usize = 0;
        while i < ids.len()
            invariant
                i <= ids@.len(),
                is_greatest(ids@.take(i as int), max_id),
            decreases ids@.len() - i,
        {
            let ghost before = ids@.take(i as int);
            let ghost held = max_id;
            if ids[i] > max_id {
                max_id = ids[i];
            }
            proof {
                let upto = ids@.take(i + 1);
                assert(upto =~= before.push(ids@[i as int]));
                assert forall|k: int| 0 <= k < upto.len() implies #[trigger] upto[k] <= max_id by {
                    if k < before.len() {
                        assert(before[k] <= held);
                    }
                }
                if max_id == ids@[i as int] {
                    assert(upto[i as int] == max_id);
                } else {
                    assert(before.len() > 0 ==> before.contains(held));
                    if before.len() > 0 {
                        let k = choose|k: int| 0 <= k < before.len() && before[k] == held;
                        assert(upto[k] == max_id);
                    } else {
                        assert(held == 0);
                        assert(ids@[i as int] == 0);
                        assert(upto[i as int] == max_id);
                    }
                }
            }
            i += 1;
        }
        assert(ids@.take(i as int) =~= ids@);
        max_id
    }

    /// The id for a new service user: one more than the greatest id in use.
    /// There is none when the greatest id in use is the greatest there is.
    pub fn next_unique_id(&self, ids: &Vec<u32>) -> (id: Option<u32>)
        ensures
            match id {
                Some(id) => id > 0 && is_greatest(ids@, (id - 1) as u32),
                None => is_greatest(ids@, u32::MAX),
            },
    {
        let max_id = self.greatest_id(ids);
        if max_id == u32::MAX {
            None
        } else {
            Some(max_id + 1)
        }
    }
}

/// The words of `s`: the longest runs of characters that are no white space,
/// in order.
pub open spec fn words(s: Seq<char>) -> Seq<Seq<char>>
    decreases s.len(),
{
    if s.len() == 0 {
        Seq::empty()
    } else {
        let front = s.drop_last();
        let c = s.last();
        if is_space(c) {
            words(front)
        } else if front.len() > 0 && !is_space(front.last()) {
            words(front).drop_last().push(words(front).last().push(c))
        } else {
            words(front).push(seq![c])
        }
    }
}

/// The number that the decimal digits `digits` stand for.
pub open spec fn digits_value(digits: Seq<char>) -> int
    decreases digits.len(),
{
    if digits.len() == 0 {
        0
    } else {
        digits_value(digits.drop_last()) * 10 + (digits.last() as u32 - '0' as u32)
    }
}

/// The id that `word` stands for: decimal digits, with or without a plus
/// sign before them, that stand for a number of 32 bits.
pub open spec fn decimal(word: Seq<char>) -> Option<u32> {
    let digits = without_sign(word);
    if digits.len() > 0 && all_digits(digits) && digits_value(digits) <= u32::MAX {
        Some(digits_value(digits) as u32)
    } else {
        None
    }
}

/// The ids that a sequence of lines holds, in order: a line holds an id if
/// it has exactly two words and the second stands for one.
pub open spec fn ids_from(lines: Seq<Seq<char>>) -> Seq<u32>
    decreases lines.len(),
{
    if lines.len() == 0 {
        Seq::empty()
    } else {
        let front = ids_from(lines.drop_last());
        let found = words(lines.last());
        if found.len() == 2 && decimal(found[1]) is Some {
            front.push(decimal(found[1])->Some_0)
        } else {
            front
        }
    }
}

/// The user ids that a listing of users holds: one user to a line, its name
/// and its id.
pub open spec fn ids_of(listing: Seq<char>) -> Seq<u32> {
    ids_from(split(listing, '\n'))
}

/// More digits stand for no less.
pub proof fn lemma_digits_value_grows(digits: Seq<char>, n: int)
    requires
        0 <= n <= digits.len(),
        all_digits(digits),
    ensures
        0 <= digits_value(digits.take(n)) <= digits_value(digits),
    decreases digits.len(),
{
    if n == digits.len() {
        assert(digits.take(n) =~= digits);
        if digits.len() > 0 {
            assert(all_digits(digits.drop_last())) by {
                assert forall|i: int| 0 <= i < digits.drop_last().len() implies '0'
                    <= #[trigger] digits.drop_last()[i] <= '9' by {
                    assert(digits.drop_last()[i] == digits[i]);
                }
            }
            lemma_digits_value_grows(digits.drop_last(), n - 1);
            assert(digits.drop_last().take(n - 1) =~= digits.drop_last());
            assert('0' <= digits[digits.len() - 1] <= '9');
        }
    } else {
        let front = digits.drop_last();
        assert(all_digits(front)) by {
            assert forall|i: int| 0 <= i < front.len() implies '0' <= #[trigger] front[i]
                <= '9' by {
                assert(front[i] == digits[i]);
            }
        }
        assert(front.take(n) =~= digits.take(n));
        lemma_digits_value_grows(front, n);
        lemma_digits_value_grows(front, front.len() as int);
        assert(front.take(front.len() as int) =~= front);
        assert('0' <= digits[digits.len() - 1] <= '9');
    }
}

/// The ranges of the words among the characters `from` to `to`.
pub fn word_ranges(chars: &Vec<char>, from: usize, to: usize) -> (ranges: Vec<(usize, usize)>)
    requires
        from <= to <= chars@.len(),
    ensures
        ranges_within(ranges@, from as int, to as int),
        pieces(chars@, ranges@) == words(chars@.subrange(from as int, to as int)),
{
    let mut ranges: Vec<(usize, usize)> = Vec::new();
    let mut open = false;
    let mut start: usize = from;
    let mut i: usize = from;
    proof {
        assert(chars@.subrange(from as int, from as int) =~= Seq::<char>::empty());
        assert(pieces(chars@, ranges@) =~= Seq::<Seq<char>>::empty());
    }
    while i < to
        invariant
            from <= i <= to,
            to <= chars@.len(),
            ranges_within(ranges@, from as int, to as int),
            open == (i > from && !is_space(chars@[i - 1])),
            open ==> from <= start < i,
            words(chars@.subrange(from as int, i as int)) == (if open {
                pieces(chars@, ranges@).push(chars@.subrange(start as int, i as int))
            } else {
                pieces(chars@, ranges@)
            }),
        decreases to - i,
    {
        let ghost done = pieces(chars@, ranges@);
        let ghost current = chars@.subrange(start as int, i as int);
        let ghost before = chars@.subrange(from as int, i as int);
        let ghost upto = chars@.subrange(from as int, i + 1);
        let c = chars[i];
        proof {
            assert(upto.drop_last() =~= before);
            assert(upto.last() == c);
            if i > from {
                assert(before.last() == chars@[i - 1]);
            }
            if open {
                assert(done.push(current).drop_last() =~= done);
                assert(done.push(current).last() == current);
            }
        }
        if is_space_char(c) {
            if open {
                ranges.push((start, i));
                open = false;
                assert(pieces(chars@, ranges@) =~= done.push(current));
            }
        } else {
            if open {
                assert(chars@.subrange(start as int, i + 1) =~= current.push(c));
            } else {
                start = i;
                open = true;
                assert(chars@.subrange(start as int, i + 1) =~= seq![c]);
            }
        }
        i += 1;
    }
    if open {
        let ghost done = pieces(chars@, ranges@);
        ranges.push((start, to));
        assert(pieces(chars@, ranges@) =~= done.push(chars@.subrange(start as int, to as int)));
    }
    ranges
}

/// The id that the characters `from` to `to` stand for, if they stand for
/// one.
pub fn parse_decimal(chars: &Vec<char>, from: usize, to: usize) -> (id: Option<u32>)
    requires
        from <= to <= chars@.len(),
    ensures
        id == decimal(chars@.subrange(from as int, to as int)),
{
    let ghost word = chars@.subrange(from as int, to as int);
    let mut first: usize = from;
    if from < to && chars[from] == '+' {
        first = from + 1;
    }
    let ghost digits = chars@.subrange(first as int, to as int);
    proof {
        if from < to {
            assert(word[0] == chars@[from as int]);
        }
        assert(without_sign(word) =~= digits);
    }
    if first == to {
        return None;
    }
    let mut value: u64 = 0;
    let mut k: usize = first;
    assert(digits.take(0) =~= Seq::<char>::empty());
    while k < to
        invariant
            first <= k <= to,
            first < to,
            to <= chars@.len(),
            word == chars@.subrange(from as int, to as int),
            digits == chars@.subrange(first as int, to as int),
            without_sign(word) == digits,
            value == digits_value(digits.take(k - first)),
            value <= u32::MAX,
            forall|j: int| 0 <= j < k - first ==> '0' <= #[trigger] digits[j] <= '9',
        decreases to - k,
    {
        let c = chars[k];
        assert(digits[k - first] == c);
        if c < '0' || c > '9' {
            assert(!all_digits(digits));
            return None;
        }
        let digit = (c as u32 - '0' as u32) as u64;
        let next = value * 10 + digit;
        proof {
            let upto = digits.take(k - first + 1);
            assert(upto.drop_last() =~= digits.take(k - first));
            assert(upto.last() == c);
            assert(next == digits_value(upto));
        }
        if next > 0xffff_ffff {
            proof {
                if all_digits(digits) {
                    lemma_digits_value_grows(digits, k - first + 1);
                }
            }
            return None;
        }
        value = next;
        k += 1;
    }
    proof {
        assert(digits.take(k - first) =~= digits);
        assert(all_digits(digits));
    }
    Some(value as u32)
}

impl NodeServiceManager {
    /// The user ids that a listing of users holds, in the order of its
    /// lines.
    pub fn user_ids(&self, listing: &str) -> (ids: Vec<u32>)
        ensures
            ids@ == ids_of(listing@),
    {
        let chars = chars_of(listing);
        assert(chars@.subrange(0, chars@.len() as int) =~= chars@);
        let lines = split_ranges(&chars, 0, chars.len(), '\n');
        let ghost texts = pieces(chars@, lines@);
        let mut ids: Vec<u32> = Vec::new();
        let mut i: usize = 0;
        assert(ids@ =~= ids_from(texts.take(0)));
        while i < lines.len()
            invariant
                i <= lines@.len(),
                chars@ == listing@,
                texts == pieces(chars@, lines@),
                ranges_within(lines@, 0, chars@.len() as int),
                ids@ == ids_from(texts.take(i as int)),
            decreases lines@.len() - i,
        {
            let ghost held = ids@;
            let (from, to) = lines[i];
            let found = word_ranges(&chars, from, to);
            proof {
                assert(texts.take(i + 1).drop_last() =~= texts.take(i as int));
                assert(texts.take(i + 1).last() == chars@.subrange(from as int, to as int));
                assert(pieces(chars@, found@).len() == found@.len());
            }
            if found.len() == 2 {
                let (a, b) = found[1];
                assert(pieces(chars@, found@)[1] == chars@.subrange(a as int, b as int));
                match parse_decimal(&chars, a, b) {
                    Some(id) => {
                        ids.push(id);
                        assert(ids@ =~= held.push(id));
                    },
                    None => {},
                }
            }
            i += 1;
        }
        assert(texts.take(i as int) =~= texts);
        ids
    }
}

} // verus!
