//! Cores, and the choice of cores on the command line.

use crate::text::{decimal, decimal_text};
use std::collections::HashSet;
use vstd::prelude::*;
use vstd::string::*;

verus! {

/// A core of the machine, by its number.
#[derive(Clone, Copy, PartialEq, Eq, Structural, Debug)]
pub struct CoreId {
    pub id: usize,
}

/// The numbers of `cores`.
pub open spec fn ids_of(cores: Seq<CoreId>) -> Seq<usize> {
    cores.map_values(|c: CoreId| c.id)
}

/// Whether `c` has the Unicode property White_Space.
pub open spec fn is_whitespace(c: char) -> bool {
    ||| 0x9 <= c as int <= 0xd
    ||| c as int == 0x20
    ||| c as int == 0x85
    ||| c as int == 0xa0
    ||| c as int == 0x1680
    ||| 0x2000 <= c as int <= 0x200a
    ||| c as int == 0x2028
    ||| c as int == 0x2029
    ||| c as int == 0x202f
    ||| c as int == 0x205f
    ||| c as int == 0x3000
}

/// `s` without the whitespace at its start.
pub open spec fn trimmed_start(s: Seq<char>) -> Seq<char>
    decreases s.len(),
{
    if s.len() > 0 && is_whitespace(s[0]) {
        trimmed_start(s.drop_first())
    } else {
        s
    }
}

/// `s` without the whitespace at its end.
pub open spec fn trimmed_end(s: Seq<char>) -> Seq<char>
    decreases s.len(),
{
    if s.len() > 0 && is_whitespace(s.last()) {
        trimmed_end(s.drop_last())
    } else {
        s
    }
}

/// `s` without the whitespace at its start and end.
pub open spec fn trimmed(s: Seq<char>) -> Seq<char> {
    trimmed_end(trimmed_start(s))
}

/// Whether `c` is a decimal digit.
pub open spec fn is_digit(c: char) -> bool {
    '0' as int <= c as int <= '9' as int
}

/// The number that the digits of `s` write in decimal.
pub open spec fn decimal_value(s: Seq<char>) -> nat
    decreases s.len(),
{
    if s.len() == 0 {
        0
    } else {
        (decimal_value(s.drop_last()) * 10 + (s.last() as int - '0' as int)) as nat
    }
}

/// `s` without a plus sign at its start.
pub open spec fn unsigned_digits(s: Seq<char>) -> Seq<char> {
    if s.len() > 0 && s[0] == '+' {
        s.drop_first()
    } else {
        s
    }
}

/// The number that `s` writes: one or more decimal digits, with or without a
/// plus sign before them, that a `usize` can hold.
pub open spec fn number(s: Seq<char>) -> Option<usize> {
    let digits = unsigned_digits(s);
    if digits.len() > 0 && (forall|i: int| 0 <= i < digits.len() ==> is_digit(#[trigger] digits[i]))
        && decimal_value(digits) <= usize::MAX {
        Some(decimal_value(digits) as usize)
    } else {
        None
    }
}

/// The numbers from `start` to `end`, both included.
pub open spec fn inclusive(start: usize, end: usize) -> Seq<usize> {
    Seq::new((end - start + 1) as nat, |i: int| (start + i) as usize)
}

/// What can be wrong with a choice of cores, in terms of texts and lists.
pub enum CoresFault {
    RangeStart(Seq<char>, Seq<char>),
    RangeEnd(Seq<char>, Seq<char>),
    InvertedRange(Seq<char>, usize, usize),
    Core(Seq<char>),
    Duplicate(usize),
    NotFound(usize, Seq<usize>),
    TooFew(usize),
}

/// The cores that one item of the list chooses: a number, or two numbers joined
/// by a dash for a range.
pub open spec fn item_ids(item: Seq<char>) -> Result<Seq<usize>, CoresFault> {
    let s = trimmed(item);
    match s.index_of_first('-') {
        Some(d) => {
            let start = s.take(d);
            let end = s.skip(d + 1);
            match number(start) {
                None => Err(CoresFault::RangeStart(s, start)),
                Some(a) => match number(end) {
                    None => Err(CoresFault::RangeEnd(s, end)),
                    Some(b) => if a > b {
                        Err(CoresFault::InvertedRange(s, a, b))
                    } else {
                        Ok(inclusive(a, b))
                    },
                },
            }
        },
        None => match number(s) {
            None => Err(CoresFault::Core(s)),
            Some(a) => Ok(seq![a]),
        },
    }
}

/// The cores that a list chooses, item by item, or what is wrong with the first
/// item that is no choice.
pub open spec fn listed_ids(items: Seq<Seq<char>>) -> Result<Seq<usize>, CoresFault>
    decreases items.len(),
{
    if items.len() == 0 {
        Ok(Seq::empty())
    } else {
        match listed_ids(items.drop_last()) {
            Err(f) => Err(f),
            Ok(ids) => match item_ids(items.last()) {
                Err(f) => Err(f),
                Ok(more) => Ok(ids + more),
            },
        }
    }
}

/// The index of the first number that stands in `ids` before.
pub open spec fn first_repeat(ids: Seq<usize>) -> Option<int>
    decreases ids.len(),
{
    if ids.len() == 0 {
        None
    } else {
        match first_repeat(ids.drop_last()) {
            Some(i) => Some(i),
            None => if ids.drop_last().contains(ids.last()) {
                Some(ids.len() - 1)
            } else {
                None
            },
        }
    }
}

/// The index of the first number of `ids` that is not in `all`.
pub open spec fn first_missing(ids: Seq<usize>, all: Seq<usize>) -> Option<int>
    decreases ids.len(),
{
    if ids.len() == 0 {
        None
    } else {
        match first_missing(ids.drop_last(), all) {
            Some(i) => Some(i),
            None => if !all.contains(ids.last()) {
                Some(ids.len() - 1)
            } else {
                None
            },
        }
    }
}

/// Whether `list` has the numbers of `all`, each once, in ascending order.
pub open spec fn is_listing(all: Seq<usize>, list: Seq<usize>) -> bool {
    &&& forall|i: int, j: int| 0 <= i < j < list.len() ==> list[i] < list[j]
    &&& forall|x: usize| #[trigger] list.contains(x) <==> all.contains(x)
}

/// Whether `r` is what the list `items` chooses of the cores numbered `all`. With
/// no items it is all of them. Otherwise it is what the items list, unless an
/// item is no choice, a core is listed twice or is not there, or fewer than two
/// are listed; of these the first that applies is what is wrong.
pub open spec fn is_choice(
    items: Seq<Seq<char>>,
    all: Seq<usize>,
    r: Result<Seq<usize>, CoresFault>,
) -> bool {
    if items.len() == 0 {
        r == Ok::<Seq<usize>, CoresFault>(all)
    } else {
        match listed_ids(items) {
            Err(f) => r == Err::<Seq<usize>, CoresFault>(f),
            Ok(ids) => match first_repeat(ids) {
                Some(i) => r == Err::<Seq<usize>, CoresFault>(CoresFault::Duplicate(ids[i])),
                None => match first_missing(ids, all) {
                    Some(i) => {
                        &&& r matches Err(CoresFault::NotFound(id, available))
                        &&& id == ids[i]
                        &&& is_listing(all, available)
                    },
                    None => if ids.len() < 2 {
                        r == Err::<Seq<usize>, CoresFault>(CoresFault::TooFew(ids.len() as usize))
                    } else {
                        r == Ok::<Seq<usize>, CoresFault>(ids)
                    },
                },
            },
        }
    }
}

/// The texts of `items`.
pub open spec fn texts(items: Seq<String>) -> Seq<Seq<char>> {
    items.map_values(|s: String| s@)
}

/// What is wrong with a choice of cores.
#[derive(Debug)]
pub enum CoresError {
    /// The part before the dash of a range is no number.
    RangeStart { spec: String, part: String },
    /// The part after the dash of a range is no number.
    RangeEnd { spec: String, part: String },
    /// A range ends before it starts.
    InvertedRange { spec: String, start: usize, end: usize },
    /// An item is no number.
    Core { spec: String },
    /// A core is chosen twice.
    Duplicate { id: usize },
    /// A core is not there.
    NotFound { id: usize, available: Vec<usize> },
    /// Fewer than two cores are chosen.
    TooFew { count: usize },
}

impl View for CoresError {
    type V = CoresFault;

    open spec fn view(&self) -> CoresFault {
        match *self {
            CoresError::RangeStart { spec, part } => CoresFault::RangeStart(spec@, part@),
            CoresError::RangeEnd { spec, part } => CoresFault::RangeEnd(spec@, part@),
            CoresError::InvertedRange { spec, start, end } => CoresFault::InvertedRange(
                spec@,
                start,
                end,
            ),
            CoresError::Core { spec } => CoresFault::Core(spec@),
            CoresError::Duplicate { id } => CoresFault::Duplicate(id),
            CoresError::NotFound { id, available } => CoresFault::NotFound(id, available@),
            CoresError::TooFew { count } => CoresFault::TooFew(count),
        }
    }
}

/// The characters of `s`.
fn chars_of(s: &str) -> (r: Vec<char>)
    ensures
        r@ == s@,
{
    let mut r: Vec<char> = Vec::new();
    for c in it: s.chars()
        invariant
            r@ == it.seq().take(it.index()),
            it.seq() == s@,
    {
        r.push(c);
        assert(r@ =~= it.seq().take(it.index() + 1));
    }
    assert(r@ =~= s@);
    r
}

/// Whether `c` is whitespace.
fn whitespace(c: char) -> (r: bool)
    ensures
        r == is_whitespace(c),
{
    let n: u32 = c as u32;
    (0x9 <= n && n <= 0xd) || n == 0x20 || n == 0x85 || n == 0xa0 || n == 0x1680 || (0x2000 <= n
        && n <= 0x200a) || n == 0x2028 || n == 0x2029 || n == 0x202f || n == 0x205f || n == 0x3000
}

/// Where `chars` starts and ends without the whitespace at its start and end.
fn trim_bounds(chars: &Vec<char>) -> (r: (usize, usize))
    ensures
        r.0 <= r.1 <= chars.len(),
        chars@.subrange(r.0 as int, r.1 as int) == trimmed(chars@),
{
    let n: usize = chars.len();
    let mut lo: usize = 0;
    assert(chars@.skip(0) =~= chars@);
    while lo < n && whitespace(chars[lo])
        invariant
            n == chars.len(),
            lo <= n,
            trimmed_start(chars@.skip(lo as int)) == trimmed_start(chars@),
        decreases n - lo,
    {
        assert(chars@.skip(lo as int).drop_first() =~= chars@.skip(lo + 1));
        lo = lo + 1;
    }
    assert(trimmed_start(chars@) == chars@.skip(lo as int));
    let mut hi: usize = n;
    assert(chars@.subrange(lo as int, n as int) =~= chars@.skip(lo as int));
    while lo < hi && whitespace(chars[hi - 1])
        invariant
            n == chars.len(),
            lo <= hi <= n,
            trimmed_end(chars@.subrange(lo as int, hi as int)) == trimmed_end(
                chars@.skip(lo as int),
            ),
        decreases hi,
    {
        assert(chars@.subrange(lo as int, hi as int).drop_last() =~= chars@.subrange(
            lo as int,
            hi - 1,
        ));
        hi = hi - 1;
    }
    (lo, hi)
}

/// A longer run of digits writes no smaller number.
proof fn lemma_decimal_value_grows(s: Seq<char>, n: int)
    requires
        0 <= n <= s.len(),
        forall|i: int| 0 <= i < s.len() ==> is_digit(#[trigger] s[i]),
    ensures
        decimal_value(s.take(n)) <= decimal_value(s),
    decreases s.len(),
{
    if n < s.len() {
        let shorter = s.drop_last();
        assert(shorter.take(n) =~= s.take(n));
        assert forall|i: int| 0 <= i < shorter.len() implies is_digit(#[trigger] shorter[i]) by {
            assert(shorter[i] == s[i]);
        }
        lemma_decimal_value_grows(shorter, n);
        assert(is_digit(s[s.len() - 1]));
    } else {
        assert(s.take(n) =~= s);
    }
}

/// What the digit `c` is worth.
fn digit_value(c: char) -> (r: Option<usize>)
    ensures
        match r {
            Some(d) => is_digit(c) && d == c as int - '0' as int && d < 10,
            None => !is_digit(c),
        },
{
    let n: u32 = c as u32;
    if 48 <= n && n <= 57 {
        Some((n - 48) as usize)
    } else {
        None
    }
}

/// The number that the characters from `lo` up to `hi` write.
fn parse_number(chars: &Vec<char>, lo: usize, hi: usize) -> (r: Option<usize>)
    requires
        lo <= hi <= chars.len(),
    ensures
        r == number(chars@.subrange(lo as int, hi as int)),
{
    let ghost s = chars@.subrange(lo as int, hi as int);
    let ghost digits = unsigned_digits(s);
    let start: usize = if lo < hi && chars[lo] == '+' {
        lo + 1
    } else {
        lo
    };
    assert(digits =~= chars@.subrange(start as int, hi as int));
    if start == hi {
        return None;
    }
    let mut value: usize = 0;
    let mut i: usize = start;
    assert(digits.take(0) =~= Seq::empty());
    while i < hi
        invariant
            start <= i <= hi <= chars.len(),
            digits == unsigned_digits(s),
            s == chars@.subrange(lo as int, hi as int),
            digits == chars@.subrange(start as int, hi as int),
            value == decimal_value(digits.take(i - start)),
            forall|j: int| 0 <= j < i - start ==> is_digit(#[trigger] digits[j]),
        decreases hi - i,
    {
        let c = chars[i];
        assert(c == digits[i - start]);
        let d: usize = match digit_value(c) {
            Some(d) => d,
            None => {
                assert(!is_digit(digits[i - start]));
                return None;
            },
        };
        proof {
            let longer = digits.take(i - start + 1);
            assert(longer.drop_last() =~= digits.take(i - start));
            assert(longer.last() == c);
            assert(decimal_value(longer) == value * 10 + d);
        }
        if value > (usize::MAX - d) / 10 {
            proof {
                if forall|j: int| 0 <= j < digits.len() ==> is_digit(#[trigger] digits[j]) {
                    lemma_decimal_value_grows(digits, i - start + 1);
                }
            }
            return None;
        }
        value = value * 10 + d;
        i = i + 1;
    }
    assert(digits.take(hi - start) =~= digits);
    Some(value)
}

/// The index of the first dash from `lo` up to `hi`, or `hi`.
fn find_dash(chars: &Vec<char>, lo: usize, hi: usize) -> (r: usize)
    requires
        lo <= hi <= chars.len(),
    ensures
        lo <= r <= hi,
        ({
            let s = chars@.subrange(lo as int, hi as int);
            if r < hi {
                s.index_of_first('-') == Some(r - lo)
            } else {
                s.index_of_first('-') == None::<int>
            }
        }),
{
    let ghost s = chars@.subrange(lo as int, hi as int);
    proof {
        s.index_of_first_ensures('-');
    }
    let mut i: usize = lo;
    while i < hi
        invariant
            lo <= i <= hi <= chars.len(),
            s == chars@.subrange(lo as int, hi as int),
            forall|j: int| 0 <= j < i - lo ==> s[j] != '-',
            match s.index_of_first('-') {
                Some(index) => {
                    &&& 0 <= index < s.len()
                    &&& s[index] == '-'
                    &&& forall|j: int| 0 <= j < index < s.len() ==> s[j] != '-'
                },
                None => !s.contains('-'),
            },
        decreases hi - i,
    {
        if chars[i] == '-' {
            assert(s[i - lo] == '-');
            assert(s.contains('-'));
            return i;
        }
        assert(s[i - lo] != '-');
        i = i + 1;
    }
    hi
}

/// Appends the cores that `item` chooses to `ids`.
fn append_item(item: &str, ids: &mut Vec<usize>) -> (r: Result<(), CoresError>)
    ensures
        match r {
            Ok(()) => {
                &&& item_ids(item@) matches Ok(more)
                &&& final(ids)@ == old(ids)@ + more
            },
            Err(e) => item_ids(item@) == Err::<Seq<usize>, CoresFault>(e@),
        },
{
    let chars = chars_of(item);
    let (lo, hi) = trim_bounds(&chars);
    let ghost s = trimmed(item@);
    let spec = item.substring_char(lo, hi);
    let dash: usize = find_dash(&chars, lo, hi);
    if dash < hi {
        assert(s.take(dash - lo) =~= chars@.subrange(lo as int, dash as int));
        assert(s.skip(dash - lo + 1) =~= chars@.subrange(dash + 1, hi as int));
        let start: usize = match parse_number(&chars, lo, dash) {
            Some(n) => n,
            None => {
                return Err(
                    CoresError::RangeStart {
                        spec: spec.to_owned(),
                        part: item.substring_char(lo, dash).to_owned(),
                    },
                );
            },
        };
        let end: usize = match parse_number(&chars, dash + 1, hi) {
            Some(n) => n,
            None => {
                return Err(
                    CoresError::RangeEnd {
                        spec: spec.to_owned(),
                        part: item.substring_char(dash + 1, hi).to_owned(),
                    },
                );
            },
        };
        if start > end {
            return Err(CoresError::InvertedRange { spec: spec.to_owned(), start, end });
        }
        let ghost before = ids@;
        let mut id: usize = start;
        while id < end
            invariant
                start <= id <= end,
                ids@ =~= before + inclusive(start, end).take(id - start),
            decreases end - id,
        {
            ids.push(id);
            id = id + 1;
        }
        ids.push(end);
        assert(ids@ =~= before + inclusive(start, end));
    } else {
        match parse_number(&chars, lo, hi) {
            Some(n) => {
                let ghost before = ids@;
                ids.push(n);
                assert(ids@ =~= before + seq![n]);
            },
            None => {
                return Err(CoresError::Core { spec: spec.to_owned() });
            },
        }
    }
    Ok(())
}

/// Adds the numbers of `cores` to a set.
fn id_set(cores: &[CoreId]) -> (r: HashSet<usize>)
    ensures
        r@ == ids_of(cores@).to_set(),
{
    broadcast use vstd::std_specs::hash::group_hash_axioms;

    let mut r: HashSet<usize> = HashSet::new();
    let mut i: usize = 0;
    let ghost all = ids_of(cores@);
    assert(all.take(0).to_set() =~= Set::empty());
    while i < cores.len()
        invariant
            i <= cores.len(),
            all == ids_of(cores@),
            r@ == all.take(i as int).to_set(),
        decreases cores.len() - i,
    {
        r.insert(cores[i].id);
        proof {
            assert(all.take(i + 1) =~= all.take(i as int).push(all[i as int]));
            lemma_to_set_push(all.take(i as int), all[i as int]);
        }
        i = i + 1;
    }
    assert(all.take(cores.len() as int) =~= all);
    r
}

/// The set of a sequence that grows by one item.
proof fn lemma_to_set_push(s: Seq<usize>, x: usize)
    ensures
        s.push(x).to_set() == s.to_set().insert(x),
{
    assert forall|y: usize| #[trigger] s.push(x).to_set().contains(y) == s.to_set().insert(
        x,
    ).contains(y) by {
        if s.contains(y) {
            let i = choose|i: int| 0 <= i < s.len() && s[i] == y;
            assert(s.push(x)[i] == y);
        }
        if y == x {
            assert(s.push(x)[s.len() as int] == y);
        }
    }
    assert(s.push(x).to_set() =~= s.to_set().insert(x));
}

/// A number that repeats in a prefix is the first to repeat in the whole.
proof fn lemma_first_repeat_prefix(ids: Seq<usize>, n: int)
    requires
        0 <= n <= ids.len(),
        first_repeat(ids.take(n)) is Some,
    ensures
        first_repeat(ids) == first_repeat(ids.take(n)),
    decreases ids.len(),
{
    if n < ids.len() {
        assert(ids.drop_last().take(n) =~= ids.take(n));
        lemma_first_repeat_prefix(ids.drop_last(), n);
    } else {
        assert(ids.take(n) =~= ids);
    }
}

/// A number that is missing in a prefix is the first to be missing in the whole.
proof fn lemma_first_missing_prefix(ids: Seq<usize>, all: Seq<usize>, n: int)
    requires
        0 <= n <= ids.len(),
        first_missing(ids.take(n), all) is Some,
    ensures
        first_missing(ids, all) == first_missing(ids.take(n), all),
    decreases ids.len(),
{
    if n < ids.len() {
        assert(ids.drop_last().take(n) =~= ids.take(n));
        lemma_first_missing_prefix(ids.drop_last(), all, n);
    } else {
        assert(ids.take(n) =~= ids);
    }
}

/// The index of the first number that stands in `ids` before.
fn find_repeat(ids: &Vec<usize>) -> (r: Option<usize>)
    ensures
        match r {
            Some(i) => i < ids.len() && first_repeat(ids@) == Some(i as int),
            None => first_repeat(ids@) == None::<int>,
        },
{
    broadcast use vstd::std_specs::hash::group_hash_axioms;

    let mut seen: HashSet<usize> = HashSet::new();
    let mut i: usize = 0;
    assert(ids@.take(0).to_set() =~= Set::empty());
    while i < ids.len()
        invariant
            i <= ids.len(),
            seen@ == ids@.take(i as int).to_set(),
            first_repeat(ids@.take(i as int)) == None::<int>,
        decreases ids.len() - i,
    {
        proof {
            assert(ids@.take(i + 1) =~= ids@.take(i as int).push(ids[i as int]));
            assert(ids@.take(i + 1).drop_last() =~= ids@.take(i as int));
            lemma_to_set_push(ids@.take(i as int), ids[i as int]);
            assert(ids@.take(i as int).to_set().contains(ids[i as int]) == ids@.take(
                i as int,
            ).contains(ids[i as int]));
        }
        if !seen.insert(ids[i]) {
            proof {
                assert(first_repeat(ids@.take(i + 1)) == Some(i as int));
                lemma_first_repeat_prefix(ids@, i + 1);
            }
            return Some(i);
        }
        i = i + 1;
    }
    assert(ids@.take(ids.len() as int) =~= ids@);
    None
}

/// The index of the first number of `ids` that no core of `all` has.
fn find_missing(ids: &Vec<usize>, all: &[CoreId]) -> (r: Option<usize>)
    ensures
        match r {
            Some(i) => i < ids.len() && first_missing(ids@, ids_of(all@)) == Some(i as int),
            None => first_missing(ids@, ids_of(all@)) == None::<int>,
        },
{
    broadcast use vstd::std_specs::hash::group_hash_axioms;

    let valid = id_set(all);
    let mut i: usize = 0;
    while i < ids.len()
        invariant
            i <= ids.len(),
            valid@ == ids_of(all@).to_set(),
            first_missing(ids@.take(i as int), ids_of(all@)) == None::<int>,
        decreases ids.len() - i,
    {
        proof {
            assert(ids@.take(i + 1).drop_last() =~= ids@.take(i as int));
            assert(ids_of(all@).to_set().contains(ids[i as int]) == ids_of(all@).contains(
                ids[i as int],
            ));
        }
        if !valid.contains(&ids[i]) {
            proof {
                assert(first_missing(ids@.take(i + 1), ids_of(all@)) == Some(i as int));
                lemma_first_missing_prefix(ids@, ids_of(all@), i + 1);
            }
            return Some(i);
        }
        i = i + 1;
    }
    assert(ids@.take(ids.len() as int) =~= ids@);
    None
}

/// Puts `id` into an ascending list, unless it is there.
fn insert_ascending(list: &mut Vec<usize>, id: usize)
    requires
        forall|i: int, j: int| 0 <= i < j < old(list).len() ==> old(list)[i] < old(list)[j],
    ensures
        forall|i: int, j: int| 0 <= i < j < final(list).len() ==> final(list)[i] < final(list)[j],
        forall|x: usize| #[trigger] final(list)@.contains(x) <==> old(list)@.contains(x) || x == id,
{
    let ghost before = list@;
    let mut p: usize = 0;
    while p < list.len() && list[p] < id
        invariant
            p <= list.len(),
            forall|i: int| 0 <= i < p ==> list[i] < id,
        decreases list.len() - p,
    {
        p = p + 1;
    }
    if p < list.len() && list[p] == id {
        assert(before.contains(id));
        return;
    }
    list.insert(p, id);
    proof {
        assert(list@ =~= before.insert(p as int, id));
        assert forall|x: usize| #[trigger] list@.contains(x) <==> before.contains(x) || x == id by {
            if before.contains(x) {
                let k = choose|k: int| 0 <= k < before.len() && before[k] == x;
                if k < p {
                    assert(list@[k] == x);
                } else {
                    assert(list@[k + 1] == x);
                }
            }
            if x == id {
                assert(list@[p as int] == x);
            }
            if list@.contains(x) && x != id {
                let k = choose|k: int| 0 <= k < list@.len() && list@[k] == x;
                if k < p {
                    assert(before[k] == x);
                } else {
                    assert(before[k - 1] == x);
                }
            }
        }
    }
}

/// The numbers of `cores`, each once, in ascending order.
fn listing(cores: &[CoreId]) -> (r: Vec<usize>)
    ensures
        is_listing(ids_of(cores@), r@),
{
    let mut r: Vec<usize> = Vec::new();
    let mut k: usize = 0;
    let ghost all = ids_of(cores@);
    while k < cores.len()
        invariant
            k <= cores.len(),
            all == ids_of(cores@),
            is_listing(all.take(k as int), r@),
        decreases cores.len() - k,
    {
        insert_ascending(&mut r, cores[k].id);
        proof {
            assert(all.take(k + 1) =~= all.take(k as int).push(all[k as int]));
            lemma_to_set_push(all.take(k as int), all[k as int]);
            assert forall|x: usize| all.take(k + 1).contains(x) == (all.take(k as int).contains(x)
                || x == all[k as int]) by {
                assert(all.take(k + 1).to_set().contains(x) == all.take(k as int).to_set().insert(
                    all[k as int],
                ).contains(x));
            }
        }
        k = k + 1;
    }
    assert(all.take(cores.len() as int) =~= all);
    r
}

/// Chooses cores of `all_cores` by a list of numbers and inclusive ranges. With an
/// empty list all cores are chosen, in their order; otherwise the cores listed, in
/// the order of the list.
pub fn parse_cores(specs: &[String], all_cores: &[CoreId]) -> (r: Result<Vec<CoreId>, CoresError>)
    ensures
        match r {
            Ok(cores) => is_choice(texts(specs@), ids_of(all_cores@), Ok(ids_of(cores@))),
            Err(e) => is_choice(texts(specs@), ids_of(all_cores@), Err(e@)),
        },
{
    let ghost items = texts(specs@);
    let ghost all = ids_of(all_cores@);
    let mut chosen: Vec<CoreId> = Vec::new();
    let mut i: usize = 0;
    if specs.len() == 0 {
        while i < all_cores.len()
            invariant
                i <= all_cores.len(),
                chosen@ =~= all_cores@.take(i as int),
            decreases all_cores.len() - i,
        {
            chosen.push(all_cores[i]);
            i = i + 1;
        }
        assert(chosen@ =~= all_cores@);
        return Ok(chosen);
    }
    let mut ids: Vec<usize> = Vec::new();
    assert(items.take(0) =~= Seq::empty());
    while i < specs.len()
        invariant
            i <= specs.len(),
            items == texts(specs@),
            all == ids_of(all_cores@),
            items.len() > 0,
            listed_ids(items.take(i as int)) == Ok::<Seq<usize>, CoresFault>(ids@),
        decreases specs.len() - i,
    {
        proof {
            assert(items.take(i + 1).drop_last() =~= items.take(i as int));
            assert(items.take(i + 1).last() == specs[i as int]@);
        }
        match append_item(specs[i].as_str(), &mut ids) {
            Ok(()) => {},
            Err(e) => {
                proof {
                    assert(listed_ids(items.take(i + 1)) == Err::<Seq<usize>, CoresFault>(e@));
                    lemma_listed_prefix(items, i + 1);
                }
                return Err(e);
            },
        }
        i = i + 1;
    }
    assert(items.take(specs.len() as int) =~= items);
    match find_repeat(&ids) {
        Some(k) => {
            return Err(CoresError::Duplicate { id: ids[k] });
        },
        None => {},
    }
    match find_missing(&ids, all_cores) {
        Some(k) => {
            return Err(CoresError::NotFound { id: ids[k], available: listing(all_cores) });
        },
        None => {},
    }
    if ids.len() < 2 {
        return Err(CoresError::TooFew { count: ids.len() });
    }
    let mut k: usize = 0;
    while k < ids.len()
        invariant
            k <= ids.len(),
            chosen.len() == k,
            forall|j: int| 0 <= j < k ==> chosen[j].id == ids[j],
        decreases ids.len() - k,
    {
        chosen.push(CoreId { id: ids[k] });
        k = k + 1;
    }
    assert(ids_of(chosen@) =~= ids@);
    Ok(chosen)
}

/// What is wrong with the first items is what is wrong with all of them.
proof fn lemma_listed_prefix(items: Seq<Seq<char>>, n: int)
    requires
        0 <= n <= items.len(),
        listed_ids(items.take(n)) is Err,
    ensures
        listed_ids(items) == listed_ids(items.take(n)),
    decreases items.len(),
{
    if n < items.len() {
        assert(items.drop_last().take(n) =~= items.take(n));
        lemma_listed_prefix(items.drop_last(), n);
    } else {
        assert(items.take(n) =~= items);
    }
}

/// The numbers of a list, separated by commas.
pub open spec fn comma_separated(list: Seq<usize>) -> Seq<char>
    decreases list.len(),
{
    if list.len() == 0 {
        Seq::empty()
    } else if list.len() == 1 {
        decimal(list[0] as nat)
    } else {
        comma_separated(list.drop_last()) + ", "@ + decimal(list.last() as nat)
    }
}

impl CoresFault {
    /// What is wrong, in words.
    pub open spec fn message(self) -> Seq<char> {
        match self {
            CoresFault::RangeStart(s, part) => "Invalid range start in '"@ + s + "': '"@ + part
                + "'"@,
            CoresFault::RangeEnd(s, part) => "Invalid range end in '"@ + s + "': '"@ + part + "'"@,
            CoresFault::InvertedRange(s, start, end) => "Invalid range '"@ + s + "': start ("@
                + decimal(start as nat) + ") > end ("@ + decimal(end as nat) + ")"@,
            CoresFault::Core(s) => "Invalid core id: '"@ + s + "'"@,
            CoresFault::Duplicate(id) => "Duplicate core id: "@ + decimal(id as nat),
            CoresFault::NotFound(id, available) => "Core "@ + decimal(id as nat)
                + " not found. Available: ["@ + comma_separated(available) + "]"@,
            CoresFault::TooFew(count) => "--cores must specify at least 2 cores, got "@ + decimal(
                count as nat,
            ),
        }
    }
}

/// The numbers of a list, separated by commas.
fn comma_separated_text(list: &Vec<usize>) -> (r: String)
    ensures
        r@ == comma_separated(list@),
{
    let mut r = String::new();
    let mut i: usize = 0;
    while i < list.len()
        invariant
            i <= list.len(),
            r@ == comma_separated(list@.take(i as int)),
        decreases list.len() - i,
    {
        let ghost before = r@;
        if i > 0 {
            r.append(", ");
        }
        r.append(decimal_text(list[i]).as_str());
        proof {
            assert(list@.take(i + 1).drop_last() =~= list@.take(i as int));
            if i == 0 {
                assert(r@ =~= decimal(list[0] as nat));
            }
        }
        i = i + 1;
    }
    assert(list@.take(list.len() as int) =~= list@);
    r
}

impl CoresError {
    /// What is wrong, in words.
    pub fn message(&self) -> (r: String)
        ensures
            r@ == self@.message(),
    {
        match self {
            CoresError::RangeStart { spec, part } => {
                let mut r = String::from_str("Invalid range start in '");
                r.append(spec.as_str());
                r.append("': '");
                r.append(part.as_str());
                r.append("'");
                r
            },
            CoresError::RangeEnd { spec, part } => {
                let mut r = String::from_str("Invalid range end in '");
                r.append(spec.as_str());
                r.append("': '");
                r.append(part.as_str());
                r.append("'");
                r
            },
            CoresError::InvertedRange { spec, start, end } => {
                let mut r = String::from_str("Invalid range '");
                r.append(spec.as_str());
                r.append("': start (");
                r.append(decimal_text(*start).as_str());
                r.append(") > end (");
                r.append(decimal_text(*end).as_str());
                r.append(")");
                r
            },
            CoresError::Core { spec } => {
                let mut r = String::from_str("Invalid core id: '");
                r.append(spec.as_str());
                r.append("'");
                r
            },
            CoresError::Duplicate { id } => {
                let mut r = String::from_str("Duplicate core id: ");
                r.append(decimal_text(*id).as_str());
                r
            },
            CoresError::NotFound { id, available } => {
                let mut r = String::from_str("Core ");
                r.append(decimal_text(*id).as_str());
                r.append(" not found. Available: [");
                r.append(comma_separated_text(available).as_str());
                r.append("]");
                r
            },
            CoresError::TooFew { count } => {
                let mut r = String::from_str("--cores must specify at least 2 cores, got ");
                r.append(decimal_text(*count).as_str());
                r
            },
        }
    }
}

/// A list chooses at least two cores, all there and no two the same.
pub proof fn lemma_choice_valid(items: Seq<Seq<char>>, all: Seq<usize>, ids: Seq<usize>)
    requires
        items.len() > 0,
        is_choice(items, all, Ok(ids)),
    ensures
        ids.len() >= 2,
        ids.no_duplicates(),
        forall|i: int| 0 <= i < ids.len() ==> all.contains(#[trigger] ids[i]),
        listed_ids(items) == Ok::<Seq<usize>, CoresFault>(ids),
{
    lemma_no_repeat(ids);
    lemma_none_missing(ids, all);
}

/// Where no number repeats, all numbers are different.
proof fn lemma_no_repeat(ids: Seq<usize>)
    requires
        first_repeat(ids) == None::<int>,
    ensures
        ids.no_duplicates(),
    decreases ids.len(),
{
    if ids.len() > 0 {
        let front = ids.drop_last();
        lemma_no_repeat(front);
        assert forall|i: int, j: int| 0 <= i < j < ids.len() implies ids[i] != ids[j] by {
            assert(front[i] == ids[i]);
            if j < front.len() {
                assert(front[j] == ids[j]);
            } else {
                assert(front.contains(front[i]));
            }
        }
    }
}

/// Where no number is missing, all numbers are there.
proof fn lemma_none_missing(ids: Seq<usize>, all: Seq<usize>)
    requires
        first_missing(ids, all) == None::<int>,
    ensures
        forall|i: int| 0 <= i < ids.len() ==> all.contains(#[trigger] ids[i]),
    decreases ids.len(),
{
    if ids.len() > 0 {
        let front = ids.drop_last();
        lemma_none_missing(front, all);
        assert forall|i: int| 0 <= i < ids.len() implies all.contains(#[trigger] ids[i]) by {
            if i < front.len() {
                assert(front[i] == ids[i]);
            }
        }
    }
}

/// There is at most one ascending listing of the numbers of a sequence.
pub proof fn lemma_listing_unique(all: Seq<usize>, a: Seq<usize>, b: Seq<usize>)
    requires
        is_listing(all, a),
        is_listing(all, b),
    ensures
        a == b,
{
    assert forall|x: usize|
        #![trigger a.contains(x)]
        #![trigger b.contains(x)]
        a.contains(x) <==> b.contains(x) by {
        assert(a.contains(x) <==> all.contains(x));
        assert(b.contains(x) <==> all.contains(x));
    }
    lemma_ascending_equal(a, b);
}

/// Two ascending sequences with the same members are equal.
proof fn lemma_ascending_equal(a: Seq<usize>, b: Seq<usize>)
    requires
        forall|i: int, j: int| 0 <= i < j < a.len() ==> a[i] < a[j],
        forall|i: int, j: int| 0 <= i < j < b.len() ==> b[i] < b[j],
        forall|x: usize|
            #![trigger a.contains(x)]
            #![trigger b.contains(x)]
            a.contains(x) <==> b.contains(x),
    ensures
        a == b,
    decreases a.len(),
{
    if a.len() == 0 {
        if b.len() > 0 {
            assert(b.contains(b[0]));
        }
        assert(a =~= b);
    } else {
        assert(a.contains(a.last()));
        let i = choose|i: int| 0 <= i < b.len() && b[i] == a.last();
        assert(b.contains(b.last()));
        let j = choose|j: int| 0 <= j < a.len() && a[j] == b.last();
        assert(a.last() == b.last());
        let a1 = a.drop_last();
        let b1 = b.drop_last();
        assert forall|x: usize|
            #![trigger a1.contains(x)]
            #![trigger b1.contains(x)]
            a1.contains(x) <==> b1.contains(x) by {
            if a1.contains(x) {
                let k = choose|k: int| 0 <= k < a1.len() && a1[k] == x;
                assert(a[k] == x);
                assert(a.contains(x));
                let m = choose|m: int| 0 <= m < b.len() && b[m] == x;
                assert(b1[m] == x);
            }
            if b1.contains(x) {
                let k = choose|k: int| 0 <= k < b1.len() && b1[k] == x;
                assert(b[k] == x);
                assert(b.contains(x));
                let m = choose|m: int| 0 <= m < a.len() && a[m] == x;
                assert(a1[m] == x);
            }
        }
        lemma_ascending_equal(a1, b1);
        assert(a =~= a1.push(a.last()));
        assert(b =~= b1.push(b.last()));
    }
}

/// A number in decimal is made of digits, and they write that number.
proof fn lemma_decimal_digits(n: nat)
    ensures
        decimal(n).len() > 0,
        forall|i: int| 0 <= i < decimal(n).len() ==> is_digit(#[trigger] decimal(n)[i]),
        decimal_value(decimal(n)) == n,
    decreases n,
{
    let s = decimal(n);
    if n < 10 {
        assert(s.drop_last() =~= Seq::empty());
        assert(decimal_value(s.drop_last()) == 0);
        assert(s.last() as int == '0' as int + n);
    } else {
        let front = decimal(n / 10);
        lemma_decimal_digits(n / 10);
        assert(s.drop_last() =~= front);
        assert(s.last() as int == '0' as int + n % 10);
        assert forall|i: int| 0 <= i < s.len() implies is_digit(#[trigger] s[i]) by {
            if i < front.len() {
                assert(s[i] == front[i]);
            }
        }
    }
}

/// A number in decimal is read back as that number.
pub proof fn lemma_number_reads_decimal(n: usize)
    ensures
        number(decimal(n as nat)) == Some(n),
{
    lemma_decimal_digits(n as nat);
    assert(is_digit(decimal(n as nat)[0]));
}

/// Text that starts and ends without whitespace stays as it is.
proof fn lemma_trimmed_plain(s: Seq<char>)
    requires
        s.len() > 0,
        !is_whitespace(s[0]),
        !is_whitespace(s.last()),
    ensures
        trimmed(s) == s,
{
}

/// The number of a core chooses that core.
pub proof fn lemma_item_number(n: usize)
    ensures
        item_ids(decimal(n as nat)) == Ok::<Seq<usize>, CoresFault>(seq![n]),
{
    let s = decimal(n as nat);
    lemma_decimal_digits(n as nat);
    assert(is_digit(s[0]) && is_digit(s[s.len() - 1]));
    lemma_trimmed_plain(s);
    s.index_of_first_ensures('-');
    if s.contains('-') {
        let i = choose|i: int| 0 <= i < s.len() && s[i] == '-';
        assert(is_digit(s[i]));
    }
    lemma_number_reads_decimal(n);
}

/// Two numbers joined by a dash choose the cores from the first to the second,
/// both included.
pub proof fn lemma_item_range(a: usize, b: usize)
    requires
        a <= b,
    ensures
        item_ids(decimal(a as nat) + seq!['-'] + decimal(b as nat)) == Ok::<Seq<usize>, CoresFault>(
            inclusive(a, b),
        ),
{
    let start = decimal(a as nat);
    let end = decimal(b as nat);
    let s = start + seq!['-'] + end;
    lemma_decimal_digits(a as nat);
    lemma_decimal_digits(b as nat);
    assert(is_digit(start[0]) && s[0] == start[0]);
    assert(is_digit(end[end.len() - 1]) && s.last() == end[end.len() - 1]);
    lemma_trimmed_plain(s);
    s.index_of_first_ensures('-');
    let d = start.len() as int;
    assert(s[d] == '-');
    assert(s.contains('-'));
    let f = s.index_of_first('-')->0;
    if f < d {
        assert(is_digit(start[f]) && s[f] == start[f]);
    }
    assert(f == d);
    assert(s.take(d) =~= start);
    assert(s.skip(d + 1) =~= end);
    lemma_number_reads_decimal(a);
    lemma_number_reads_decimal(b);
}

/// Whitespace before and after an item makes no difference.
pub proof fn lemma_whitespace_ignored(left: Seq<char>, s: Seq<char>, right: Seq<char>)
    requires
        forall|i: int| 0 <= i < left.len() ==> is_whitespace(#[trigger] left[i]),
        forall|i: int| 0 <= i < right.len() ==> is_whitespace(#[trigger] right[i]),
    ensures
        item_ids(left + s + right) == item_ids(s),
{
    assert(left + s + right =~= left + (s + right));
    lemma_trimmed_start_left(left, s + right);
    lemma_trimmed_start_right(s, right);
    lemma_trimmed_end_right(trimmed_start(s), right);
}

/// Whitespace before a text is trimmed.
proof fn lemma_trimmed_start_left(left: Seq<char>, s: Seq<char>)
    requires
        forall|i: int| 0 <= i < left.len() ==> is_whitespace(#[trigger] left[i]),
    ensures
        trimmed_start(left + s) == trimmed_start(s),
    decreases left.len(),
{
    if left.len() == 0 {
        assert(left + s =~= s);
    } else {
        assert(is_whitespace(left[0]));
        assert((left + s).drop_first() =~= left.drop_first() + s);
        assert forall|i: int| 0 <= i < left.drop_first().len() implies is_whitespace(
            #[trigger] left.drop_first()[i],
        ) by {
            assert(left.drop_first()[i] == left[i + 1]);
        }
        lemma_trimmed_start_left(left.drop_first(), s);
    }
}

/// Trimming the start of a text with whitespace behind it.
proof fn lemma_trimmed_start_right(s: Seq<char>, right: Seq<char>)
    requires
        forall|i: int| 0 <= i < right.len() ==> is_whitespace(#[trigger] right[i]),
    ensures
        trimmed_end(trimmed_start(s + right)) == trimmed_end(trimmed_start(s) + right),
    decreases s.len(),
{
    if s.len() == 0 {
        assert(s + right =~= right);
        assert(trimmed_start(s) + right =~= right);
        lemma_trimmed_start_left(right, Seq::empty());
        assert(right + Seq::<char>::empty() =~= right);
        lemma_trimmed_end_right(Seq::empty(), right);
        assert(Seq::<char>::empty() + right =~= right);
    } else if is_whitespace(s[0]) {
        assert((s + right).drop_first() =~= s.drop_first() + right);
        lemma_trimmed_start_right(s.drop_first(), right);
    } else {
        assert((s + right)[0] == s[0]);
    }
}

/// Whitespace behind a text is trimmed.
proof fn lemma_trimmed_end_right(s: Seq<char>, right: Seq<char>)
    requires
        forall|i: int| 0 <= i < right.len() ==> is_whitespace(#[trigger] right[i]),
    ensures
        trimmed_end(s + right) == trimmed_end(s),
    decreases right.len(),
{
    if right.len() == 0 {
        assert(s + right =~= s);
    } else {
        assert(is_whitespace(right[right.len() - 1]));
        assert((s + right).drop_last() =~= s + right.drop_last());
        assert forall|i: int| 0 <= i < right.drop_last().len() implies is_whitespace(
            #[trigger] right.drop_last()[i],
        ) by {
            assert(right.drop_last()[i] == right[i]);
        }
        lemma_trimmed_end_right(s, right.drop_last());
    }
}

/// One way to write an item of a list: a number, or two numbers joined by a dash, with
/// whitespace around, plus signs and leading zeros as one likes.
pub struct Spelling {
    pub left: Seq<char>,
    pub plus: bool,
    pub zeros: nat,
    pub first: usize,
    /// The sign, the zeros and the number after the dash, where there is one.
    pub end: Option<(bool, nat, usize)>,
    pub right: Seq<char>,
}

/// A number with or without a plus sign, and with so many zeros before it.
pub open spec fn spelt_number(plus: bool, zeros: nat, n: nat) -> Seq<char> {
    (if plus {
        seq!['+']
    } else {
        Seq::empty()
    }) + (Seq::new(zeros, |i: int| '0') + decimal(n))
}

/// The number of a core with or without a plus sign, and with so many zeros before it.
pub open spec fn spelt(plus: bool, zeros: nat, n: usize) -> Seq<char> {
    spelt_number(plus, zeros, n as nat)
}

impl Spelling {
    /// The item without the whitespace around it.
    pub open spec fn bare(self) -> Seq<char> {
        let start = spelt(self.plus, self.zeros, self.first);
        match self.end {
            Some((plus, zeros, last)) => start + seq!['-'] + spelt(plus, zeros, last),
            None => start,
        }
    }

    /// The item.
    pub open spec fn text(self) -> Seq<char> {
        self.left + self.bare() + self.right
    }

    /// The last core that is chosen.
    pub open spec fn last(self) -> usize {
        match self.end {
            Some((_, _, last)) => last,
            None => self.first,
        }
    }

    /// The cores from the first to the last.
    pub open spec fn ids(self) -> Seq<usize> {
        Seq::new((self.last() - self.first + 1) as nat, |i: int| (self.first + i) as usize)
    }

    /// Whether there is nothing but whitespace around the item.
    pub open spec fn is_padded(self) -> bool {
        &&& forall|i: int| 0 <= i < self.left.len() ==> is_whitespace(#[trigger] self.left[i])
        &&& forall|i: int| 0 <= i < self.right.len() ==> is_whitespace(#[trigger] self.right[i])
    }
}

/// The cores that the items choose, one item after the other.
pub open spec fn all_spelt(items: Seq<Spelling>) -> Seq<usize> {
    items.map_values(|item: Spelling| item.ids()).flatten()
}

/// Zeros before digits make no difference to the number.
proof fn lemma_decimal_value_zeros(zeros: nat, s: Seq<char>)
    ensures
        decimal_value(Seq::new(zeros, |i: int| '0') + s) == decimal_value(s),
    decreases s.len(), zeros,
{
    let z = Seq::new(zeros, |i: int| '0');
    if s.len() > 0 {
        assert((z + s).drop_last() =~= z + s.drop_last());
        lemma_decimal_value_zeros(zeros, s.drop_last());
    } else if zeros > 0 {
        let fewer = Seq::new((zeros - 1) as nat, |i: int| '0');
        assert((z + s).drop_last() =~= fewer + s);
        lemma_decimal_value_zeros((zeros - 1) as nat, s);
    } else {
        assert(z + s =~= s);
    }
}

/// The digits of a number that is written with a sign and zeros, or without.
proof fn lemma_spelt_digits(plus: bool, zeros: nat, n: nat)
    ensures
        ({
            let digits = unsigned_digits(spelt_number(plus, zeros, n));
            &&& digits == Seq::new(zeros, |i: int| '0') + decimal(n)
            &&& digits.len() > 0
            &&& forall|i: int| 0 <= i < digits.len() ==> is_digit(#[trigger] digits[i])
            &&& decimal_value(digits) == n
        }),
{
    let s = spelt_number(plus, zeros, n);
    let digits = Seq::new(zeros, |i: int| '0') + decimal(n);
    lemma_decimal_digits(n);
    lemma_decimal_value_zeros(zeros, decimal(n));
    assert forall|i: int| 0 <= i < digits.len() implies is_digit(#[trigger] digits[i]) by {
        if i >= zeros {
            assert(digits[i] == decimal(n)[i - zeros]);
        }
    }
    assert(is_digit(digits[0]));
    if plus {
        assert(s.drop_first() =~= digits);
    } else {
        assert(s =~= digits);
    }
}

/// A number is read back however it is written, and no character of it is a dash or
/// whitespace.
pub proof fn lemma_number_reads_spelt(plus: bool, zeros: nat, n: usize)
    ensures
        number(spelt(plus, zeros, n)) == Some(n),
        spelt(plus, zeros, n).len() > 0,
        forall|i: int|
            0 <= i < spelt(plus, zeros, n).len() ==> (#[trigger] spelt(plus, zeros, n)[i]) != '-'
                && !is_whitespace(spelt(plus, zeros, n)[i]),
{
    let s = spelt(plus, zeros, n);
    let digits = Seq::new(zeros, |i: int| '0') + decimal(n as nat);
    lemma_spelt_digits(plus, zeros, n as nat);
    assert forall|i: int| 0 <= i < s.len() implies (#[trigger] s[i]) != '-' && !is_whitespace(
        s[i],
    ) by {
        if plus && i > 0 {
            assert(s[i] == digits[i - 1]);
        } else if !plus {
            assert(s[i] == digits[i]);
        }
    }
}

/// An item chooses the cores from its first to its last number, both included, however
/// it is written. Where the last comes before the first, the range is inverted.
pub proof fn lemma_item_spelt(item: Spelling)
    requires
        item.is_padded(),
    ensures
        item.first <= item.last() ==> item_ids(item.text()) == Ok::<Seq<usize>, CoresFault>(
            item.ids(),
        ),
        item.first > item.last() ==> (item_ids(item.text()) matches Err(f)
            && f matches CoresFault::InvertedRange(t, a, b) && t == item.bare() && a == item.first
            && b == item.last()),
{
    let start = spelt(item.plus, item.zeros, item.first);
    lemma_number_reads_spelt(item.plus, item.zeros, item.first);
    lemma_whitespace_ignored(item.left, item.bare(), item.right);
    match item.end {
        Some((plus, zeros, last)) => {
            lemma_number_reads_spelt(plus, zeros, last);
            lemma_range_ids(start, item.first, spelt(plus, zeros, last), last);
            if item.first <= last {
                assert(inclusive(item.first, last) =~= item.ids());
            }
        },
        None => {
            lemma_number_ids(start, item.first);
            assert(seq![item.first] =~= item.ids());
        },
    }
}

/// Whether a text has no dash and no whitespace, and something in it.
spec fn is_plain(s: Seq<char>) -> bool {
    &&& s.len() > 0
    &&& forall|i: int| 0 <= i < s.len() ==> (#[trigger] s[i]) != '-' && !is_whitespace(s[i])
}

/// A number alone chooses that core.
proof fn lemma_number_ids(s: Seq<char>, n: usize)
    requires
        is_plain(s),
        number(s) == Some(n),
    ensures
        item_ids(s) == Ok::<Seq<usize>, CoresFault>(seq![n]),
{
    assert(s[0] != '-' && s[s.len() - 1] != '-');
    lemma_trimmed_plain(s);
    s.index_of_first_ensures('-');
    if s.contains('-') {
        let i = choose|i: int| 0 <= i < s.len() && s[i] == '-';
    }
}

/// Two numbers joined by a dash choose a range.
proof fn lemma_range_ids(start: Seq<char>, a: usize, end: Seq<char>, b: usize)
    requires
        is_plain(start),
        is_plain(end),
        number(start) == Some(a),
        number(end) == Some(b),
    ensures
        item_ids(start + seq!['-'] + end) == if a > b {
            Err::<Seq<usize>, CoresFault>(
                CoresFault::InvertedRange(start + seq!['-'] + end, a, b),
            )
        } else {
            Ok(inclusive(a, b))
        },
{
    let s = start + seq!['-'] + end;
    assert(s[0] == start[0] && s.last() == end[end.len() - 1]);
    lemma_trimmed_plain(s);
    s.index_of_first_ensures('-');
    let d = start.len() as int;
    assert(s[d] == '-');
    assert(s.contains('-'));
    let f = s.index_of_first('-')->0;
    if f < d {
        assert(s[f] == start[f]);
    }
    assert(f == d);
    assert(s.take(d) =~= start);
    assert(s.skip(d + 1) =~= end);
}

/// A list chooses what its items choose, one after the other.
proof fn lemma_listed_spelt(items: Seq<Seq<char>>, spellings: Seq<Spelling>)
    requires
        items.len() == spellings.len(),
        forall|k: int|
            0 <= k < items.len() ==> (#[trigger] items[k]) == spellings[k].text()
                && spellings[k].is_padded() && spellings[k].first <= spellings[k].last(),
    ensures
        listed_ids(items) == Ok::<Seq<usize>, CoresFault>(all_spelt(spellings)),
    decreases items.len(),
{
    if items.len() > 0 {
        let n = items.len() - 1;
        let front = items.drop_last();
        let fewer = spellings.drop_last();
        assert forall|k: int| 0 <= k < front.len() implies (#[trigger] front[k])
            == fewer[k].text() && fewer[k].is_padded() && fewer[k].first <= fewer[k].last() by {
            assert(front[k] == items[k]);
        }
        lemma_listed_spelt(front, fewer);
        assert(items[n] == spellings[n].text());
        lemma_item_spelt(spellings[n]);
        let ids = fewer.map_values(|item: Spelling| item.ids());
        ids.lemma_flatten_push(spellings[n].ids());
        assert(spellings.map_values(|item: Spelling| item.ids()) =~= ids.push(
            spellings[n].ids(),
        ));
    } else {
        assert(spellings.map_values(|item: Spelling| item.ids()) =~= Seq::empty());
    }
}

/// Where all numbers are different, none repeats; where one stands before a place, and
/// all before that place are different, it is the first to repeat.
proof fn lemma_first_repeat(ids: Seq<usize>, j: int)
    ensures
        ids.no_duplicates() ==> first_repeat(ids) == None::<int>,
        0 <= j < ids.len() && ids.take(j).no_duplicates() && ids.take(j).contains(ids[j])
            ==> first_repeat(ids) == Some(j),
    decreases ids.len(),
{
    if ids.len() > 0 {
        let front = ids.drop_last();
        let n = ids.len() - 1;
        lemma_first_repeat(front, j);
        if ids.no_duplicates() {
            assert(front.no_duplicates());
            if front.contains(ids.last()) {
                let k = choose|k: int| 0 <= k < front.len() && front[k] == ids.last();
                assert(ids[k] == ids[n]);
            }
        }
        if 0 <= j < ids.len() {
            if j < n {
                assert(front.take(j) =~= ids.take(j));
                assert(front[j] == ids[j]);
            } else {
                assert(ids.take(j) =~= front);
            }
        }
    }
}

/// Where all numbers are there, none is missing; where one is not, and all before it
/// are, it is the first that is missing.
proof fn lemma_first_missing(ids: Seq<usize>, all: Seq<usize>, j: int)
    ensures
        (forall|k: int| 0 <= k < ids.len() ==> all.contains(#[trigger] ids[k])) ==> first_missing(
            ids,
            all,
        ) == None::<int>,
        0 <= j < ids.len() && !all.contains(ids[j]) && (forall|k: int|
            0 <= k < j ==> all.contains(#[trigger] ids[k])) ==> first_missing(ids, all) == Some(j),
    decreases ids.len(),
{
    if ids.len() > 0 {
        let front = ids.drop_last();
        let n = ids.len() - 1;
        assert forall|k: int| 0 <= k < front.len() implies #[trigger] front[k] == ids[k] by {}
        lemma_first_missing(front, all, j);
        if forall|k: int| 0 <= k < ids.len() ==> all.contains(#[trigger] ids[k]) {
            assert(all.contains(ids[n]));
            assert(forall|k: int| 0 <= k < front.len() ==> all.contains(#[trigger] front[k]));
        }
        if 0 <= j < ids.len() && !all.contains(ids[j]) && (forall|k: int|
            0 <= k < j ==> all.contains(#[trigger] ids[k])) {
            if j < n {
                assert(front[j] == ids[j]);
                assert(forall|k: int| 0 <= k < j ==> all.contains(#[trigger] front[k]));
            } else {
                assert(forall|k: int| 0 <= k < front.len() ==> all.contains(#[trigger] front[k]));
            }
        }
    }
}

/// What a list of items chooses, however long it is and however its items are written:
/// the cores of the first item, then those of the second, and so on. They are chosen
/// where they are two or more, all different, and all there. Otherwise the first one that
/// repeats is told; or, where none repeats, the first that is not there, with all that
/// are there in ascending order; or, where all are there, that they are too few.
pub proof fn lemma_parse_cores_list(
    specs: &[String],
    all_cores: &[CoreId],
    r: Result<Vec<CoreId>, CoresError>,
    items: Seq<Spelling>,
    j: int,
)
    requires
        call_ensures(parse_cores, (specs, all_cores), r),
        specs@.len() > 0,
        items.len() == specs@.len(),
        forall|k: int|
            0 <= k < items.len() ==> specs@[k]@ == (#[trigger] items[k]).text()
                && items[k].is_padded() && items[k].first <= items[k].last(),
    ensures
        ({
            let ids = all_spelt(items);
            let all = all_cores@.map_values(|c: CoreId| c.id);
            let all_there = forall|k: int| 0 <= k < ids.len() ==> all.contains(#[trigger] ids[k]);
            &&& r is Ok <==> ids.len() >= 2 && ids.no_duplicates() && all_there
            &&& r matches Ok(cores) ==> cores@.map_values(|c: CoreId| c.id) == ids
            &&& 0 <= j < ids.len() && ids.take(j).no_duplicates() && ids.take(j).contains(ids[j])
                ==> (r matches Err(CoresError::Duplicate { id }) && id == ids[j])
            &&& ids.no_duplicates() && 0 <= j < ids.len() && !all.contains(ids[j]) && (forall|
                k: int,
            |
                0 <= k < j ==> all.contains(#[trigger] ids[k])) ==> {
                &&& r matches Err(CoresError::NotFound { id, available })
                &&& id == ids[j]
                &&& forall|a: int, b: int|
                    0 <= a < b < available@.len() ==> available@[a] < available@[b]
                &&& forall|x: usize| #[trigger] available@.contains(x) <==> all.contains(x)
            }
            &&& ids.no_duplicates() && all_there && ids.len() < 2 ==> (r matches Err(
                CoresError::TooFew { count },
            ) && count == ids.len())
        }),
{
    let texts_ = texts(specs@);
    let ids = all_spelt(items);
    let all = all_cores@.map_values(|c: CoreId| c.id);
    assert forall|k: int| 0 <= k < texts_.len() implies (#[trigger] texts_[k]) == items[k].text()
        && items[k].is_padded() && items[k].first <= items[k].last() by {
        assert(specs@[k]@ == items[k].text());
    }
    lemma_listed_spelt(texts_, items);
    assert(all == ids_of(all_cores@));
    lemma_first_repeat(ids, j);
    lemma_first_missing(ids, all, j);
    if first_repeat(ids) is None {
        lemma_no_repeat(ids);
        if first_missing(ids, all) is None {
            lemma_none_missing(ids, all);
        }
    }
    lemma_repeat_places(ids);
    lemma_missing_place(ids, all);
}

/// A number that repeats stands at two places.
proof fn lemma_repeat_places(ids: Seq<usize>)
    ensures
        first_repeat(ids) matches Some(i) ==> 0 <= i < ids.len() && !ids.no_duplicates(),
    decreases ids.len(),
{
    if ids.len() > 0 {
        let front = ids.drop_last();
        lemma_repeat_places(front);
        if first_repeat(front) is Some {
            if ids.no_duplicates() {
                assert(front.no_duplicates());
            }
        } else if front.contains(ids.last()) {
            let k = choose|k: int| 0 <= k < front.len() && front[k] == ids.last();
            assert(ids[k] == ids[ids.len() - 1]);
        }
    }
}

/// A number that is missing stands at a place.
proof fn lemma_missing_place(ids: Seq<usize>, all: Seq<usize>)
    ensures
        first_missing(ids, all) matches Some(i) ==> 0 <= i < ids.len() && !all.contains(ids[i]),
    decreases ids.len(),
{
    if ids.len() > 0 {
        lemma_missing_place(ids.drop_last(), all);
    }
}

/// Without items all cores are chosen, in their order.
pub proof fn lemma_parse_cores_all(
    specs: &[String],
    all_cores: &[CoreId],
    r: Result<Vec<CoreId>, CoresError>,
)
    requires
        call_ensures(parse_cores, (specs, all_cores), r),
        specs@.len() == 0,
    ensures
        r matches Ok(cores) && cores@ == all_cores@,
{
    let cores = r->Ok_0@;
    assert(ids_of(cores) == ids_of(all_cores@));
    assert forall|k: int| 0 <= k < cores.len() implies cores[k] == all_cores@[k] by {
        assert(ids_of(cores)[k] == ids_of(all_cores@)[k]);
    }
    assert(cores =~= all_cores@);
}

/// A list of numbers in decimal chooses exactly these cores, in their order, however many
/// they are.
pub proof fn lemma_parse_cores_numbers(
    specs: &[String],
    all_cores: &[CoreId],
    r: Result<Vec<CoreId>, CoresError>,
    ids: Seq<usize>,
)
    requires
        call_ensures(parse_cores, (specs, all_cores), r),
        ids.len() == specs@.len(),
        ids.len() >= 2,
        forall|k: int| 0 <= k < ids.len() ==> specs@[k]@ == decimal(#[trigger] ids[k] as nat),
        ids.no_duplicates(),
        forall|k: int|
            0 <= k < ids.len() ==> all_cores@.contains((CoreId { id: #[trigger] ids[k] })),
    ensures
        r matches Ok(cores) && cores@ == ids.map_values(|id: usize| CoreId { id }),
{
    let items = ids.map_values(
        |id: usize|
            Spelling {
                left: Seq::empty(),
                plus: false,
                zeros: 0,
                first: id,
                end: None,
                right: Seq::empty(),
            },
    );
    assert forall|k: int| 0 <= k < items.len() implies specs@[k]@ == (#[trigger] items[k]).text()
        && items[k].is_padded() && items[k].first <= items[k].last() by {
        assert(specs@[k]@ == decimal(ids[k] as nat));
        assert(items[k].text() =~= decimal(ids[k] as nat));
    }
    lemma_all_spelt_numbers(ids, items);
    let all = all_cores@.map_values(|c: CoreId| c.id);
    assert forall|k: int| 0 <= k < ids.len() implies all.contains(#[trigger] ids[k]) by {
        let m = choose|m: int|
            0 <= m < all_cores@.len() && all_cores@[m] == (CoreId { id: ids[k] });
        assert(all[m] == ids[k]);
    }
    lemma_parse_cores_list(specs, all_cores, r, items, 0);
    let cores = r->Ok_0@;
    let numbers = cores.map_values(|c: CoreId| c.id);
    assert forall|k: int| 0 <= k < cores.len() implies cores[k] == (CoreId { id: ids[k] }) by {
        assert(numbers[k] == ids[k]);
    }
    assert(numbers.len() == ids.len());
    assert(cores =~= ids.map_values(|id: usize| CoreId { id }));
}

/// Items of one number each choose these numbers.
proof fn lemma_all_spelt_numbers(ids: Seq<usize>, items: Seq<Spelling>)
    requires
        items.len() == ids.len(),
        forall|k: int|
            0 <= k < ids.len() ==> (#[trigger] items[k]).first == ids[k] && items[k].end is None,
    ensures
        all_spelt(items) == ids,
    decreases ids.len(),
{
    let lists = items.map_values(|item: Spelling| item.ids());
    if ids.len() == 0 {
        assert(lists =~= Seq::empty());
        assert(all_spelt(items) =~= ids);
    } else {
        let front = items.drop_last();
        let n = ids.len() - 1;
        assert forall|k: int| 0 <= k < front.len() implies (#[trigger] front[k]).first
            == ids.drop_last()[k] && front[k].end is None by {
            assert(front[k] == items[k]);
        }
        lemma_all_spelt_numbers(ids.drop_last(), front);
        let fewer = front.map_values(|item: Spelling| item.ids());
        fewer.lemma_flatten_push(items[n].ids());
        assert(lists =~= fewer.push(items[n].ids()));
        assert(items[n].ids() =~= seq![ids[n]]);
        assert(all_spelt(items) =~= ids);
    }
}

/// Whether `s` is no number: it is empty or nothing but a sign, has a character that is
/// neither a digit nor a sign at its start, or is a number that a `usize` cannot hold.
pub open spec fn is_no_number(s: Seq<char>) -> bool {
    ||| s.len() == 0
    ||| s == seq!['+']
    ||| exists|i: int|
        0 <= i < s.len() && !('0' as int <= (#[trigger] s[i]) as int <= '9' as int) && !(i == 0
            && s[i] == '+')
    ||| exists|plus: bool, zeros: nat, n: nat|
        n > usize::MAX && s == #[trigger] spelt_number(plus, zeros, n)
}

/// What is no number is read as none.
proof fn lemma_no_number(s: Seq<char>)
    requires
        is_no_number(s),
    ensures
        number(s) == None::<usize>,
{
    let digits = unsigned_digits(s);
    if s.len() == 0 || s == seq!['+'] {
        assert(digits.len() == 0);
    } else if exists|i: int|
        0 <= i < s.len() && !('0' as int <= (#[trigger] s[i]) as int <= '9' as int) && !(i == 0
            && s[i] == '+') {
        let i = choose|i: int|
            0 <= i < s.len() && !('0' as int <= (#[trigger] s[i]) as int <= '9' as int) && !(i == 0
                && s[i] == '+');
        if s[0] == '+' {
            assert(digits[i - 1] == s[i]);
            assert(!is_digit(digits[i - 1]));
        } else {
            assert(!is_digit(digits[i]));
        }
    } else {
        let (plus, zeros, n) = choose|plus: bool, zeros: nat, n: nat|
            n > usize::MAX && s == #[trigger] spelt_number(plus, zeros, n);
        lemma_spelt_digits(plus, zeros, n);
    }
}

/// The first item that is no choice is told, whatever comes behind it: a range that ends
/// before it starts, with both numbers; a part before or behind the first dash that is no
/// number; or an item without a dash that is no number. It is told without the whitespace
/// `left` and `right` around it.
pub proof fn lemma_parse_cores_bad_item(
    specs: &[String],
    all_cores: &[CoreId],
    r: Result<Vec<CoreId>, CoresError>,
    items: Seq<Spelling>,
    k: int,
    inverted: Spelling,
    left: Seq<char>,
    start: Seq<char>,
    end: Seq<char>,
    right: Seq<char>,
)
    requires
        call_ensures(parse_cores, (specs, all_cores), r),
        0 <= k < specs@.len(),
        items.len() == k,
        forall|m: int|
            0 <= m < k ==> specs@[m]@ == (#[trigger] items[m]).text() && items[m].is_padded()
                && items[m].first <= items[m].last(),
        forall|i: int| 0 <= i < left.len() ==> is_whitespace(#[trigger] left[i]),
        forall|i: int| 0 <= i < right.len() ==> is_whitespace(#[trigger] right[i]),
        !start.contains('-'),
        start.len() > 0 ==> !is_whitespace(start[0]),
        end.len() > 0 ==> !is_whitespace(end.last()),
    ensures
        inverted.is_padded() && inverted.first > inverted.last() && specs@[k]@ == inverted.text()
            ==> (r matches Err(CoresError::InvertedRange { spec, start: a, end: b }) && spec@
            == inverted.bare() && a == inverted.first && b == inverted.last()),
        specs@[k]@ == left + start + right && is_no_number(start) && (start.len() > 0
            ==> !is_whitespace(start.last())) ==> (r matches Err(CoresError::Core { spec })
            && spec@ == start),
        specs@[k]@ == left + (start + seq!['-'] + end) + right && is_no_number(start) ==> (
        r matches Err(CoresError::RangeStart { spec, part }) && spec@ == start + seq!['-'] + end
            && part@ == start),
        forall|plus: bool, zeros: nat, n: usize|
            start == #[trigger] spelt(plus, zeros, n) && specs@[k]@ == left + (start + seq!['-']
                + end) + right && is_no_number(end) ==> (r matches Err(
                CoresError::RangeEnd { spec, part },
            ) && spec@ == start + seq!['-'] + end && part@ == end),
{
    let list = texts(specs@);
    let item = specs@[k]@;
    assert(list[k] == item);
    assert(list.take(k + 1).drop_last() =~= list.take(k));
    assert(list.take(k + 1).last() == item);
    assert forall|m: int| 0 <= m < k implies (#[trigger] list.take(k)[m]) == items[m].text()
        && items[m].is_padded() && items[m].first <= items[m].last() by {
        assert(specs@[m]@ == items[m].text());
    }
    lemma_listed_spelt(list.take(k), items);
    if item_ids(item) is Err {
        lemma_listed_prefix(list, k + 1);
    }
    if inverted.is_padded() && inverted.first > inverted.last() && item == inverted.text() {
        lemma_item_spelt(inverted);
    }
    if item == left + start + right && is_no_number(start) && (start.len() > 0
        ==> !is_whitespace(start.last())) {
        lemma_whitespace_ignored(left, start, right);
        lemma_no_number(start);
        lemma_undashed(start);
    }
    let s = start + seq!['-'] + end;
    if item == left + s + right {
        lemma_whitespace_ignored(left, s, right);
        lemma_dashed(start, end);
        if is_no_number(start) {
            lemma_no_number(start);
        }
        assert forall|plus: bool, zeros: nat, n: usize|
            start == #[trigger] spelt(plus, zeros, n) && is_no_number(end) implies (r matches Err(
            CoresError::RangeEnd { spec, part },
        ) && spec@ == s && part@ == end) by {
            lemma_number_reads_spelt(plus, zeros, n);
            lemma_no_number(end);
        }
    }
}

/// A text without a dash that is no number is no choice.
proof fn lemma_undashed(s: Seq<char>)
    requires
        !s.contains('-'),
        s.len() > 0 ==> !is_whitespace(s[0]) && !is_whitespace(s.last()),
        number(s) == None::<usize>,
    ensures
        item_ids(s) == Err::<Seq<usize>, CoresFault>(CoresFault::Core(s)),
{
    if s.len() > 0 {
        lemma_trimmed_plain(s);
    }
    s.index_of_first_ensures('-');
}

/// Two parts joined by a dash are no choice where one of them is no number.
proof fn lemma_dashed(start: Seq<char>, end: Seq<char>)
    requires
        !start.contains('-'),
        start.len() > 0 ==> !is_whitespace(start[0]),
        end.len() > 0 ==> !is_whitespace(end.last()),
    ensures
        number(start) is None ==> item_ids(start + seq!['-'] + end) == Err::<
            Seq<usize>,
            CoresFault,
        >(CoresFault::RangeStart(start + seq!['-'] + end, start)),
        number(start) is Some && number(end) is None ==> item_ids(start + seq!['-'] + end) == Err::<
            Seq<usize>,
            CoresFault,
        >(CoresFault::RangeEnd(start + seq!['-'] + end, end)),
{
    let s = start + seq!['-'] + end;
    assert(s[0] == '-' || s[0] == start[0]);
    assert(s.last() == '-' || s.last() == end.last());
    lemma_trimmed_plain(s);
    s.index_of_first_ensures('-');
    let d = start.len() as int;
    assert(s[d] == '-');
    assert(s.contains('-'));
    let f = s.index_of_first('-')->0;
    if f < d {
        assert(s[f] == start[f]);
        assert(start.contains('-'));
    }
    assert(f == d);
    assert(s.take(d) =~= start);
    assert(s.skip(d + 1) =~= end);
}

/// A message says what is wrong and names what it is wrong with.
pub proof fn lemma_cores_messages(e: &CoresError, r: String)
    requires
        call_ensures(CoresError::message, (e,), r),
    ensures
        match *e {
            CoresError::RangeStart { spec, part } => r@ == "Invalid range start in '"@ + spec@
                + "': '"@ + part@ + "'"@,
            CoresError::RangeEnd { spec, part } => r@ == "Invalid range end in '"@ + spec@
                + "': '"@ + part@ + "'"@,
            CoresError::InvertedRange { spec, start, end } => r@ == "Invalid range '"@ + spec@
                + "': start ("@ + decimal(start as nat) + ") > end ("@ + decimal(end as nat) + ")"@,
            CoresError::Core { spec } => r@ == "Invalid core id: '"@ + spec@ + "'"@,
            CoresError::Duplicate { id } => r@ == "Duplicate core id: "@ + decimal(id as nat),
            CoresError::NotFound { id, available } => r@ == "Core "@ + decimal(id as nat)
                + " not found. Available: ["@ + numbers_between(available@, ", "@) + "]"@,
            CoresError::TooFew { count } => r@
                == "--cores must specify at least 2 cores, got "@ + decimal(count as nat),
        },
{
    if let CoresError::NotFound { id, available } = *e {
        lemma_comma_separated(available@);
    }
}

/// The numbers of a list in decimal, with `gap` between each two.
pub open spec fn numbers_between(list: Seq<usize>, gap: Seq<char>) -> Seq<char> {
    Seq::new(
        list.len(),
        |k: int|
            if k == 0 {
                decimal(list[k] as nat)
            } else {
                gap + decimal(list[k] as nat)
            },
    ).flatten()
}

/// Numbers separated by commas are numbers with a comma and a space between each two.
proof fn lemma_comma_separated(list: Seq<usize>)
    ensures
        comma_separated(list) == numbers_between(list, ", "@),
    decreases list.len(),
{
    let gap = ", "@;
    let parts = Seq::new(
        list.len(),
        |k: int|
            if k == 0 {
                decimal(list[k] as nat)
            } else {
                gap + decimal(list[k] as nat)
            },
    );
    if list.len() == 0 {
        assert(parts =~= Seq::empty());
    } else {
        let front = list.drop_last();
        lemma_comma_separated(front);
        let fewer = Seq::new(
            front.len(),
            |k: int|
                if k == 0 {
                    decimal(front[k] as nat)
                } else {
                    gap + decimal(front[k] as nat)
                },
        );
        fewer.lemma_flatten_push(parts.last());
        assert(parts =~= fewer.push(parts.last()));
        if list.len() == 1 {
            assert(fewer =~= Seq::empty());
        }
        assert(comma_separated(list) =~= parts.flatten());
    }
}

/// The characters that do not count around an item are the tab, the line feed, the other
/// line breaks, and the spaces of Unicode.
pub proof fn lemma_whitespace(c: char)
    ensures
        is_whitespace(c) <==> {
            ||| c as int == 9
            ||| c as int == 10
            ||| c as int == 11
            ||| c as int == 12
            ||| c as int == 13
            ||| c as int == 32
            ||| c as int == 133
            ||| c as int == 160
            ||| c as int == 5760
            ||| c as int == 8192
            ||| c as int == 8193
            ||| c as int == 8194
            ||| c as int == 8195
            ||| c as int == 8196
            ||| c as int == 8197
            ||| c as int == 8198
            ||| c as int == 8199
            ||| c as int == 8200
            ||| c as int == 8201
            ||| c as int == 8202
            ||| c as int == 8232
            ||| c as int == 8233
            ||| c as int == 8239
            ||| c as int == 8287
            ||| c as int == 12288
        },
{
}

} // verus!
