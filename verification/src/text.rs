//! The text that a script is written in: its split into tokens and lines,
//! and the decimal numbers in it.

use vstd::prelude::*;
use vstd::slice::slice_subrange;

verus! {

pub const SPACE: u8 = 32;

pub const NEWLINE: u8 = 10;

pub const EQUALS: u8 = 61;

pub const COLON: u8 = 58;

pub const LETTER_X: u8 = 120;

pub const PLUS: u8 = 43;

pub const MINUS: u8 = 45;

pub const ZERO: u8 = 48;

pub const NINE: u8 = 57;

/// The pieces of `s` between the separators `sep`, in order, without the
/// empty ones: the maximal runs of bytes other than `sep`.
pub open spec fn tokens(s: Seq<u8>, sep: u8) -> Seq<Seq<u8>>
    decreases s.len(),
{
    if s.len() == 0 {
        Seq::empty()
    } else {
        let before = tokens(s.drop_last(), sep);
        if s.last() == sep {
            before
        } else if s.len() >= 2 && s[s.len() - 2] != sep && before.len() > 0 {
            before.drop_last().push(before.last().push(s.last()))
        } else {
            before.push(seq![s.last()])
        }
    }
}

/// The pieces of `s` that the places `ranges` mark.
pub open spec fn pieces(s: Seq<u8>, ranges: Seq<(usize, usize)>) -> Seq<Seq<u8>> {
    Seq::new(ranges.len(), |i: int| s.subrange(ranges[i].0 as int, ranges[i].1 as int))
}

/// Every place of `ranges` lies within a text of `len` bytes.
pub open spec fn ranges_within(ranges: Seq<(usize, usize)>, len: int) -> bool {
    forall|i: int|
        0 <= i < ranges.len() ==> (#[trigger] ranges[i]).0 <= ranges[i].1 && ranges[i].1 <= len
}

/// The place `r` marks a maximal run of bytes other than `sep` in `s`: it is
/// not empty, holds no `sep`, and `sep` or an end of `s` stands on either
/// side of it.
pub open spec fn is_run(s: Seq<u8>, sep: u8, r: (usize, usize)) -> bool {
    &&& r.0 < r.1 <= s.len()
    &&& forall|j: int| r.0 <= j < r.1 ==> #[trigger] s[j] != sep
    &&& r.0 == 0 || s[r.0 - 1] == sep
    &&& r.1 == s.len() || s[r.1 as int] == sep
}

/// The places `ranges` mark all the maximal runs of bytes other than `sep`
/// in `s`, in the order in which they stand.
pub open spec fn marks_runs(s: Seq<u8>, sep: u8, ranges: Seq<(usize, usize)>) -> bool {
    &&& forall|k: int| 0 <= k < ranges.len() ==> is_run(s, sep, #[trigger] ranges[k])
    &&& forall|j: int, k: int|
        0 <= j < k < ranges.len() ==> (#[trigger] ranges[j]).1 < (#[trigger] ranges[k]).0
    &&& forall|i: int|
        0 <= i < s.len() && #[trigger] s[i] != sep ==> exists|k: int|
            0 <= k < ranges.len() && (#[trigger] ranges[k]).0 <= i < ranges[k].1
}

/// A byte other than the separator after such a byte makes the last run
/// longer.
proof fn lemma_runs_extend(
    prefix: Seq<u8>,
    b: u8,
    sep: u8,
    before: Seq<(usize, usize)>,
    after: Seq<(usize, usize)>,
)
    requires
        marks_runs(prefix, sep, before),
        b != sep,
        prefix.len() > 0,
        prefix.last() != sep,
        prefix.len() < usize::MAX,
        before.len() > 0,
        before.last().1 == prefix.len(),
        after == before.update(before.len() - 1, (before.last().0, (prefix.len() + 1) as usize)),
    ensures
        marks_runs(prefix.push(b), sep, after),
{
    let longer = prefix.push(b);
    let k = before.len() - 1;
    assert forall|m: int| 0 <= m < after.len() implies is_run(longer, sep, #[trigger] after[m]) by {
        assert forall|j: int| after[m].0 <= j < after[m].1 implies #[trigger] longer[j]
            != sep by {}
    }
    assert forall|x: int, y: int| 0 <= x < y < after.len() implies (#[trigger] after[x]).1 < (
    #[trigger] after[y]).0 by {}
    assert forall|j: int| 0 <= j < longer.len() && #[trigger] longer[j] != sep implies exists|
        m: int,
    |
        0 <= m < after.len() && (#[trigger] after[m]).0 <= j < after[m].1 by {
        if j < prefix.len() {
            let m = choose|m: int|
                0 <= m < before.len() && (#[trigger] before[m]).0 <= j < before[m].1;
            assert(after[m].0 <= j < after[m].1);
        } else {
            assert(after[k].0 <= j < after[k].1);
        }
    }
}

/// A byte other than the separator at the start of a text or after a
/// separator starts a run.
proof fn lemma_runs_start(prefix: Seq<u8>, b: u8, sep: u8, before: Seq<(usize, usize)>)
    requires
        marks_runs(prefix, sep, before),
        b != sep,
        prefix.len() == 0 || prefix.last() == sep,
        prefix.len() < usize::MAX,
    ensures
        marks_runs(
            prefix.push(b),
            sep,
            before.push((prefix.len() as usize, (prefix.len() + 1) as usize)),
        ),
{
    let longer = prefix.push(b);
    let after = before.push((prefix.len() as usize, (prefix.len() + 1) as usize));
    let k = before.len() as int;
    assert forall|m: int| 0 <= m < after.len() implies is_run(longer, sep, #[trigger] after[m]) by {
        if m < k {
            assert forall|j: int| after[m].0 <= j < after[m].1 implies #[trigger] longer[j]
                != sep by {}
        }
    }
    assert forall|x: int, y: int| 0 <= x < y < after.len() implies (#[trigger] after[x]).1 < (
    #[trigger] after[y]).0 by {}
    assert forall|j: int| 0 <= j < longer.len() && #[trigger] longer[j] != sep implies exists|
        m: int,
    |
        0 <= m < after.len() && (#[trigger] after[m]).0 <= j < after[m].1 by {
        if j < prefix.len() {
            let m = choose|m: int|
                0 <= m < before.len() && (#[trigger] before[m]).0 <= j < before[m].1;
            assert(after[m].0 <= j < after[m].1);
        } else {
            assert(after[k].0 <= j < after[k].1);
        }
    }
}

/// The places of the tokens of `bytes`: of its maximal runs of bytes other
/// than `sep`, in order.
pub fn split_tokens(bytes: &[u8], sep: u8) -> (ranges: Vec<(usize, usize)>)
    ensures
        pieces(bytes@, ranges@) == tokens(bytes@, sep),
        ranges_within(ranges@, bytes@.len() as int),
        marks_runs(bytes@, sep, ranges@),
{
    let mut ranges: Vec<(usize, usize)> = Vec::new();
    let mut i: usize = 0;
    let n = bytes.len();
    proof {
        assert(bytes@.take(0) =~= Seq::<u8>::empty());
        assert(pieces(bytes@, ranges@) =~= Seq::<Seq<u8>>::empty());
    }
    while i < n
        invariant
            n == bytes@.len(),
            i <= n,
            pieces(bytes@, ranges@) == tokens(bytes@.take(i as int), sep),
            ranges_within(ranges@, i as int),
            i > 0 && bytes@[i - 1] != sep ==> ranges@.len() > 0 && ranges@[ranges@.len() - 1].1
                == i,
            marks_runs(bytes@.take(i as int), sep, ranges@),
        decreases n - i,
    {
        let b = bytes[i];
        let ghost before = ranges@;
        let ghost prefix = bytes@.take(i as int);
        proof {
            assert(bytes@.take(i + 1).drop_last() =~= prefix);
            assert(bytes@.take(i + 1) =~= prefix.push(b));
        }
        if b != sep {
            if i > 0 && bytes[i - 1] != sep {
                let k = ranges.len() - 1;
                let start = ranges[k].0;
                ranges.set(k, (start, i + 1));
                proof {
                    let old_pieces = pieces(bytes@, before);
                    assert(bytes@.subrange(start as int, i + 1) =~= bytes@.subrange(
                        start as int,
                        i as int,
                    ).push(b));
                    lemma_runs_extend(prefix, b, sep, before, ranges@);
                }
            } else {
                ranges.push((i, i + 1));
                proof {
                    assert(bytes@.subrange(i as int, i + 1) =~= seq![b]);
                    lemma_runs_start(prefix, b, sep, before);
                }
            }
        }
        i = i + 1;
    }
    proof {
        assert(bytes@.take(n as int) =~= bytes@);
    }
    ranges
}

/// The number of bytes of `s` that are `b`.
pub open spec fn count(s: Seq<u8>, b: u8) -> nat
    decreases s.len(),
{
    if s.len() == 0 {
        0
    } else {
        count(s.drop_last(), b) + if s.last() == b {
            1nat
        } else {
            0nat
        }
    }
}

/// The place of the first byte `b` in `s`, or the length of `s` where there
/// is none.
pub open spec fn first_index(s: Seq<u8>, b: u8) -> int
    decreases s.len(),
{
    if s.len() == 0 {
        0
    } else {
        let k = first_index(s.drop_last(), b);
        if k < s.len() - 1 {
            k
        } else if s.last() == b {
            s.len() - 1
        } else {
            s.len() as int
        }
    }
}

/// The place of the one byte `b` in `bytes`, where there is exactly one.
pub fn find_single(bytes: &[u8], b: u8) -> (r: Option<usize>)
    ensures
        match r {
            Some(at) => count(bytes@, b) == 1 && at < bytes@.len() && bytes@[at as int] == b && at
                == first_index(bytes@, b),
            None => count(bytes@, b) != 1,
        },
{
    let mut found: Option<usize> = None;
    let mut many = false;
    let mut i: usize = 0;
    let n = bytes.len();
    while i < n
        invariant
            n == bytes@.len(),
            i <= n,
            many ==> count(bytes@.take(i as int), b) >= 2,
            !many ==> match found {
                Some(at) => count(bytes@.take(i as int), b) == 1 && at < i && bytes@[at as int]
                    == b && at == first_index(bytes@.take(i as int), b),
                None => count(bytes@.take(i as int), b) == 0 && first_index(
                    bytes@.take(i as int),
                    b,
                ) == i,
            },
        decreases n - i,
    {
        proof {
            assert(bytes@.take(i + 1).drop_last() =~= bytes@.take(i as int));
        }
        if bytes[i] == b {
            if found.is_some() {
                many = true;
            } else {
                found = Some(i);
            }
        }
        i = i + 1;
    }
    proof {
        assert(bytes@.take(n as int) =~= bytes@);
    }
    if many {
        None
    } else {
        found
    }
}

pub open spec fn is_digit(b: u8) -> bool {
    ZERO <= b <= NINE
}

pub open spec fn all_digits(s: Seq<u8>) -> bool {
    forall|i: int| 0 <= i < s.len() ==> is_digit(#[trigger] s[i])
}

/// The number that the decimal digits `s` spell.
pub open spec fn digits_value(s: Seq<u8>) -> nat
    decreases s.len(),
{
    if s.len() == 0 {
        0
    } else {
        digits_value(s.drop_last()) * 10 + (s.last() - ZERO) as nat
    }
}

/// The number that `s` spells with one or more decimal digits.
pub open spec fn unsigned_decimal(s: Seq<u8>) -> Option<nat> {
    if s.len() > 0 && all_digits(s) {
        Some(digits_value(s))
    } else {
        None
    }
}

/// The integer that `s` spells: decimal digits after an optional `+`, or
/// after `-` where `signed` allows one.
pub open spec fn decimal(s: Seq<u8>, signed: bool) -> Option<int> {
    if s.len() == 0 {
        None
    } else if s[0] == PLUS {
        match unsigned_decimal(s.skip(1)) {
            Some(v) => Some(v as int),
            None => None,
        }
    } else if s[0] == MINUS && signed {
        match unsigned_decimal(s.skip(1)) {
            Some(v) => Some(-(v as int)),
            None => None,
        }
    } else {
        match unsigned_decimal(s) {
            Some(v) => Some(v as int),
            None => None,
        }
    }
}

/// The signed 64-bit integer that `s` spells.
pub open spec fn integer_of(s: Seq<u8>) -> Option<i64> {
    match decimal(s, true) {
        Some(v) => if i64::MIN <= v <= i64::MAX {
            Some(v as i64)
        } else {
            None
        },
        None => None,
    }
}

/// The unsigned 32-bit integer that `s` spells.
pub open spec fn id_of(s: Seq<u8>) -> Option<u32> {
    match decimal(s, false) {
        Some(v) => if 0 <= v <= u32::MAX {
            Some(v as u32)
        } else {
            None
        },
        None => None,
    }
}

/// More digits do not make a number smaller.
pub proof fn lemma_digits_grow(s: Seq<u8>, k: int)
    requires
        0 <= k <= s.len(),
    ensures
        digits_value(s.take(k)) <= digits_value(s),
    decreases s.len() - k,
{
    if k == s.len() {
        assert(s.take(k) =~= s);
    } else {
        assert(s.take(k + 1).drop_last() =~= s.take(k));
        lemma_digits_grow(s, k + 1);
    }
}

/// The number that the digits `bytes` spell, where they are digits, there is
/// one at least, and the number is no more than `limit`.
pub fn parse_digits(bytes: &[u8], limit: u64) -> (r: Option<u64>)
    ensures
        r == match unsigned_decimal(bytes@) {
            Some(v) => if v <= limit {
                Some(v as u64)
            } else {
                None
            },
            None => None,
        },
{
    let n = bytes.len();
    if n == 0 {
        return None;
    }
    let mut acc: u64 = 0;
    let mut i: usize = 0;
    while i < n
        invariant
            n == bytes@.len(),
            i <= n,
            all_digits(bytes@.take(i as int)),
            acc == digits_value(bytes@.take(i as int)),
            acc <= limit,
        decreases n - i,
    {
        let b = bytes[i];
        proof {
            assert(bytes@.take(i + 1).drop_last() =~= bytes@.take(i as int));
        }
        if b < ZERO || b > NINE {
            return None;
        }
        let d: u64 = (b - ZERO) as u64;
        if d > limit || acc > (limit - d) / 10 {
            proof {
                if all_digits(bytes@) {
                    lemma_digits_grow(bytes@, i + 1);
                }
            }
            return None;
        }
        acc = acc * 10 + d;
        proof {
            assert forall|j: int| 0 <= j < i + 1 implies is_digit(
                #[trigger] bytes@.take(i + 1)[j],
            ) by {}
        }
        i = i + 1;
    }
    proof {
        assert(bytes@.take(n as int) =~= bytes@);
    }
    Some(acc)
}

/// The signed 64-bit integer that `bytes` spells.
pub fn parse_integer(bytes: &[u8]) -> (r: Option<i64>)
    ensures
        r == integer_of(bytes@),
{
    let n = bytes.len();
    if n == 0 {
        return None;
    }
    if bytes[0] == MINUS {
        let rest = slice_subrange(bytes, 1, n);
        match parse_digits(rest, 9223372036854775808u64) {
            Some(v) => if v == 9223372036854775808u64 {
                Some(i64::MIN)
            } else {
                Some(0 - (v as i64))
            },
            None => None,
        }
    } else if bytes[0] == PLUS {
        let rest = slice_subrange(bytes, 1, n);
        match parse_digits(rest, 9223372036854775807u64) {
            Some(v) => Some(v as i64),
            None => None,
        }
    } else {
        match parse_digits(bytes, 9223372036854775807u64) {
            Some(v) => Some(v as i64),
            None => None,
        }
    }
}

/// The unsigned 32-bit integer that `bytes` spells.
pub fn parse_id(bytes: &[u8]) -> (r: Option<u32>)
    ensures
        r == id_of(bytes@),
{
    let n = bytes.len();
    if n == 0 {
        return None;
    }
    if bytes[0] == PLUS {
        let rest = slice_subrange(bytes, 1, n);
        match parse_digits(rest, 4294967295u64) {
            Some(v) => Some(v as u32),
            None => None,
        }
    } else {
        match parse_digits(bytes, 4294967295u64) {
            Some(v) => Some(v as u32),
            None => None,
        }
    }
}

/// Whether the two texts are the same.
pub fn same_bytes(a: &[u8], b: &[u8]) -> (same: bool)
    ensures
        same == (a@ == b@),
{
    if a.len() != b.len() {
        return false;
    }
    let n = a.len();
    let mut i: usize = 0;
    while i < n
        invariant
            n == a@.len(),
            n == b@.len(),
            i <= n,
            forall|j: int| 0 <= j < i ==> a@[j] == b@[j],
        decreases n - i,
    {
        if a[i] != b[i] {
            return false;
        }
        i = i + 1;
    }
    proof {
        assert(a@ =~= b@);
    }
    true
}

} // verus!
