//! Minimal PDF syntax: just enough to read a trailer dictionary and an object header.
//!
//! The spec functions measure what stands at the *front* of a run of bytes; the executable ones take
//! a buffer and an index into it.

use crate::bytes::same_bytes;
use crate::text::{is_digit, number};
use vstd::prelude::*;

verus! {

/// `bytes` begins with `prefix`.
pub open spec fn starts(bytes: Seq<u8>, prefix: Seq<u8>) -> bool {
    bytes.len() >= prefix.len() && bytes.take(prefix.len() as int) == prefix
}

/// Whitespace.
pub open spec fn is_space(b: u8) -> bool {
    b == 0x20 || b == 0x09 || b == 0x0d || b == 0x0a || b == 0x0c || b == 0
}

/// A byte that ends a name: whitespace, or one of `/[]<>()%`.
pub open spec fn ends_name(b: u8) -> bool {
    is_space(b) || b == 0x2f || b == 0x5b || b == 0x5d || b == 0x3c || b == 0x3e || b == 0x28 || b == 0x29
        || b == 0x25
}

/// The rest of a line.
pub open spec fn line_len(s: Seq<u8>) -> int
    decreases s.len(),
{
    if s.len() == 0 || s[0] == 0x0a || s[0] == 0x0d {
        0
    } else {
        1 + line_len(s.skip(1))
    }
}

/// Whitespace and comments.
pub open spec fn ws_len(s: Seq<u8>) -> int
    decreases s.len(),
{
    if s.len() == 0 {
        0
    } else if is_space(s[0]) {
        1 + ws_len(s.skip(1))
    } else if s[0] == 0x25 {
        let n = line_len(s);
        if 0 < n <= s.len() {
            n + ws_len(s.skip(n))
        } else {
            0
        }
    } else {
        0
    }
}

/// Decimal digits.
pub open spec fn digits_len(s: Seq<u8>) -> int
    decreases s.len(),
{
    if s.len() == 0 || !is_digit(s[0]) {
        0
    } else {
        1 + digits_len(s.skip(1))
    }
}

/// The number that `bytes` spell, if they are digits and it fits 64 bits.
pub open spec fn decimal_value(bytes: Seq<u8>) -> Option<nat> {
    if bytes.len() > 0 && (forall|i: int| 0 <= i < bytes.len() ==> is_digit(bytes[i])) && number(bytes)
        <= u64::MAX {
        Some(number(bytes))
    } else {
        None
    }
}

/// A decimal integer after whitespace, and the length of both.
pub open spec fn uint(s: Seq<u8>) -> Option<(nat, int)> {
    let w = ws_len(s);
    let d = digits_len(s.skip(w));
    match decimal_value(s.subrange(w, w + d)) {
        Some(n) => Some((n, w + d)),
        None => None,
    }
}

/// The length of `word` after whitespace, if it is there.
pub open spec fn word_len(s: Seq<u8>, word: Seq<u8>) -> Option<int> {
    let w = ws_len(s);
    if starts(s.skip(w), word) {
        Some(w + word.len())
    } else {
        None
    }
}

/// A name's characters.
pub open spec fn name_len(s: Seq<u8>) -> int
    decreases s.len(),
{
    if s.len() == 0 || ends_name(s[0]) {
        0
    } else {
        1 + name_len(s.skip(1))
    }
}

/// A `( ... )` string from inside `depth` brackets on. An escape at the very end counts two.
pub open spec fn literal_len(s: Seq<u8>, depth: nat) -> int
    decreases s.len(),
{
    if s.len() == 0 {
        0
    } else if s[0] == 0x5c {
        if s.len() == 1 {
            2
        } else {
            2 + literal_len(s.skip(2), depth)
        }
    } else if s[0] == 0x28 {
        1 + literal_len(s.skip(1), depth + 1)
    } else if s[0] == 0x29 {
        if depth <= 1 {
            1
        } else {
            1 + literal_len(s.skip(1), (depth - 1) as nat)
        }
    } else {
        1 + literal_len(s.skip(1), depth)
    }
}

/// `<<`.
pub open spec fn opens(s: Seq<u8>) -> bool {
    s.len() >= 2 && s[0] == 0x3c && s[1] == 0x3c
}

/// `>>`.
pub open spec fn closes(s: Seq<u8>) -> bool {
    s.len() >= 2 && s[0] == 0x3e && s[1] == 0x3e
}

/// A `<< ... >>` dictionary from inside `depth` of them on, if it is closed.
pub open spec fn dict_len(s: Seq<u8>, depth: nat) -> Option<int>
    decreases s.len(),
{
    if s.len() == 0 {
        None
    } else if opens(s) {
        match dict_len(s.skip(2), depth + 1) {
            Some(n) => Some(2 + n),
            None => None,
        }
    } else if closes(s) {
        if depth <= 1 {
            Some(2)
        } else {
            match dict_len(s.skip(2), (depth - 1) as nat) {
                Some(n) => Some(2 + n),
                None => None,
            }
        }
    } else {
        let step = if s[0] == 0x28 {
            literal_len(s, 0)
        } else {
            1
        };
        if 0 < step < s.len() {
            match dict_len(s.skip(step), depth) {
                Some(n) => Some(step + n),
                None => None,
            }
        } else {
            None
        }
    }
}

/// Where a dictionary after whitespace begins and ends.
pub open spec fn span(s: Seq<u8>) -> Option<(int, int)> {
    let w = ws_len(s);
    if opens(s.skip(w)) {
        match dict_len(s.skip(w), 0) {
            Some(n) => Some((w, w + n)),
            None => None,
        }
    } else {
        None
    }
}

/// A `[ ... ]` array from inside `depth` of them on.
pub open spec fn array_len(s: Seq<u8>, depth: nat) -> int
    decreases s.len(),
{
    if s.len() == 0 {
        0
    } else if s[0] == 0x5b {
        1 + array_len(s.skip(1), depth + 1)
    } else if s[0] == 0x5d {
        if depth <= 1 {
            1
        } else {
            1 + array_len(s.skip(1), (depth - 1) as nat)
        }
    } else if s[0] == 0x28 {
        let n = literal_len(s, 0);
        if 0 < n < s.len() {
            n + array_len(s.skip(n), depth)
        } else {
            n
        }
    } else {
        1 + array_len(s.skip(1), depth)
    }
}

/// A `< ... >` hexadecimal string.
pub open spec fn hex_len(s: Seq<u8>) -> int
    decreases s.len(),
{
    if s.len() == 0 {
        0
    } else if s[0] == 0x3e {
        1
    } else {
        1 + hex_len(s.skip(1))
    }
}

/// `R`.
pub open spec fn ref_mark() -> Seq<u8> {
    seq![0x52u8]
}

/// A number, or an indirect reference such as `12 0 R`.
pub open spec fn number_len(s: Seq<u8>) -> int {
    let after = match uint(s) {
        Some((_, n)) => n,
        None => 0,
    };
    match uint(s.skip(after)) {
        Some((_, gen)) => match word_len(s.skip(after + gen), ref_mark()) {
            Some(r) => after + gen + r,
            None => after,
        },
        None => after,
    }
}

/// One value, whatever kind it is.
pub open spec fn value_len(s: Seq<u8>) -> int {
    if s.len() == 0 {
        0
    } else if s[0] == 0x2f {
        1 + name_len(s.skip(1))
    } else if s[0] == 0x28 {
        literal_len(s, 0)
    } else if s[0] == 0x5b {
        array_len(s, 0)
    } else if opens(s) {
        match dict_len(s, 0) {
            Some(n) => n,
            None => s.len() as int,
        }
    } else if s[0] == 0x3c {
        hex_len(s)
    } else if is_digit(s[0]) {
        number_len(s)
    } else {
        name_len(s)
    }
}

/// The value of `key` among the entries at the front of `s`.
pub open spec fn lookup(s: Seq<u8>, key: Seq<u8>) -> Option<Seq<u8>>
    decreases s.len(),
{
    let w = ws_len(s);
    if w < 0 || w >= s.len() || s[w] != 0x2f {
        None
    } else {
        let v0 = w + 1 + name_len(s.skip(w + 1));
        let v = v0 + ws_len(s.skip(v0));
        let end = v + value_len(s.skip(v));
        if end > s.len() || end <= 0 {
            None
        } else if s.subrange(w + 1, v0) == key {
            Some(s.subrange(v, end))
        } else {
            lookup(s.skip(end), key)
        }
    }
}

/// What stands between a dictionary's brackets.
pub open spec fn inner(dict: Seq<u8>) -> Seq<u8> {
    dict.subrange(2, dict.len() - 2)
}

/// The value of `key` in a dictionary, brackets and all.
pub open spec fn value_of(dict: Seq<u8>, key: Seq<u8>) -> Option<Seq<u8>> {
    if dict.len() < 4 {
        None
    } else {
        lookup(inner(dict), key)
    }
}

/// The integer under `key`. An indirect reference is none.
pub open spec fn uint_of(dict: Seq<u8>, key: Seq<u8>) -> Option<nat> {
    match value_of(dict, key) {
        Some(v) => if v.contains(0x52) {
            None
        } else {
            match uint(v) {
                Some((n, _)) => Some(n),
                None => None,
            }
        },
        None => None,
    }
}

/// The integers at the front of `s`.
pub open spec fn uints(s: Seq<u8>) -> Seq<u64>
    decreases s.len(),
{
    match uint(s) {
        Some((n, k)) => if 0 < k <= s.len() {
            seq![n as u64] + uints(s.skip(k))
        } else {
            Seq::empty()
        },
        None => Seq::empty(),
    }
}

/// The integers of the array under `key`.
pub open spec fn uints_of(dict: Seq<u8>, key: Seq<u8>) -> Option<Seq<u64>> {
    match value_of(dict, key) {
        Some(v) => if v.len() >= 2 && v[0] == 0x5b && v.last() == 0x5d {
            Some(uints(v.subrange(1, v.len() - 1)))
        } else {
            None
        },
        None => None,
    }
}

/// The last offset up to `from` at which `needle` stands.
pub open spec fn last_at(bytes: Seq<u8>, needle: Seq<u8>, from: int) -> Option<int>
    decreases from + 1,
{
    if from < 0 {
        None
    } else if starts(bytes.skip(from), needle) {
        Some(from)
    } else {
        last_at(bytes, needle, from - 1)
    }
}

// ---------------------------------------------------------------------------------------------
// Bounds

pub proof fn lemma_line_len(s: Seq<u8>)
    ensures
        0 <= line_len(s) <= s.len(),
        s.len() > 0 && s[0] == 0x25 ==> line_len(s) > 0,
    decreases s.len(),
{
    if s.len() > 0 && s[0] != 0x0a && s[0] != 0x0d {
        lemma_line_len(s.skip(1));
    }
}

pub proof fn lemma_ws_len(s: Seq<u8>)
    ensures
        0 <= ws_len(s) <= s.len(),
        ws_len(s) < s.len() ==> !is_space(s[ws_len(s)]) && s[ws_len(s)] != 0x25,
    decreases s.len(),
{
    if s.len() > 0 {
        lemma_line_len(s);
        if is_space(s[0]) {
            lemma_ws_len(s.skip(1));
        } else if s[0] == 0x25 {
            lemma_ws_len(s.skip(line_len(s)));
        }
    }
}

pub proof fn lemma_digits_len(s: Seq<u8>)
    ensures
        0 <= digits_len(s) <= s.len(),
        forall|i: int| 0 <= i < digits_len(s) ==> is_digit(#[trigger] s[i]),
        digits_len(s) < s.len() ==> !is_digit(s[digits_len(s)]),
    decreases s.len(),
{
    if s.len() > 0 && is_digit(s[0]) {
        lemma_digits_len(s.skip(1));
        assert forall|i: int| 0 <= i < digits_len(s) implies is_digit(#[trigger] s[i]) by {
            if i > 0 {
                assert(s.skip(1)[i - 1] == s[i]);
            }
        }
    }
}

pub proof fn lemma_uint(s: Seq<u8>)
    ensures
        uint(s) matches Some((n, k)) ==> 0 < k <= s.len() && n <= u64::MAX,
{
    lemma_ws_len(s);
    lemma_digits_len(s.skip(ws_len(s)));
}

pub proof fn lemma_name_len(s: Seq<u8>)
    ensures
        0 <= name_len(s) <= s.len(),
    decreases s.len(),
{
    if s.len() > 0 && !ends_name(s[0]) {
        lemma_name_len(s.skip(1));
    }
}

pub proof fn lemma_literal_len(s: Seq<u8>, depth: nat)
    ensures
        0 <= literal_len(s, depth) <= s.len() + 1,
        s.len() > 0 ==> literal_len(s, depth) > 0,
    decreases s.len(),
{
    if s.len() > 0 {
        if s[0] == 0x5c {
            if s.len() > 1 {
                lemma_literal_len(s.skip(2), depth);
            }
        } else {
            let d = if s[0] == 0x28 {
                depth + 1
            } else if s[0] == 0x29 && depth > 1 {
                (depth - 1) as nat
            } else {
                depth
            };
            lemma_literal_len(s.skip(1), d);
        }
    }
}

pub proof fn lemma_dict_len(s: Seq<u8>, depth: nat)
    ensures
        dict_len(s, depth) matches Some(n) ==> 2 <= n <= s.len() && closes(s.skip(n - 2)),
        opens(s) ==> (dict_len(s, depth) matches Some(n) ==> n >= 4),
    decreases s.len(),
{
    if s.len() > 0 {
        if opens(s) {
            lemma_dict_len(s.skip(2), depth + 1);
            if let Some(n) = dict_len(s.skip(2), depth + 1) {
                assert(s.skip(2).skip(n - 2) =~= s.skip(n));
            }
        } else if closes(s) {
            assert(s.skip(0) =~= s);
            if depth > 1 {
                lemma_dict_len(s.skip(2), (depth - 1) as nat);
                if let Some(n) = dict_len(s.skip(2), (depth - 1) as nat) {
                    assert(s.skip(2).skip(n - 2) =~= s.skip(n));
                }
            }
        } else {
            lemma_literal_len(s, 0);
            let step = if s[0] == 0x28 {
                literal_len(s, 0)
            } else {
                1
            };
            if 0 < step < s.len() {
                lemma_dict_len(s.skip(step), depth);
                if let Some(n) = dict_len(s.skip(step), depth) {
                    assert(s.skip(step).skip(n - 2) =~= s.skip(step + n - 2));
                }
            }
        }
    }
}

pub proof fn lemma_array_len(s: Seq<u8>, depth: nat)
    ensures
        0 <= array_len(s, depth) <= s.len() + 1,
    decreases s.len(),
{
    if s.len() > 0 {
        lemma_literal_len(s, 0);
        if s[0] == 0x28 {
            let n = literal_len(s, 0);
            if 0 < n < s.len() {
                lemma_array_len(s.skip(n), depth);
            }
        } else {
            let d = if s[0] == 0x5b {
                depth + 1
            } else if s[0] == 0x5d && depth > 1 {
                (depth - 1) as nat
            } else {
                depth
            };
            lemma_array_len(s.skip(1), d);
        }
    }
}

pub proof fn lemma_hex_len(s: Seq<u8>)
    ensures
        0 <= hex_len(s) <= s.len(),
    decreases s.len(),
{
    if s.len() > 0 && s[0] != 0x3e {
        lemma_hex_len(s.skip(1));
    }
}

pub proof fn lemma_word_len(s: Seq<u8>, word: Seq<u8>)
    ensures
        word_len(s, word) matches Some(k) ==> word.len() <= k <= s.len(),
{
    lemma_ws_len(s);
}

pub proof fn lemma_value_len(s: Seq<u8>)
    ensures
        0 <= value_len(s) <= s.len() + 1,
{
    if s.len() > 0 {
        lemma_name_len(s);
        lemma_name_len(s.skip(1));
        lemma_literal_len(s, 0);
        lemma_array_len(s, 0);
        lemma_dict_len(s, 0);
        lemma_hex_len(s);
        lemma_uint(s);
        let after = match uint(s) {
            Some((_, n)) => n,
            None => 0,
        };
        lemma_uint(s.skip(after));
        if let Some((_, gen)) = uint(s.skip(after)) {
            lemma_word_len(s.skip(after + gen), ref_mark());
        }
    }
}

// ---------------------------------------------------------------------------------------------
// Reading

/// Whether `needle` stands at `i`.
pub fn stands_at(buf: &[u8], i: usize, needle: &[u8]) -> (r: bool)
    requires
        i <= buf@.len(),
    ensures
        r == starts(buf@.skip(i as int), needle@),
        r ==> i + needle@.len() <= buf@.len() <= usize::MAX,
{
    if buf.len() - i < needle.len() {
        return false;
    }
    let part = vstd::slice::slice_subrange(buf, i, i + needle.len());
    assert(part@ =~= buf@.skip(i as int).take(needle@.len() as int));
    same_bytes(part, needle)
}

fn space(b: u8) -> (r: bool)
    ensures
        r == is_space(b),
{
    b == 0x20 || b == 0x09 || b == 0x0d || b == 0x0a || b == 0x0c || b == 0
}

fn digit(b: u8) -> (r: bool)
    ensures
        r == is_digit(b),
{
    0x30 <= b && b <= 0x39
}

/// Skip whitespace and comments.
pub fn skip_ws(buf: &[u8], from: usize) -> (r: usize)
    requires
        from <= buf@.len(),
    ensures
        r == from + ws_len(buf@.skip(from as int)),
        from <= r <= buf@.len(),
{
    let ghost s = buf@;
    let mut i: usize = from;
    while i < buf.len()
        invariant_except_break
            ws_len(s.skip(from as int)) == (i - from) + ws_len(s.skip(i as int)),
        invariant
            s == buf@,
            from <= i <= s.len(),
        ensures
            i == from + ws_len(s.skip(from as int)),
        decreases s.len() - i,
    {
        let ghost here = s.skip(i as int);
        if space(buf[i]) {
            assert(here.skip(1) =~= s.skip(i + 1));
            i = i + 1;
        } else if buf[i] == 0x25 {
            let ghost start = i;
            proof {
                lemma_line_len(here);
            }
            while i < buf.len() && buf[i] != 0x0a && buf[i] != 0x0d
                invariant
                    s == buf@,
                    from <= start <= i <= s.len(),
                    line_len(s.skip(start as int)) == (i - start) + line_len(s.skip(i as int)),
                decreases s.len() - i,
            {
                assert(s.skip(i as int).skip(1) =~= s.skip(i + 1));
                i = i + 1;
            }
            assert(line_len(s.skip(i as int)) == 0);
            assert(here.skip(line_len(here)) =~= s.skip(i as int));
        } else {
            break;
        }
        if i == buf.len() {
            assert(ws_len(s.skip(i as int)) == 0);
        }
    }
    if i == from {
        assert(i == from + ws_len(s.skip(from as int)));
    }
    i
}

/// The number that `buf[from..to]` spells.
pub fn ascii_uint(buf: &[u8], from: usize, to: usize) -> (r: Option<u64>)
    requires
        from <= to <= buf@.len(),
    ensures
        match r {
            Some(n) => decimal_value(buf@.subrange(from as int, to as int)) == Some(n as nat),
            None => decimal_value(buf@.subrange(from as int, to as int)) is None,
        },
{
    if from == to {
        return None;
    }
    let ghost all = buf@.subrange(from as int, to as int);
    let mut value: u64 = 0;
    let mut i: usize = from;
    assert(all.take(0) =~= Seq::<u8>::empty());
    while i < to
        invariant
            from <= i <= to <= buf@.len(),
            from < to,
            all == buf@.subrange(from as int, to as int),
            forall|k: int| 0 <= k < i - from ==> is_digit(#[trigger] all[k]),
            value == number(all.take(i - from)),
        decreases to - i,
    {
        let b: u8 = buf[i];
        assert(all[i - from] == b);
        if !digit(b) {
            return None;
        }
        proof {
            let more = all.take(i + 1 - from);
            assert(more.drop_last() =~= all.take(i - from));
            assert(number(more) == value * 10 + (b - 0x30));
            if number(more) > u64::MAX {
                lemma_number_grows(all, i + 1 - from);
            }
        }
        match value.checked_mul(10) {
            Some(tens) => match tens.checked_add((b - 0x30) as u64) {
                Some(n) => {
                    value = n;
                },
                None => {
                    return None;
                },
            },
            None => {
                return None;
            },
        }
        i = i + 1;
    }
    assert(all.take(i - from) =~= all);
    Some(value)
}

proof fn lemma_number_grows(digits: Seq<u8>, k: int)
    requires
        0 <= k <= digits.len(),
    ensures
        number(digits) >= number(digits.take(k)),
    decreases digits.len(),
{
    if k < digits.len() {
        lemma_number_grows(digits.drop_last(), k);
        assert(digits.drop_last().take(k) =~= digits.take(k));
    } else {
        assert(digits.take(k) =~= digits);
    }
}

/// Read a decimal integer, skipping leading whitespace. Returns the value and the index after it.
pub fn read_uint(buf: &[u8], i: usize) -> (r: Option<(u64, usize)>)
    requires
        i <= buf@.len(),
    ensures
        match r {
            Some((n, end)) => uint(buf@.skip(i as int)) == Some((n as nat, end - i)) && i < end
                <= buf@.len(),
            None => uint(buf@.skip(i as int)) is None,
        },
{
    let ghost s = buf@;
    let ghost here = s.skip(i as int);
    let start: usize = skip_ws(buf, i);
    let mut end: usize = start;
    proof {
        lemma_ws_len(here);
        assert(here.skip(ws_len(here)) =~= s.skip(start as int));
    }
    while end < buf.len() && digit(buf[end])
        invariant
            s == buf@,
            start <= end <= s.len(),
            digits_len(s.skip(start as int)) == (end - start) + digits_len(s.skip(end as int)),
        decreases s.len() - end,
    {
        assert(s.skip(end as int).skip(1) =~= s.skip(end + 1));
        end = end + 1;
    }
    assert(digits_len(s.skip(end as int)) == 0);
    assert(s.subrange(start as int, end as int) =~= here.subrange(start - i, end - i));
    match ascii_uint(buf, start, end) {
        Some(n) => Some((n, end)),
        None => None,
    }
}

/// Index just past `word` if it sits at `i` (after whitespace).
pub fn keyword(buf: &[u8], i: usize, word: &[u8]) -> (r: Option<usize>)
    requires
        i <= buf@.len(),
    ensures
        match r {
            Some(end) => word_len(buf@.skip(i as int), word@) == Some(end - i) && i <= end <= buf@.len(),
            None => word_len(buf@.skip(i as int), word@) is None,
        },
{
    let start: usize = skip_ws(buf, i);
    assert(buf@.skip(i as int).skip(start - i) =~= buf@.skip(start as int));
    if stands_at(buf, start, word) {
        Some(start + word.len())
    } else {
        None
    }
}

/// The last offset at which `needle` stands.
pub fn rfind(buf: &[u8], needle: &[u8]) -> (r: Option<usize>)
    requires
        needle@.len() > 0,
    ensures
        match r {
            Some(i) => last_at(buf@, needle@, buf@.len() - needle@.len()) == Some(i as int) && i
                + needle@.len() <= buf@.len(),
            None => last_at(buf@, needle@, buf@.len() - needle@.len()) is None,
        },
{
    if buf.len() < needle.len() {
        return None;
    }
    let mut i: usize = buf.len() - needle.len();
    loop
        invariant
            i + needle@.len() <= buf@.len(),
            last_at(buf@, needle@, buf@.len() - needle@.len()) == last_at(buf@, needle@, i as int),
        decreases i,
    {
        if stands_at(buf, i, needle) {
            return Some(i);
        }
        if i == 0 {
            assert(last_at(buf@, needle@, -1) is None);
            return None;
        }
        i = i - 1;
    }
}

/// Index just past a name's characters.
pub fn name_end(buf: &[u8], from: usize) -> (r: usize)
    requires
        from <= buf@.len(),
    ensures
        r == from + name_len(buf@.skip(from as int)),
        from <= r <= buf@.len(),
{
    let ghost s = buf@;
    let mut i: usize = from;
    while i < buf.len() && !name_stop(buf[i])
        invariant
            s == buf@,
            from <= i <= s.len(),
            name_len(s.skip(from as int)) == (i - from) + name_len(s.skip(i as int)),
        decreases s.len() - i,
    {
        assert(s.skip(i as int).skip(1) =~= s.skip(i + 1));
        i = i + 1;
    }
    assert(name_len(s.skip(i as int)) == 0);
    i
}

fn name_stop(b: u8) -> (r: bool)
    ensures
        r == ends_name(b),
{
    space(b) || b == 0x2f || b == 0x5b || b == 0x5d || b == 0x3c || b == 0x3e || b == 0x28 || b == 0x29
        || b == 0x25
}

/// Length of a `( ... )` string at `from`, honouring nesting and backslash escapes.
pub fn skip_literal_string(buf: &[u8], from: usize) -> (r: usize)
    requires
        from < buf@.len(),
        buf@.len() < usize::MAX,
    ensures
        r == from + literal_len(buf@.skip(from as int), 0),
        from < r <= buf@.len() + 1,
{
    let ghost s = buf@;
    let mut depth: usize = 0;
    let mut j: usize = from;
    proof {
        lemma_literal_len(s.skip(from as int), 0);
    }
    while j < buf.len()
        invariant
            s == buf@,
            s.len() < usize::MAX,
            from <= j,
            from < s.len(),
            j <= s.len(),
            depth <= j - from,
            literal_len(s.skip(from as int), 0) == (j - from) + literal_len(
                s.skip(j as int),
                depth as nat,
            ),
            0 < literal_len(s.skip(from as int), 0) <= s.len() - from + 1,
        decreases s.len() - j,
    {
        let ghost here = s.skip(j as int);
        assert(here.skip(1) =~= s.skip(j + 1));
        let b: u8 = buf[j];
        if b == 0x5c {
            if j + 1 == buf.len() {
                return j + 2;
            }
            assert(here.skip(2) =~= s.skip(j + 2));
            j = j + 2;
        } else if b == 0x28 {
            depth = depth + 1;
            j = j + 1;
        } else if b == 0x29 {
            if depth <= 1 {
                return j + 1;
            }
            depth = depth - 1;
            j = j + 1;
        } else {
            j = j + 1;
        }
    }
    assert(literal_len(s.skip(j as int), depth as nat) == 0);
    j
}

/// `None` and then some more is `None`; otherwise the lengths add up.
pub open spec fn further(n: int, rest: Option<int>) -> Option<int> {
    match rest {
        Some(m) => Some(n + m),
        None => None,
    }
}

/// Byte range of the `<< ... >>` at or after `i`, matching nesting and ignoring strings.
pub fn dict_span(buf: &[u8], i: usize) -> (r: Option<(usize, usize)>)
    requires
        i <= buf@.len(),
        buf@.len() < usize::MAX,
    ensures
        match r {
            Some((from, to)) => span(buf@.skip(i as int)) == Some((from - i, to - i)) && i <= from
                && from + 4 <= to <= buf@.len(),
            None => span(buf@.skip(i as int)) is None,
        },
{
    let ghost s = buf@;
    let start: usize = skip_ws(buf, i);
    assert(s.skip(i as int).skip(start - i) =~= s.skip(start as int));
    let ghost whole = dict_len(s.skip(start as int), 0);
    proof {
        lemma_dict_len(s.skip(start as int), 0);
    }
    if !(buf.len() - start >= 2 && buf[start] == 0x3c && buf[start + 1] == 0x3c) {
        return None;
    }
    let mut depth: usize = 0;
    let mut j: usize = start;
    while j < buf.len()
        invariant
            s == buf@,
            s.len() < usize::MAX,
            i <= start <= j,
            start < s.len(),
            j <= s.len(),
            depth <= j - start,
            whole == dict_len(s.skip(start as int), 0),
            whole == further(j - start, dict_len(s.skip(j as int), depth as nat)),
            s.skip(i as int).skip(start - i) == s.skip(start as int),
            start == i + ws_len(s.skip(i as int)),
            opens(s.skip(start as int)),
            whole matches Some(n) ==> 4 <= n <= s.len() - start,
        decreases s.len() - j,
    {
        let ghost here = s.skip(j as int);
        proof {
            lemma_literal_len(here, 0);
        }
        if j + 1 < buf.len() && buf[j] == 0x3c && buf[j + 1] == 0x3c {
            assert(here.skip(2) =~= s.skip(j + 2));
            depth = depth + 1;
            j = j + 2;
        } else if j + 1 < buf.len() && buf[j] == 0x3e && buf[j + 1] == 0x3e {
            assert(here.skip(2) =~= s.skip(j + 2));
            j = j + 2;
            if depth <= 1 {
                return Some((start, j));
            }
            depth = depth - 1;
        } else {
            let next: usize = if buf[j] == 0x28 { skip_literal_string(buf, j) } else { j + 1 };
            if next >= buf.len() {
                return None;
            }
            assert(here.skip(next - j) =~= s.skip(next as int));
            j = next;
        }
    }
    None
}

fn skip_array(buf: &[u8], from: usize) -> (r: usize)
    requires
        from < buf@.len(),
        buf@.len() < usize::MAX,
    ensures
        r == from + array_len(buf@.skip(from as int), 0),
        from <= r <= buf@.len() + 1,
{
    let ghost s = buf@;
    let mut depth: usize = 0;
    let mut j: usize = from;
    while j < buf.len()
        invariant
            s == buf@,
            s.len() < usize::MAX,
            from <= j <= s.len(),
            depth <= j - from,
            array_len(s.skip(from as int), 0) == (j - from) + array_len(s.skip(j as int), depth as nat),
        decreases s.len() - j,
    {
        let ghost here = s.skip(j as int);
        assert(here.skip(1) =~= s.skip(j + 1));
        proof {
            lemma_literal_len(here, 0);
        }
        let b: u8 = buf[j];
        if b == 0x5b {
            depth = depth + 1;
            j = j + 1;
        } else if b == 0x5d {
            if depth <= 1 {
                return j + 1;
            }
            depth = depth - 1;
            j = j + 1;
        } else if b == 0x28 {
            let next: usize = skip_literal_string(buf, j);
            if next >= buf.len() {
                return next;
            }
            assert(here.skip(next - j) =~= s.skip(next as int));
            j = next;
        } else {
            j = j + 1;
        }
    }
    assert(array_len(s.skip(j as int), depth as nat) == 0);
    j
}

fn skip_hex(buf: &[u8], from: usize) -> (r: usize)
    requires
        from <= buf@.len(),
    ensures
        r == from + hex_len(buf@.skip(from as int)),
        from <= r <= buf@.len(),
{
    let ghost s = buf@;
    let mut j: usize = from;
    while j < buf.len()
        invariant
            s == buf@,
            from <= j <= s.len(),
            hex_len(s.skip(from as int)) == (j - from) + hex_len(s.skip(j as int)),
        decreases s.len() - j,
    {
        assert(s.skip(j as int).skip(1) =~= s.skip(j + 1));
        if buf[j] == 0x3e {
            return j + 1;
        }
        j = j + 1;
    }
    assert(hex_len(s.skip(j as int)) == 0);
    j
}

fn skip_number(buf: &[u8], i: usize) -> (r: usize)
    requires
        i <= buf@.len(),
    ensures
        r == i + number_len(buf@.skip(i as int)),
        i <= r <= buf@.len(),
{
    let ghost here = buf@.skip(i as int);
    let after: usize = match read_uint(buf, i) {
        Some((_, after)) => after,
        None => i,
    };
    assert(here.skip(after - i) =~= buf@.skip(after as int));
    if let Some((_, after_gen)) = read_uint(buf, after) {
        assert(here.skip(after_gen - i) =~= buf@.skip(after_gen as int));
        let mark: [u8; 1] = [0x52];
        assert(mark@ =~= ref_mark());
        if let Some(after_r) = keyword(buf, after_gen, mark.as_slice()) {
            return after_r;
        }
    }
    after
}

/// Index just past one value, whatever kind it is.
pub fn value_end(buf: &[u8], i: usize) -> (r: usize)
    requires
        i <= buf@.len(),
        buf@.len() < usize::MAX,
    ensures
        r == i + value_len(buf@.skip(i as int)),
        i <= r <= buf@.len() + 1,
{
    let ghost here = buf@.skip(i as int);
    proof {
        lemma_value_len(here);
        if i < buf@.len() {
            assert(here.skip(1) =~= buf@.skip(i + 1));
        }
    }
    if i == buf.len() {
        return i;
    }
    let b: u8 = buf[i];
    assert(here[0] == b);
    if b == 0x2f {
        name_end(buf, i + 1)
    } else if b == 0x28 {
        skip_literal_string(buf, i)
    } else if b == 0x5b {
        skip_array(buf, i)
    } else if b == 0x3c && i + 1 < buf.len() && buf[i + 1] == 0x3c {
        proof {
            lemma_ws_len(here);
            assert(ws_len(here) == 0);
            assert(here.skip(0) =~= here);
        }
        match dict_span(buf, i) {
            Some((_, end)) => end,
            None => buf.len(),
        }
    } else if b == 0x3c {
        skip_hex(buf, i)
    } else if digit(b) {
        skip_number(buf, i)
    } else {
        name_end(buf, i)
    }
}

/// Raw bytes of `key`'s value in a dictionary, which must hold its `<<` and `>>`.
pub fn dict_value<'a>(dict: &'a [u8], key: &[u8]) -> (r: Option<&'a [u8]>)
    requires
        dict@.len() < usize::MAX,
    ensures
        match r {
            Some(v) => value_of(dict@, key@) == Some(v@) && v@.len() <= dict@.len(),
            None => value_of(dict@, key@) is None,
        },
{
    if dict.len() < 4 {
        return None;
    }
    let body: &'a [u8] = vstd::slice::slice_subrange(dict, 2, dict.len() - 2);
    let ghost s = body@;
    assert(s =~= inner(dict@));
    let mut i: usize = 0;
    assert(s.skip(0) =~= s);
    loop
        invariant
            s == body@,
            s == inner(dict@),
            4 <= dict@.len() < usize::MAX,
            i <= s.len(),
            lookup(s, key@) == lookup(s.skip(i as int), key@),
        decreases s.len() - i,
    {
        let ghost here = s.skip(i as int);
        let at: usize = skip_ws(body, i);
        if at == body.len() || body[at] != 0x2f {
            return None;
        }
        assert(here.skip(at - i + 1) =~= s.skip(at + 1));
        let end_of_name: usize = name_end(body, at + 1);
        assert(here.skip(end_of_name - i) =~= s.skip(end_of_name as int));
        let from: usize = skip_ws(body, end_of_name);
        assert(here.skip(from - i) =~= s.skip(from as int));
        let to: usize = value_end(body, from);
        if to > body.len() {
            return None;
        }
        let name = vstd::slice::slice_subrange(body, at + 1, end_of_name);
        assert(name@ =~= here.subrange(at + 1 - i, end_of_name - i));
        if same_bytes(name, key) {
            let value: &'a [u8] = vstd::slice::slice_subrange(body, from, to);
            assert(value@ =~= here.subrange(from - i, to - i));
            return Some(value);
        }
        assert(here.skip(to - i) =~= s.skip(to as int));
        i = to;
    }
}

fn contains_byte(bytes: &[u8], b: u8) -> (r: bool)
    ensures
        r == bytes@.contains(b),
{
    let mut i: usize = 0;
    while i < bytes.len()
        invariant
            i <= bytes@.len(),
            forall|k: int| 0 <= k < i ==> bytes@[k] != b,
        decreases bytes@.len() - i,
    {
        if bytes[i] == b {
            assert(bytes@[i as int] == b);
            return true;
        }
        i = i + 1;
    }
    false
}

/// Whether a raw value holds an `R`, as an indirect reference does.
pub fn holds_reference(value: &[u8]) -> (r: bool)
    ensures
        r == value@.contains(0x52),
{
    contains_byte(value, 0x52)
}

/// The integer under `key`. An indirect reference is none.
pub fn dict_uint(dict: &[u8], key: &[u8]) -> (r: Option<u64>)
    requires
        dict@.len() < usize::MAX,
    ensures
        match r {
            Some(n) => uint_of(dict@, key@) == Some(n as nat),
            None => uint_of(dict@, key@) is None,
        },
{
    let value = match dict_value(dict, key) {
        Some(value) => value,
        None => {
            return None;
        },
    };
    if holds_reference(value) {
        return None;
    }
    assert(value@.skip(0) =~= value@);
    match read_uint(value, 0) {
        Some((n, _)) => Some(n),
        None => None,
    }
}

/// The integers in an array value such as `/W [1 8 2]`.
pub fn dict_uint_array(dict: &[u8], key: &[u8]) -> (r: Option<Vec<u64>>)
    requires
        dict@.len() < usize::MAX,
    ensures
        match r {
            Some(list) => uints_of(dict@, key@) == Some(list@),
            None => uints_of(dict@, key@) is None,
        },
{
    let value = match dict_value(dict, key) {
        Some(value) => value,
        None => {
            return None;
        },
    };
    if value.len() < 2 || value[0] != 0x5b || value[value.len() - 1] != 0x5d {
        return None;
    }
    let body = vstd::slice::slice_subrange(value, 1, value.len() - 1);
    let ghost s = body@;
    let mut out: Vec<u64> = Vec::new();
    let mut i: usize = 0;
    proof {
        assert(s.skip(0) =~= s);
        assert(out@ + uints(s) =~= uints(s));
    }
    loop
        invariant
            s == body@,
            i <= s.len(),
            out@ + uints(s.skip(i as int)) == uints(s),
        ensures
            out@ == uints(s),
        decreases s.len() - i,
    {
        match read_uint(body, i) {
            Some((n, next)) => {
                let ghost before = out@;
                out.push(n);
                proof {
                    let here = s.skip(i as int);
                    assert(here.skip(next - i) =~= s.skip(next as int));
                    assert(out@ + uints(s.skip(next as int)) =~= before + (seq![n] + uints(
                        s.skip(next as int),
                    )));
                }
                i = next;
            },
            None => {
                assert(out@ + uints(s.skip(i as int)) =~= out@);
                break;
            },
        }
    }
    Some(out)
}

} // verus!
