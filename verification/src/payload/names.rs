//! File names: made safe to write to disk, kept short, and numbered where they clash.

use crate::error::{Fault, ZolalError};
use crate::text::{append_decimal, decimal_text};
use vstd::prelude::*;
use vstd::utf8::{encode_scalar, encode_utf8};

verus! {

/// Longest file name written to disk, in bytes.
pub const MAX_NAME_BYTES: usize = 255;

/// Longest extension that counts as one, in bytes.
pub const MAX_EXTENSION_BYTES: usize = 16;

// ---------------------------------------------------------------------------------------------
// Characters

/// `/` or `\`.
pub open spec fn separates(c: char) -> bool {
    c == '/' || c == '\\'
}

/// Control characters.
pub open spec fn controls(c: char) -> bool {
    c as u32 <= 0x1f || 0x7f <= c as u32 <= 0x9f
}

/// The bidirectional overrides that can disguise an extension.
pub open spec fn turns(c: char) -> bool {
    let u = c as u32;
    u == 0x200e || u == 0x200f || 0x202a <= u <= 0x202e || 0x2066 <= u <= 0x2069
}

/// Unicode white space.
pub open spec fn blank(c: char) -> bool {
    let u = c as u32;
    9 <= u <= 13 || u == 0x20 || u == 0x85 || u == 0xa0 || u == 0x1680 || 0x2000 <= u <= 0x200a || u
        == 0x2028 || u == 0x2029 || u == 0x202f || u == 0x205f || u == 0x3000
}

/// What stays of a name.
pub open spec fn stays(c: char) -> bool {
    !controls(c) && !turns(c)
}

fn is_control(c: char) -> (r: bool)
    ensures
        r == controls(c),
{
    let u: u32 = c as u32;
    u <= 0x1f || (0x7f <= u && u <= 0x9f)
}

fn is_bidi_control(c: char) -> (r: bool)
    ensures
        r == turns(c),
{
    let u: u32 = c as u32;
    u == 0x200e || u == 0x200f || (0x202a <= u && u <= 0x202e) || (0x2066 <= u && u <= 0x2069)
}

fn is_blank(c: char) -> (r: bool)
    ensures
        r == blank(c),
{
    let u: u32 = c as u32;
    (9 <= u && u <= 13) || u == 0x20 || u == 0x85 || u == 0xa0 || u == 0x1680 || (0x2000 <= u && u
        <= 0x200a) || u == 0x2028 || u == 0x2029 || u == 0x202f || u == 0x205f || u == 0x3000
}

// ---------------------------------------------------------------------------------------------
// UTF-8 lengths

/// How many bytes a text takes.
pub open spec fn byte_len(text: Seq<char>) -> nat {
    encode_utf8(text).len()
}

pub proof fn lemma_encode_concat(a: Seq<char>, b: Seq<char>)
    ensures
        encode_utf8(a + b) == encode_utf8(a) + encode_utf8(b),
    decreases a.len(),
{
    if a.len() == 0 {
        assert(a + b =~= b);
        assert(encode_utf8(a) + encode_utf8(b) =~= encode_utf8(b));
    } else {
        assert((a + b).drop_first() =~= a.drop_first() + b);
        lemma_encode_concat(a.drop_first(), b);
        assert(encode_utf8(a + b) =~= encode_utf8(a) + encode_utf8(b));
    }
}

pub proof fn lemma_byte_len_push(a: Seq<char>, c: char)
    ensures
        byte_len(a.push(c)) == byte_len(a) + encode_scalar(c as u32).len(),
        1 <= encode_scalar(c as u32).len() <= 4,
{
    let one = seq![c];
    assert(a.push(c) =~= a + one);
    lemma_encode_concat(a, one);
    assert(one.drop_first() =~= Seq::<char>::empty());
    reveal_with_fuel(encode_utf8, 2);
}

/// Between one and four bytes for each character.
pub proof fn lemma_byte_len(a: Seq<char>)
    ensures
        a.len() <= byte_len(a) <= 4 * a.len(),
    decreases a.len(),
{
    if a.len() > 0 {
        lemma_byte_len(a.drop_last());
        lemma_byte_len_push(a.drop_last(), a.last());
        assert(a.drop_last().push(a.last()) =~= a);
    }
}

fn char_bytes(c: char) -> (r: usize)
    ensures
        r == encode_scalar(c as u32).len(),
{
    let u: u32 = c as u32;
    if u <= 0x7f {
        1
    } else if u <= 0x7ff {
        2
    } else if u <= 0xffff {
        3
    } else {
        4
    }
}

/// The characters of a string.
pub fn chars_of(text: &str) -> (r: Vec<char>)
    ensures
        r@ == text@,
{
    let mut out: Vec<char> = Vec::new();
    for c in iter: text.chars()
        invariant
            out@ == iter.seq().take(iter.index() as int),
            iter.seq() == text@,
    {
        out.push(c);
        assert(out@ =~= iter.seq().take(iter.index() + 1));
    }
    assert(out@ =~= text@);
    out
}

/// The string of some characters.
pub fn string_of(chars: &Vec<char>) -> (r: String)
    ensures
        r@ == chars@,
{
    let mut out = String::new();
    let mut i: usize = 0;
    assert(out@ =~= chars@.take(0));
    while i < chars.len()
        invariant
            i <= chars@.len(),
            out@ == chars@.take(i as int),
        decreases chars@.len() - i,
    {
        out.push(chars[i]);
        i = i + 1;
        assert(out@ =~= chars@.take(i as int));
    }
    assert(out@ =~= chars@);
    out
}

/// `chars[from..to]`.
fn part_of(chars: &Vec<char>, from: usize, to: usize) -> (r: Vec<char>)
    requires
        from <= to <= chars@.len(),
    ensures
        r@ == chars@.subrange(from as int, to as int),
{
    let mut out: Vec<char> = Vec::new();
    let mut i: usize = from;
    assert(out@ =~= chars@.subrange(from as int, from as int));
    while i < to
        invariant
            from <= i <= to <= chars@.len(),
            out@ == chars@.subrange(from as int, i as int),
        decreases to - i,
    {
        out.push(chars[i]);
        i = i + 1;
        assert(out@ =~= chars@.subrange(from as int, i as int));
    }
    out
}

// ---------------------------------------------------------------------------------------------
// The parts of a name

/// What follows the last separator.
pub open spec fn base_of(name: Seq<char>) -> Seq<char>
    decreases name.len(),
{
    if name.len() == 0 || separates(name.last()) {
        Seq::empty()
    } else {
        base_of(name.drop_last()).push(name.last())
    }
}

/// The characters that stay.
pub open spec fn cleaned(name: Seq<char>) -> Seq<char>
    decreases name.len(),
{
    if name.len() == 0 {
        name
    } else if stays(name.last()) {
        cleaned(name.drop_last()).push(name.last())
    } else {
        cleaned(name.drop_last())
    }
}

/// Without white space at the end.
pub open spec fn trim_end(name: Seq<char>) -> Seq<char>
    decreases name.len(),
{
    if name.len() > 0 && blank(name.last()) {
        trim_end(name.drop_last())
    } else {
        name
    }
}

/// Without white space at the beginning.
pub open spec fn trim_start(name: Seq<char>) -> Seq<char>
    decreases name.len(),
{
    if name.len() > 0 && blank(name[0]) {
        trim_start(name.drop_first())
    } else {
        name
    }
}

/// Where the last dot stands.
pub open spec fn last_dot(name: Seq<char>) -> Option<int>
    decreases name.len(),
{
    if name.len() == 0 {
        None
    } else if name.last() == '.' {
        Some(name.len() - 1)
    } else {
        last_dot(name.drop_last())
    }
}

/// Where the extension begins, dot included, if the name has a short one and something before it.
pub open spec fn extension_at(name: Seq<char>) -> int {
    match last_dot(name) {
        Some(i) => if i > 0 && byte_len(name.skip(i + 1)) <= MAX_EXTENSION_BYTES {
            i
        } else {
            name.len() as int
        },
        None => name.len() as int,
    }
}

/// As much of `text` from the beginning as fits in `budget` bytes.
pub open spec fn fitting(text: Seq<char>, budget: nat) -> Seq<char>
    decreases text.len(),
{
    if text.len() == 0 || byte_len(text) <= budget {
        text
    } else {
        fitting(text.drop_last(), budget)
    }
}

/// Stem, suffix and extension, with the stem cut so that the result fits in `max` bytes.
pub open spec fn rebuilt(name: Seq<char>, suffix: Seq<char>, max: nat) -> Seq<char> {
    let i = extension_at(name);
    let ext = name.skip(i);
    let used = byte_len(suffix) + byte_len(ext);
    let budget: nat = if used <= max {
        (max - used) as nat
    } else {
        0
    };
    fitting(name.take(i), budget) + suffix + ext
}

/// A stored name reduced to a safe one, if anything is left of it.
pub open spec fn safe(name: Seq<char>) -> Option<Seq<char>> {
    let c = trim_start(trim_end(cleaned(base_of(name))));
    if c.len() == 0 || c == "."@ || c == ".."@ {
        None
    } else if byte_len(c) <= MAX_NAME_BYTES {
        Some(c)
    } else {
        Some(rebuilt(c, Seq::empty(), MAX_NAME_BYTES as nat))
    }
}

/// The suffix of the `n`th file of a name.
pub open spec fn number_suffix(n: nat) -> Seq<char> {
    " ("@ + decimal_text(n) + ")"@
}

/// The name with ` (n)` before its extension.
pub open spec fn numbered(name: Seq<char>, n: nat) -> Seq<char> {
    rebuilt(name, number_suffix(n), MAX_NAME_BYTES as nat)
}

/// The `n`th name to try: the name itself, then with numbers from 2 on.
pub open spec fn candidate(name: Seq<char>, n: nat) -> Seq<char> {
    if n <= 1 {
        name
    } else {
        numbered(name, n)
    }
}

// ---------------------------------------------------------------------------------------------
// Working on names

fn count_bytes(chars: &Vec<char>, from: usize, to: usize) -> (r: u128)
    requires
        from <= to <= chars@.len(),
    ensures
        r == byte_len(chars@.subrange(from as int, to as int)),
        r <= 4 * (to - from),
{
    let mut n: u128 = 0;
    let mut i: usize = from;
    assert(chars@.subrange(from as int, from as int) =~= Seq::<char>::empty());
    while i < to
        invariant
            from <= i <= to <= chars@.len(),
            n == byte_len(chars@.subrange(from as int, i as int)),
            n <= 4 * (i - from),
        decreases to - i,
    {
        proof {
            let done = chars@.subrange(from as int, i as int);
            lemma_byte_len_push(done, chars@[i as int]);
            assert(done.push(chars@[i as int]) =~= chars@.subrange(from as int, i + 1));
        }
        n = n + char_bytes(chars[i]) as u128;
        i = i + 1;
    }
    n
}

fn find_last_dot(chars: &Vec<char>) -> (r: Option<usize>)
    ensures
        match r {
            Some(i) => last_dot(chars@) == Some(i as int) && i < chars@.len(),
            None => last_dot(chars@) is None,
        },
{
    let mut i: usize = chars.len();
    assert(chars@.take(i as int) =~= chars@);
    while i > 0
        invariant
            i <= chars@.len(),
            last_dot(chars@) == last_dot(chars@.take(i as int)),
        decreases i,
    {
        proof {
            let here = chars@.take(i as int);
            assert(here.last() == chars@[i - 1]);
            assert(here.drop_last() =~= chars@.take(i - 1));
        }
        if chars[i - 1] == '.' {
            return Some(i - 1);
        }
        i = i - 1;
    }
    None
}

fn find_extension(chars: &Vec<char>) -> (r: usize)
    ensures
        r == extension_at(chars@),
        r <= chars@.len(),
{
    match find_last_dot(chars) {
        Some(i) => {
            if i > 0 {
                assert(chars@.skip(i + 1) =~= chars@.subrange(i + 1, chars@.len() as int));
                let end: usize = chars.len();
                if count_bytes(chars, i + 1, end) <= MAX_EXTENSION_BYTES as u128 {
                    return i;
                }
            }
            chars.len()
        },
        None => chars.len(),
    }
}

proof fn lemma_byte_len_grows(text: Seq<char>, a: int, b: int)
    requires
        0 <= a <= b <= text.len(),
    ensures
        byte_len(text.take(a)) <= byte_len(text.take(b)),
    decreases b - a,
{
    if a < b {
        lemma_byte_len_grows(text, a, b - 1);
        lemma_byte_len_push(text.take(b - 1), text[b - 1]);
        assert(text.take(b - 1).push(text[b - 1]) =~= text.take(b));
    }
}

/// Growing from the beginning finds the same prefix as cutting from the end.
proof fn lemma_fitting(text: Seq<char>, budget: nat, i: int)
    requires
        0 <= i <= text.len(),
        byte_len(text.take(i)) <= budget,
        i == text.len() || byte_len(text.take(i + 1)) > budget,
    ensures
        fitting(text, budget) == text.take(i),
    decreases text.len() - i,
{
    if i == text.len() {
        assert(text.take(i) =~= text);
    } else {
        lemma_byte_len_grows(text, i + 1, text.len() as int);
        assert(text.take(text.len() as int) =~= text);
        let less = text.drop_last();
        assert(less.take(i) =~= text.take(i));
        if i < less.len() {
            assert(less.take(i + 1) =~= text.take(i + 1));
        }
        lemma_fitting(less, budget, i);
    }
}

/// Stem, suffix and extension, with the stem cut so that the result fits in `max` bytes.
fn with_stem_budget(chars: &Vec<char>, suffix: &Vec<char>, max: usize) -> (r: Vec<char>)
    ensures
        r@ == rebuilt(chars@, suffix@, max as nat),
{
    let at: usize = find_extension(chars);
    let ghost stem = chars@.take(at as int);
    let ghost ext = chars@.skip(at as int);
    assert(ext =~= chars@.subrange(at as int, chars@.len() as int));
    assert(suffix@ =~= suffix@.subrange(0, suffix@.len() as int));
    let ext_len: u128 = count_bytes(chars, at, chars.len());
    let used: u128 = count_bytes(suffix, 0, suffix.len()) + ext_len;
    let budget: u128 = if used <= max as u128 { max as u128 - used } else { 0 };
    let mut out: Vec<char> = Vec::new();
    let mut size: u128 = 0;
    let mut i: usize = 0;
    assert(stem.take(0) =~= Seq::<char>::empty());
    while i < at
        invariant_except_break
            size == byte_len(stem.take(i as int)),
        invariant
            i <= at <= chars@.len(),
            stem == chars@.take(at as int),
            size <= budget,
            byte_len(stem.take(i as int)) <= budget,
            out@ == stem.take(i as int),
        ensures
            i == at || byte_len(stem.take(i + 1)) > budget,
        decreases at - i,
    {
        proof {
            lemma_byte_len_push(stem.take(i as int), stem[i as int]);
            assert(stem.take(i as int).push(stem[i as int]) =~= stem.take(i + 1));
        }
        let more: u128 = char_bytes(chars[i]) as u128;
        if more > budget - size {
            break;
        }
        out.push(chars[i]);
        size = size + more;
        i = i + 1;
    }
    proof {
        lemma_fitting(stem, budget as nat, i as int);
    }
    let mut tail = part_of(suffix, 0, suffix.len());
    out.append(&mut tail);
    let mut end = part_of(chars, at, chars.len());
    out.append(&mut end);
    assert(out@ =~= fitting(stem, budget as nat) + suffix@ + ext);
    out
}

/// Reduce a stored name to a safe basename for writing to disk.
///
/// Drops everything up to the last `/` or `\`, control characters, and the bidirectional overrides
/// that can disguise an extension. Rejects empty results, `.` and `..`, so extraction cannot escape
/// the output directory, and trims anything over [`MAX_NAME_BYTES`] while keeping a short extension.
pub fn safe_name(name: &str) -> (r: Option<String>)
    ensures
        match r {
            Some(s) => safe(name@) == Some(s@),
            None => safe(name@) is None,
        },
{
    let all = chars_of(name);
    let base = base_chars(&all);
    let clean = clean_chars(&base);
    let trimmed = trim_chars(&clean);
    proof {
        reveal_strlit(".");
        reveal_strlit("..");
        let c = trimmed@;
        if c.len() == 1 && c[0] == '.' {
            assert(c =~= "."@);
        }
        if c.len() == 2 && c[0] == '.' && c[1] == '.' {
            assert(c =~= ".."@);
        }
    }
    if trimmed.len() == 0 || (trimmed.len() == 1 && trimmed[0] == '.') || (trimmed.len() == 2
        && trimmed[0] == '.' && trimmed[1] == '.') {
        return None;
    }
    assert(trimmed@.subrange(0, trimmed@.len() as int) =~= trimmed@);
    if count_bytes(&trimmed, 0, trimmed.len()) <= MAX_NAME_BYTES as u128 {
        return Some(string_of(&trimmed));
    }
    let none: Vec<char> = Vec::new();
    assert(none@ =~= Seq::<char>::empty());
    let short = with_stem_budget(&trimmed, &none, MAX_NAME_BYTES);
    Some(string_of(&short))
}

fn base_chars(chars: &Vec<char>) -> (r: Vec<char>)
    ensures
        r@ == base_of(chars@),
        r@.len() <= chars@.len(),
{
    let mut i: usize = chars.len();
    let ghost all = chars@;
    proof {
        assert(all.take(i as int) =~= all);
        assert(base_of(all) =~= base_of(all.take(i as int)) + all.skip(i as int));
    }
    while i > 0 && !(chars[i - 1] == '/' || chars[i - 1] == '\\')
        invariant
            all == chars@,
            i <= all.len(),
            base_of(all) == base_of(all.take(i as int)) + all.skip(i as int),
        decreases i,
    {
        proof {
            let here = all.take(i as int);
            assert(here.last() == all[i - 1]);
            assert(here.drop_last() =~= all.take(i - 1));
            assert(base_of(here) + all.skip(i as int) =~= base_of(all.take(i - 1)) + all.skip(i - 1));
        }
        i = i - 1;
    }
    proof {
        if i > 0 {
            assert(all.take(i as int).last() == all[i - 1]);
        }
        assert(base_of(all.take(i as int)) =~= Seq::<char>::empty());
        assert(base_of(all) =~= all.skip(i as int));
        assert(all.skip(i as int) =~= all.subrange(i as int, all.len() as int));
    }
    part_of(chars, i, chars.len())
}

fn clean_chars(chars: &Vec<char>) -> (r: Vec<char>)
    ensures
        r@ == cleaned(chars@),
        r@.len() <= chars@.len(),
{
    let mut out: Vec<char> = Vec::new();
    let mut i: usize = 0;
    assert(chars@.take(0) =~= Seq::<char>::empty());
    assert(out@ =~= cleaned(chars@.take(0)));
    while i < chars.len()
        invariant
            i <= chars@.len(),
            out@ == cleaned(chars@.take(i as int)),
            out@.len() <= i,
        decreases chars@.len() - i,
    {
        let c = chars[i];
        proof {
            let here = chars@.take(i + 1);
            assert(here.last() == c);
            assert(here.drop_last() =~= chars@.take(i as int));
        }
        if !is_control(c) && !is_bidi_control(c) {
            out.push(c);
        }
        i = i + 1;
    }
    assert(chars@.take(i as int) =~= chars@);
    out
}

fn trim_chars(chars: &Vec<char>) -> (r: Vec<char>)
    ensures
        r@ == trim_start(trim_end(chars@)),
        r@.len() <= chars@.len(),
{
    let mut to: usize = chars.len();
    let ghost all = chars@;
    assert(all.take(to as int) =~= all);
    while to > 0 && is_blank(chars[to - 1])
        invariant
            all == chars@,
            to <= all.len(),
            trim_end(all) == trim_end(all.take(to as int)),
        decreases to,
    {
        proof {
            let here = all.take(to as int);
            assert(here.last() == all[to - 1]);
            assert(here.drop_last() =~= all.take(to - 1));
        }
        to = to - 1;
    }
    let ghost ended = all.take(to as int);
    proof {
        if to > 0 {
            assert(ended.last() == all[to - 1]);
        }
        assert(trim_end(all) == ended);
    }
    let mut from: usize = 0;
    assert(ended.skip(0) =~= ended);
    while from < to && is_blank(chars[from])
        invariant
            all == chars@,
            from <= to <= all.len(),
            ended == all.take(to as int),
            trim_start(ended) == trim_start(ended.skip(from as int)),
        decreases to - from,
    {
        proof {
            let here = ended.skip(from as int);
            assert(here[0] == all[from as int]);
            assert(here.drop_first() =~= ended.skip(from + 1));
        }
        from = from + 1;
    }
    proof {
        let here = ended.skip(from as int);
        if from < to {
            assert(here[0] == all[from as int]);
        }
        assert(trim_start(here) == here);
        assert(here =~= all.subrange(from as int, to as int));
    }
    part_of(chars, from, to)
}

/// `name` with ` (n)` before its extension, still within [`MAX_NAME_BYTES`]. Used to avoid collisions,
/// so the suffix is never the part that gets truncated.
pub fn numbered_name(name: &str, n: u32) -> (r: String)
    ensures
        r@ == numbered(name@, n as nat),
{
    let mut suffix = " (".to_owned();
    append_decimal(&mut suffix, n as u64);
    suffix.append(")");
    assert(suffix@ =~= number_suffix(n as nat));
    let chars = chars_of(name);
    let tail = chars_of(suffix.as_str());
    let out = with_stem_budget(&chars, &tail, MAX_NAME_BYTES);
    string_of(&out)
}

/// First of `name`, `name (2)`, `name (3)`, … that `taken` rejects.
pub fn unique_name<F: Fn(&str) -> bool>(name: &str, taken: F) -> (r: Result<String, ZolalError>)
    requires
        forall|s: &str| call_requires(taken, (s,)),
    ensures
        match r {
            Ok(found) => exists|n: nat|
                1 <= n < 10000 && found@ == #[trigger] candidate(name@, n) && answered(
                    taken,
                    candidate(name@, n),
                    false,
                ) && forall|m: nat|
                    1 <= m < n ==> answered(taken, #[trigger] candidate(name@, m), true),
            Err(e) => e@ == Fault::InvalidRequest("too many files named "@ + name@) && forall|m: nat|
                1 <= m < 10000 ==> answered(taken, #[trigger] candidate(name@, m), true),
        },
{
    if !taken(name) {
        let found = name.to_owned();
        assert(found@ == candidate(name@, 1));
        return Ok(found);
    }
    assert(answered(taken, candidate(name@, 1), true));
    let mut n: u32 = 2;
    while n < 10000
        invariant
            2 <= n <= 10000,
                forall|s: &str| call_requires(taken, (s,)),
            forall|m: nat| 1 <= m < n ==> answered(taken, #[trigger] candidate(name@, m), true),
        decreases 10000 - n,
    {
        let next = numbered_name(name, n);
        assert(next@ == candidate(name@, n as nat));
        if !taken(next.as_str()) {
            return Ok(next);
        }
        assert(answered(taken, candidate(name@, n as nat), true));
        n = n + 1;
    }
    let mut text = "too many files named ".to_owned();
    text.append(name);
    Err(ZolalError::InvalidRequest(text))
}

/// `taken`, asked about a text, gave this answer.
pub open spec fn answered<F: Fn(&str) -> bool>(taken: F, text: Seq<char>, answer: bool) -> bool {
    exists|s: &str| #[trigger] s@ == text && call_ensures(taken, (s,), answer)
}

// ---------------------------------------------------------------------------------------------
// What a safe name is

/// Nothing in a name that could lead out of a directory or disguise what it is.
pub open spec fn harmless(name: Seq<char>) -> bool {
    forall|i: int| 0 <= i < name.len() ==> !separates(#[trigger] name[i]) && stays(name[i])
}

/// A name that a file can have in a directory, and that cannot lead out of it.
pub open spec fn storable(name: Seq<char>) -> bool {
    &&& harmless(name)
    &&& name.len() > 0
    &&& name != "."@
    &&& name != ".."@
    &&& byte_len(name) <= MAX_NAME_BYTES
}

proof fn lemma_base(name: Seq<char>)
    ensures
        forall|i: int| 0 <= i < base_of(name).len() ==> !separates(#[trigger] base_of(name)[i]),
    decreases name.len(),
{
    if name.len() > 0 && !separates(name.last()) {
        let less = base_of(name.drop_last());
        lemma_base(name.drop_last());
        assert forall|i: int| 0 <= i < base_of(name).len() implies !separates(
            #[trigger] base_of(name)[i],
        ) by {
            if i < less.len() {
                assert(base_of(name)[i] == less[i]);
            }
        }
    }
}

proof fn lemma_cleaned(name: Seq<char>)
    requires
        forall|i: int| 0 <= i < name.len() ==> !separates(#[trigger] name[i]),
    ensures
        harmless(cleaned(name)),
    decreases name.len(),
{
    if name.len() > 0 {
        assert(forall|i: int| 0 <= i < name.drop_last().len() ==> name.drop_last()[i] == name[i]);
        assert(!separates(name[name.len() - 1]));
        lemma_cleaned(name.drop_last());
    }
}

proof fn lemma_trimmed(name: Seq<char>)
    requires
        harmless(name),
    ensures
        harmless(trim_end(name)),
        harmless(trim_start(name)),
    decreases name.len(),
{
    if name.len() > 0 {
        assert(forall|i: int| 0 <= i < name.drop_last().len() ==> name.drop_last()[i] == name[i]);
        assert(forall|i: int| 0 <= i < name.drop_first().len() ==> name.drop_first()[i] == name[i + 1]);
        lemma_trimmed(name.drop_last());
        lemma_trimmed(name.drop_first());
    }
}

proof fn lemma_fitting_facts(text: Seq<char>, budget: nat)
    ensures
        fitting(text, budget).len() <= text.len(),
        fitting(text, budget) == text.take(fitting(text, budget).len() as int),
        byte_len(fitting(text, budget)) <= budget,
        byte_len(text) > budget ==> byte_len(fitting(text, budget)) + 4 > budget,
    decreases text.len(),
{
    if text.len() == 0 {
        assert(text.take(0) =~= text);
        lemma_byte_len(text);
    } else if byte_len(text) <= budget {
        assert(text.take(text.len() as int) =~= text);
    } else {
        let less = text.drop_last();
        lemma_fitting_facts(less, budget);
        lemma_byte_len_push(less, text.last());
        assert(less.push(text.last()) =~= text);
        let n = fitting(less, budget).len() as int;
        assert(less.take(n) =~= text.take(n));
    }
}

proof fn lemma_extension(name: Seq<char>)
    ensures
        0 <= extension_at(name) <= name.len(),
        byte_len(name.skip(extension_at(name))) <= 17,
        extension_at(name) == 0 ==> name.len() == 0,
{
    lemma_last_dot(name);
    let i = extension_at(name);
    if i < name.len() {
        let ext = name.skip(i + 1);
        assert(name.skip(i) =~= seq!['.'] + ext);
        lemma_encode_concat(seq!['.'], ext);
        assert(byte_len(seq!['.']) == 1) by {
            lemma_byte_len_push(Seq::empty(), '.');
            assert(Seq::<char>::empty().push('.') =~= seq!['.']);
            assert(encode_scalar('.' as u32).len() == 1);
        }
    } else {
        assert(name.skip(i) =~= Seq::<char>::empty());
    }
}

proof fn lemma_last_dot(name: Seq<char>)
    ensures
        last_dot(name) matches Some(i) ==> 0 <= i < name.len() && name[i] == '.',
    decreases name.len(),
{
    if name.len() > 0 && name.last() != '.' {
        lemma_last_dot(name.drop_last());
    }
}

/// A rebuilt name keeps within its limit, and is made of what it was made from.
proof fn lemma_rebuilt(name: Seq<char>, suffix: Seq<char>, max: nat)
    requires
        byte_len(suffix) + 17 <= max,
    ensures
        byte_len(rebuilt(name, suffix, max)) <= max,
        harmless(name) && harmless(suffix) ==> harmless(rebuilt(name, suffix, max)),
        byte_len(name) > max && suffix.len() == 0 ==> byte_len(rebuilt(name, suffix, max)) + 4 > max,
{
    let i = extension_at(name);
    let ext = name.skip(i);
    let stem = name.take(i);
    lemma_extension(name);
    let budget = (max - byte_len(suffix) - byte_len(ext)) as nat;
    let cut = fitting(stem, budget);
    lemma_fitting_facts(stem, budget);
    lemma_encode_concat(cut, suffix);
    lemma_encode_concat(cut + suffix, ext);
    assert(name =~= stem + ext);
    lemma_encode_concat(stem, ext);
    if suffix.len() == 0 {
        lemma_byte_len(suffix);
    }
    let all = cut + suffix + ext;
    if harmless(name) && harmless(suffix) {
        assert forall|k: int| 0 <= k < all.len() implies !separates(#[trigger] all[k]) && stays(all[k]) by {
            if k < cut.len() {
                assert(all[k] == name[k]);
            } else if k < cut.len() + suffix.len() {
                assert(all[k] == suffix[k - cut.len()]);
            } else {
                assert(all[k] == name[i + (k - cut.len() - suffix.len())]);
            }
        }
    }
}

/// A safe name cannot lead out of the directory it is written to: it holds no separator, no control
/// character and no bidirectional override, is neither empty nor `.` nor `..`, and fits in
/// [`MAX_NAME_BYTES`] bytes.
pub proof fn safe_names_are_safe(name: Seq<char>)
    ensures
        safe(name) matches Some(s) ==> storable(s),
{
    let c = trim_start(trim_end(cleaned(base_of(name))));
    lemma_base(name);
    lemma_cleaned(base_of(name));
    lemma_trimmed(cleaned(base_of(name)));
    lemma_trimmed(trim_end(cleaned(base_of(name))));
    reveal_strlit(".");
    reveal_strlit("..");
    if safe(name) is Some && byte_len(c) > MAX_NAME_BYTES {
        let none = Seq::<char>::empty();
        lemma_byte_len(none);
        lemma_rebuilt(c, none, MAX_NAME_BYTES as nat);
        let s = rebuilt(c, none, MAX_NAME_BYTES as nat);
        lemma_byte_len(s);
    }
}

/// A numbered name is as safe as the name it was made from. Whatever that is, the numbered one is not too
/// long, is neither empty nor `.` nor `..`, and its number stays.
pub proof fn numbered_names_are_safe(name: Seq<char>, n: u32)
    ensures
        harmless(name) ==> storable(numbered(name, n as nat)),
        byte_len(numbered(name, n as nat)) <= MAX_NAME_BYTES,
        numbered(name, n as nat).len() > 2,
        exists|i: int|
            0 <= i && i + number_suffix(n as nat).len() <= numbered(name, n as nat).len()
                && #[trigger] numbered(name, n as nat).subrange(
                i,
                i + number_suffix(n as nat).len(),
            ) == number_suffix(n as nat),
{
    let suffix = number_suffix(n as nat);
    reveal_strlit(" (");
    reveal_strlit(")");
    reveal_strlit(".");
    reveal_strlit("..");
    crate::text::lemma_decimal_len_u64(n as u64);
    crate::text::lemma_decimal_digits(n as nat);
    let digits = decimal_text(n as nat);
    assert forall|i: int| 0 <= i < suffix.len() implies !separates(#[trigger] suffix[i]) && stays(suffix[i]) by {
        if 2 <= i < 2 + digits.len() {
            assert(suffix[i] == digits[i - 2]);
            let b = crate::text::decimal(n as nat)[i - 2];
            assert(crate::text::is_digit(b));
            assert(digits[i - 2] == b as char);
        }
    }
    lemma_byte_len(suffix);
    lemma_rebuilt(name, suffix, MAX_NAME_BYTES as nat);
    let at = extension_at(name);
    let used = byte_len(suffix) + byte_len(name.skip(at));
    lemma_extension(name);
    let cut = fitting(name.take(at), (MAX_NAME_BYTES - used) as nat);
    let all = numbered(name, n as nat);
    let i = cut.len() as int;
    assert(all.subrange(i, i + suffix.len()) =~= suffix);
}

} // verus!
