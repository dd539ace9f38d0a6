//! How PDF syntax is read: facts about what stands at the front of a run of bytes, about dictionaries
//! that are written here, and about files that something is appended to.

use super::pdf::{
    gap_len, lemma_gap_len, lemma_subsection, object_header, section_of, subsection, table,
    table_begins, table_rows, window, MAX_READ,
};
use super::pdf_syntax::{
    array_len, closes, dict_len, digits_len, ends_name, further, inner, is_space, lemma_dict_len,
    lemma_digits_len, lemma_uint, lemma_word_len, lemma_ws_len, line_len, literal_len, lookup,
    name_len, opens, ref_mark, span, starts, uint, value_len, value_of, word_len, ws_len,
};
use crate::io::clip;
use crate::text::{decimal, is_digit, lemma_decimal_digits, lemma_number_of_decimal, utf8};
use vstd::prelude::*;

verus! {

// ---------------------------------------------------------------------------------------------
// What stands at the front of a run of bytes

/// The bytes of an ASCII literal.
pub proof fn lemma_ascii(text: &str)
    requires
        text.is_ascii(),
    ensures
        utf8(text) == Seq::new(text@.len(), |i: int| text@[i] as u8),
{
    vstd::utf8::is_ascii_chars_encode_utf8(text@);
    assert(utf8(text) =~= Seq::new(text@.len(), |i: int| text@[i] as u8));
}

/// Neither a digit, nor whitespace, nor a comment comes first.
pub open spec fn no_digit_next(t: Seq<u8>) -> bool {
    t.len() == 0 || !is_digit(t[0])
}

pub proof fn lemma_no_ws(t: Seq<u8>)
    requires
        t.len() == 0 || (!is_space(t[0]) && t[0] != 0x25),
    ensures
        ws_len(t) == 0,
{
}

pub proof fn lemma_one_space(b: u8, t: Seq<u8>)
    requires
        is_space(b),
    ensures
        ws_len(seq![b] + t) == 1 + ws_len(t),
{
    assert((seq![b] + t).skip(1) =~= t);
}

pub proof fn lemma_digit_run(d: Seq<u8>, t: Seq<u8>)
    requires
        forall|i: int| 0 <= i < d.len() ==> is_digit(#[trigger] d[i]),
        no_digit_next(t),
    ensures
        digits_len(d + t) == d.len(),
    decreases d.len(),
{
    if d.len() == 0 {
        assert(d + t =~= t);
    } else {
        assert((d + t).skip(1) =~= d.skip(1) + t);
        assert(forall|i: int| 0 <= i < d.skip(1).len() ==> d.skip(1)[i] == d[i + 1]);
        lemma_digit_run(d.skip(1), t);
        assert((d + t)[0] == d[0]);
    }
}

/// A number, and what follows is no digit.
pub proof fn lemma_uint_here(n: nat, t: Seq<u8>)
    requires
        n <= u64::MAX,
        no_digit_next(t),
    ensures
        uint(decimal(n) + t) == Some((n, decimal(n).len() as int)),
{
    let d = decimal(n);
    let s = d + t;
    lemma_decimal_digits(n);
    lemma_number_of_decimal(n);
    assert(s[0] == d[0]);
    assert(is_digit(d[0]));
    lemma_no_ws(s);
    assert(s.skip(0) =~= s);
    lemma_digit_run(d, t);
    assert(s.subrange(0, d.len() as int) =~= d);
}

/// A number behind one whitespace byte.
pub proof fn lemma_uint_spaced(b: u8, n: nat, t: Seq<u8>)
    requires
        is_space(b),
        n <= u64::MAX,
        no_digit_next(t),
    ensures
        uint(seq![b] + decimal(n) + t) == Some((n, 1 + decimal(n).len() as int)),
{
    let d = decimal(n);
    let s = seq![b] + d + t;
    lemma_decimal_digits(n);
    lemma_number_of_decimal(n);
    assert(s =~= seq![b] + (d + t));
    assert((d + t)[0] == d[0]);
    assert(is_digit(d[0]));
    lemma_no_ws(d + t);
    lemma_one_space(b, d + t);
    assert(s.skip(1) =~= d + t);
    lemma_digit_run(d, t);
    assert(s.subrange(1, 1 + d.len() as int) =~= d);
}

/// No number: the first byte that counts is no digit.
pub proof fn lemma_no_uint(s: Seq<u8>)
    requires
        ws_len(s) >= s.len() || !is_digit(s[ws_len(s)]),
    ensures
        uint(s) is None,
{
    lemma_ws_len(s);
    let w = ws_len(s);
    assert(digits_len(s.skip(w)) == 0);
    assert(s.subrange(w, w).len() == 0);
}

pub proof fn lemma_word_spaced(b: u8, word: Seq<u8>, t: Seq<u8>)
    requires
        is_space(b),
        word.len() > 0,
        !is_space(word[0]),
        word[0] != 0x25,
    ensures
        word_len(seq![b] + word + t, word) == Some(1 + word.len() as int),
{
    let s = seq![b] + word + t;
    assert(s =~= seq![b] + (word + t));
    assert((word + t)[0] == word[0]);
    lemma_no_ws(word + t);
    lemma_one_space(b, word + t);
    assert(s.skip(1) =~= word + t);
    assert((word + t).take(word.len() as int) =~= word);
}

pub proof fn lemma_name_run(name: Seq<u8>, t: Seq<u8>)
    requires
        forall|i: int| 0 <= i < name.len() ==> !ends_name(#[trigger] name[i]),
        t.len() > 0,
        ends_name(t[0]),
    ensures
        name_len(name + t) == name.len(),
    decreases name.len(),
{
    if name.len() == 0 {
        assert(name + t =~= t);
    } else {
        assert((name + t).skip(1) =~= name.skip(1) + t);
        assert(forall|i: int| 0 <= i < name.skip(1).len() ==> name.skip(1)[i] == name[i + 1]);
        lemma_name_run(name.skip(1), t);
        assert((name + t)[0] == name[0]);
    }
}

/// None of `<`, `>` and `(`.
pub open spec fn plain(p: Seq<u8>) -> bool {
    forall|i: int| 0 <= i < p.len() ==> (#[trigger] p[i]) != 0x3c && p[i] != 0x3e && p[i] != 0x28
}

pub proof fn lemma_plain_run(p: Seq<u8>, t: Seq<u8>, depth: nat)
    requires
        plain(p),
        t.len() > 0,
    ensures
        dict_len(p + t, depth) == further(p.len() as int, dict_len(t, depth)),
    decreases p.len(),
{
    if p.len() == 0 {
        assert(p + t =~= t);
    } else {
        let s = p + t;
        assert(s[0] == p[0]);
        assert(s.skip(1) =~= p.skip(1) + t);
        assert(forall|i: int| 0 <= i < p.skip(1).len() ==> p.skip(1)[i] == p[i + 1]);
        lemma_plain_run(p.skip(1), t, depth);
    }
}

// ---------------------------------------------------------------------------------------------
// Dictionaries made of sound values

/// A space, and then no number.
pub open spec fn breaks(t: Seq<u8>) -> bool {
    t.len() > 0 && t[0] == 0x20 && uint(t) is None
}

/// A value that stands for itself wherever it is put: it is read to its end and no further, and the
/// brackets in it match.
#[verifier::opaque]
pub open spec fn sound(v: Seq<u8>) -> bool {
    &&& v.len() > 0
    &&& !is_space(v[0])
    &&& v[0] != 0x25
    &&& forall|t: Seq<u8>| breaks(t) ==> #[trigger] value_len(v + t) == v.len()
    &&& forall|t: Seq<u8>, depth: nat|
        t.len() > 0 && t[0] == 0x20 && depth > 0 ==> #[trigger] dict_len(v + t, depth) == further(
            v.len() as int,
            dict_len(t, depth),
        )
}

/// A key of plain characters.
pub open spec fn sound_key(key: Seq<u8>) -> bool {
    forall|i: int| 0 <= i < key.len() ==> !ends_name(#[trigger] key[i])
}

/// One entry of a dictionary.
pub open spec fn entry(key: Seq<u8>, value: Seq<u8>) -> Seq<u8> {
    seq![0x20u8, 0x2f] + key + seq![0x20u8] + value
}

/// Entries in a row.
pub open spec fn entries(pairs: Seq<(Seq<u8>, Seq<u8>)>) -> Seq<u8>
    decreases pairs.len(),
{
    if pairs.len() == 0 {
        Seq::empty()
    } else {
        entry(pairs[0].0, pairs[0].1) + entries(pairs.skip(1))
    }
}

/// Every key and value is sound.
pub open spec fn all_sound(pairs: Seq<(Seq<u8>, Seq<u8>)>) -> bool {
    forall|i: int| 0 <= i < pairs.len() ==> sound_key((#[trigger] pairs[i]).0) && sound(pairs[i].1)
}

/// The first value under `key`.
pub open spec fn find(pairs: Seq<(Seq<u8>, Seq<u8>)>, key: Seq<u8>) -> Option<Seq<u8>>
    decreases pairs.len(),
{
    if pairs.len() == 0 {
        None
    } else if pairs[0].0 == key {
        Some(pairs[0].1)
    } else {
        find(pairs.skip(1), key)
    }
}

/// A dictionary.
pub open spec fn dict_of(pairs: Seq<(Seq<u8>, Seq<u8>)>) -> Seq<u8> {
    seq![0x3cu8, 0x3c] + entries(pairs) + seq![0x20u8, 0x3e, 0x3e]
}

pub proof fn lemma_entries_break(pairs: Seq<(Seq<u8>, Seq<u8>)>)
    ensures
        breaks(entries(pairs) + seq![0x20u8]),
{
    let s = entries(pairs) + seq![0x20u8];
    if pairs.len() == 0 {
        assert(s =~= seq![0x20u8] + Seq::<u8>::empty());
        lemma_one_space(0x20, Seq::empty());
        lemma_no_uint(s);
    } else {
        let t = s.skip(1);
        assert(s =~= seq![0x20u8] + t);
        assert(t[0] == 0x2f);
        lemma_no_ws(t);
        lemma_one_space(0x20, t);
        lemma_no_uint(s);
    }
}

/// Looking up a key among sound entries.
pub proof fn lemma_lookup(pairs: Seq<(Seq<u8>, Seq<u8>)>, key: Seq<u8>)
    requires
        all_sound(pairs),
    ensures
        lookup(entries(pairs) + seq![0x20u8], key) == find(pairs, key),
    decreases pairs.len(),
{
    reveal(sound);
    let s = entries(pairs) + seq![0x20u8];
    if pairs.len() == 0 {
        assert(s =~= seq![0x20u8] + Seq::<u8>::empty());
        lemma_one_space(0x20, Seq::empty());
    } else {
        let (k, v) = pairs[0];
        let more = pairs.skip(1);
        let rest = entries(more) + seq![0x20u8];
        assert(sound_key(k) && sound(v));
        assert(forall|i: int| 0 <= i < more.len() ==> more[i] == pairs[i + 1]);
        lemma_lookup(more, key);
        lemma_entries_break(more);
        let a = seq![0x2fu8] + k + seq![0x20u8] + v + rest;
        assert(s =~= seq![0x20u8] + a);
        lemma_no_ws(a);
        lemma_one_space(0x20, a);
        let b = seq![0x20u8] + v + rest;
        assert(s.skip(2) =~= k + b);
        lemma_name_run(k, b);
        let v0 = 2 + k.len() as int;
        assert(s.skip(v0) =~= seq![0x20u8] + (v + rest));
        assert((v + rest)[0] == v[0]);
        lemma_no_ws(v + rest);
        lemma_one_space(0x20, v + rest);
        assert(s.skip(v0 + 1) =~= v + rest);
        assert(value_len(v + rest) == v.len());
        let end = v0 + 1 + v.len() as int;
        assert(s.subrange(2, v0) =~= k);
        assert(s.subrange(v0 + 1, end) =~= v);
        assert(s.skip(end) =~= rest);
    }
}

pub proof fn lemma_entries_run(pairs: Seq<(Seq<u8>, Seq<u8>)>, t: Seq<u8>, depth: nat)
    requires
        all_sound(pairs),
        t.len() > 0,
        t[0] == 0x20,
        depth > 0,
    ensures
        dict_len(entries(pairs) + t, depth) == further(
            entries(pairs).len() as int,
            dict_len(t, depth),
        ),
    decreases pairs.len(),
{
    reveal(sound);
    if pairs.len() == 0 {
        assert(entries(pairs) + t =~= t);
    } else {
        let (k, v) = pairs[0];
        let more = pairs.skip(1);
        assert(sound_key(k) && sound(v));
        assert(forall|i: int| 0 <= i < more.len() ==> more[i] == pairs[i + 1]);
        lemma_entries_run(more, t, depth);
        let rest = entries(more) + t;
        assert(rest[0] == 0x20) by {
            if more.len() > 0 {
                assert(entries(more)[0] == 0x20);
            } else {
                assert(rest =~= t);
            }
        }
        let p = seq![0x20u8, 0x2f] + k + seq![0x20u8];
        assert(plain(p)) by {
            assert forall|i: int| 0 <= i < p.len() implies (#[trigger] p[i]) != 0x3c && p[i] != 0x3e && p[i]
                != 0x28 by {
                if 2 <= i < 2 + k.len() {
                    assert(p[i] == k[i - 2]);
                }
            }
        }
        assert(entries(pairs) + t =~= p + (v + rest));
        lemma_plain_run(p, v + rest, depth);
        assert(dict_len(v + rest, depth) == further(v.len() as int, dict_len(rest, depth)));
    }
}

/// A dictionary of sound entries is read as what it was made of.
pub proof fn lemma_dict_of(pairs: Seq<(Seq<u8>, Seq<u8>)>, t: Seq<u8>, key: Seq<u8>)
    requires
        all_sound(pairs),
    ensures
        opens(dict_of(pairs) + t),
        dict_len(dict_of(pairs) + t, 0) == Some(dict_of(pairs).len() as int),
        value_of(dict_of(pairs), key) == find(pairs, key),
{
    let d = dict_of(pairs);
    let s = d + t;
    let tail = seq![0x20u8, 0x3e, 0x3e] + t;
    assert(s.skip(2) =~= entries(pairs) + tail);
    lemma_entries_run(pairs, tail, 1);
    assert(tail.skip(1) =~= seq![0x3eu8, 0x3e] + t);
    assert(closes(tail.skip(1)));
    assert(dict_len(tail.skip(1), 1) == Some(2int));
    assert(dict_len(tail, 1) == Some(3int));
    assert(inner(d) =~= entries(pairs) + seq![0x20u8]);
    lemma_lookup(pairs, key);
}

/// Looking for a dictionary behind one whitespace byte.
pub proof fn lemma_span_spaced(b: u8, pairs: Seq<(Seq<u8>, Seq<u8>)>, t: Seq<u8>)
    requires
        is_space(b),
        all_sound(pairs),
    ensures
        span(seq![b] + dict_of(pairs) + t) == Some((1int, 1 + dict_of(pairs).len() as int)),
        (seq![b] + dict_of(pairs) + t).subrange(1, 1 + dict_of(pairs).len() as int) == dict_of(pairs),
{
    let d = dict_of(pairs);
    let s = seq![b] + d + t;
    lemma_dict_of(pairs, t, Seq::empty());
    assert(s =~= seq![b] + (d + t));
    lemma_no_ws(d + t);
    lemma_one_space(b, d + t);
    assert(s.skip(1) =~= d + t);
    assert(s.subrange(1, 1 + d.len() as int) =~= d);
}

// ---------------------------------------------------------------------------------------------
// Sound values

/// A number is sound.
pub proof fn numbers_are_sound(n: nat)
    requires
        n <= u64::MAX,
    ensures
        sound(decimal(n)),
{
    reveal(sound);
    let d = decimal(n);
    lemma_decimal_digits(n);
    assert(is_digit(d[0]));
    assert forall|t: Seq<u8>| breaks(t) implies #[trigger] value_len(d + t) == d.len() by {
        lemma_uint_here(n, t);
        assert((d + t)[0] == d[0]);
        assert((d + t).skip(d.len() as int) =~= t);
    }
    assert forall|t: Seq<u8>, depth: nat| t.len() > 0 && t[0] == 0x20 && depth > 0 implies #[trigger] dict_len(
        d + t,
        depth,
    ) == further(d.len() as int, dict_len(t, depth)) by {
        assert(plain(d));
        lemma_plain_run(d, t, depth);
    }
}

/// An indirect reference such as `12 0 R` is sound.
pub proof fn references_are_sound(n: nat, generation: nat)
    requires
        n <= u64::MAX,
        generation <= u64::MAX,
    ensures
        sound(decimal(n) + seq![0x20u8] + decimal(generation) + seq![0x20u8, 0x52]),
{
    reveal(sound);
    let a = decimal(n);
    let b = decimal(generation);
    let v = a + seq![0x20u8] + b + seq![0x20u8, 0x52];
    lemma_decimal_digits(n);
    lemma_decimal_digits(generation);
    assert(is_digit(a[0]) && v[0] == a[0]);
    assert forall|t: Seq<u8>| breaks(t) implies #[trigger] value_len(v + t) == v.len() by {
        let s = v + t;
        let x = seq![0x20u8] + b + (seq![0x20u8, 0x52] + t);
        let y = seq![0x20u8] + seq![0x52u8] + t;
        assert(s =~= a + x);
        lemma_uint_here(n, x);
        assert(s.skip(a.len() as int) =~= x);
        lemma_uint_spaced(0x20, generation, seq![0x20u8, 0x52] + t);
        assert(s.skip(a.len() as int + (1 + b.len() as int)) =~= y);
        assert(ref_mark() =~= seq![0x52u8]);
        lemma_word_spaced(0x20, seq![0x52u8], t);
    }
    assert forall|t: Seq<u8>, depth: nat| t.len() > 0 && t[0] == 0x20 && depth > 0 implies #[trigger] dict_len(
        v + t,
        depth,
    ) == further(v.len() as int, dict_len(t, depth)) by {
        assert(plain(v)) by {
            assert forall|i: int| 0 <= i < v.len() implies (#[trigger] v[i]) != 0x3c && v[i] != 0x3e && v[i]
                != 0x28 by {
                if i < a.len() {
                    assert(v[i] == a[i]);
                } else if a.len() < i < a.len() + 1 + b.len() {
                    assert(v[i] == b[i - a.len() - 1]);
                }
            }
        }
        lemma_plain_run(v, t, depth);
    }
}

/// A name is sound.
pub proof fn names_are_sound(name: Seq<u8>)
    requires
        sound_key(name),
    ensures
        sound(seq![0x2fu8] + name),
{
    reveal(sound);
    let v = seq![0x2fu8] + name;
    assert forall|t: Seq<u8>| breaks(t) implies #[trigger] value_len(v + t) == v.len() by {
        assert((v + t).skip(1) =~= name + t);
        lemma_name_run(name, t);
    }
    assert forall|t: Seq<u8>, depth: nat| t.len() > 0 && t[0] == 0x20 && depth > 0 implies #[trigger] dict_len(
        v + t,
        depth,
    ) == further(v.len() as int, dict_len(t, depth)) by {
        assert(plain(v)) by {
            assert forall|i: int| 0 <= i < v.len() implies (#[trigger] v[i]) != 0x3c && v[i] != 0x3e && v[i]
                != 0x28 by {
                if i > 0 {
                    assert(v[i] == name[i - 1]);
                }
            }
        }
        lemma_plain_run(v, t, depth);
    }
}

/// Values in which everything that is opened is closed, from inside `arrays` arrays and `dicts`
/// dictionaries on.
pub open spec fn balanced(s: Seq<u8>, arrays: nat, dicts: nat) -> bool
    decreases s.len(),
{
    if s.len() == 0 {
        arrays == 0 && dicts == 0
    } else if s[0] == 0x28 {
        let n = literal_len(s, 0);
        0 < n <= s.len() && closed_literal(s.take(n), 0) && balanced(s.skip(n), arrays, dicts)
    } else if opens(s) {
        balanced(s.skip(2), arrays, dicts + 1)
    } else if closes(s) {
        dicts > 0 && balanced(s.skip(2), arrays, (dicts - 1) as nat)
    } else if s[0] == 0x5b {
        balanced(s.skip(1), arrays + 1, dicts)
    } else if s[0] == 0x5d {
        arrays > 0 && balanced(s.skip(1), (arrays - 1) as nat, dicts)
    } else {
        balanced(s.skip(1), arrays, dicts)
    }
}

/// A string in brackets that ends with the bracket that closes it.
pub open spec fn closed_literal(s: Seq<u8>, depth: nat) -> bool
    decreases s.len(),
{
    if s.len() == 0 {
        false
    } else if s[0] == 0x5c {
        s.len() > 2 && closed_literal(s.skip(2), depth)
    } else if s[0] == 0x28 {
        closed_literal(s.skip(1), depth + 1)
    } else if s[0] == 0x29 {
        if depth <= 1 {
            s.len() == 1
        } else {
            closed_literal(s.skip(1), (depth - 1) as nat)
        }
    } else {
        closed_literal(s.skip(1), depth)
    }
}

pub proof fn lemma_closed_literal(s: Seq<u8>, depth: nat, t: Seq<u8>)
    requires
        closed_literal(s, depth),
    ensures
        literal_len(s + t, depth) == s.len(),
    decreases s.len(),
{
    let a = s + t;
    assert(a[0] == s[0]);
    assert(a.skip(1) =~= s.skip(1) + t);
    if s[0] == 0x5c {
        assert(a.skip(2) =~= s.skip(2) + t);
        lemma_closed_literal(s.skip(2), depth, t);
    } else if s[0] == 0x28 {
        lemma_closed_literal(s.skip(1), depth + 1, t);
    } else if s[0] == 0x29 {
        if depth > 1 {
            lemma_closed_literal(s.skip(1), (depth - 1) as nat, t);
        }
    } else {
        lemma_closed_literal(s.skip(1), depth, t);
    }
}

pub proof fn lemma_balanced(s: Seq<u8>, arrays: nat, dicts: nat, t: Seq<u8>, depth: nat)
    requires
        balanced(s, arrays, dicts),
        t.len() > 1,
        t[0] == 0x5d,
        depth > 0,
    ensures
        array_len(s + t, arrays + 1) == s.len() + 1,
        dict_len(s + t, depth + dicts) == further(s.len() as int, dict_len(t, depth)),
    decreases s.len(),
{
    let a = s + t;
    if s.len() == 0 {
        assert(a =~= t);
    } else if s[0] == 0x28 {
        let n = literal_len(s, 0);
        let lit = s.take(n);
        let rest = s.skip(n);
        assert(a =~= lit + (rest + t));
        lemma_closed_literal(lit, 0, rest + t);
        assert(a.skip(n) =~= rest + t);
        assert(a[0] == s[0]);
        lemma_balanced(rest, arrays, dicts, t, depth);
    } else {
        assert(a[0] == s[0]);
        assert(a.skip(1) =~= s.skip(1) + t);
        if s.len() > 1 {
            assert(a[1] == s[1]);
        } else {
            assert(a[1] == t[0]);
        }
        assert(opens(a) == opens(s) && closes(a) == closes(s));
        if opens(s) || closes(s) {
            let more = if opens(s) {
                dicts + 1
            } else {
                (dicts - 1) as nat
            };
            assert(a.skip(2) =~= s.skip(2) + t);
            assert(a.skip(1).skip(1) =~= a.skip(2));
            assert(a.skip(1)[0] == a[1]);
            lemma_balanced(s.skip(2), arrays, more, t, depth);
            assert(array_len(a.skip(1), arrays + 1) == 1 + array_len(a.skip(2), arrays + 1));
        } else if s[0] == 0x5b {
            lemma_balanced(s.skip(1), arrays + 1, dicts, t, depth);
        } else if s[0] == 0x5d {
            lemma_balanced(s.skip(1), (arrays - 1) as nat, dicts, t, depth);
        } else {
            lemma_balanced(s.skip(1), arrays, dicts, t, depth);
        }
    }
}

/// An array is sound whatever is nested in it, if everything in it that is opened is closed.
pub proof fn arrays_are_sound(content: Seq<u8>)
    requires
        balanced(content, 0, 0),
    ensures
        sound(seq![0x5bu8] + content + seq![0x5du8]),
{
    reveal(sound);
    let v = seq![0x5bu8] + content + seq![0x5du8];
    assert forall|t: Seq<u8>| breaks(t) implies #[trigger] value_len(v + t) == v.len() by {
        let x = seq![0x5du8] + t;
        assert((v + t).skip(1) =~= content + x);
        lemma_balanced(content, 0, 0, x, 1);
    }
    assert forall|t: Seq<u8>, depth: nat| t.len() > 0 && t[0] == 0x20 && depth > 0 implies #[trigger] dict_len(
        v + t,
        depth,
    ) == further(v.len() as int, dict_len(t, depth)) by {
        let x = seq![0x5du8] + t;
        let s = v + t;
        assert(s.skip(1) =~= content + x);
        lemma_balanced(content, 0, 0, x, depth);
        assert(x.skip(1) =~= t);
        assert(dict_len(x, depth) == further(1, dict_len(t, depth)));
        assert(s[0] == 0x5b);
        assert(dict_len(s, depth) == further(1, dict_len(content + x, depth)));
    }
}

/// A string in brackets is sound.
pub proof fn literals_are_sound(v: Seq<u8>)
    requires
        v.len() > 0,
        v[0] == 0x28,
        closed_literal(v, 0),
    ensures
        sound(v),
{
    reveal(sound);
    assert forall|t: Seq<u8>| breaks(t) implies #[trigger] value_len(v + t) == v.len() by {
        assert((v + t)[0] == v[0]);
        lemma_closed_literal(v, 0, t);
    }
    assert forall|t: Seq<u8>, depth: nat| t.len() > 0 && t[0] == 0x20 && depth > 0 implies #[trigger] dict_len(
        v + t,
        depth,
    ) == further(v.len() as int, dict_len(t, depth)) by {
        assert((v + t)[0] == v[0]);
        lemma_closed_literal(v, 0, t);
        assert((v + t).skip(v.len() as int) =~= t);
    }
}

/// Inside more dictionaries, the end of the outermost is not the end.
proof fn lemma_dict_deeper(s: Seq<u8>, depth: nat, t: Seq<u8>, outer: nat)
    requires
        depth > 0,
        outer > 0,
        dict_len(s, depth) == Some(s.len() as int),
    ensures
        dict_len(s + t, depth + outer) == further(s.len() as int, dict_len(t, outer)),
    decreases s.len(),
{
    let a = s + t;
    assert(a[0] == s[0]);
    lemma_dict_len(s, depth);
    assert(a[1] == s[1]);
    assert(opens(a) == opens(s) && closes(a) == closes(s));
    assert(a.skip(2) =~= s.skip(2) + t);
    if opens(s) {
        lemma_dict_deeper(s.skip(2), depth + 1, t, outer);
    } else if closes(s) {
        if depth > 1 {
            lemma_dict_deeper(s.skip(2), (depth - 1) as nat, t, outer);
        } else {
            assert(a.skip(2) =~= t);
        }
    } else {
        let step = if s[0] == 0x28 {
            literal_len(s, 0)
        } else {
            1
        };
        if s[0] == 0x28 {
            lemma_literal_more(s, 0, t);
        }
        assert(a.skip(step) =~= s.skip(step) + t);
        lemma_dict_deeper(s.skip(step), depth, t, outer);
    }
}

/// A dictionary that is closed at its end is sound.
pub proof fn dictionaries_are_sound(v: Seq<u8>)
    requires
        opens(v),
        dict_len(v, 0) == Some(v.len() as int),
    ensures
        sound(v),
{
    reveal(sound);
    assert forall|t: Seq<u8>| breaks(t) implies #[trigger] value_len(v + t) == v.len() by {
        assert((v + t)[0] == v[0] && (v + t)[1] == v[1]);
        lemma_dict_more(v, 0, t);
    }
    assert forall|t: Seq<u8>, depth: nat| t.len() > 0 && t[0] == 0x20 && depth > 0 implies #[trigger] dict_len(
        v + t,
        depth,
    ) == further(v.len() as int, dict_len(t, depth)) by {
        assert((v + t)[0] == v[0] && (v + t)[1] == v[1]);
        assert((v + t).skip(2) =~= v.skip(2) + t);
        lemma_dict_deeper(v.skip(2), 1, t, depth);
    }
}

// ---------------------------------------------------------------------------------------------
// Appending changes nothing that was read before

pub proof fn lemma_line_more(s: Seq<u8>, x: Seq<u8>)
    requires
        line_len(s) < s.len(),
    ensures
        line_len(s + x) == line_len(s),
    decreases s.len(),
{
    let a = s + x;
    assert(a[0] == s[0]);
    assert(a.skip(1) =~= s.skip(1) + x);
    if s[0] != 0x0a && s[0] != 0x0d {
        lemma_line_more(s.skip(1), x);
    }
}

pub proof fn lemma_ws_more(s: Seq<u8>, x: Seq<u8>)
    requires
        ws_len(s) < s.len(),
    ensures
        ws_len(s + x) == ws_len(s),
    decreases s.len(),
{
    let a = s + x;
    assert(a[0] == s[0]);
    assert(a.skip(1) =~= s.skip(1) + x);
    super::pdf_syntax::lemma_line_len(s);
    if is_space(s[0]) {
        lemma_ws_more(s.skip(1), x);
    } else if s[0] == 0x25 {
        let n = line_len(s);
        lemma_ws_len(s.skip(n));
        lemma_line_more(s, x);
        assert(a.skip(n) =~= s.skip(n) + x);
        lemma_ws_more(s.skip(n), x);
    }
}

pub proof fn lemma_digits_more(s: Seq<u8>, x: Seq<u8>)
    requires
        digits_len(s) < s.len(),
    ensures
        digits_len(s + x) == digits_len(s),
    decreases s.len(),
{
    let a = s + x;
    assert(a[0] == s[0]);
    assert(a.skip(1) =~= s.skip(1) + x);
    if is_digit(s[0]) {
        lemma_digits_more(s.skip(1), x);
    }
}

pub proof fn lemma_uint_more(s: Seq<u8>, x: Seq<u8>)
    requires
        uint(s) is Some,
        uint(s)->Some_0.1 < s.len(),
    ensures
        uint(s + x) == uint(s),
{
    let a = s + x;
    let w = ws_len(s);
    let d = digits_len(s.skip(w));
    lemma_ws_len(s);
    lemma_digits_len(s.skip(w));
    lemma_ws_more(s, x);
    assert(a.skip(w) =~= s.skip(w) + x);
    lemma_digits_more(s.skip(w), x);
    assert(a.subrange(w, w + d) =~= s.subrange(w, w + d));
}

pub proof fn lemma_word_more(s: Seq<u8>, word: Seq<u8>, x: Seq<u8>)
    requires
        word.len() > 0,
        word_len(s, word) is Some,
    ensures
        word_len(s + x, word) == word_len(s, word),
{
    let a = s + x;
    let w = ws_len(s);
    lemma_ws_len(s);
    lemma_ws_more(s, x);
    assert(a.skip(w) =~= s.skip(w) + x);
    assert(a.skip(w).take(word.len() as int) =~= s.skip(w).take(word.len() as int));
}

pub proof fn lemma_literal_more(s: Seq<u8>, depth: nat, x: Seq<u8>)
    requires
        literal_len(s, depth) < s.len(),
    ensures
        literal_len(s + x, depth) == literal_len(s, depth),
    decreases s.len(),
{
    let a = s + x;
    assert(a[0] == s[0]);
    assert(a.skip(1) =~= s.skip(1) + x);
    if s[0] == 0x5c {
        if s.len() > 1 {
            assert(a.skip(2) =~= s.skip(2) + x);
            lemma_literal_more(s.skip(2), depth, x);
        }
    } else if s[0] == 0x28 {
        lemma_literal_more(s.skip(1), depth + 1, x);
    } else if s[0] == 0x29 {
        if depth > 1 {
            lemma_literal_more(s.skip(1), (depth - 1) as nat, x);
        }
    } else {
        lemma_literal_more(s.skip(1), depth, x);
    }
}

pub proof fn lemma_dict_more(s: Seq<u8>, depth: nat, x: Seq<u8>)
    requires
        dict_len(s, depth) is Some,
    ensures
        dict_len(s + x, depth) == dict_len(s, depth),
    decreases s.len(),
{
    let a = s + x;
    assert(a[0] == s[0]);
    lemma_dict_len(s, depth);
    assert(s.len() >= 2);
    assert(a[1] == s[1]);
    assert(opens(a) == opens(s));
    assert(closes(a) == closes(s));
    assert(a.skip(2) =~= s.skip(2) + x);
    if opens(s) {
        lemma_dict_more(s.skip(2), depth + 1, x);
    } else if closes(s) {
        if depth > 1 {
            lemma_dict_more(s.skip(2), (depth - 1) as nat, x);
        }
    } else {
        let step = if s[0] == 0x28 {
            literal_len(s, 0)
        } else {
            1
        };
        if s[0] == 0x28 {
            lemma_literal_more(s, 0, x);
        }
        assert(a.skip(step) =~= s.skip(step) + x);
        lemma_dict_more(s.skip(step), depth, x);
    }
}

pub proof fn lemma_span_more(s: Seq<u8>, x: Seq<u8>)
    requires
        span(s) is Some,
    ensures
        span(s + x) == span(s),
{
    let a = s + x;
    let w = ws_len(s);
    lemma_ws_len(s);
    lemma_ws_more(s, x);
    assert(a.skip(w) =~= s.skip(w) + x);
    lemma_dict_more(s.skip(w), 0, x);
    assert(a.skip(w)[0] == s.skip(w)[0] && a.skip(w)[1] == s.skip(w)[1]);
}

pub proof fn lemma_span_bounds(s: Seq<u8>)
    ensures
        span(s) matches Some((from, to)) ==> 0 <= from && from + 4 <= to <= s.len(),
{
    lemma_ws_len(s);
    lemma_dict_len(s.skip(ws_len(s)), 0);
}

pub proof fn lemma_obj_word()
    ensures
        utf8("obj") == seq![0x6fu8, 0x62, 0x6a],
        utf8("stream") == seq![0x73u8, 0x74, 0x72, 0x65, 0x61, 0x6d],
        utf8("xref") == seq![0x78u8, 0x72, 0x65, 0x66],
        utf8("trailer") == seq![0x74u8, 0x72, 0x61, 0x69, 0x6c, 0x65, 0x72],
{
    reveal_strlit("obj");
    reveal_strlit("stream");
    reveal_strlit("xref");
    reveal_strlit("trailer");
    lemma_ascii("obj");
    lemma_ascii("stream");
    lemma_ascii("xref");
    lemma_ascii("trailer");
    assert(utf8("obj") =~= seq![0x6fu8, 0x62, 0x6a]);
    assert(utf8("stream") =~= seq![0x73u8, 0x74, 0x72, 0x65, 0x61, 0x6d]);
    assert(utf8("xref") =~= seq![0x78u8, 0x72, 0x65, 0x66]);
    assert(utf8("trailer") =~= seq![0x74u8, 0x72, 0x61, 0x69, 0x6c, 0x65, 0x72]);
}

pub proof fn lemma_header_more(s: Seq<u8>, x: Seq<u8>)
    requires
        object_header(s) is Some,
    ensures
        object_header(s + x) == object_header(s),
        0 < object_header(s)->Some_0 <= s.len(),
        is_digit(s[ws_len(s)]),
        0 <= ws_len(s) < s.len(),
{
    let all = s + x;
    lemma_obj_word();
    let (n, a) = uint(s)->Some_0;
    let (m, b) = uint(s.skip(a))->Some_0;
    lemma_uint(s);
    lemma_uint(s.skip(a));
    lemma_word_len(s.skip(a + b), utf8("obj"));
    lemma_uint_more(s, x);
    assert(all.skip(a) =~= s.skip(a) + x);
    lemma_uint_more(s.skip(a), x);
    assert(all.skip(a + b) =~= s.skip(a + b) + x);
    lemma_word_more(s.skip(a + b), utf8("obj"), x);
    lemma_ws_len(s);
    lemma_digits_len(s.skip(ws_len(s)));
}

/// What a read sees of the longer file goes on from what it sees of the shorter.
pub proof fn lemma_clip_more(a: Seq<u8>, out: Seq<u8>, from: int, to: int) -> (x: Seq<u8>)
    requires
        0 <= from < a.len(),
        from < to,
        a.len() <= out.len(),
        out.take(a.len() as int) == a,
    ensures
        clip(out, from, to) == clip(a, from, to) + x,
        to <= a.len() ==> clip(out, from, to) == clip(a, from, to),
{
    let p = clip(a, from, to);
    let q = clip(out, from, to);
    let x = q.skip(p.len() as int);
    assert forall|i: int| 0 <= i < p.len() implies q[i] == p[i] by {
        assert(out[from + i] == out.take(a.len() as int)[from + i]);
    }
    assert(q =~= p + x);
    if to <= a.len() {
        assert(q =~= p);
    }
    x
}

pub proof fn lemma_gap_more(s: Seq<u8>, x: Seq<u8>)
    requires
        gap_len(s) < s.len(),
    ensures
        gap_len(s + x) == gap_len(s),
    decreases s.len(),
{
    let a = s + x;
    assert(a[0] == s[0]);
    assert(a.skip(1) =~= s.skip(1) + x);
    if s[0] == 0x20 || s[0] == 0x0d {
        lemma_gap_more(s.skip(1), x);
    }
}

pub proof fn lemma_subsection_more(win: Seq<u8>, x: Seq<u8>)
    requires
        subsection(win) is Some,
        subsection(win)->Some_0.2 < win.len(),
    ensures
        subsection(win + x) == subsection(win),
        ws_len(win + x) == ws_len(win),
        ws_len(win) < win.len(),
        is_digit(win[ws_len(win)]),
{
    let all = win + x;
    let i = ws_len(win);
    lemma_ws_len(win);
    let (first, a) = uint(win.skip(i))->Some_0;
    let (count, b) = uint(win.skip(i + a))->Some_0;
    lemma_uint(win.skip(i));
    lemma_uint(win.skip(i + a));
    lemma_gap_len(win.skip(i + a + b));
    lemma_ws_more(win, x);
    assert(all.skip(i) =~= win.skip(i) + x);
    lemma_uint_more(win.skip(i), x);
    assert(all.skip(i + a) =~= win.skip(i + a) + x);
    lemma_uint_more(win.skip(i + a), x);
    assert(all.skip(i + a + b) =~= win.skip(i + a + b) + x);
    lemma_gap_more(win.skip(i + a + b), x);
    let s = win.skip(i);
    lemma_ws_len(s);
    lemma_no_ws(s);
    lemma_digits_len(s.skip(0));
    assert(s.skip(0) =~= s);
}

/// A classic table ends inside the file, at least one word further on.
pub proof fn lemma_table_end(c: Seq<u8>, pos: int, total: nat, list: Seq<(u64, u64)>, want: bool)
    requires
        0 <= pos <= c.len(),
    ensures
        table(c, pos, total, list, want) matches Ok(e) ==> pos + 7 <= e.at <= c.len(),
    decreases c.len() - pos,
{
    lemma_obj_word();
    let win = clip(c, pos, pos + 64);
    lemma_subsection(win);
    if starts(win.skip(ws_len(win)), utf8("trailer")) {
    } else if let Some((first, count, j)) = subsection(win) {
        let from = pos + j;
        let to = from + 20 * count;
        if 20 * count <= u64::MAX && to <= c.len() {
            let sum = super::pdf::capped(total + count);
            let more = if want && sum <= 64 {
                list + table_rows(clip(c, from, to), first, count)
            } else {
                list
            };
            lemma_table_end(c, to, sum, more, want);
        }
    }
}

#[verifier::rlimit(30)]
pub proof fn lemma_table_more(
    a: Seq<u8>,
    out: Seq<u8>,
    pos: int,
    total: nat,
    list: Seq<(u64, u64)>,
    want: bool,
    list2: Seq<(u64, u64)>,
    want2: bool,
)
    requires
        0 <= pos <= a.len() <= out.len(),
        out.take(a.len() as int) == a,
        table(a, pos, total, list, want) is Ok,
    ensures
        table(out, pos, total, list2, want2) is Ok,
        table(out, pos, total, list2, want2)->Ok_0.at == table(a, pos, total, list, want)->Ok_0.at,
    decreases a.len() - pos,
{
    lemma_obj_word();
    let win = clip(a, pos, pos + 64);
    let i = ws_len(win);
    lemma_subsection(win);
    assert(pos < a.len()) by {
        if pos == a.len() {
            assert(win =~= Seq::<u8>::empty());
            lemma_no_uint(win.skip(i));
        }
    }
    let x = lemma_clip_more(a, out, pos, pos + 64);
    let win2 = win + x;
    lemma_subsection(win2);
    assert(win2 == clip(out, pos, pos + 64));
    if starts(win.skip(i), utf8("trailer")) {
        lemma_ws_more(win, x);
        assert(win2.skip(i) =~= win.skip(i) + x);
        assert(win2.skip(i).take(7) =~= win.skip(i).take(7));
    } else {
        let (first, count, j) = subsection(win)->Some_0;
        let from = pos + j;
        let to = from + 20 * count;
        let sum = super::pdf::capped(total + count);
        let more = if want && sum <= 64 {
            list + table_rows(clip(a, from, to), first, count)
        } else {
            list
        };
        let more2 = if want2 && sum <= 64 {
            list2 + table_rows(clip(out, from, to), first, count)
        } else {
            list2
        };
        lemma_table_end(a, to, sum, more, want);
        lemma_table_more(a, out, to, sum, more, want, more2, want2);
        if pos + 64 <= a.len() {
            assert(win2 == win);
        } else {
            assert(win.len() == a.len() - pos);
            assert(j < win.len());
            lemma_subsection_more(win, x);
            assert(win2[i] == win[i]);
            assert(win2.skip(i)[0] == win[i]);
            if starts(win2.skip(i), utf8("trailer")) {
                assert(win2.skip(i).take(7)[0] == 0x74);
            }
        }
    }
}

/// A section that was read before is read alike when something is appended to the file. Whether its
/// entries are wanted makes no difference to its dictionary.
pub proof fn lemma_section_more(a: Seq<u8>, out: Seq<u8>, offset: int, want: bool, want2: bool)
    requires
        0 <= offset < a.len(),
        a.len() <= out.len(),
        out.take(a.len() as int) == a,
        section_of(a, offset, want) is Ok,
    ensures
        section_of(out, offset, want2) is Ok,
        section_of(out, offset, want2)->Ok_0.dict == section_of(a, offset, want)->Ok_0.dict,
        section_of(out, offset, want2)->Ok_0.form == section_of(a, offset, want)->Ok_0.form,
        section_of(out, offset, want2)->Ok_0.offset == offset,
        section_of(a, offset, want)->Ok_0.offset == offset,
{
    reveal(section_of);
    lemma_obj_word();
    let head = clip(a, offset, offset + 16);
    let y = lemma_clip_more(a, out, offset, offset + 16);
    let head2 = head + y;
    if table_begins(head) {
        let none = Seq::<(u64, u64)>::empty();
        lemma_table_end(a, offset + 4, 0, none, want);
        lemma_table_more(a, out, offset + 4, 0, none, want, none, want2);
        let e = table(a, offset + 4, 0, none, want)->Ok_0;
        assert(head.len() > 4);
        assert(head2.take(4) =~= head.take(4));
        assert(head2[4] == head[4]);
        lemma_span_bounds(window(a, e.at));
        assert(e.at < a.len()) by {
            if e.at == a.len() {
                assert(window(a, e.at).len() == 0);
            }
        }
        let x = lemma_clip_more(a, out, e.at, e.at + MAX_READ);
        let win = window(a, e.at);
        lemma_span_more(win, x);
        let (from, to) = span(win)->Some_0;
        assert((win + x).subrange(from, to) =~= win.subrange(from, to));
    } else {
        let win = window(a, offset);
        let x = lemma_clip_more(a, out, offset, offset + MAX_READ);
        lemma_header_more(win, x);
        let h = object_header(win)->Some_0;
        assert((win + x).skip(h) =~= win.skip(h) + x);
        lemma_span_more(win.skip(h), x);
        lemma_span_bounds(win.skip(h));
        let (from, to) = span(win.skip(h))->Some_0;
        assert((win + x).subrange(h + from, h + to) =~= win.subrange(h + from, h + to));
        assert(!table_begins(head2)) by {
            if table_begins(head2) {
                assert(head2.take(4)[0] == 0x78);
                assert(head2[0] == head[0] && head[0] == a[offset] && win[0] == a[offset]);
                lemma_no_ws(win);
            }
        }
    }
}

} // verus!
