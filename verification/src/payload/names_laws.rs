//! What becomes of a name, in the characters themselves: what stays, what is dropped, and where a number
//! goes.

use super::names::{
    base_of, byte_len, candidate, cleaned, extension_at, fitting, last_dot, lemma_byte_len,
    lemma_byte_len_push, lemma_encode_concat, numbered, rebuilt, safe, trim_end, trim_start,
};
use crate::text::decimal_text;
use vstd::prelude::*;
use vstd::utf8::encode_utf8;

verus! {

// ---------------------------------------------------------------------------------------------
// The parts of a name

proof fn lemma_base_keeps(name: Seq<char>)
    requires
        forall|i: int| 0 <= i < name.len() ==> #[trigger] name[i] != '/' && name[i] != '\\',
    ensures
        base_of(name) == name,
    decreases name.len(),
{
    if name.len() > 0 {
        let less = name.drop_last();
        assert(name[name.len() - 1] != '/');
        assert(forall|i: int| 0 <= i < less.len() ==> less[i] == name[i]);
        lemma_base_keeps(less);
        assert(less.push(name.last()) =~= name);
    } else {
        assert(base_of(name) =~= name);
    }
}

proof fn lemma_base_behind(dir: Seq<char>, sep: char, name: Seq<char>)
    requires
        sep == '/' || sep == '\\',
    ensures
        base_of(dir + seq![sep] + name) == base_of(name),
    decreases name.len(),
{
    let all = dir + seq![sep] + name;
    if name.len() == 0 {
        assert(all.last() == sep);
    } else {
        let less = name.drop_last();
        assert(all.last() == name.last());
        assert(all.drop_last() =~= dir + seq![sep] + less);
        lemma_base_behind(dir, sep, less);
    }
}

proof fn lemma_cleaned_keeps(name: Seq<char>)
    requires
        forall|i: int|
            0 <= i < name.len() ==> !(#[trigger] name[i] as u32 <= 0x1f || 0x7f <= name[i] as u32 <= 0x9f
                || name[i] as u32 == 0x200e || name[i] as u32 == 0x200f || 0x202a <= name[i] as u32 <= 0x202e
                || 0x2066 <= name[i] as u32 <= 0x2069),
    ensures
        cleaned(name) == name,
    decreases name.len(),
{
    if name.len() > 0 {
        let less = name.drop_last();
        let c = name[name.len() - 1];
        assert(forall|i: int| 0 <= i < less.len() ==> less[i] == name[i]);
        lemma_cleaned_keeps(less);
        assert(less.push(c) =~= name);
    }
}

/// Cleaning what follows the last separator does not see a character that is dropped.
proof fn lemma_cleaned_without(a: Seq<char>, x: char, b: Seq<char>)
    requires
        x as u32 <= 0x1f || 0x7f <= x as u32 <= 0x9f || x as u32 == 0x200e || x as u32 == 0x200f || 0x202a
            <= x as u32 <= 0x202e || 0x2066 <= x as u32 <= 0x2069,
    ensures
        cleaned(base_of(a + seq![x] + b)) == cleaned(base_of(a + b)),
    decreases b.len(),
{
    let with = a + seq![x] + b;
    let without = a + b;
    if b.len() == 0 {
        assert(without =~= a);
        assert(with.last() == x);
        assert(with.drop_last() =~= a);
        assert(x != '/' && x != '\\');
        let base = base_of(a);
        assert(base.push(x).drop_last() =~= base);
        assert(base.push(x).last() == x);
    } else {
        let less = b.drop_last();
        let c = b.last();
        lemma_cleaned_without(a, x, less);
        assert(with.last() == c && without.last() == c);
        assert(with.drop_last() =~= a + seq![x] + less);
        assert(without.drop_last() =~= a + less);
        if c != '/' && c != '\\' {
            let p = base_of(a + seq![x] + less);
            let q = base_of(a + less);
            assert(p.push(c).drop_last() =~= p && p.push(c).last() == c);
            assert(q.push(c).drop_last() =~= q && q.push(c).last() == c);
        }
    }
}

// ---------------------------------------------------------------------------------------------
// The laws

/// A name that is already fine: no separator, no control character, no bidirectional override, no white
/// space around it, neither empty nor `.` nor `..`, and at most 255 bytes.
pub open spec fn plain_name(name: Seq<char>) -> bool {
    &&& forall|i: int|
        0 <= i < name.len() ==> #[trigger] name[i] != '/' && name[i] != '\\' && !(name[i] as u32 <= 0x1f || 0x7f
            <= name[i] as u32 <= 0x9f || name[i] as u32 == 0x200e || name[i] as u32 == 0x200f || 0x202a
            <= name[i] as u32 <= 0x202e || 0x2066 <= name[i] as u32 <= 0x2069)
    &&& name.len() > 0
    &&& forall|i: int|
        i == 0 || i == name.len() - 1 ==> !(9 <= #[trigger] name[i] as u32 <= 13 || name[i] as u32 == 0x20
            || name[i] as u32 == 0x85 || name[i] as u32 == 0xa0 || name[i] as u32 == 0x1680 || 0x2000
            <= name[i] as u32 <= 0x200a || name[i] as u32 == 0x2028 || name[i] as u32 == 0x2029
            || name[i] as u32 == 0x202f || name[i] as u32 == 0x205f || name[i] as u32 == 0x3000)
    &&& name != seq!['.']
    &&& name != seq!['.', '.']
    &&& encode_utf8(name).len() <= 255
}

/// A name that is already fine is kept as it is: no separator, no control character, no bidirectional
/// override, no white space around it, neither empty nor `.` nor `..`, and at most 255 bytes.
pub proof fn plain_names_stay(name: Seq<char>)
    requires
        forall|i: int|
            0 <= i < name.len() ==> #[trigger] name[i] != '/' && name[i] != '\\' && !(name[i] as u32 <= 0x1f
                || 0x7f <= name[i] as u32 <= 0x9f || name[i] as u32 == 0x200e || name[i] as u32 == 0x200f
                || 0x202a <= name[i] as u32 <= 0x202e || 0x2066 <= name[i] as u32 <= 0x2069),
        name.len() > 0,
        forall|i: int|
            i == 0 || i == name.len() - 1 ==> !(9 <= #[trigger] name[i] as u32 <= 13 || name[i] as u32 == 0x20
                || name[i] as u32 == 0x85 || name[i] as u32 == 0xa0 || name[i] as u32 == 0x1680 || 0x2000
                <= name[i] as u32 <= 0x200a || name[i] as u32 == 0x2028 || name[i] as u32 == 0x2029
                || name[i] as u32 == 0x202f || name[i] as u32 == 0x205f || name[i] as u32 == 0x3000),
        name != seq!['.'],
        name != seq!['.', '.'],
        encode_utf8(name).len() <= 255,
    ensures
        safe(name) == Some(name),
{
    lemma_base_keeps(name);
    lemma_cleaned_keeps(name);
    assert(name.last() == name[name.len() - 1]);
    assert(trim_end(name) == name);
    assert(trim_start(name) == name);
    reveal_strlit(".");
    reveal_strlit("..");
    assert("."@ =~= seq!['.']);
    assert(".."@ =~= seq!['.', '.']);
}

/// Whatever stands before a separator is dropped.
pub proof fn folders_are_dropped(dir: Seq<char>, sep: char, name: Seq<char>)
    requires
        sep == '/' || sep == '\\',
    ensures
        safe(dir + seq![sep] + name) == safe(name),
{
    lemma_base_behind(dir, sep, name);
}

/// A control character or a bidirectional override makes no difference, wherever in a name it stands.
pub proof fn control_characters_are_dropped(a: Seq<char>, x: char, b: Seq<char>)
    requires
        x as u32 <= 0x1f || 0x7f <= x as u32 <= 0x9f || x as u32 == 0x200e || x as u32 == 0x200f || 0x202a
            <= x as u32 <= 0x202e || 0x2066 <= x as u32 <= 0x2069,
    ensures
        safe(a + seq![x] + b) == safe(a + b),
{
    lemma_cleaned_without(a, x, b);
}

proof fn lemma_base_front(x: char, name: Seq<char>)
    requires
        x != '/' && x != '\\',
    ensures
        base_of(seq![x] + name) == base_of(name) || base_of(seq![x] + name) == seq![x] + base_of(name),
        base_of(seq![x] + name) == seq![x] + base_of(name) || base_of(name).len() < name.len(),
        base_of(name).len() == name.len() ==> base_of(seq![x] + name) == seq![x] + base_of(name),
        base_of(name).len() <= name.len(),
    decreases name.len(),
{
    let all = seq![x] + name;
    if name.len() == 0 {
        assert(all.last() == x);
        assert(all.drop_last() =~= Seq::<char>::empty());
        assert(base_of(Seq::<char>::empty()) =~= Seq::<char>::empty());
        assert(base_of(name) =~= Seq::<char>::empty());
        assert(base_of(all) =~= seq![x] + base_of(name));
    } else {
        let less = name.drop_last();
        let c = name.last();
        assert(all.last() == c);
        assert(all.drop_last() =~= seq![x] + less);
        lemma_base_front(x, less);
        if c != '/' && c != '\\' {
            assert((seq![x] + base_of(less)).push(c) =~= seq![x] + base_of(less).push(c));
        }
    }
}

proof fn lemma_cleaned_front(x: char, b: Seq<char>)
    ensures
        cleaned(seq![x] + b) == cleaned(b) || cleaned(seq![x] + b) == seq![x] + cleaned(b),
    decreases b.len(),
{
    let all = seq![x] + b;
    if b.len() == 0 {
        assert(all.drop_last() =~= Seq::<char>::empty());
        assert(all.last() == x);
        assert(b =~= Seq::<char>::empty());
        assert(cleaned(b) == b);
        assert(b.push(x) =~= seq![x] + b);
    } else {
        let less = b.drop_last();
        let c = b.last();
        assert(all.last() == c);
        assert(all.drop_last() =~= seq![x] + less);
        lemma_cleaned_front(x, less);
        assert((seq![x] + cleaned(less)).push(c) =~= seq![x] + cleaned(less).push(c));
    }
}

proof fn lemma_trim_front(x: char, c: Seq<char>)
    requires
        9 <= x as u32 <= 13 || x as u32 == 0x20 || x as u32 == 0x85 || x as u32 == 0xa0 || x as u32 == 0x1680
            || 0x2000 <= x as u32 <= 0x200a || x as u32 == 0x2028 || x as u32 == 0x2029 || x as u32 == 0x202f
            || x as u32 == 0x205f || x as u32 == 0x3000,
    ensures
        trim_start(trim_end(seq![x] + c)) == trim_start(trim_end(c)),
    decreases c.len(),
{
    let all = seq![x] + c;
    if c.len() == 0 {
        assert(all.last() == x);
        assert(all.drop_last() =~= Seq::<char>::empty());
        assert(c =~= Seq::<char>::empty());
    } else {
        let less = c.drop_last();
        assert(all.last() == c.last());
        assert(all.drop_last() =~= seq![x] + less);
        lemma_trim_front(x, less);
        assert(all[0] == x);
        assert(all.drop_first() =~= c);
    }
}

/// White space before or behind a name makes no difference.
pub proof fn white_space_around_is_dropped(name: Seq<char>, x: char)
    requires
        9 <= x as u32 <= 13 || x as u32 == 0x20 || x as u32 == 0x85 || x as u32 == 0xa0 || x as u32 == 0x1680
            || 0x2000 <= x as u32 <= 0x200a || x as u32 == 0x2028 || x as u32 == 0x2029 || x as u32 == 0x202f
            || x as u32 == 0x205f || x as u32 == 0x3000,
    ensures
        safe(seq![x] + name) == safe(name),
        safe(name.push(x)) == safe(name),
{
    lemma_base_front(x, name);
    lemma_cleaned_front(x, base_of(name));
    lemma_trim_front(x, cleaned(base_of(name)));
    let b = base_of(name);
    assert(name.push(x).last() == x);
    assert(name.push(x).drop_last() =~= name);
    assert(b.push(x).last() == x);
    assert(b.push(x).drop_last() =~= b);
    let c = cleaned(b);
    assert(c.push(x).last() == x);
    assert(c.push(x).drop_last() =~= c);
}

pub proof fn lemma_last_dot_of(stem: Seq<char>, ext: Seq<char>)
    requires
        forall|i: int| 0 <= i < ext.len() ==> #[trigger] ext[i] != '.',
    ensures
        last_dot(stem + seq!['.'] + ext) == Some(stem.len() as int),
    decreases ext.len(),
{
    let all = stem + seq!['.'] + ext;
    if ext.len() == 0 {
        assert(all.last() == '.');
    } else {
        let less = ext.drop_last();
        assert(all.last() == ext[ext.len() - 1]);
        assert(all.drop_last() =~= stem + seq!['.'] + less);
        assert(forall|i: int| 0 <= i < less.len() ==> less[i] == ext[i]);
        lemma_last_dot_of(stem, less);
    }
}

pub proof fn lemma_no_last_dot(name: Seq<char>)
    requires
        forall|i: int| 0 <= i < name.len() ==> #[trigger] name[i] != '.',
    ensures
        last_dot(name) is None,
    decreases name.len(),
{
    if name.len() > 0 {
        let less = name.drop_last();
        assert(name[name.len() - 1] != '.');
        assert(forall|i: int| 0 <= i < less.len() ==> less[i] == name[i]);
        lemma_no_last_dot(less);
    }
}

/// How much of a text fits: a prefix, and no longer one would do.
proof fn lemma_fits(text: Seq<char>, budget: nat) -> (k: int)
    ensures
        0 <= k <= text.len(),
        fitting(text, budget) == text.take(k),
        byte_len(text) <= budget ==> k == text.len(),
        k < text.len() ==> byte_len(text.take(k + 1)) > budget,
        k > 0 ==> byte_len(text.take(k)) <= budget,
    decreases text.len(),
{
    if text.len() == 0 || byte_len(text) <= budget {
        assert(text.take(text.len() as int) =~= text);
        text.len() as int
    } else {
        let less = text.drop_last();
        let k = lemma_fits(less, budget);
        assert(less.take(k) =~= text.take(k));
        if k < less.len() {
            assert(less.take(k + 1) =~= text.take(k + 1));
        } else {
            assert(text.take(k + 1) =~= text);
        }
        k
    }
}

/// A suffix goes between stem and extension, and only the stem is cut where it gets too long.
proof fn lemma_rebuilt_parts(stem: Seq<char>, ext: Seq<char>, suffix: Seq<char>) -> (k: int)
    requires
        stem.len() > 0,
        forall|i: int| 0 <= i < ext.len() ==> #[trigger] ext[i] != '.',
        encode_utf8(ext).len() <= 16,
        encode_utf8(suffix).len() <= 238,
    ensures
        0 <= k <= stem.len(),
        rebuilt(stem + seq!['.'] + ext, suffix, 255) == stem.take(k) + suffix + seq!['.'] + ext,
        encode_utf8(stem + suffix + seq!['.'] + ext).len() <= 255 ==> k == stem.len(),
        k < stem.len() ==> encode_utf8(stem.take(k + 1) + suffix + seq!['.'] + ext).len() > 255,
{
    let name = stem + seq!['.'] + ext;
    let tail = seq!['.'] + ext;
    lemma_last_dot_of(stem, ext);
    assert(name.skip(stem.len() as int + 1) =~= ext);
    assert(name.skip(stem.len() as int) =~= tail);
    assert(name.take(stem.len() as int) =~= stem);
    assert(extension_at(name) == stem.len());
    lemma_encode_concat(seq!['.'], ext);
    lemma_byte_len_push(Seq::empty(), '.');
    assert(Seq::<char>::empty().push('.') =~= seq!['.']);
    lemma_byte_len(Seq::empty());
    assert(vstd::utf8::encode_scalar('.' as u32).len() == 1);
    let used = byte_len(suffix) + byte_len(tail);
    let budget = (255 - used) as nat;
    let k = lemma_fits(stem, budget);
    assert(stem.take(k) + suffix + tail =~= stem.take(k) + suffix + seq!['.'] + ext);
    assert(stem + suffix + seq!['.'] + ext =~= stem + (suffix + tail));
    lemma_encode_concat(stem, suffix + tail);
    lemma_encode_concat(suffix, tail);
    if k < stem.len() {
        assert(stem.take(k + 1) + suffix + seq!['.'] + ext =~= stem.take(k + 1) + (suffix + tail));
        lemma_encode_concat(stem.take(k + 1), suffix + tail);
    }
    k
}

/// The number of a clashing name goes before its extension: `name (n).ext`. Only where that takes more than
/// 255 bytes is the stem cut, and by no more than it must.
pub proof fn numbers_go_before_the_extension(stem: Seq<char>, ext: Seq<char>, n: u32)
    requires
        stem.len() > 0,
        forall|i: int| 0 <= i < ext.len() ==> #[trigger] ext[i] != '.',
        encode_utf8(ext).len() <= 16,
    ensures
        ({
            let suffix = seq![' ', '('] + decimal_text(n as nat) + seq![')'];
            exists|k: int|
                {
                    &&& 0 <= k <= stem.len()
                    &&& numbered(stem + seq!['.'] + ext, n as nat) == #[trigger] stem.take(k) + suffix + seq!['.']
                        + ext
                    &&& encode_utf8(stem + suffix + seq!['.'] + ext).len() <= 255 ==> k == stem.len()
                    &&& k < stem.len() ==> encode_utf8(stem.take(k + 1) + suffix + seq!['.'] + ext).len() > 255
                }
        }),
{
    let suffix = seq![' ', '('] + decimal_text(n as nat) + seq![')'];
    reveal_strlit(" (");
    reveal_strlit(")");
    assert(" ("@ =~= seq![' ', '(']);
    assert(")"@ =~= seq![')']);
    crate::text::lemma_decimal_len_u64(n as u64);
    lemma_byte_len(suffix);
    let k = lemma_rebuilt_parts(stem, ext, suffix);
}

/// A name without an extension has its number at the end.
pub proof fn numbers_go_to_the_end(name: Seq<char>, n: u32)
    requires
        forall|i: int| 0 <= i < name.len() ==> #[trigger] name[i] != '.',
        encode_utf8(name + seq![' ', '('] + decimal_text(n as nat) + seq![')']).len() <= 255,
    ensures
        numbered(name, n as nat) == name + seq![' ', '('] + decimal_text(n as nat) + seq![')'],
{
    let suffix = seq![' ', '('] + decimal_text(n as nat) + seq![')'];
    reveal_strlit(" (");
    reveal_strlit(")");
    assert(" ("@ =~= seq![' ', '(']);
    assert(")"@ =~= seq![')']);
    lemma_no_last_dot(name);
    let none = Seq::<char>::empty();
    assert(name.skip(name.len() as int) =~= none);
    assert(name.take(name.len() as int) =~= name);
    lemma_byte_len(none);
    lemma_encode_concat(name, suffix);
    assert(name + suffix =~= name + seq![' ', '('] + decimal_text(n as nat) + seq![')']);
    assert(name + suffix + none =~= name + suffix);
}

/// The first name to try is the name itself, and the second has the number 2.
pub proof fn numbering_begins_with_two(name: Seq<char>)
    ensures
        candidate(name, 1) == name,
        candidate(name, 2) == numbered(name, 2),
{
}

/// A name that is too long loses the end of its stem, and keeps an extension of up to 16 bytes. What is
/// left takes as much of 255 bytes as it can.
pub proof fn long_names_keep_their_extension(stem: Seq<char>, ext: Seq<char>)
    requires
        stem.len() > 0,
        forall|i: int| 0 <= i < ext.len() ==> #[trigger] ext[i] != '.',
        encode_utf8(ext).len() <= 16,
        encode_utf8(stem + seq!['.'] + ext).len() > 255,
        forall|i: int|
            0 <= i < stem.len() ==> #[trigger] stem[i] != '/' && stem[i] != '\\' && !(stem[i] as u32 <= 0x1f
                || 0x7f <= stem[i] as u32 <= 0x9f || stem[i] as u32 == 0x200e || stem[i] as u32 == 0x200f
                || 0x202a <= stem[i] as u32 <= 0x202e || 0x2066 <= stem[i] as u32 <= 0x2069),
        forall|i: int|
            0 <= i < ext.len() ==> ext[i] != '/' && ext[i] != '\\' && !(ext[i] as u32 <= 0x1f || 0x7f
                <= ext[i] as u32 <= 0x9f || ext[i] as u32 == 0x200e || ext[i] as u32 == 0x200f || 0x202a
                <= ext[i] as u32 <= 0x202e || 0x2066 <= ext[i] as u32 <= 0x2069),
        ({
            let x = stem[0] as u32;
            !(9 <= x <= 13 || x == 0x20 || x == 0x85 || x == 0xa0 || x == 0x1680 || 0x2000 <= x <= 0x200a || x
                == 0x2028 || x == 0x2029 || x == 0x202f || x == 0x205f || x == 0x3000)
        }),
        ext.len() > 0 ==> {
            let x = ext[ext.len() - 1] as u32;
            !(9 <= x <= 13 || x == 0x20 || x == 0x85 || x == 0xa0 || x == 0x1680 || 0x2000 <= x <= 0x200a || x
                == 0x2028 || x == 0x2029 || x == 0x202f || x == 0x205f || x == 0x3000)
        },
    ensures
        exists|k: int|
            {
                &&& 0 <= k < stem.len()
                &&& safe(stem + seq!['.'] + ext) == Some(#[trigger] stem.take(k) + seq!['.'] + ext)
                &&& encode_utf8(stem.take(k) + seq!['.'] + ext).len() <= 255
                &&& encode_utf8(stem.take(k + 1) + seq!['.'] + ext).len() > 255
            },
{
    let name = stem + seq!['.'] + ext;
    let none = Seq::<char>::empty();
    assert forall|i: int| 0 <= i < name.len() implies #[trigger] name[i] != '/' && name[i] != '\\' && !(name[i] as u32
        <= 0x1f || 0x7f <= name[i] as u32 <= 0x9f || name[i] as u32 == 0x200e || name[i] as u32 == 0x200f || 0x202a
        <= name[i] as u32 <= 0x202e || 0x2066 <= name[i] as u32 <= 0x2069) by {
        if i < stem.len() {
            assert(name[i] == stem[i]);
        } else if i > stem.len() {
            assert(name[i] == ext[i - stem.len() - 1]);
        }
    }
    lemma_base_keeps(name);
    lemma_cleaned_keeps(name);
    assert(name[0] == stem[0]);
    if ext.len() > 0 {
        assert(name.last() == ext[ext.len() - 1]);
    } else {
        assert(name.last() == '.');
    }
    assert(trim_end(name) == name);
    assert(trim_start(name) == name);
    lemma_byte_len(none);
    let k = lemma_rebuilt_parts(stem, ext, none);
    assert(stem + none + seq!['.'] + ext =~= name);
    assert(stem.take(k) + none + seq!['.'] + ext =~= stem.take(k) + seq!['.'] + ext);
    assert(stem.take(stem.len() as int) =~= stem);
    reveal_strlit(".");
    reveal_strlit("..");
    lemma_byte_len("."@);
    lemma_byte_len(".."@);
    super::names::safe_names_are_safe(name);
    if k < stem.len() {
        assert(stem.take(k + 1) + none + seq!['.'] + ext =~= stem.take(k + 1) + seq!['.'] + ext);
    }
}

} // verus!
