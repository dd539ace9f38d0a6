//! What a bundle is, byte by byte, what its files are called when they come back, and which files can go
//! into one.

use super::bundle::{
    base_name, bundle, bundle_round_trips, changed, clash_key, concatenated, created_names, distinct_names_stay,
    files_from, folded, parts_match, pick, plan_fault, planned_item, unpack, PayloadFile, Payloads,
};
use super::manifest::{
    content_len, encode_fault, encoded, item_bytes, items_bytes, mime_of, name_mime, whole_len, Entry, Item,
    Manifest,
};
use super::names::{candidate, numbered, safe};
use super::names_laws::{lemma_last_dot_of, lemma_no_last_dot, plain_name, plain_names_stay};
use crate::bytes::{le_bytes, lemma_le_bytes_len};
use crate::error::Fault;
use crate::text::decimal_text;
use vstd::prelude::*;
use vstd::utf8::{decode_utf8, encode_utf8, is_ascii_chars};

verus! {

// ---------------------------------------------------------------------------------------------
// Layout

/// Four bytes spell `n`, the lowest first.
pub open spec fn four(b: Seq<u8>, n: nat) -> bool {
    b.len() == 4 && b[0] + b[1] * 0x100 + b[2] * 0x1_0000 + b[3] * 0x100_0000 == n
}

proof fn lemma_two(n: nat)
    requires
        n < 0x1_0000,
    ensures
        le_bytes(n, 2).len() == 2,
        le_bytes(n, 2)[0] + le_bytes(n, 2)[1] * 0x100 == n,
{
    reveal_with_fuel(le_bytes, 3);
    lemma_le_bytes_len(n, 2);
}

proof fn lemma_four(n: nat)
    requires
        n < 0x1_0000_0000,
    ensures
        four(le_bytes(n, 4), n),
{
    reveal_with_fuel(le_bytes, 5);
    lemma_le_bytes_len(n, 4);
    let b = le_bytes(n, 4);
    assert(b[0] == n % 256);
    assert(b[1] == n / 256 % 256);
    assert(b[2] == n / 256 / 256 % 256);
    assert(b[3] == n / 256 / 256 / 256 % 256);
}

proof fn lemma_eight(n: nat)
    requires
        n < 0x1_0000_0000_0000_0000,
    ensures
        ({
            let b = le_bytes(n, 8);
            &&& b.len() == 8
            &&& b[0] + b[1] * 0x100 + b[2] * 0x1_0000 + b[3] * 0x100_0000 + b[4] * 0x1_0000_0000 + b[5]
                * 0x100_0000_0000 + b[6] * 0x1_0000_0000_0000 + b[7] * 0x100_0000_0000_0000 == n
        }),
{
    reveal_with_fuel(le_bytes, 9);
    lemma_le_bytes_len(n, 8);
    let b = le_bytes(n, 8);
    let n1 = n / 256;
    let n2 = n1 / 256;
    let n3 = n2 / 256;
    let n4 = n3 / 256;
    let n5 = n4 / 256;
    let n6 = n5 / 256;
    let n7 = n6 / 256;
    assert(b[0] == n % 256 && b[1] == n1 % 256 && b[2] == n2 % 256 && b[3] == n3 % 256);
    assert(b[4] == n4 % 256 && b[5] == n5 % 256 && b[6] == n6 % 256 && b[7] == n7 % 256);
    assert(n7 < 256);
}

/// A bundle is the length of its manifest in four bytes, the lowest first, the manifest, and then the files,
/// back to back and in order. A manifest is the number of its entries in four bytes, and then the entries.
pub proof fn bundles_are_manifest_and_files(list: Seq<Item>, parts: Seq<Seq<u8>>)
    requires
        encoded(list).len() < 0x1_0000_0000,
        list.len() < 0x1_0000_0000,
    ensures
        ({
            let m = encoded(list).len() as int;
            let b = bundle(list, parts);
            &&& b.len() == 4 + m + concatenated(parts).len()
            &&& four(b.subrange(0, 4), m as nat)
            &&& b.subrange(4, 4 + m) == encoded(list)
            &&& b.subrange(4 + m, b.len() as int) == concatenated(parts)
            &&& four(encoded(list).subrange(0, 4), list.len())
            &&& encoded(list).subrange(4, m) == items_bytes(list)
        }),
{
    let m = encoded(list).len() as int;
    let b = bundle(list, parts);
    lemma_four(m as nat);
    lemma_four(list.len());
    assert(b.subrange(0, 4) =~= le_bytes(m as nat, 4));
    assert(b.subrange(4, 4 + m) =~= encoded(list));
    assert(b.subrange(4 + m, b.len() as int) =~= concatenated(parts));
    assert(encoded(list).subrange(0, 4) =~= le_bytes(list.len(), 4));
    assert(encoded(list).subrange(4, m) =~= items_bytes(list));
}

/// Files stand one behind the other, and so do entries.
pub proof fn files_stand_in_order(parts: Seq<Seq<u8>>, part: Seq<u8>, list: Seq<Item>, item: Item)
    ensures
        concatenated(Seq::<Seq<u8>>::empty()) == Seq::<u8>::empty(),
        concatenated(parts.push(part)) == concatenated(parts) + part,
        items_bytes(Seq::<Item>::empty()) == Seq::<u8>::empty(),
        items_bytes(list.push(item)) == items_bytes(list) + item_bytes(item),
    decreases parts.len(),
{
    assert(list.push(item).drop_last() =~= list);
    assert(list.push(item).last() == item);
    let all = parts.push(part);
    if parts.len() == 0 {
        let none = Seq::<Seq<u8>>::empty();
        assert(all.skip(1) =~= none);
        assert(all[0] == part);
        assert(concatenated(none) =~= Seq::<u8>::empty());
        assert(concatenated(parts) =~= Seq::<u8>::empty());
        assert(concatenated(all) =~= concatenated(parts) + part);
    } else {
        let rest = parts.skip(1);
        files_stand_in_order(rest, part, list, item);
        assert(all.skip(1) =~= rest.push(part));
        assert(all[0] == parts[0]);
        assert(concatenated(all) =~= concatenated(parts) + part);
    }
}

/// An entry is the length of the name in two bytes, the lowest first, the name, the length of the type in
/// one byte, the type, and the length of the file in eight bytes, the lowest first.
pub proof fn entries_are_names_types_and_lengths(item: Item)
    requires
        item.name.len() <= 0xffff,
        item.mime.len() <= 0xff,
        item.len <= u64::MAX,
    ensures
        ({
            let b = item_bytes(item);
            let n = item.name.len() as int;
            let m = item.mime.len() as int;
            let l = b.subrange(3 + n + m, 11 + n + m);
            &&& b.len() == 11 + n + m
            &&& b[0] + b[1] * 0x100 == n
            &&& b.subrange(2, 2 + n) == item.name
            &&& b[2 + n] == m
            &&& b.subrange(3 + n, 3 + n + m) == item.mime
            &&& l[0] + l[1] * 0x100 + l[2] * 0x1_0000 + l[3] * 0x100_0000 + l[4] * 0x1_0000_0000 + l[5]
                * 0x100_0000_0000 + l[6] * 0x1_0000_0000_0000 + l[7] * 0x100_0000_0000_0000 == item.len
        }),
{
    let b = item_bytes(item);
    let n = item.name.len() as int;
    let m = item.mime.len() as int;
    lemma_two(item.name.len());
    lemma_eight(item.len);
    assert(b[0] == le_bytes(item.name.len(), 2)[0] && b[1] == le_bytes(item.name.len(), 2)[1]);
    assert(b.subrange(2, 2 + n) =~= item.name);
    assert(b.subrange(3 + n, 3 + n + m) =~= item.mime);
    assert(b.subrange(3 + n + m, 11 + n + m) =~= le_bytes(item.len, 8));
}

/// How long a bundle is: 8 bytes, for each file 11 and its name and type, and the files.
pub proof fn bundle_sizes(list: Seq<Item>, item: Item)
    ensures
        whole_len(Seq::<Item>::empty()) == 8,
        whole_len(list.push(item)) == whole_len(list) + 11 + item.name.len() + item.mime.len() + item.len,
{
    assert(list.push(item).drop_last() =~= list);
    assert(list.push(item).last() == item);
}

// ---------------------------------------------------------------------------------------------
// Names

/// Names in ASCII clash if they differ in nothing but the case of their letters, and only then.
pub proof fn ascii_names_clash_by_case(a: Seq<char>, b: Seq<char>)
    requires
        is_ascii_chars(a),
        is_ascii_chars(b),
    ensures
        folded(a) == folded(b) <==> a.len() == b.len() && forall|i: int|
            0 <= i < a.len() ==> #[trigger] a[i] == b[i] || (65 <= a[i] as u32 <= 90 && b[i] as u32 == a[i] as u32
                + 32) || (65 <= b[i] as u32 <= 90 && a[i] as u32 == b[i] as u32 + 32),
{
    let x = folded(a);
    let y = folded(b);
    assert(x.len() == a.len() && y.len() == b.len());
    if x == y {
        assert forall|i: int| 0 <= i < a.len() implies #[trigger] a[i] == b[i] || (65 <= a[i] as u32 <= 90
            && b[i] as u32 == a[i] as u32 + 32) || (65 <= b[i] as u32 <= 90 && a[i] as u32 == b[i] as u32
            + 32) by {
            assert(x[i] == y[i]);
        }
    }
    if a.len() == b.len() && forall|i: int|
        0 <= i < a.len() ==> #[trigger] a[i] == b[i] || (65 <= a[i] as u32 <= 90 && b[i] as u32 == a[i] as u32
            + 32) || (65 <= b[i] as u32 <= 90 && a[i] as u32 == b[i] as u32 + 32) {
        assert forall|i: int| 0 <= i < x.len() implies x[i] == y[i] by {
            assert(a[i] == a[i]);
        }
        assert(x =~= y);
    }
}

/// Files whose names are fine and do not clash come back under exactly their own names, byte for byte and in
/// order.
pub proof fn plain_files_come_back(m: Manifest, parts: Seq<Seq<u8>>, names: Seq<Seq<char>>)
    requires
        parts_match(m.items(), parts),
        encode_fault(m.entries@) is None,
        content_len(m.items()) <= u64::MAX,
        encoded(m.items()).len() <= 0x100_0000,
        names.len() == parts.len(),
        forall|i: int| 0 <= i < names.len() ==> m.items()[i].name == encode_utf8(#[trigger] names[i]),
        forall|i: int| 0 <= i < names.len() ==> plain_name(#[trigger] names[i]),
        forall|j: int, k: int|
            0 <= j < k < names.len() ==> folded(#[trigger] names[j]) != folded(#[trigger] names[k]),
    ensures
        unpack(bundle(m.items(), parts), None) matches Ok(files) && {
            &&& files.len() == parts.len()
            &&& forall|i: int|
                0 <= i < files.len() ==> (#[trigger] files[i]).bytes == parts[i] && files[i].name == names[i]
                    && files[i].base == names[i]
        },
{
    let list = m.items();
    assert forall|i: int| 0 <= i < names.len() implies base_name(list[i], i as nat) == #[trigger] names[i] by {
        vstd::utf8::encode_utf8_decode_utf8(names[i]);
        plain_names_stay(names[i]);
    }
    let none = Seq::<Seq<char>>::empty();
    assert forall|j: int, k: int| 0 <= j < k < list.len() implies #[trigger] clash_key(list, j)
        != #[trigger] clash_key(list, k) by {
        assert(folded(names[j]) != folded(names[k]));
    }
    distinct_names_stay(list, 0, none);
    bundle_round_trips(m, parts);
    let files = unpack(bundle(list, parts), None)->Ok_0;
    assert forall|i: int| 0 <= i < files.len() implies (#[trigger] files[i]).bytes == parts[i] && files[i].name
        == names[i] && files[i].base == names[i] by {
        assert(base_name(list[i], i as nat) == names[i]);
        assert(created_names(list, 0, none)->Some_0[i] == base_name(list[0 + i], (0 + i) as nat));
    }
}

/// A name that is taken is given the lowest number, from 2 on, that makes it free.
pub proof fn clashing_names_get_the_first_free_number(base: Seq<char>, taken: Seq<Seq<char>>, n: nat, k: nat)
    requires
        1 <= n <= k < 10000,
        forall|j: nat| n <= j < k ==> taken.contains(folded(#[trigger] candidate(base, j))),
        !taken.contains(folded(candidate(base, k))),
    ensures
        pick(base, taken, n) == Some(
            if k == 1 {
                base
            } else {
                numbered(base, k)
            },
        ),
    decreases k - n,
{
    if n < k {
        assert(taken.contains(folded(candidate(base, n))));
        clashing_names_get_the_first_free_number(base, taken, n + 1, k);
    }
}

/// A file of whose name nothing is left is called `file-` and its number in the bundle.
pub proof fn nameless_files_are_numbered(item: Item, i: nat)
    ensures
        base_name(item, i) == (match safe(decode_utf8(item.name)) {
            Some(name) => name,
            None => seq!['f', 'i', 'l', 'e', '-'] + decimal_text(i + 1),
        }),
{
    reveal_strlit("file-");
    assert("file-"@ =~= seq!['f', 'i', 'l', 'e', '-']);
}

// ---------------------------------------------------------------------------------------------
// Types

/// The type goes by what follows the last dot, whatever stands before it, and by nothing where there is no
/// dot.
pub proof fn types_follow_the_extension(stem: Seq<char>, ext: Seq<char>, name: Seq<char>)
    requires
        forall|i: int| 0 <= i < ext.len() ==> #[trigger] ext[i] != '.',
        forall|i: int| 0 <= i < name.len() ==> #[trigger] name[i] != '.',
    ensures
        name_mime(stem + seq!['.'] + ext) == name_mime(seq!['.'] + ext),
        name_mime(name) == "application/octet-stream"@,
{
    let none = Seq::<char>::empty();
    lemma_last_dot_of(stem, ext);
    lemma_last_dot_of(none, ext);
    lemma_no_last_dot(name);
    assert(none + seq!['.'] + ext =~= seq!['.'] + ext);
    assert((stem + seq!['.'] + ext).skip(stem.len() as int + 1) =~= ext);
    assert((seq!['.'] + ext).skip(1) =~= ext);
}

/// The case of an extension makes no difference to the type.
pub proof fn types_ignore_case(a: Seq<char>, b: Seq<char>)
    requires
        forall|i: int| 0 <= i < a.len() ==> #[trigger] a[i] != '.',
        a.len() == b.len(),
        forall|i: int|
            0 <= i < a.len() ==> #[trigger] a[i] == b[i] || (65 <= a[i] as u32 <= 90 && b[i] as u32 == a[i] as u32
                + 32),
    ensures
        name_mime(seq!['.'] + a) == name_mime(seq!['.'] + b),
{
    let none = Seq::<char>::empty();
    assert forall|i: int| 0 <= i < b.len() implies #[trigger] b[i] != '.' by {
        assert(a[i] != '.');
    }
    lemma_last_dot_of(none, a);
    lemma_last_dot_of(none, b);
    assert(none + seq!['.'] + a =~= seq!['.'] + a);
    assert(none + seq!['.'] + b =~= seq!['.'] + b);
    assert((seq!['.'] + a).skip(1) =~= a);
    assert((seq!['.'] + b).skip(1) =~= b);
    let x = super::manifest::lowered(a);
    let y = super::manifest::lowered(b);
    assert forall|i: int| 0 <= i < x.len() implies x[i] == y[i] by {
        assert(a[i] == a[i]);
    }
    assert(x =~= y);
}

/// Which types there are. Every other extension is plain data.
pub proof fn known_types(ext: Seq<char>)
    ensures
        ext == "jpg"@ || ext == "jpeg"@ ==> mime_of(ext) == "image/jpeg"@,
        mime_of("png"@) == "image/png"@,
        mime_of("heic"@) == "image/heic"@,
        mime_of("heif"@) == "image/heif"@,
        mime_of("gif"@) == "image/gif"@,
        mime_of("webp"@) == "image/webp"@,
        mime_of("mov"@) == "video/quicktime"@,
        ext == "mp4"@ || ext == "m4v"@ ==> mime_of(ext) == "video/mp4"@,
        mime_of("pdf"@) == "application/pdf"@,
        mime_of("zip"@) == "application/zip"@,
        mime_of("txt"@) == "text/plain"@,
        mime_of("m4a"@) == "audio/mp4"@,
        mime_of("mp3"@) == "audio/mpeg"@,
        mime_of("wav"@) == "audio/wav"@,
        ext != "jpg"@ && ext != "jpeg"@ && ext != "png"@ && ext != "heic"@ && ext != "heif"@ && ext != "gif"@
            && ext != "webp"@ && ext != "mp4"@ && ext != "m4v"@ && ext != "mov"@ && ext != "pdf"@ && ext
            != "zip"@ && ext != "txt"@ && ext != "m4a"@ && ext != "mp3"@ && ext != "wav"@ ==> mime_of(ext)
            == "application/octet-stream"@,
{
    reveal_strlit("jpg");
    reveal_strlit("jpeg");
    reveal_strlit("png");
    reveal_strlit("heic");
    reveal_strlit("heif");
    reveal_strlit("gif");
    reveal_strlit("webp");
    reveal_strlit("mp4");
    reveal_strlit("m4v");
    reveal_strlit("mov");
    reveal_strlit("pdf");
    reveal_strlit("zip");
    reveal_strlit("txt");
    reveal_strlit("m4a");
    reveal_strlit("mp3");
    reveal_strlit("wav");
    lemma_texts_differ();
}

proof fn lemma_texts_differ()
    ensures
        "png"@[0] == 'p' && "png"@[1] == 'n' && "png"@.len() == 3,
        "heic"@[3] == 'c' && "heic"@[0] == 'h' && "heic"@.len() == 4,
        "heif"@[3] == 'f' && "heif"@[0] == 'h' && "heif"@.len() == 4,
        "gif"@[0] == 'g' && "gif"@.len() == 3,
        "webp"@[0] == 'w' && "webp"@.len() == 4,
        "mov"@[0] == 'm' && "mov"@[1] == 'o' && "mov"@.len() == 3,
        "mp4"@[1] == 'p' && "mp4"@[2] == '4' && "mp4"@[0] == 'm' && "mp4"@.len() == 3,
        "m4v"@[1] == '4' && "m4v"@[2] == 'v' && "m4v"@[0] == 'm' && "m4v"@.len() == 3,
        "pdf"@[0] == 'p' && "pdf"@[1] == 'd' && "pdf"@.len() == 3,
        "zip"@[0] == 'z' && "zip"@.len() == 3,
        "txt"@[0] == 't' && "txt"@.len() == 3,
        "m4a"@[1] == '4' && "m4a"@[2] == 'a' && "m4a"@[0] == 'm' && "m4a"@.len() == 3,
        "mp3"@[1] == 'p' && "mp3"@[2] == '3' && "mp3"@[0] == 'm' && "mp3"@.len() == 3,
        "wav"@[0] == 'w' && "wav"@.len() == 3,
        "jpg"@[0] == 'j' && "jpg"@.len() == 3,
        "jpeg"@[0] == 'j' && "jpeg"@.len() == 4,
{
    reveal_strlit("jpg");
    reveal_strlit("jpeg");
    reveal_strlit("png");
    reveal_strlit("heic");
    reveal_strlit("heif");
    reveal_strlit("gif");
    reveal_strlit("webp");
    reveal_strlit("mp4");
    reveal_strlit("m4v");
    reveal_strlit("mov");
    reveal_strlit("pdf");
    reveal_strlit("zip");
    reveal_strlit("txt");
    reveal_strlit("m4a");
    reveal_strlit("mp3");
    reveal_strlit("wav");
}

// ---------------------------------------------------------------------------------------------
// Which files can be hidden

/// Files can be hidden if there is one at least, and each is a regular file with a name. Nothing else stands
/// in the way of a manifest, whose entries are the names, types and lengths of the files.
pub proof fn regular_files_can_be_hidden(files: Seq<PayloadFile>, n: nat)
    requires
        n <= files.len(),
    ensures
        plan_fault(files, n) is None <==> files.len() > 0 && forall|i: int|
            0 <= i < n ==> (#[trigger] files[i]).is_file && files[i].name is Some,
        files.len() == 0 ==> plan_fault(files, n) == Some(Fault::InvalidRequest("no payload files given"@)),
        forall|i: int|
            0 <= i < n && (#[trigger] files[i]).name is Some ==> planned_item(files[i]) == (Item {
                name: encode_utf8(files[i].name->Some_0@),
                mime: encode_utf8(name_mime(files[i].name->Some_0@)),
                len: files[i].len as nat,
            }),
    decreases n,
{
    if n > 0 {
        regular_files_can_be_hidden(files, (n - 1) as nat);
        let f = files[n - 1];
        if plan_fault(files, n) is None {
            assert forall|i: int| 0 <= i < n implies (#[trigger] files[i]).is_file && files[i].name is Some by {}
        }
    }
}

/// A file that is no longer as long as it was when it was looked at makes the bundle fail; it is never cut
/// or padded in silence.
pub proof fn changed_files_are_refused<P: Payloads>(
    payloads: &P,
    list: Seq<Entry>,
    labels: Seq<String>,
    index: nat,
    i: int,
)
    requires
        index <= i < list.len(),
        payloads.bytes(i).len() != list[i].len,
        forall|j: int| index <= j < i ==> #[trigger] payloads.bytes(j).len() == list[j].len,
    ensures
        files_from(payloads, list, labels, index).1 == Some(
            Fault::InvalidRequest(
                labels[i]@ + " "@ + (if payloads.bytes(i).len() < list[i].len {
                    "shrank"@
                } else {
                    "grew"@
                }) + " while it was being hidden"@,
            ),
        ),
    decreases i - index,
{
    if index < i {
        assert(payloads.bytes(index as int).len() == list[index as int].len);
        changed_files_are_refused(payloads, list, labels, index + 1, i);
    } else {
        assert(changed(labels[i]@, "grew"@) == Fault::InvalidRequest(
            labels[i]@ + " "@ + "grew"@ + " while it was being hidden"@,
        ));
    }
}

} // verus!
