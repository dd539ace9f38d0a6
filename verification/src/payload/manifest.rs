//! Bundle manifest: what files are inside, and how long each one is.
//!
//! ## Wire format (all integers little-endian)
//!
//! ```text
//! manifest := count : u32, entry * count
//! entry    := name_len : u16, name : utf-8, mime_len : u8, mime : utf-8, len : u64
//! ```
//!
//! No version field: the envelope version (inside the encryption) covers the whole plaintext.

use super::names::{byte_len, chars_of, last_dot, safe, safe_name};
use crate::bytes::{
    le_bytes, le_number, le_value, lemma_le_bound, lemma_le_round_trip, lemma_pow256, push_le,
};
use crate::error::{Fault, ZolalError};
use vstd::prelude::*;
use vstd::utf8::{encode_utf8, valid_utf8};

verus! {

/// Largest encoded manifest a reader will accept.
///
/// The bundle is authenticated, but only as "made by whoever knew the passphrase", so a length prefix
/// is still never trusted for an allocation.
pub const MAX_MANIFEST_LEN: u32 = 0x100_0000;

/// One file in the bundle.
#[derive(Debug, Clone, PartialEq, Eq)]
pub struct Entry {
    /// Original file name. Sanitised on extraction.
    pub name: String,
    /// MIME type, best-effort, for previewing after extraction.
    pub mime: String,
    /// Length of this file's bytes in the payload region.
    pub len: u64,
}

/// The full manifest.
#[derive(Debug, Clone, Default, PartialEq, Eq)]
pub struct Manifest {
    /// Entries in storage order; byte ranges follow the same order.
    pub entries: Vec<Entry>,
}

/// [`Entry`] as contracts speak of it: name and type as UTF-8.
pub ghost struct Item {
    pub name: Seq<u8>,
    pub mime: Seq<u8>,
    pub len: nat,
}

impl Entry {
    /// The entry as contracts speak of it.
    pub open spec fn item(&self) -> Item {
        Item {
            name: encode_utf8(self.name@),
            mime: encode_utf8(self.mime@),
            len: self.len as nat,
        }
    }
}

/// Entries as contracts speak of them.
pub open spec fn items(list: Seq<Entry>) -> Seq<Item> {
    list.map_values(|e: Entry| e.item())
}

/// All file lengths together.
pub open spec fn content_len(list: Seq<Item>) -> nat
    decreases list.len(),
{
    if list.len() == 0 {
        0
    } else {
        content_len(list.drop_last()) + list.last().len
    }
}

/// One entry as bytes.
pub open spec fn item_bytes(item: Item) -> Seq<u8> {
    le_bytes(item.name.len(), 2) + item.name + seq![item.mime.len() as u8] + item.mime + le_bytes(
        item.len,
        8,
    )
}

/// Entries as bytes.
pub open spec fn items_bytes(list: Seq<Item>) -> Seq<u8>
    decreases list.len(),
{
    if list.len() == 0 {
        Seq::empty()
    } else {
        items_bytes(list.drop_last()) + item_bytes(list.last())
    }
}

/// A manifest as bytes.
pub open spec fn encoded(list: Seq<Item>) -> Seq<u8> {
    le_bytes(list.len(), 4) + items_bytes(list)
}

/// How long that is.
pub open spec fn items_len(list: Seq<Item>) -> nat
    decreases list.len(),
{
    if list.len() == 0 {
        0
    } else {
        items_len(list.drop_last()) + 11 + list.last().name.len() + list.last().mime.len()
    }
}

/// How long a whole bundle is.
pub open spec fn whole_len(list: Seq<Item>) -> nat {
    8 + items_len(list) + content_len(list)
}

/// What is wrong with the first entry that does not fit its length fields, if there is one.
pub open spec fn entry_fault(list: Seq<Entry>) -> Option<Fault>
    decreases list.len(),
{
    if list.len() == 0 {
        None
    } else {
        match entry_fault(list.drop_last()) {
            Some(fault) => Some(fault),
            None => if byte_len(list.last().name@) > 0xffff {
                Some(Fault::InvalidRequest("file name too long: "@ + list.last().name@))
            } else if byte_len(list.last().mime@) > 0xff {
                Some(Fault::InvalidRequest("MIME type too long: "@ + list.last().mime@))
            } else {
                None
            },
        }
    }
}

/// Why a manifest cannot be encoded, if it cannot.
pub open spec fn encode_fault(list: Seq<Entry>) -> Option<Fault> {
    if list.len() > 0xffff_ffff {
        Some(Fault::InvalidRequest("too many payload files"@))
    } else {
        entry_fault(list)
    }
}

/// A manifest that is no manifest.
pub open spec fn corrupted(what: Seq<char>) -> Fault {
    Fault::CorruptBundle("manifest: "@ + what)
}

/// The entry at the front of `s` and its length.
pub open spec fn parse_item(s: Seq<u8>) -> Result<(Item, int), Fault> {
    if s.len() < 2 {
        Err(corrupted("truncated"@))
    } else {
        let n = le_number(s.take(2)) as int;
        if s.len() < 2 + n {
            Err(corrupted("truncated"@))
        } else if !valid_utf8(s.subrange(2, 2 + n)) {
            Err(corrupted("name is not UTF-8"@))
        } else if s.len() < 3 + n {
            Err(corrupted("truncated"@))
        } else {
            let m = s[2 + n] as int;
            if s.len() < 3 + n + m {
                Err(corrupted("truncated"@))
            } else if !valid_utf8(s.subrange(3 + n, 3 + n + m)) {
                Err(corrupted("name is not UTF-8"@))
            } else if s.len() < 11 + n + m {
                Err(corrupted("truncated"@))
            } else {
                Ok(
                    (
                        Item {
                            name: s.subrange(2, 2 + n),
                            mime: s.subrange(3 + n, 3 + n + m),
                            len: le_number(s.subrange(3 + n + m, 11 + n + m)),
                        },
                        11 + n + m,
                    ),
                )
            }
        }
    }
}

/// `count` entries at the front of `s`, and nothing behind them, after files of `total` bytes.
pub open spec fn parse_items(s: Seq<u8>, count: nat, total: nat) -> Result<Seq<Item>, Fault>
    decreases count,
{
    if count == 0 {
        if s.len() > 0 {
            Err(corrupted("trailing bytes after the last entry"@))
        } else {
            Ok(Seq::empty())
        }
    } else {
        match parse_item(s) {
            Err(e) => Err(e),
            Ok((item, n)) => if total + item.len > u64::MAX {
                Err(corrupted("file lengths overflow"@))
            } else {
                match parse_items(s.skip(n), (count - 1) as nat, total + item.len) {
                    Err(e) => Err(e),
                    Ok(rest) => Ok(seq![item] + rest),
                }
            },
        }
    }
}

/// The manifest that `bytes` are.
pub open spec fn parsed(bytes: Seq<u8>) -> Result<Seq<Item>, Fault> {
    if bytes.len() < 4 {
        Err(corrupted("truncated"@))
    } else {
        let count = le_number(bytes.take(4));
        if count * 11 > bytes.len() {
            Err(corrupted("entry count exceeds manifest size"@))
        } else {
            parse_items(bytes.skip(4), count, 0)
        }
    }
}

/// Calls `String::from_utf8`, which gives the string of these bytes if they are valid UTF-8 and refuses
/// them otherwise.
#[verifier::external_body]
fn utf8_string(bytes: Vec<u8>) -> (r: Option<String>)
    ensures
        match r {
            Some(text) => encode_utf8(text@) == bytes@ && valid_utf8(bytes@),
            None => !valid_utf8(bytes@),
        },
{
    String::from_utf8(bytes).ok()
}

fn corrupt(what: &str) -> (r: ZolalError)
    ensures
        r@ == corrupted(what@),
{
    let mut text = "manifest: ".to_owned();
    text.append(what);
    ZolalError::CorruptBundle(text)
}

/// The text of `n` bytes at `at`.
fn text_at(bytes: &[u8], at: usize, n: usize) -> (r: Result<String, ZolalError>)
    requires
        at <= bytes@.len(),
    ensures
        match r {
            Ok(text) => at + n <= bytes@.len() && encode_utf8(text@) == bytes@.subrange(
                at as int,
                at + n,
            ) && valid_utf8(bytes@.subrange(at as int, at + n)),
            Err(e) => if bytes@.len() < at + n {
                e@ == corrupted("truncated"@)
            } else {
                !valid_utf8(bytes@.subrange(at as int, at + n)) && e@ == corrupted(
                    "name is not UTF-8"@,
                )
            },
        },
{
    if bytes.len() - at < n {
        return Err(corrupt("truncated"));
    }
    let part = vstd::slice::slice_to_vec(vstd::slice::slice_subrange(bytes, at, at + n));
    assert(part@ =~= bytes@.subrange(at as int, at + n));
    match utf8_string(part) {
        Some(text) => Ok(text),
        None => Err(corrupt("name is not UTF-8")),
    }
}

/// The entry at `at`, and where it ends.
fn entry_at(bytes: &[u8], at: usize) -> (r: Result<(Entry, usize), ZolalError>)
    requires
        at <= bytes@.len(),
    ensures
        match r {
            Ok((entry, end)) => parse_item(bytes@.skip(at as int)) == Ok::<(Item, int), Fault>(
                (entry.item(), end - at),
            ) && at < end <= bytes@.len(),
            Err(e) => parse_item(bytes@.skip(at as int)) == Err::<(Item, int), Fault>(e@),
        },
{
    let ghost s = bytes@.skip(at as int);
    let len: usize = bytes.len();
    if len - at < 2 {
        return Err(corrupt("truncated"));
    }
    let n: usize = le_value(bytes, at, at + 2) as usize;
    proof {
        assert(bytes@.subrange(at as int, at + 2) =~= s.take(2));
        lemma_le_bound(s.take(2));
        lemma_pow256();
        if at + 2 + n <= len {
            assert(bytes@.subrange(at + 2, at + 2 + n) =~= s.subrange(2, 2 + n));
        }
    }
    let name = text_at(bytes, at + 2, n)?;
    let mid: usize = at + 2 + n;
    if len - mid < 1 {
        return Err(corrupt("truncated"));
    }
    let m: usize = bytes[mid] as usize;
    proof {
        assert(s[2 + n] == bytes@[mid as int]);
        if mid + 1 + m <= len {
            assert(bytes@.subrange(mid + 1, mid + 1 + m) =~= s.subrange(3 + n, 3 + n + m));
        }
    }
    let mime = text_at(bytes, mid + 1, m)?;
    let end: usize = mid + 1 + m;
    if len - end < 8 {
        return Err(corrupt("truncated"));
    }
    let size: u64 = le_value(bytes, end, end + 8);
    assert(bytes@.subrange(end as int, end + 8) =~= s.subrange(3 + n + m, 11 + n + m));
    Ok((Entry { name, mime, len: size }, end + 8))
}

impl Manifest {
    /// The manifest as contracts speak of it.
    pub open spec fn items(&self) -> Seq<Item> {
        items(self.entries@)
    }

    /// Total bytes of file content described by this manifest.
    pub fn total_len(&self) -> (r: u64)
        requires
            content_len(self.items()) <= u64::MAX,
        ensures
            r == content_len(self.items()),
    {
        let ghost all = self.items();
        let mut sum: u64 = 0;
        let mut i: usize = 0;
        assert(all.take(0) =~= Seq::<Item>::empty());
        while i < self.entries.len()
            invariant
                all == self.items(),
                content_len(all) <= u64::MAX,
                i <= self.entries@.len(),
                sum == content_len(all.take(i as int)),
            decreases self.entries@.len() - i,
        {
            proof {
                assert(all.take(i + 1).drop_last() =~= all.take(i as int));
                lemma_content_len(all, i + 1);
            }
            sum = sum + self.entries[i].len;
            i = i + 1;
        }
        assert(all.take(i as int) =~= all);
        sum
    }

    /// Size of [`Manifest::encode`]'s output.
    pub fn encoded_len(&self) -> (r: u64)
        requires
            4 + items_len(self.items()) <= u64::MAX,
        ensures
            r == 4 + items_len(self.items()),
    {
        let ghost all = self.items();
        let mut sum: u64 = 4;
        let mut i: usize = 0;
        assert(all.take(0) =~= Seq::<Item>::empty());
        while i < self.entries.len()
            invariant
                all == self.items(),
                4 + items_len(all) <= u64::MAX,
                i <= self.entries@.len(),
                sum == 4 + items_len(all.take(i as int)),
            decreases self.entries@.len() - i,
        {
            proof {
                assert(all.take(i + 1).drop_last() =~= all.take(i as int));
                lemma_items_len(all, i + 1);
            }
            let name: u64 = self.entries[i].name.as_str().as_bytes().len() as u64;
            let mime: u64 = self.entries[i].mime.as_str().as_bytes().len() as u64;
            sum = sum + (11 + name + mime);
            i = i + 1;
        }
        assert(all.take(i as int) =~= all);
        sum
    }

    /// Size of the whole bundle: length prefix, manifest, then every file's bytes.
    ///
    /// This is the plaintext length the envelope seals, known before any file is read.
    pub fn bundle_len(&self) -> (r: u64)
        requires
            whole_len(self.items()) <= u64::MAX,
        ensures
            r == whole_len(self.items()),
    {
        4 + self.encoded_len() + self.total_len()
    }

    /// [`Manifest::bundle_len`], or `None` where the files together are longer than 64 bits can say.
    pub fn checked_bundle_len(&self) -> (r: Option<u64>)
        ensures
            match r {
                Some(n) => n == whole_len(self.items()),
                None => whole_len(self.items()) > u64::MAX,
            },
    {
        let ghost all = self.items();
        let mut sum: u64 = 8;
        let mut i: usize = 0;
        assert(all.take(0) =~= Seq::<Item>::empty());
        while i < self.entries.len()
            invariant
                all == self.items(),
                i <= self.entries@.len(),
                sum == whole_len(all.take(i as int)),
            decreases self.entries@.len() - i,
        {
            let name: u64 = self.entries[i].name.as_str().as_bytes().len() as u64;
            let mime: u64 = self.entries[i].mime.as_str().as_bytes().len() as u64;
            proof {
                assert(all.take(i + 1).drop_last() =~= all.take(i as int));
                lemma_content_len(all, i + 1);
                lemma_items_len(all, i + 1);
            }
            let step: u64 = match name.checked_add(mime) {
                Some(n) => match n.checked_add(11) {
                    Some(n) => match n.checked_add(self.entries[i].len) {
                        Some(n) => n,
                        None => {
                            return None;
                        },
                    },
                    None => {
                        return None;
                    },
                },
                None => {
                    return None;
                },
            };
            match sum.checked_add(step) {
                Some(n) => {
                    sum = n;
                },
                None => {
                    return None;
                },
            }
            i = i + 1;
        }
        assert(all.take(i as int) =~= all);
        Some(sum)
    }

    /// Serialise. Fails only on a name or MIME type too long for its length field.
    pub fn encode(&self) -> (r: Result<Vec<u8>, ZolalError>)
        ensures
            match r {
                Ok(bytes) => encode_fault(self.entries@) is None && bytes@ == encoded(self.items()),
                Err(e) => encode_fault(self.entries@) == Some(e@),
            },
    {
        let mut out: Vec<u8> = Vec::new();
        if self.entries.len() as u64 > 0xffff_ffff {
            return Err(ZolalError::InvalidRequest("too many payload files".to_owned()));
        }
        push_le(&mut out, self.entries.len() as u64, 4);
        let ghost all = self.items();
        let ghost head = le_bytes(all.len(), 4);
        let mut i: usize = 0;
        proof {
            assert(all.take(0) =~= Seq::<Item>::empty());
            assert(self.entries@.take(0) =~= Seq::<Entry>::empty());
            assert(out@ =~= head + items_bytes(all.take(0)));
        }
        while i < self.entries.len()
            invariant
                all == self.items(),
                i <= self.entries@.len() <= 0xffff_ffff,
                entry_fault(self.entries@.take(i as int)) is None,
                out@ == head + items_bytes(all.take(i as int)),
            decreases self.entries@.len() - i,
        {
            let entry = &self.entries[i];
            proof {
                assert(self.entries@.take(i + 1).drop_last() =~= self.entries@.take(i as int));
                assert(all.take(i + 1).drop_last() =~= all.take(i as int));
                assert(all.take(i + 1).last() == entry.item());
            }
            let name_len: usize = entry.name.as_str().as_bytes().len();
            let mime_len: usize = entry.mime.as_str().as_bytes().len();
            if name_len > 0xffff {
                let mut text = "file name too long: ".to_owned();
                text.append(entry.name.as_str());
                proof {
                    lemma_entry_fault(self.entries@, i + 1);
                }
                return Err(ZolalError::InvalidRequest(text));
            }
            if mime_len > 0xff {
                let mut text = "MIME type too long: ".to_owned();
                text.append(entry.mime.as_str());
                proof {
                    lemma_entry_fault(self.entries@, i + 1);
                }
                return Err(ZolalError::InvalidRequest(text));
            }
            let ghost before = out@;
            push_le(&mut out, name_len as u64, 2);
            out.extend_from_slice(entry.name.as_str().as_bytes());
            out.push(mime_len as u8);
            out.extend_from_slice(entry.mime.as_str().as_bytes());
            push_le(&mut out, entry.len, 8);
            assert(out@ =~= before + item_bytes(entry.item()));
            assert(out@ =~= head + items_bytes(all.take(i + 1)));
            i = i + 1;
        }
        assert(all.take(i as int) =~= all);
        assert(self.entries@.take(i as int) =~= self.entries@);
        Ok(out)
    }

    /// Parse. Every length is bounds-checked against the input; nothing is allocated from a length
    /// field alone.
    pub fn decode(bytes: &[u8]) -> (r: Result<Self, ZolalError>)
        ensures
            match r {
                Ok(m) => parsed(bytes@) == Ok::<Seq<Item>, Fault>(m.items()),
                Err(e) => parsed(bytes@) == Err::<Seq<Item>, Fault>(e@),
            },
    {
        if bytes.len() < 4 {
            return Err(corrupt("truncated"));
        }
        let count: u64 = le_value(bytes, 0, 4);
        proof {
            assert(bytes@.subrange(0, 4) =~= bytes@.take(4));
            lemma_le_bound(bytes@.take(4));
            lemma_pow256();
        }
        if count * 11 > bytes.len() as u64 {
            return Err(corrupt("entry count exceeds manifest size"));
        }
        let mut entries: Vec<Entry> = Vec::new();
        let mut total: u64 = 0;
        let mut at: usize = 4;
        let mut k: u64 = 0;
        let ghost whole = parse_items(bytes@.skip(4), count as nat, 0);
        proof {
            assert(items(entries@) =~= Seq::<Item>::empty());
            if let Ok(all) = whole {
                assert(items(entries@) + all =~= all);
            }
        }
        while k < count
            invariant
                k <= count,
                4 <= at <= bytes@.len(),
                whole == parse_items(bytes@.skip(4), count as nat, 0),
                whole == after(
                    items(entries@),
                    parse_items(bytes@.skip(at as int), (count - k) as nat, total as nat),
                ),
                parsed(bytes@) == whole,
            decreases count - k,
        {
            let ghost here = bytes@.skip(at as int);
            let (entry, end) = entry_at(bytes, at)?;
            match total.checked_add(entry.len) {
                Some(sum) => {
                    total = sum;
                },
                None => {
                    return Err(corrupt("file lengths overflow"));
                },
            }
            let ghost before = items(entries@);
            let ghost item = entry.item();
            entries.push(entry);
            proof {
                assert(items(entries@) =~= before.push(item));
                assert(here.skip(end - at) =~= bytes@.skip(end as int));
                let rest = parse_items(
                    bytes@.skip(end as int),
                    (count - k - 1) as nat,
                    total as nat,
                );
                if let Ok(more) = rest {
                    assert(before + (seq![item] + more) =~= items(entries@) + more);
                }
            }
            at = end;
            k = k + 1;
        }
        if at < bytes.len() {
            return Err(corrupt("trailing bytes after the last entry"));
        }
        assert(items(entries@) + Seq::<Item>::empty() =~= items(entries@));
        Ok(Manifest { entries })
    }

    /// Reduce a stored name to a safe basename for writing to disk. See
    /// [`crate::payload::names::safe_name`].
    pub fn safe_name(name: &str) -> (r: Option<String>)
        ensures
            match r {
                Some(s) => safe(name@) == Some(s@),
                None => safe(name@) is None,
            },
    {
        safe_name(name)
    }
}

/// `done` and then `rest`.
pub open spec fn after(done: Seq<Item>, rest: Result<Seq<Item>, Fault>) -> Result<Seq<Item>, Fault> {
    match rest {
        Ok(more) => Ok(done + more),
        Err(e) => Err(e),
    }
}

proof fn lemma_content_len(list: Seq<Item>, k: int)
    requires
        0 <= k <= list.len(),
    ensures
        content_len(list.take(k)) <= content_len(list),
    decreases list.len(),
{
    if k < list.len() {
        lemma_content_len(list.drop_last(), k);
        assert(list.drop_last().take(k) =~= list.take(k));
    } else {
        assert(list.take(k) =~= list);
    }
}

proof fn lemma_items_len(list: Seq<Item>, k: int)
    requires
        0 <= k <= list.len(),
    ensures
        items_len(list.take(k)) <= items_len(list),
    decreases list.len(),
{
    if k < list.len() {
        lemma_items_len(list.drop_last(), k);
        assert(list.drop_last().take(k) =~= list.take(k));
    } else {
        assert(list.take(k) =~= list);
    }
}

/// The first fault is the fault.
proof fn lemma_entry_fault(list: Seq<Entry>, k: int)
    requires
        0 <= k <= list.len(),
        entry_fault(list.take(k)) is Some,
    ensures
        entry_fault(list) == entry_fault(list.take(k)),
    decreases list.len(),
{
    if k < list.len() {
        assert(list.drop_last().take(k) =~= list.take(k));
        lemma_entry_fault(list.drop_last(), k);
    } else {
        assert(list.take(k) =~= list);
    }
}

// ---------------------------------------------------------------------------------------------
// MIME types

/// An ASCII letter in lower case.
pub open spec fn lower(c: char) -> char {
    if 'A' <= c && c <= 'Z' {
        (c as u8 + 32) as char
    } else {
        c
    }
}

/// A text with its ASCII letters in lower case.
pub open spec fn lowered(text: Seq<char>) -> Seq<char> {
    text.map_values(|c: char| lower(c))
}

/// The MIME type for an extension in lower case.
pub open spec fn mime_of(ext: Seq<char>) -> Seq<char> {
    if ext == "jpg"@ || ext == "jpeg"@ {
        "image/jpeg"@
    } else if ext == "png"@ {
        "image/png"@
    } else if ext == "heic"@ {
        "image/heic"@
    } else if ext == "heif"@ {
        "image/heif"@
    } else if ext == "gif"@ {
        "image/gif"@
    } else if ext == "webp"@ {
        "image/webp"@
    } else if ext == "mp4"@ || ext == "m4v"@ {
        "video/mp4"@
    } else if ext == "mov"@ {
        "video/quicktime"@
    } else if ext == "pdf"@ {
        "application/pdf"@
    } else if ext == "zip"@ {
        "application/zip"@
    } else if ext == "txt"@ {
        "text/plain"@
    } else if ext == "m4a"@ {
        "audio/mp4"@
    } else if ext == "mp3"@ {
        "audio/mpeg"@
    } else if ext == "wav"@ {
        "audio/wav"@
    } else {
        "application/octet-stream"@
    }
}

/// The MIME type for a name.
pub open spec fn name_mime(name: Seq<char>) -> Seq<char> {
    match last_dot(name) {
        Some(i) => mime_of(lowered(name.skip(i + 1))),
        None => "application/octet-stream"@,
    }
}

fn to_lower(c: char) -> (r: char)
    ensures
        r == lower(c),
{
    if 'A' <= c && c <= 'Z' {
        (c as u8 + 32) as char
    } else {
        c
    }
}

fn same_chars(chars: &Vec<char>, text: &str) -> (r: bool)
    ensures
        r == (chars@ == text@),
{
    let other = chars_of(text);
    if chars.len() != other.len() {
        return false;
    }
    let mut i: usize = 0;
    while i < chars.len()
        invariant
            other@ == text@,
            chars@.len() == other@.len(),
            i <= chars@.len(),
            forall|k: int| 0 <= k < i ==> chars@[k] == other@[k],
        decreases chars@.len() - i,
    {
        if chars[i] != other[i] {
            assert(chars@[i as int] != text@[i as int]);
            return false;
        }
        i = i + 1;
    }
    assert(chars@ =~= other@);
    true
}

/// Best-effort MIME type from a file name, for previews after extraction.
///
/// Only the types someone is likely to hide; everything else is `application/octet-stream`.
pub fn mime_for(name: &str) -> (r: &'static str)
    ensures
        r@ == name_mime(name@),
{
    let all = chars_of(name);
    let mut ext: Vec<char> = Vec::new();
    let mut i: usize = all.len();
    proof {
        assert(all@.take(i as int) =~= all@);
    }
    while i > 0 && all[i - 1] != '.'
        invariant
            all@ == name@,
            i <= all@.len(),
            last_dot(all@) == last_dot(all@.take(i as int)),
        decreases i,
    {
        proof {
            let here = all@.take(i as int);
            assert(here.last() == all@[i - 1]);
            assert(here.drop_last() =~= all@.take(i - 1));
        }
        i = i - 1;
    }
    if i == 0 {
        return "application/octet-stream";
    }
    proof {
        assert(all@.take(i as int).last() == all@[i - 1]);
    }
    let ghost tail = all@.skip(i as int);
    let mut k: usize = i;
    assert(ext@ =~= lowered(tail).take(0));
    while k < all.len()
        invariant
            all@ == name@,
            i <= k <= all@.len(),
            tail == all@.skip(i as int),
            ext@ == lowered(tail).take(k - i),
        decreases all@.len() - k,
    {
        ext.push(to_lower(all[k]));
        k = k + 1;
        assert(ext@ =~= lowered(tail).take(k - i));
    }
    assert(ext@ =~= lowered(tail));
    mime_for_extension(&ext)
}

fn mime_for_extension(ext: &Vec<char>) -> (r: &'static str)
    ensures
        r@ == mime_of(ext@),
{
    if same_chars(ext, "jpg") || same_chars(ext, "jpeg") {
        "image/jpeg"
    } else if same_chars(ext, "png") {
        "image/png"
    } else if same_chars(ext, "heic") {
        "image/heic"
    } else if same_chars(ext, "heif") {
        "image/heif"
    } else if same_chars(ext, "gif") {
        "image/gif"
    } else if same_chars(ext, "webp") {
        "image/webp"
    } else if same_chars(ext, "mp4") || same_chars(ext, "m4v") {
        "video/mp4"
    } else if same_chars(ext, "mov") {
        "video/quicktime"
    } else if same_chars(ext, "pdf") {
        "application/pdf"
    } else if same_chars(ext, "zip") {
        "application/zip"
    } else if same_chars(ext, "txt") {
        "text/plain"
    } else if same_chars(ext, "m4a") {
        "audio/mp4"
    } else if same_chars(ext, "mp3") {
        "audio/mpeg"
    } else if same_chars(ext, "wav") {
        "audio/wav"
    } else {
        "application/octet-stream"
    }
}

// ---------------------------------------------------------------------------------------------
// Laws

/// Items that fit their length fields.
pub open spec fn storable(list: Seq<Item>) -> bool {
    forall|i: int|
        0 <= i < list.len() ==> (#[trigger] list[i]).name.len() <= 0xffff && list[i].mime.len() <= 0xff
            && list[i].len <= u64::MAX && valid_utf8(list[i].name) && valid_utf8(list[i].mime)
}

proof fn lemma_item_round_trip(item: Item, rest: Seq<u8>)
    requires
        item.name.len() <= 0xffff,
        item.mime.len() <= 0xff,
        item.len <= u64::MAX,
        valid_utf8(item.name),
        valid_utf8(item.mime),
    ensures
        parse_item(item_bytes(item) + rest) == Ok::<(Item, int), Fault>(
            (item, item_bytes(item).len() as int),
        ),
        item_bytes(item).len() == 11 + item.name.len() + item.mime.len(),
{
    let n = item.name.len() as int;
    let m = item.mime.len() as int;
    let s = item_bytes(item) + rest;
    lemma_pow256();
    lemma_le_round_trip(item.name.len(), 2);
    lemma_le_round_trip(item.len, 8);
    assert(s.take(2) =~= le_bytes(item.name.len(), 2));
    assert(s.subrange(2, 2 + n) =~= item.name);
    assert(s[2 + n] == m as u8);
    assert(s.subrange(3 + n, 3 + n + m) =~= item.mime);
    assert(s.subrange(3 + n + m, 11 + n + m) =~= le_bytes(item.len, 8));
}

pub proof fn lemma_items_front(list: Seq<Item>)
    requires
        list.len() > 0,
    ensures
        items_bytes(list) == item_bytes(list[0]) + items_bytes(list.drop_first()),
        content_len(list) == list[0].len + content_len(list.drop_first()),
    decreases list.len(),
{
    if list.len() == 1 {
        assert(list.drop_last() =~= Seq::<Item>::empty());
        assert(list.drop_first() =~= Seq::<Item>::empty());
        assert(items_bytes(list) =~= item_bytes(list[0]) + items_bytes(list.drop_first()));
    } else {
        let less = list.drop_last();
        lemma_items_front(less);
        assert(less.drop_first() =~= list.drop_first().drop_last());
        assert(list.drop_first().last() == list.last());
        assert(items_bytes(list) =~= item_bytes(list[0]) + items_bytes(list.drop_first()));
    }
}

proof fn lemma_items_round_trip(list: Seq<Item>, total: nat)
    requires
        storable(list),
        total + content_len(list) <= u64::MAX,
    ensures
        parse_items(items_bytes(list), list.len(), total) == Ok::<Seq<Item>, Fault>(list),
        items_bytes(list).len() >= 11 * list.len(),
        items_bytes(list).len() == items_len(list),
    decreases list.len(),
{
    if list.len() > 0 {
        let item = list[0];
        let rest = list.drop_first();
        assert(forall|i: int| 0 <= i < rest.len() ==> rest[i] == list[i + 1]);
        lemma_items_front(list);
        lemma_item_round_trip(item, items_bytes(rest));
        lemma_items_round_trip(rest, total + item.len);
        assert(items_bytes(list).skip(item_bytes(item).len() as int) =~= items_bytes(rest));
        assert(seq![item] + rest =~= list);
        lemma_items_len_front(list);
    } else {
        assert(items_bytes(list) =~= Seq::<u8>::empty());
        assert(list =~= Seq::<Item>::empty());
    }
}

proof fn lemma_items_len_front(list: Seq<Item>)
    requires
        list.len() > 0,
    ensures
        items_len(list) == 11 + list[0].name.len() + list[0].mime.len() + items_len(list.drop_first()),
    decreases list.len(),
{
    if list.len() == 1 {
        assert(list.drop_last() =~= Seq::<Item>::empty());
        assert(list.drop_first() =~= Seq::<Item>::empty());
    } else {
        let less = list.drop_last();
        lemma_items_len_front(less);
        assert(less.drop_first() =~= list.drop_first().drop_last());
        assert(list.drop_first().last() == list.last());
    }
}

proof fn lemma_storable(list: Seq<Entry>)
    requires
        entry_fault(list) is None,
    ensures
        storable(items(list)),
    decreases list.len(),
{
    if list.len() > 0 {
        lemma_storable(list.drop_last());
        let all = items(list);
        assert forall|i: int| 0 <= i < all.len() implies (#[trigger] all[i]).name.len() <= 0xffff
            && all[i].mime.len() <= 0xff && all[i].len <= u64::MAX && valid_utf8(all[i].name)
            && valid_utf8(all[i].mime) by {
            vstd::utf8::encode_utf8_valid_utf8(list[i].name@);
            vstd::utf8::encode_utf8_valid_utf8(list[i].mime@);
            if i < list.len() - 1 {
                assert(items(list.drop_last())[i] == all[i]);
            }
        }
    }
}

/// A manifest that can be encoded is read back as it was, unless its files are longer than 64 bits can
/// say. Its encoding is exactly as long as [`Manifest::encoded_len`] says.
pub proof fn manifest_round_trips(m: Manifest)
    requires
        encode_fault(m.entries@) is None,
        content_len(m.items()) <= u64::MAX,
    ensures
        parsed(encoded(m.items())) == Ok::<Seq<Item>, Fault>(m.items()),
        encoded(m.items()).len() == 4 + items_len(m.items()),
{
    let list = m.items();
    lemma_storable(m.entries@);
    lemma_items_round_trip(list, 0);
    lemma_pow256();
    lemma_le_round_trip(list.len(), 4);
    assert(encoded(list).take(4) =~= le_bytes(list.len(), 4));
    assert(encoded(list).skip(4) =~= items_bytes(list));
}

proof fn lemma_le_canonical(bytes: Seq<u8>)
    ensures
        le_bytes(le_number(bytes), bytes.len()) == bytes,
    decreases bytes.len(),
{
    if bytes.len() > 0 {
        let rest = bytes.drop_first();
        lemma_le_canonical(rest);
        let n = le_number(bytes);
        assert(n % 256 == bytes[0]);
        assert(n / 256 == le_number(rest));
        assert(le_bytes(n, bytes.len()) =~= seq![bytes[0]] + rest);
        assert(seq![bytes[0]] + rest =~= bytes);
    } else {
        assert(le_bytes(0, 0) =~= bytes);
    }
}

proof fn lemma_parse_item_canonical(s: Seq<u8>)
    ensures
        parse_item(s) matches Ok((item, n)) ==> 11 <= n <= s.len() && item_bytes(item) == s.take(n)
            && item.name.len() <= 0xffff && item.mime.len() <= 0xff,
{
    if let Ok((item, k)) = parse_item(s) {
        let n = item.name.len() as int;
        let m = item.mime.len() as int;
        lemma_le_bound(s.take(2));
        lemma_pow256();
        lemma_le_canonical(s.take(2));
        lemma_le_canonical(s.subrange(3 + n + m, 11 + n + m));
        assert(item_bytes(item) =~= s.take(k));
    }
}

proof fn lemma_parse_items_canonical(s: Seq<u8>, count: nat, total: nat)
    ensures
        parse_items(s, count, total) matches Ok(list) ==> items_bytes(list) == s && list.len() == count
            && total + content_len(list) <= u64::MAX || total > u64::MAX,
    decreases count,
{
    if count == 0 {
        if s.len() == 0 {
            assert(items_bytes(Seq::<Item>::empty()) =~= s);
        }
    } else {
        lemma_parse_item_canonical(s);
        if let Ok((item, n)) = parse_item(s) {
            if total + item.len <= u64::MAX {
                lemma_parse_items_canonical(s.skip(n), (count - 1) as nat, total + item.len);
                if let Ok(rest) = parse_items(s.skip(n), (count - 1) as nat, total + item.len) {
                    let list = seq![item] + rest;
                    assert(list.drop_first() =~= rest);
                    lemma_items_front(list);
                    assert(s.take(n) + s.skip(n) =~= s);
                }
            }
        }
    }
}

/// Every manifest has one encoding: what can be decoded is exactly the encoding of what comes out. Its
/// files never add up to more than 64 bits can say.
pub proof fn manifest_encoding_is_unique(bytes: Seq<u8>)
    ensures
        parsed(bytes) matches Ok(list) ==> encoded(list) == bytes && content_len(list) <= u64::MAX,
{
    if bytes.len() >= 4 {
        let count = le_number(bytes.take(4));
        lemma_le_canonical(bytes.take(4));
        lemma_parse_items_canonical(bytes.skip(4), count, 0);
        assert(bytes.take(4) + bytes.skip(4) =~= bytes);
    }
}

/// A manifest has no more entries than it has room for.
pub proof fn lemma_parsed_len(bytes: Seq<u8>)
    ensures
        parsed(bytes) matches Ok(list) ==> list.len() * 11 <= bytes.len(),
{
    if bytes.len() >= 4 {
        lemma_parse_items_canonical(bytes.skip(4), le_number(bytes.take(4)), 0);
    }
}

} // verus!
