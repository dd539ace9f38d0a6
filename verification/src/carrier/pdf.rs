//! PDF carrier: an unreferenced stream object added by an incremental update.
//!
//! A PDF is read back to front: `startxref` near the end points at a cross-reference section, which
//! locates every object. An *incremental update* appends new objects plus a small cross-reference
//! section chained to the old one by `/Prev`, leaving every existing byte untouched. The added object
//! is referenced from nothing, so no viewer ever renders or even reads it. Writing a real update keeps
//! a valid `startxref` and `%%EOF` at the very end of the file, whatever the payload weighs.
//!
//! ## Two cross-reference forms
//!
//! PDF 1.5 replaced the classic `xref` table with a *cross-reference stream*. The form the file
//! already uses is the one that is appended, and a cross-reference stream is written **uncompressed**,
//! so revealing never needs to inflate anything.
//!
//! ## Reading without loading
//!
//! Nothing here parses the document: the end of the file is read to find `startxref`, one
//! cross-reference section is parsed, and a few object headers are read.
//!
//! ## What is refused
//!
//! Encrypted PDFs are refused for hiding, though not for stripping. A final section that cannot be decoded, such as a
//! compressed cross-reference stream, simply offers nothing to look at.
//!
//! ## Hiding replaces what was there
//!
//! If the file's last section is one that a hide wrote (a single added stream object, laid out exactly
//! so), it is truncated away before the new one is appended. The test is deliberately strict: anything
//! that does not match exactly is left alone.

use super::pdf_syntax::{
    ascii_uint, decimal_value, dict_span, dict_uint, dict_uint_array, dict_value, keyword, last_at,
    lemma_dict_len, lemma_uint, lemma_word_len, lemma_ws_len, read_uint, rfind, skip_ws, span,
    stands_at, starts, uint, uint_of, uints_of, value_of, word_len, ws_len,
};
use super::{
    newly_produced, not_applicable, pump, technique_mismatch, Carrier, Fill, Region, Technique,
    OUTPUT_LIMIT,
};
use crate::bytes::{be_bytes, be_number, be_value, push_be, same_bytes};
use crate::error::{Fault, ZolalError};
use crate::io::{
    clip, copy_range, gathered, read_window, CountingWriter, Read, ReadSeek, RegionReader, Write,
};
use crate::text::{
    decimal, lemma_decimal_len_u64, padded, push_decimal, push_padded, push_text,
    utf8,
};
use vstd::prelude::*;

verus! {

/// How far back from the end the final `startxref` is looked for.
pub const TAIL_WINDOW: usize = 4096;

/// Largest single read. Dictionaries and object headers are far smaller.
pub const MAX_READ: usize = 0x10_0000;

/// Entries collected from one cross-reference section at most. An update of ours holds one or two.
pub const MAX_SECTION_ENTRIES: u64 = 64;

/// Most candidate regions handed to reveal, each costing one key derivation.
pub const MAX_CANDIDATES: usize = 4;

/// A classic cross-reference entry is exactly this long.
pub const TABLE_ENTRY: u64 = 20;

/// Classic tables store offsets as 10 digits, so they cannot address beyond this.
pub const MAX_TABLE_OFFSET: u64 = 9_999_999_999;

// ---------------------------------------------------------------------------------------------
// What the structure of a file is

/// A structural error in a PDF.
pub open spec fn bad(detail: Seq<char>) -> Fault {
    Fault::MalformedContainer { format: "PDF"@, detail }
}

/// The two forms of a cross-reference section.
#[derive(Debug, Clone, Copy, PartialEq, Eq, Structural)]
pub enum XrefForm {
    /// A classic `xref` table followed by a `trailer` dictionary.
    Table,
    /// A cross-reference stream object, whose dictionary is the trailer.
    Stream,
}

/// One cross-reference section.
pub ghost struct SectionAt {
    /// Where the section starts.
    pub offset: int,
    pub form: XrefForm,
    /// In-use objects listed here, as object number and offset. Empty when the section is too big or
    /// encoded in a way that is not decoded.
    pub entries: Seq<(u64, u64)>,
    /// The trailer dictionary.
    pub dict: Seq<u8>,
}

/// What a read at `offset` sees.
pub open spec fn window(c: Seq<u8>, offset: int) -> Seq<u8> {
    clip(c, offset, offset + MAX_READ)
}

/// Where the last cross-reference section stands, by the `startxref` near the end of the file.
#[verifier::opaque]
pub open spec fn startxref(c: Seq<u8>) -> Result<int, Fault> {
    let tail = if c.len() > TAIL_WINDOW {
        c.skip(c.len() - TAIL_WINDOW)
    } else {
        c
    };
    match last_at(tail, utf8("startxref"), tail.len() - 9) {
        None => Err(bad("no startxref near the end of the file"@)),
        Some(pos) => match uint(tail.skip(pos + 9)) {
            None => Err(bad("startxref without an offset"@)),
            Some((offset, _)) => if offset >= c.len() {
                Err(bad("startxref points past the end of the file"@))
            } else {
                Ok(offset as int)
            },
        },
    }
}

/// An object number, which wraps around like any 64-bit sum.
pub open spec fn wrapped(n: int) -> u64 {
    (n % 0x1_0000_0000_0000_0000) as u64
}

/// The offset in one entry of a classic table, if it is in use.
pub open spec fn entry_offset(row: Seq<u8>) -> Option<nat> {
    if row[17] == 0x6e {
        decimal_value(row.subrange(0, 10))
    } else {
        None
    }
}

/// The in-use entries among the first `k` of a subsection.
pub open spec fn table_rows(bytes: Seq<u8>, first: nat, k: nat) -> Seq<(u64, u64)>
    decreases k,
{
    if k == 0 {
        Seq::empty()
    } else {
        let done = table_rows(bytes, first, (k - 1) as nat);
        match entry_offset(bytes.subrange(20 * (k - 1), 20 * k as int)) {
            Some(at) => done.push((wrapped(first + k - 1), at as u64)),
            None => done,
        }
    }
}

/// The rest of a subsection's header line.
pub open spec fn gap_len(s: Seq<u8>) -> int
    decreases s.len(),
{
    if s.len() > 0 && (s[0] == 0x20 || s[0] == 0x0d) {
        1 + gap_len(s.skip(1))
    } else if s.len() > 0 && s[0] == 0x0a {
        1
    } else {
        0
    }
}

/// Where the subsections of a classic table end, and what they hold.
pub ghost struct TableEnd {
    /// Just past `trailer`.
    pub at: int,
    pub total: nat,
    pub entries: Seq<(u64, u64)>,
}

/// A subsection header: the first object, how many there are, and the length of the header.
pub open spec fn subsection(win: Seq<u8>) -> Option<(nat, nat, int)> {
    let i = ws_len(win);
    match uint(win.skip(i)) {
        None => None,
        Some((first, a)) => match uint(win.skip(i + a)) {
            None => None,
            Some((count, b)) => Some(
                (first, count, i + a + b + gap_len(win.skip(i + a + b))),
            ),
        },
    }
}

/// At most 64 bits.
pub open spec fn capped(n: nat) -> nat {
    if n > u64::MAX {
        u64::MAX as nat
    } else {
        n
    }
}

/// The subsections of a classic table from `pos` on.
pub open spec fn table(c: Seq<u8>, pos: int, total: nat, entries: Seq<(u64, u64)>, want: bool) -> Result<
    TableEnd,
    Fault,
>
    decreases c.len() - pos,
{
    let win = clip(c, pos, pos + 64);
    let i = ws_len(win);
    proof {
        lemma_subsection(win);
    }
    if starts(win.skip(i), utf8("trailer")) {
        Ok(TableEnd { at: pos + i + 7, total, entries })
    } else {
        match subsection(win) {
            None => Err(bad("bad cross-reference subsection"@)),
            Some((first, count, j)) => {
                let from = pos + j;
                let to = from + 20 * count;
                if 20 * count > u64::MAX {
                    Err(bad("absurd subsection size"@))
                } else if to > c.len() {
                    Err(bad("cross-reference table runs past the end of the file"@))
                } else {
                    let sum = capped(total + count);
                    let more = if want && sum <= MAX_SECTION_ENTRIES {
                        entries + table_rows(clip(c, from, to), first, count)
                    } else {
                        entries
                    };
                    table(c, to, sum, more, want)
                }
            },
        }
    }
}

pub proof fn lemma_gap_len(s: Seq<u8>)
    ensures
        0 <= gap_len(s) <= s.len(),
    decreases s.len(),
{
    if s.len() > 0 && (s[0] == 0x20 || s[0] == 0x0d) {
        lemma_gap_len(s.skip(1));
    }
}

pub proof fn lemma_subsection(win: Seq<u8>)
    ensures
        subsection(win) matches Some((first, count, j)) ==> 2 <= j <= win.len() && first <= u64::MAX
            && count <= u64::MAX,
        0 <= ws_len(win) <= win.len(),
{
    let i = ws_len(win);
    lemma_ws_len(win);
    lemma_uint(win.skip(i));
    if let Some((first, a)) = uint(win.skip(i)) {
        lemma_uint(win.skip(i + a));
        if let Some((count, b)) = uint(win.skip(i + a)) {
            lemma_gap_len(win.skip(i + a + b));
        }
    }
}

/// The classic section at `offset`.
pub open spec fn table_at(c: Seq<u8>, offset: int, want: bool) -> Result<SectionAt, Fault> {
    match table(c, offset + 4, 0, Seq::empty(), want) {
        Err(e) => Err(e),
        Ok(end) => {
            let win = window(c, end.at);
            match span(win) {
                None => Err(bad("trailer has no dictionary"@)),
                Some((from, to)) => Ok(
                    SectionAt {
                        offset,
                        form: XrefForm::Table,
                        entries: if end.total <= MAX_SECTION_ENTRIES {
                            end.entries
                        } else {
                            Seq::empty()
                        },
                        dict: win.subrange(from, to),
                    },
                ),
            }
        },
    }
}

/// The length of an object header such as `12 0 obj`.
pub open spec fn object_header(win: Seq<u8>) -> Option<int> {
    match uint(win) {
        None => None,
        Some((_, a)) => match uint(win.skip(a)) {
            None => None,
            Some((_, b)) => match word_len(win.skip(a + b), utf8("obj")) {
                None => None,
                Some(k) => Some(a + b + k),
            },
        },
    }
}

/// The length of `stream` and its end-of-line marker.
pub open spec fn stream_opening(s: Seq<u8>) -> Option<int> {
    match word_len(s, utf8("stream")) {
        None => None,
        Some(k) => {
            let e = if k < s.len() && s[k] == 0x0d {
                k + 1
            } else {
                k
            };
            if e < s.len() && s[e] == 0x0a {
                Some(e + 1)
            } else {
                None
            }
        },
    }
}

/// The number that big-endian bytes spell, as far as 64 bits go.
pub open spec fn low_number(bytes: Seq<u8>) -> int
    decreases bytes.len(),
{
    if bytes.len() == 0 {
        0
    } else {
        (low_number(bytes.drop_last()) * 256 + bytes.last()) % 0x1_0000_0000_0000_0000
    }
}

/// One row of a cross-reference stream, if its object is in use: a type field that says so (or is
/// left out), then the offset.
pub open spec fn stream_row(row: Seq<u8>, number: int, w0: int, w1: int) -> Seq<(u64, u64)> {
    if w0 == 0 || low_number(row.take(w0)) == 1 {
        seq![(wrapped(number), be_number(row.subrange(w0, w0 + w1)) as u64)]
    } else {
        Seq::empty()
    }
}

/// The in-use rows of a cross-reference stream from `at` on: `k` of the first subsection of `index`
/// and `seen` in all have been read.
pub open spec fn stream_rows(
    win: Seq<u8>,
    at: int,
    index: Seq<u64>,
    k: int,
    seen: int,
    w0: int,
    w1: int,
    w2: int,
) -> Seq<(u64, u64)>
    decreases index.len(), 64 - seen,
{
    if index.len() < 2 {
        Seq::empty()
    } else if k >= index[1] {
        stream_rows(win, at, index.skip(2), 0, seen, w0, w1, w2)
    } else if seen >= MAX_SECTION_ENTRIES || at + w0 + w1 + w2 > win.len() {
        Seq::empty()
    } else {
        stream_row(win.subrange(at, at + w0 + w1 + w2), index[0] + k, w0, w1) + stream_rows(
            win,
            at + w0 + w1 + w2,
            index,
            k + 1,
            seen + 1,
            w0,
            w1,
            w2,
        )
    }
}

/// The subsections of a cross-reference stream.
pub open spec fn stream_index(dict: Seq<u8>) -> Seq<u64> {
    match uints_of(dict, utf8("Index")) {
        Some(list) => list,
        None => seq![
            0u64,
            match uint_of(dict, utf8("Size")) {
                Some(n) => n as u64,
                None => 0u64,
            },
        ],
    }
}

/// The in-use entries of the cross-reference stream whose body begins at `body`.
pub open spec fn stream_entries(win: Seq<u8>, body: int, dict: Seq<u8>) -> Seq<(u64, u64)> {
    match uints_of(dict, utf8("W")) {
        None => Seq::empty(),
        Some(w) => if w.len() < 3 || w[0] + w[1] + w[2] == 0 || w[1] == 0 || w[1] > 8 {
            Seq::empty()
        } else {
            stream_rows(
                win,
                body,
                stream_index(dict),
                0,
                0,
                w[0] as int,
                w[1] as int,
                w[2] as int,
            )
        },
    }
}

/// The cross-reference stream at `offset`.
pub open spec fn stream_at(c: Seq<u8>, offset: int, want: bool) -> Result<SectionAt, Fault> {
    let win = window(c, offset);
    match object_header(win) {
        None => Err(bad("not a cross-reference section"@)),
        Some(h) => match span(win.skip(h)) {
            None => Err(bad("cross-reference stream has no dictionary"@)),
            Some((from, to)) => {
                let dict = win.subrange(h + from, h + to);
                let entries = if want && value_of(dict, utf8("Filter")) is None {
                    match stream_opening(win.skip(h + to)) {
                        Some(k) => stream_entries(win, h + to + k, dict),
                        None => Seq::empty(),
                    }
                } else {
                    Seq::empty()
                };
                Ok(SectionAt { offset, form: XrefForm::Stream, entries, dict })
            },
        },
    }
}

/// Whether a classic table begins here: `xref` and then whitespace or the end.
pub open spec fn table_begins(head: Seq<u8>) -> bool {
    starts(head, utf8("xref")) && (head.len() <= 4 || head[4] == 0x20 || head[4] == 0x0d || head[4]
        == 0x0a || head[4] == 0x09)
}

/// The cross-reference section at `offset`.
#[verifier::opaque]
pub open spec fn section_of(c: Seq<u8>, offset: int, want: bool) -> Result<SectionAt, Fault> {
    if table_begins(clip(c, offset, offset + 16)) {
        table_at(c, offset, want)
    } else {
        stream_at(c, offset, want)
    }
}

/// The offset a section chains back to, if it is an **appended** update: one whose `/Prev` points
/// backwards.
pub open spec fn update_prev(s: SectionAt) -> Option<nat> {
    match uint_of(s.dict, utf8("Prev")) {
        Some(prev) => if prev < s.offset {
            Some(prev)
        } else {
            None
        },
        None => None,
    }
}

/// The body of the plain, uncompressed stream object at `offset`, as offset and length, if there is
/// one.
#[verifier::opaque]
pub open spec fn body_of(c: Seq<u8>, offset: int) -> Option<(int, int)> {
    let win = window(c, offset);
    match object_header(win) {
        None => None,
        Some(h) => match span(win.skip(h)) {
            None => None,
            Some((from, to)) => {
                let dict = win.subrange(h + from, h + to);
                if value_of(dict, utf8("Filter")) is Some || value_of(dict, utf8("Type")) == Some(
                    utf8("/XRef"),
                ) {
                    None
                } else {
                    match (uint_of(dict, utf8("Length")), stream_opening(win.skip(h + to))) {
                        (Some(len), Some(k)) => {
                            let start = offset + h + to + k;
                            if start + len > c.len() {
                                None
                            } else {
                                Some((start, len as int))
                            }
                        },
                        _ => None,
                    }
                }
            },
        },
    }
}

/// `x` put into a list of numbers that go down.
pub open spec fn insert_down(list: Seq<u64>, x: u64) -> Seq<u64>
    decreases list.len(),
{
    if list.len() > 0 && list.last() < x {
        insert_down(list.drop_last(), x).push(list.last())
    } else {
        list.push(x)
    }
}

/// The offsets of the entries, highest first.
pub open spec fn offsets_down(entries: Seq<(u64, u64)>) -> Seq<u64>
    decreases entries.len(),
{
    if entries.len() == 0 {
        Seq::empty()
    } else {
        insert_down(offsets_down(entries.drop_last()), entries.last().1)
    }
}

/// The places to look among the objects at `offsets`: those that stand after `prev` and are plain
/// streams, `room` of them at most.
pub open spec fn bodies(c: Seq<u8>, offsets: Seq<u64>, prev: int, room: int) -> Seq<Region>
    decreases offsets.len(),
{
    if offsets.len() == 0 || room <= 0 {
        Seq::empty()
    } else if offsets[0] <= prev {
        bodies(c, offsets.skip(1), prev, room)
    } else {
        match body_of(c, offsets[0] as int) {
            Some((start, len)) => seq![
                Region {
                    offset: start as u64,
                    len: len as u64,
                    technique: Technique::PdfObject,
                    fragmented: false,
                },
            ] + bodies(c, offsets.skip(1), prev, room - 1),
            None => bodies(c, offsets.skip(1), prev, room),
        }
    }
}

/// What stands between a payload and the cross-reference section behind it.
pub open spec fn mid() -> Seq<u8> {
    utf8("\nendstream\nendobj\n")
}

/// The first entry that is not the section itself.
pub open spec fn other_entry(entries: Seq<(u64, u64)>, offset: int) -> Option<u64>
    decreases entries.len(),
{
    if entries.len() == 0 {
        None
    } else if entries[0].1 != offset {
        Some(entries[0].1)
    } else {
        other_entry(entries.skip(1), offset)
    }
}

/// How many objects an update adds: the payload, and the cross-reference stream where there is one.
pub open spec fn added(form: XrefForm) -> nat {
    if form == XrefForm::Table {
        1
    } else {
        2
    }
}

/// If `s` is an update that a hide wrote, the offset its payload object starts at, which is the
/// length the file had before.
#[verifier::opaque]
pub open spec fn hide_base(c: Seq<u8>, s: SectionAt) -> Option<int> {
    match update_prev(s) {
        None => None,
        Some(prev) => {
            if s.entries.len() != added(s.form) {
                None
            } else {
                match other_entry(s.entries, s.offset) {
                    None => None,
                    Some(at) => if at <= prev {
                        None
                    } else {
                        match body_of(c, at as int) {
                            Some((start, len)) => if start + len + mid().len() == s.offset {
                                Some(at as int)
                            } else {
                                None
                            },
                            None => None,
                        }
                    },
                }
            }
        },
    }
}

/// Where the document ends that a hide may have appended an update to.
pub open spec fn document_end(c: Seq<u8>) -> Result<int, Fault> {
    match startxref(c) {
        Err(e) => Err(e),
        Ok(at) => match section_of(c, at, true) {
            Err(e) => Err(e),
            Ok(last) => Ok(
                match hide_base(c, last) {
                    None => c.len() as int,
                    Some(base) => base,
                },
            ),
        },
    }
}

/// The section an update chains to, and where the update begins.
#[verifier::opaque]
pub open spec fn anchor(c: Seq<u8>) -> Result<(SectionAt, int), Fault> {
    match startxref(c) {
        Err(e) => Err(e),
        Ok(at) => match section_of(c, at, true) {
            Err(e) => Err(e),
            Ok(last) => if value_of(last.dict, utf8("Encrypt")) is Some {
                Err(
                    Fault::InvalidRequest(
                        "this PDF is encrypted; hiding in it is not supported"@,
                    ),
                )
            } else {
                match hide_base(c, last) {
                    None => Ok((last, c.len() as int)),
                    Some(base) => match section_of(c, update_prev(last)->Some_0 as int, false) {
                        Err(e) => Err(e),
                        Ok(s) => Ok((s, base)),
                    },
                }
            },
        },
    }
}

/// An entry that is carried over from the old trailer.
pub open spec fn carried_entry(dict: Seq<u8>, key: Seq<u8>) -> Seq<u8> {
    match value_of(dict, key) {
        Some(v) => utf8(" /") + key + utf8(" ") + v,
        None => Seq::empty(),
    }
}

/// Everything that is carried over, so that the updated document keeps its identity and metadata.
pub open spec fn carried(dict: Seq<u8>) -> Seq<u8> {
    carried_entry(dict, utf8("ID")) + carried_entry(dict, utf8("Info"))
}

/// The object header before a payload of `n` bytes.
pub open spec fn object_opening(number: nat, n: nat) -> Seq<u8> {
    decimal(number) + utf8(" 0 obj\n<< /Length ") + decimal(n) + utf8(" >>\nstream\n")
}

/// The end of the trailer that both forms share.
pub open spec fn trailer_tail(s: SectionAt, root: Seq<u8>) -> Seq<u8> {
    utf8(" /Root ") + root + utf8(" /Prev ") + decimal(s.offset as nat) + carried(s.dict)
}

/// A classic trailer dictionary.
pub open spec fn table_dict(s: SectionAt, root: Seq<u8>, size: nat) -> Seq<u8> {
    utf8("<< /Size ") + decimal(size + 1) + trailer_tail(s, root) + utf8(" >>")
}

/// A classic section that lists one object at `base`.
pub open spec fn table_bytes(s: SectionAt, root: Seq<u8>, size: nat, base: nat) -> Seq<u8> {
    utf8("xref\n") + decimal(size) + utf8(" 1\n") + padded(base, 10) + utf8(" 00000 n\r\ntrailer\n")
        + table_dict(s, root, size) + utf8("\n")
}

/// One in-use row: type 1, an 8-byte offset, generation 0.
pub open spec fn row_bytes(offset: nat) -> Seq<u8> {
    seq![1u8] + be_bytes(offset, 8) + seq![0u8, 0]
}

/// The dictionary of a cross-reference stream.
pub open spec fn stream_dict(s: SectionAt, root: Seq<u8>, size: nat) -> Seq<u8> {
    utf8("<< /Type /XRef /Size ") + decimal(size + 2) + utf8(" /Index [") + decimal(size) + utf8(" 1 ")
        + decimal(size + 1) + utf8(" 1] /W [1 8 2]") + trailer_tail(s, root) + utf8(" /Length 22 >>")
}

/// A cross-reference stream at `at` that lists one object at `base`, and itself.
pub open spec fn stream_bytes(s: SectionAt, root: Seq<u8>, size: nat, base: nat, at: nat) -> Seq<u8> {
    decimal(size + 1) + utf8(" 0 obj\n") + stream_dict(s, root, size) + utf8("\nstream\n") + row_bytes(
        base,
    ) + row_bytes(at) + mid()
}

/// The very end of a file whose last section is at `at`.
pub open spec fn closing(at: nat) -> Seq<u8> {
    utf8("startxref\n") + decimal(at) + utf8("\n%%EOF\n")
}

/// Where the section of an update begins.
pub open spec fn section_start(size: nat, base: nat, n: nat) -> nat {
    base + object_opening(size, n).len() + n + mid().len()
}

/// What an update appends before and after a payload of `n` bytes, if it chains to `s` and begins at
/// `base`.
#[verifier::opaque]
pub open spec fn update_parts(s: SectionAt, base: nat, n: nat) -> Result<(Seq<u8>, Seq<u8>), Fault> {
    match uint_of(s.dict, utf8("Size")) {
        None => Err(bad("no /Size in trailer"@)),
        Some(size) => match value_of(s.dict, utf8("Root")) {
            None => Err(bad("no /Root in trailer"@)),
            Some(root) => if size + added(s.form) > u64::MAX {
                Err(bad("absurd /Size in trailer"@))
            } else {
                let at = section_start(size, base, n);
                if s.form == XrefForm::Table && (base > MAX_TABLE_OFFSET || at > MAX_TABLE_OFFSET) {
                    Err(
                        Fault::InvalidRequest(
                            "the result would be too large for this PDF's cross-reference table (offsets over 10 digits); use a video carrier instead"@,
                        ),
                    )
                } else {
                    let section = if s.form == XrefForm::Table {
                        table_bytes(s, root, size, base)
                    } else {
                        stream_bytes(s, root, size, base, at)
                    };
                    Ok((object_opening(size, n), mid() + section + closing(at)))
                }
            },
        },
    }
}

// ---------------------------------------------------------------------------------------------
// Reading

fn malformed(detail: &str) -> (r: ZolalError)
    ensures
        r@ == bad(detail@),
{
    ZolalError::MalformedContainer { format: "PDF", detail: detail.to_owned() }
}

/// One cross-reference section.
#[derive(Debug)]
pub struct Section {
    /// Where the section starts: what `startxref` points at, and what a new `/Prev` will say.
    pub offset: u64,
    /// Its form.
    pub form: XrefForm,
    /// In-use objects listed here, as `(object number, offset)`.
    pub entries: Vec<(u64, u64)>,
    /// The trailer dictionary.
    pub dict: Vec<u8>,
}

impl Section {
    /// The section as contracts speak of it.
    pub open spec fn at(&self) -> SectionAt {
        SectionAt {
            offset: self.offset as int,
            form: self.form,
            entries: self.entries@,
            dict: self.dict@,
        }
    }
}

proof fn lemma_words()
    ensures
        utf8("startxref").len() == 9,
        utf8("trailer").len() == 7,
        utf8("xref").len() == 4,
        mid().len() == 18,
{
    reveal_strlit("startxref");
    reveal_strlit("trailer");
    reveal_strlit("xref");
    reveal_strlit("\nendstream\nendobj\n");
    assert("startxref".is_ascii());
    assert("trailer".is_ascii());
    assert("xref".is_ascii());
    assert("\nendstream\nendobj\n".is_ascii());
    vstd::utf8::is_ascii_chars_encode_utf8("startxref"@);
    vstd::utf8::is_ascii_chars_encode_utf8("trailer"@);
    vstd::utf8::is_ascii_chars_encode_utf8("xref"@);
    vstd::utf8::is_ascii_chars_encode_utf8("\nendstream\nendobj\n"@);
}

/// Offset of the last cross-reference section, from the `startxref` near the end of the file.
pub fn last_startxref<S: ReadSeek>(src: &S, file_len: u64) -> (r: Result<u64, ZolalError>)
    requires
        file_len == src.content().len(),
    ensures
        match r {
            Ok(at) => startxref(src.content()) == Ok::<int, Fault>(at as int) && at < file_len,
            Err(e) => (!src.reliable() && e is Io) || startxref(src.content()) == Err::<int, Fault>(
                e@,
            ),
        },
{
    proof {
        reveal(startxref);
    }
    let ghost c = src.content();
    let back: u64 = if file_len < TAIL_WINDOW as u64 { file_len } else { TAIL_WINDOW as u64 };
    let tail = read_window(src, file_len - back, back as usize)?;
    proof {
        lemma_words();
        if c.len() > TAIL_WINDOW {
            assert(tail@ =~= c.skip(c.len() - TAIL_WINDOW));
        } else {
            assert(tail@ =~= c);
        }
    }
    let pos: usize = match rfind(tail.as_slice(), "startxref".as_bytes()) {
        Some(pos) => pos,
        None => {
            return Err(malformed("no startxref near the end of the file"));
        },
    };
    match read_uint(tail.as_slice(), pos + 9) {
        Some((offset, _)) => {
            if offset >= file_len {
                Err(malformed("startxref points past the end of the file"))
            } else {
                Ok(offset)
            }
        },
        None => Err(malformed("startxref without an offset")),
    }
}

fn read_rows(bytes: &Vec<u8>, first: u64, count: u64, entries: &mut Vec<(u64, u64)>)
    requires
        bytes@.len() == 20 * count,
        count <= MAX_SECTION_ENTRIES,
    ensures
        final(entries)@ == old(entries)@ + table_rows(bytes@, first as nat, count as nat),
{
    let mut k: u64 = 0;
    assert(entries@ =~= old(entries)@ + table_rows(bytes@, first as nat, 0));
    while k < count
        invariant
            k <= count,
            bytes@.len() == 20 * count,
            count <= MAX_SECTION_ENTRIES,
            entries@ == old(entries)@ + table_rows(bytes@, first as nat, k as nat),
        decreases count - k,
    {
        let at: usize = (k * TABLE_ENTRY) as usize;
        let ghost row = bytes@.subrange(20 * k, 20 * (k + 1));
        assert(row[17] == bytes@[at + 17]);
        assert(row.subrange(0, 10) =~= bytes@.subrange(at as int, at + 10));
        let ghost before = entries@;
        if bytes[at + 17] == 0x6e {
            if let Some(offset) = ascii_uint(bytes.as_slice(), at, at + 10) {
                entries.push((first.wrapping_add(k), offset));
            }
        }
        assert(entries@ =~= old(entries)@ + table_rows(bytes@, first as nat, (k + 1) as nat));
        k = k + 1;
    }
}

fn skip_gap(win: &Vec<u8>, from: usize) -> (r: usize)
    requires
        from <= win@.len(),
    ensures
        r == from + gap_len(win@.skip(from as int)),
        from <= r <= win@.len(),
{
    let ghost s = win@;
    let mut j: usize = from;
    while j < win.len() && (win[j] == 0x20 || win[j] == 0x0d)
        invariant
            s == win@,
            from <= j <= s.len(),
            gap_len(s.skip(from as int)) == (j - from) + gap_len(s.skip(j as int)),
        decreases s.len() - j,
    {
        assert(s.skip(j as int).skip(1) =~= s.skip(j + 1));
        j = j + 1;
    }
    if j < win.len() && win[j] == 0x0a {
        j = j + 1;
    }
    j
}

/// The subsection header at the start of `win`: the first object, how many there are, and where the
/// entries begin.
fn read_subsection(win: &Vec<u8>) -> (r: Option<(u64, u64, usize)>)
    ensures
        match r {
            Some((first, count, j)) => subsection(win@) == Some((first as nat, count as nat, j as int))
                && 2 <= j <= win@.len(),
            None => subsection(win@) is None,
        },
{
    proof {
        assert(win@.skip(0) =~= win@);
        lemma_subsection(win@);
    }
    let i: usize = skip_ws(win.as_slice(), 0);
    let (first, after_first) = match read_uint(win.as_slice(), i) {
        Some(pair) => pair,
        None => {
            return None;
        },
    };
    let (count, after_count) = match read_uint(win.as_slice(), after_first) {
        Some(pair) => pair,
        None => {
            return None;
        },
    };
    let j: usize = skip_gap(win, after_count);
    Some((first, count, j))
}

/// A classic `xref` table: subsection headers, fixed-width entries, then `trailer`.
fn table_section<S: ReadSeek>(src: &S, offset: u64, file_len: u64, want_entries: bool) -> (r: Result<
    Section,
    ZolalError,
>)
    requires
        file_len == src.content().len(),
        offset + 4 <= file_len,
    ensures
        match r {
            Ok(s) => table_at(src.content(), offset as int, want_entries) == Ok::<SectionAt, Fault>(
                s.at(),
            ) && s.dict@.len() <= MAX_READ,
            Err(e) => (!src.reliable() && e is Io) || table_at(
                src.content(),
                offset as int,
                want_entries,
            ) == Err::<SectionAt, Fault>(e@),
        },
{
    let ghost c = src.content();
    let ghost whole = table(c, offset + 4, 0, Seq::empty(), want_entries);
    let mut pos: u64 = offset + 4;
    let mut entries: Vec<(u64, u64)> = Vec::new();
    let mut total: u64 = 0;
    let trailer_at: u64;
    proof {
        lemma_words();
        assert(entries@ =~= Seq::<(u64, u64)>::empty());
    }
    loop
        invariant
            c == src.content(),
            file_len == c.len(),
            pos <= file_len,
            utf8("trailer").len() == 7,
            whole == table(c, offset + 4, 0, Seq::empty(), want_entries),
            whole == table(c, pos as int, total as nat, entries@, want_entries),
        ensures
            whole == Ok::<TableEnd, Fault>(
                TableEnd { at: trailer_at as int, total: total as nat, entries: entries@ },
            ),
            trailer_at <= file_len,
        decreases file_len - pos,
    {
        let win = read_window(src, pos, 64)?;
        let i: usize = skip_ws(win.as_slice(), 0);
        proof {
            assert(win@.skip(0) =~= win@);
            lemma_subsection(win@);
        }
        if stands_at(win.as_slice(), i, "trailer".as_bytes()) {
            trailer_at = pos + (i + 7) as u64;
            break;
        }
        let (first, count, j) = match read_subsection(&win) {
            Some(header) => header,
            None => {
                return Err(malformed("bad cross-reference subsection"));
            },
        };
        let from: u64 = pos + j as u64;
        let spread: u64 = match count.checked_mul(TABLE_ENTRY) {
            Some(spread) => spread,
            None => {
                return Err(malformed("absurd subsection size"));
            },
        };
        if spread > file_len - from {
            return Err(malformed("cross-reference table runs past the end of the file"));
        }
        total = total.saturating_add(count);
        if want_entries && total <= MAX_SECTION_ENTRIES {
            let bytes = read_window(src, from, spread as usize)?;
            read_rows(&bytes, first, count, &mut entries);
        }
        pos = from + spread;
    }
    let win = read_window(src, trailer_at, MAX_READ)?;
    assert(win@.skip(0) =~= win@);
    match dict_span(win.as_slice(), 0) {
        Some((from, to)) => {
            let part = vstd::slice::slice_subrange(win.as_slice(), from, to);
            let dict = vstd::slice::slice_to_vec(part);
            if total > MAX_SECTION_ENTRIES {
                entries = Vec::new();
                assert(entries@ =~= Seq::<(u64, u64)>::empty());
            }
            Ok(Section { offset, form: XrefForm::Table, entries, dict })
        },
        None => Err(malformed("trailer has no dictionary")),
    }
}

/// Index just past an object header such as `12 0 obj` at the start of `win`.
fn after_object_header(win: &Vec<u8>) -> (r: Option<usize>)
    ensures
        match r {
            Some(h) => object_header(win@) == Some(h as int) && h <= win@.len(),
            None => object_header(win@) is None,
        },
{
    assert(win@.skip(0) =~= win@);
    match read_uint(win.as_slice(), 0) {
        Some((_, a)) => match read_uint(win.as_slice(), a) {
            Some((_, b)) => keyword(win.as_slice(), b, "obj".as_bytes()),
            None => None,
        },
        None => None,
    }
}

/// Index just past `stream` and its end-of-line marker, starting the search at `from`.
fn stream_start(win: &Vec<u8>, from: usize) -> (r: Option<usize>)
    requires
        from <= win@.len(),
    ensures
        match r {
            Some(b) => stream_opening(win@.skip(from as int)) == Some(b - from) && from <= b
                <= win@.len(),
            None => stream_opening(win@.skip(from as int)) is None,
        },
{
    match keyword(win.as_slice(), from, "stream".as_bytes()) {
        Some(i) => {
            let mut k: usize = i;
            if k < win.len() && win[k] == 0x0d {
                k = k + 1;
            }
            if k < win.len() && win[k] == 0x0a {
                Some(k + 1)
            } else {
                None
            }
        },
        None => None,
    }
}

/// The number that big-endian bytes spell, as far as 64 bits go.
fn low_value(win: &Vec<u8>, from: usize, to: usize) -> (r: u64)
    requires
        from <= to <= win@.len(),
    ensures
        r == low_number(win@.subrange(from as int, to as int)),
{
    let mut n: u64 = 0;
    let mut i: usize = from;
    assert(win@.subrange(from as int, from as int) =~= Seq::<u8>::empty());
    while i < to
        invariant
            from <= i <= to <= win@.len(),
            n == low_number(win@.subrange(from as int, i as int)),
        decreases to - i,
    {
        proof {
            let more = win@.subrange(from as int, i + 1);
            assert(more.drop_last() =~= win@.subrange(from as int, i as int));
            assert(more.last() == win@[i as int]);
            let v = n as int * 256 + win@[i as int];
            let m = 0x1_0000_0000_0000_0000int;
            assert(v % m == (n as int * 256) % m + win@[i as int]) by (nonlinear_arith)
                requires
                    v == n as int * 256 + win@[i as int],
                    m == 0x1_0000_0000_0000_0000int,
                    0 <= win@[i as int] < 256,
                    0 <= n as int,
            ;
        }
        n = (n % 0x100_0000_0000_0000) * 256 + win[i] as u64;
        i = i + 1;
    }
    n
}

/// Decode in-use entries from an uncompressed cross-reference stream body.
fn xref_stream_entries(win: &Vec<u8>, body: usize, dict: &Vec<u8>) -> (r: Vec<(u64, u64)>)
    requires
        body <= win@.len(),
        win@.len() <= MAX_READ,
        dict@.len() <= MAX_READ,
    ensures
        r@ == stream_entries(win@, body as int, dict@),
{
    let mut entries: Vec<(u64, u64)> = Vec::new();
    assert(entries@ =~= Seq::<(u64, u64)>::empty());
    let widths = match dict_uint_array(dict.as_slice(), "W".as_bytes()) {
        Some(widths) => widths,
        None => {
            return entries;
        },
    };
    if widths.len() < 3 {
        return entries;
    }
    let (w0, w1, w2): (u64, u64, u64) = (widths[0], widths[1], widths[2]);
    if w1 == 0 || w1 > 8 {
        return entries;
    }
    let index: Vec<u64> = match dict_uint_array(dict.as_slice(), "Index".as_bytes()) {
        Some(index) => index,
        None => {
            let size: u64 = match dict_uint(dict.as_slice(), "Size".as_bytes()) {
                Some(n) => n,
                None => 0,
            };
            let v: Vec<u64> = vec![0, size];
            assert(v@ =~= stream_index(dict@));
            v
        },
    };
    let ghost all = stream_rows(win@, body as int, index@, 0, 0, w0 as int, w1 as int, w2 as int);
    assert(index@ == stream_index(dict@));
    assert(all == stream_entries(win@, body as int, dict@));
    assert(index@.skip(0) =~= index@);
    assert(entries@ + all =~= all);
    let stride: u64 = match w0.checked_add(w2) {
        Some(sum) => match sum.checked_add(w1) {
            Some(sum) => sum,
            None => u64::MAX,
        },
        None => u64::MAX,
    };
    let mut at: usize = body;
    let mut seen: u64 = 0;
    let mut p: usize = 0;
    while index.len() - p >= 2
        invariant
            all == stream_entries(win@, body as int, dict@),
            win@.len() <= MAX_READ,
            at <= win@.len(),
            p <= index@.len(),
            seen <= MAX_SECTION_ENTRIES,
            0 < w1 <= 8,
            stride == w0 + w1 + w2 || (stride == u64::MAX && w0 + w1 + w2 > u64::MAX),
            entries@ + stream_rows(
                win@,
                at as int,
                index@.skip(p as int),
                0,
                seen as int,
                w0 as int,
                w1 as int,
                w2 as int,
            ) == all,
        decreases index@.len() - p,
    {
        let first: u64 = index[p];
        let count: u64 = index[p + 1];
        let ghost rest = index@.skip(p as int);
        assert(rest[0] == first && rest[1] == count);
        let mut k: u64 = 0;
        while k < count
            invariant
                all == stream_entries(win@, body as int, dict@),
                win@.len() <= MAX_READ,
                at <= win@.len(),
                p + 2 <= index@.len(),
                rest == index@.skip(p as int),
                rest[0] == first,
                rest[1] == count,
                k <= count,
                seen <= MAX_SECTION_ENTRIES,
                0 < w1 <= 8,
                stride == w0 + w1 + w2 || (stride == u64::MAX && w0 + w1 + w2 > u64::MAX),
                entries@ + stream_rows(
                    win@,
                    at as int,
                    rest,
                    k as int,
                    seen as int,
                    w0 as int,
                    w1 as int,
                    w2 as int,
                ) == all,
            decreases count - k,
        {
            if seen >= MAX_SECTION_ENTRIES || stride > (win.len() - at) as u64 {
                assert(entries@ + Seq::<(u64, u64)>::empty() =~= entries@);
                return entries;
            }
            let next: usize = at + stride as usize;
            let mid_at: usize = at + w0 as usize;
            let ghost row = win@.subrange(at as int, next as int);
            let ghost before = entries@;
            let ghost more = stream_rows(
                win@,
                next as int,
                rest,
                k + 1,
                seen + 1,
                w0 as int,
                w1 as int,
                w2 as int,
            );
            proof {
                assert(row.take(w0 as int) =~= win@.subrange(at as int, mid_at as int));
                assert(row.subrange(w0 as int, w0 + w1) =~= win@.subrange(
                    mid_at as int,
                    mid_at + w1,
                ));
            }
            if w0 == 0 || low_value(win, at, mid_at) == 1 {
                let offset: u64 = be_value(win.as_slice(), mid_at, mid_at + w1 as usize);
                entries.push((first.wrapping_add(k), offset));
                assert(entries@ =~= before + stream_row(row, first + k, w0 as int, w1 as int));
            } else {
                assert(entries@ =~= before + stream_row(row, first + k, w0 as int, w1 as int));
            }
            assert(entries@ + more =~= before + (stream_row(row, first + k, w0 as int, w1 as int)
                + more));
            at = next;
            k = k + 1;
            seen = seen + 1;
        }
        assert(rest.skip(2) =~= index@.skip(p + 2));
        p = p + 2;
    }
    assert(entries@ + Seq::<(u64, u64)>::empty() =~= entries@);
    entries
}

/// A cross-reference stream: an object whose dictionary is the trailer and whose body is the table in
/// binary. Only uncompressed ones are decoded.
fn stream_section<S: ReadSeek>(src: &S, offset: u64, want_entries: bool) -> (r: Result<
    Section,
    ZolalError,
>)
    ensures
        match r {
            Ok(s) => stream_at(src.content(), offset as int, want_entries) == Ok::<SectionAt, Fault>(
                s.at(),
            ) && s.dict@.len() <= MAX_READ,
            Err(e) => (!src.reliable() && e is Io) || stream_at(
                src.content(),
                offset as int,
                want_entries,
            ) == Err::<SectionAt, Fault>(e@),
        },
{
    let win = read_window(src, offset, MAX_READ)?;
    let h: usize = match after_object_header(&win) {
        Some(h) => h,
        None => {
            return Err(malformed("not a cross-reference section"));
        },
    };
    let (from, to) = match dict_span(win.as_slice(), h) {
        Some(pair) => pair,
        None => {
            return Err(malformed("cross-reference stream has no dictionary"));
        },
    };
    let dict = vstd::slice::slice_to_vec(vstd::slice::slice_subrange(win.as_slice(), from, to));
    let mut entries: Vec<(u64, u64)> = Vec::new();
    assert(entries@ =~= Seq::<(u64, u64)>::empty());
    if want_entries && dict_value(dict.as_slice(), "Filter".as_bytes()).is_none() {
        if let Some(body) = stream_start(&win, to) {
            entries = xref_stream_entries(&win, body, &dict);
        }
    }
    Ok(Section { offset, form: XrefForm::Stream, entries, dict })
}

/// Parse the cross-reference section at `offset`, reading its entries only when asked (and only when
/// there are few enough to be interesting).
pub fn section_at<S: ReadSeek>(src: &S, offset: u64, file_len: u64, want_entries: bool) -> (r: Result<
    Section,
    ZolalError,
>)
    requires
        file_len == src.content().len(),
    ensures
        match r {
            Ok(s) => section_of(src.content(), offset as int, want_entries) == Ok::<SectionAt, Fault>(
                s.at(),
            ) && s.dict@.len() <= MAX_READ,
            Err(e) => (!src.reliable() && e is Io) || section_of(
                src.content(),
                offset as int,
                want_entries,
            ) == Err::<SectionAt, Fault>(e@),
        },
{
    proof {
        reveal(section_of);
    }
    let head = read_window(src, offset, 16)?;
    assert(head@.skip(0) =~= head@);
    proof {
        lemma_words();
    }
    let is_table = stands_at(head.as_slice(), 0, "xref".as_bytes()) && (head.len() <= 4 || head[4]
        == 0x20 || head[4] == 0x0d || head[4] == 0x0a || head[4] == 0x09);
    if is_table {
        table_section(src, offset, file_len, want_entries)
    } else {
        stream_section(src, offset, want_entries)
    }
}

/// The byte range of a plain, uncompressed stream object's body, if `offset` holds one.
///
/// `None` for anything that is never written here: a compressed stream, a cross-reference stream, an
/// indirect `/Length`, or a body running past the end of the file.
fn stream_body<S: ReadSeek>(src: &S, offset: u64, file_len: u64) -> (r: Result<
    Option<(u64, u64)>,
    ZolalError,
>)
    requires
        file_len == src.content().len(),
    ensures
        match r {
            Ok(Some((start, len))) => body_of(src.content(), offset as int) == Some(
                (start as int, len as int),
            ) && start + len <= file_len,
            Ok(None) => body_of(src.content(), offset as int) is None,
            Err(e) => !src.reliable() && e is Io,
        },
{
    proof {
        reveal(body_of);
    }
    let win = read_window(src, offset, MAX_READ)?;
    let h: usize = match after_object_header(&win) {
        Some(h) => h,
        None => {
            return Ok(None);
        },
    };
    let (from, to) = match dict_span(win.as_slice(), h) {
        Some(pair) => pair,
        None => {
            return Ok(None);
        },
    };
    let dict = vstd::slice::slice_subrange(win.as_slice(), from, to);
    if dict_value(dict, "Filter".as_bytes()).is_some() {
        return Ok(None);
    }
    if let Some(kind) = dict_value(dict, "Type".as_bytes()) {
        if same_bytes(kind, "/XRef".as_bytes()) {
            return Ok(None);
        }
    }
    let len: u64 = match dict_uint(dict, "Length".as_bytes()) {
        Some(len) => len,
        None => {
            return Ok(None);
        },
    };
    let body: usize = match stream_start(&win, to) {
        Some(body) => body,
        None => {
            return Ok(None);
        },
    };
    let start: u64 = offset + body as u64;
    if len > file_len - start {
        return Ok(None);
    }
    Ok(Some((start, len)))
}

/// The offset a section chains back to, if it is an appended update.
fn appended_update_prev(section: &Section) -> (r: Option<u64>)
    requires
        section.dict@.len() <= MAX_READ,
    ensures
        match r {
            Some(prev) => update_prev(section.at()) == Some(prev as nat) && prev < section.offset,
            None => update_prev(section.at()) is None,
        },
{
    match dict_uint(section.dict.as_slice(), "Prev".as_bytes()) {
        Some(prev) => if prev < section.offset {
            Some(prev)
        } else {
            None
        },
        None => None,
    }
}

/// The first entry that is not the section itself.
fn first_other(entries: &Vec<(u64, u64)>, offset: u64) -> (r: Option<u64>)
    ensures
        r == other_entry(entries@, offset as int),
{
    let mut i: usize = 0;
    assert(entries@.skip(0) =~= entries@);
    while i < entries.len()
        invariant
            i <= entries@.len(),
            other_entry(entries@, offset as int) == other_entry(
                entries@.skip(i as int),
                offset as int,
            ),
        decreases entries@.len() - i,
    {
        let ghost here = entries@.skip(i as int);
        assert(here[0] == entries@[i as int]);
        assert(here.skip(1) =~= entries@.skip(i + 1));
        if entries[i].1 != offset {
            return Some(entries[i].1);
        }
        i = i + 1;
    }
    None
}

/// If `section` is an update that a hide wrote, the offset its payload object starts at, which is the
/// length the file had before, so truncating there restores the original exactly.
fn previous_hide_base<S: ReadSeek>(src: &S, section: &Section, file_len: u64) -> (r: Result<
    Option<u64>,
    ZolalError,
>)
    requires
        file_len == src.content().len(),
        section.dict@.len() <= MAX_READ,
    ensures
        match r {
            Ok(Some(base)) => hide_base(src.content(), section.at()) == Some(base as int) && base
                <= file_len,
            Ok(None) => hide_base(src.content(), section.at()) is None,
            Err(e) => !src.reliable() && e is Io,
        },
{
    proof {
        reveal(hide_base);
    }
    proof {
        lemma_words();
    }
    let prev: u64 = match appended_update_prev(section) {
        Some(prev) => prev,
        None => {
            return Ok(None);
        },
    };
    let expected: usize = match section.form {
        XrefForm::Table => 1,
        XrefForm::Stream => 2,
    };
    if section.entries.len() != expected {
        return Ok(None);
    }
    let at: u64 = match first_other(&section.entries, section.offset) {
        Some(at) => at,
        None => {
            return Ok(None);
        },
    };
    if at <= prev {
        return Ok(None);
    }
    let (start, len) = match stream_body(src, at, file_len)? {
        Some(pair) => pair,
        None => {
            return Ok(None);
        },
    };
    if section.offset < 18 || start + len != section.offset - 18 {
        return Ok(None);
    }
    proof {
        lemma_body_after(src.content(), at as int);
    }
    Ok(Some(at))
}

/// A body stands behind its object's beginning.
pub proof fn lemma_body_after(c: Seq<u8>, offset: int)
    requires
        0 <= offset,
    ensures
        body_of(c, offset) matches Some((start, len)) ==> offset < start <= start + len <= c.len(),
{
    reveal(body_of);
    let win = window(c, offset);
    lemma_uint(win);
    if let Some((_, a)) = uint(win) {
        lemma_uint(win.skip(a));
        if let Some((_, b)) = uint(win.skip(a)) {
            lemma_word_len(win.skip(a + b), utf8("obj"));
            if let Some(h) = object_header(win) {
                let s = win.skip(h);
                lemma_ws_len(s);
                lemma_dict_len(s.skip(ws_len(s)), 0);
                if let Some((from, to)) = span(s) {
                    lemma_word_len(win.skip(h + to), utf8("stream"));
                }
            }
        }
    }
}

// ---------------------------------------------------------------------------------------------
// Writing

/// Everything an update is made of, with the payload left as a hole in the middle.
#[derive(Debug)]
pub struct Update {
    /// Where the original file is kept up to.
    pub base: u64,
    /// The object header, written before the payload.
    pub prefix: Vec<u8>,
    /// `endstream`/`endobj`, the cross-reference section, `startxref` and `%%EOF`.
    pub suffix: Vec<u8>,
}

fn push_row(data: &mut Vec<u8>, offset: u64)
    ensures
        final(data)@ == old(data)@ + row_bytes(offset as nat),
{
    data.push(1);
    push_be(data, offset, 8);
    data.push(0);
    data.push(0);
    assert(data@ =~= old(data)@ + row_bytes(offset as nat));
}

fn push_carried(out: &mut Vec<u8>, dict: &Vec<u8>, key: &str)
    requires
        dict@.len() <= MAX_READ,
    ensures
        final(out)@ == old(out)@ + carried_entry(dict@, utf8(key)),
        carried_entry(dict@, utf8(key)).len() <= MAX_READ + utf8(key).len() + 16,
{
    proof {
        reveal_strlit(" /");
        reveal_strlit(" ");
        assert(" /".is_ascii());
        assert(" ".is_ascii());
        vstd::utf8::is_ascii_chars_encode_utf8(" /"@);
        vstd::utf8::is_ascii_chars_encode_utf8(" "@);
    }
    if let Some(value) = dict_value(dict.as_slice(), key.as_bytes()) {
        push_text(out, " /");
        push_text(out, key);
        push_text(out, " ");
        out.extend_from_slice(value);
    }
    assert(out@ =~= old(out)@ + carried_entry(dict@, utf8(key)));
}

/// Append the end of the trailer that both forms share.
fn push_trailer_tail(out: &mut Vec<u8>, section: &Section, root: &[u8])
    requires
        section.dict@.len() <= MAX_READ,
        root@.len() <= MAX_READ,
    ensures
        final(out)@ == old(out)@ + trailer_tail(section.at(), root@),
        trailer_tail(section.at(), root@).len() <= 0x100_0000,
{
    let mut kept: Vec<u8> = Vec::new();
    push_carried(&mut kept, &section.dict, "ID");
    push_carried(&mut kept, &section.dict, "Info");
    proof {
        reveal_strlit("ID");
        reveal_strlit("Info");
        reveal_strlit(" /Root ");
        reveal_strlit(" /Prev ");
        assert("ID".is_ascii());
        assert("Info".is_ascii());
        assert(" /Root ".is_ascii());
        assert(" /Prev ".is_ascii());
        vstd::utf8::is_ascii_chars_encode_utf8("ID"@);
        vstd::utf8::is_ascii_chars_encode_utf8("Info"@);
        vstd::utf8::is_ascii_chars_encode_utf8(" /Root "@);
        vstd::utf8::is_ascii_chars_encode_utf8(" /Prev "@);
        lemma_decimal_len_u64(section.offset);
        assert(kept@ =~= carried(section.dict@));
    }
    push_text(out, " /Root ");
    out.extend_from_slice(root);
    push_text(out, " /Prev ");
    push_decimal(out, section.offset);
    out.extend_from_slice(kept.as_slice());
    assert(out@ =~= old(out)@ + trailer_tail(section.at(), root@));
}

/// Append a classic section that lists one object at `base`.
fn push_table(out: &mut Vec<u8>, section: &Section, root: &[u8], size: u64, base: u64)
    requires
        section.dict@.len() <= MAX_READ,
        root@.len() <= MAX_READ,
        size < u64::MAX,
    ensures
        final(out)@ == old(out)@ + table_bytes(section.at(), root@, size as nat, base as nat),
        table_bytes(section.at(), root@, size as nat, base as nat).len() <= 0x101_0000,
{
    let ghost s = section.at();
    proof {
        lemma_update_words();
        lemma_decimal_len_u64(size);
        lemma_decimal_len_u64((size + 1) as u64);
        lemma_decimal_len_u64(base);
    }
    push_text(out, "xref\n");
    push_decimal(out, size);
    push_text(out, " 1\n");
    push_padded(out, base, 10);
    push_text(out, " 00000 n\r\ntrailer\n");
    let ghost before = out@;
    push_text(out, "<< /Size ");
    push_decimal(out, size + 1);
    push_trailer_tail(out, section, root);
    push_text(out, " >>");
    assert(out@ =~= before + table_dict(s, root@, size as nat));
    push_text(out, "\n");
    assert(out@ =~= old(out)@ + table_bytes(s, root@, size as nat, base as nat));
}

/// Append the dictionary of a cross-reference stream.
fn push_stream_dict(out: &mut Vec<u8>, section: &Section, root: &[u8], size: u64)
    requires
        section.dict@.len() <= MAX_READ,
        root@.len() <= MAX_READ,
        size < u64::MAX - 1,
    ensures
        final(out)@ == old(out)@ + stream_dict(section.at(), root@, size as nat),
        stream_dict(section.at(), root@, size as nat).len() <= 0x100_f000,
{
    let ghost s = section.at();
    proof {
        lemma_update_words();
        lemma_decimal_len_u64(size);
        lemma_decimal_len_u64((size + 1) as u64);
        lemma_decimal_len_u64((size + 2) as u64);
    }
    push_text(out, "<< /Type /XRef /Size ");
    push_decimal(out, size + 2);
    push_text(out, " /Index [");
    push_decimal(out, size);
    push_text(out, " 1 ");
    push_decimal(out, size + 1);
    push_text(out, " 1] /W [1 8 2]");
    push_trailer_tail(out, section, root);
    push_text(out, " /Length 22 >>");
    assert(out@ =~= old(out)@ + stream_dict(s, root@, size as nat));
}

/// Append a cross-reference stream at `at` that lists one object at `base`, and itself.
fn push_stream(out: &mut Vec<u8>, section: &Section, root: &[u8], size: u64, base: u64, at: u64)
    requires
        section.dict@.len() <= MAX_READ,
        root@.len() <= MAX_READ,
        size < u64::MAX - 1,
    ensures
        final(out)@ == old(out)@ + stream_bytes(
            section.at(),
            root@,
            size as nat,
            base as nat,
            at as nat,
        ),
        stream_bytes(section.at(), root@, size as nat, base as nat, at as nat).len() <= 0x101_0000,
{
    let ghost s = section.at();
    proof {
        lemma_words();
        lemma_update_words();
        lemma_decimal_len_u64((size + 1) as u64);
        crate::bytes::lemma_be_bytes_len(base as nat, 8);
        crate::bytes::lemma_be_bytes_len(at as nat, 8);
    }
    push_decimal(out, size + 1);
    push_text(out, " 0 obj\n");
    push_stream_dict(out, section, root, size);
    push_text(out, "\nstream\n");
    push_row(out, base);
    push_row(out, at);
    push_text(out, "\nendstream\nendobj\n");
    assert(out@ =~= old(out)@ + stream_bytes(s, root@, size as nat, base as nat, at as nat));
}

/// Append the very end of a file whose last section is at `at`.
fn push_closing(out: &mut Vec<u8>, at: u64)
    ensures
        final(out)@ == old(out)@ + closing(at as nat),
        closing(at as nat).len() <= 64,
{
    proof {
        lemma_update_words();
        lemma_decimal_len_u64(at);
    }
    push_text(out, "startxref\n");
    push_decimal(out, at);
    push_text(out, "\n%%EOF\n");
    assert(out@ =~= old(out)@ + closing(at as nat));
}

/// Append the object header before a payload of `n` bytes.
fn push_opening(out: &mut Vec<u8>, number: u64, n: u64)
    ensures
        final(out)@ == old(out)@ + object_opening(number as nat, n as nat),
        object_opening(number as nat, n as nat).len() <= 80,
{
    proof {
        lemma_update_words();
        lemma_decimal_len_u64(number);
        lemma_decimal_len_u64(n);
    }
    push_decimal(out, number);
    push_text(out, " 0 obj\n<< /Length ");
    push_decimal(out, n);
    push_text(out, " >>\nstream\n");
    assert(out@ =~= old(out)@ + object_opening(number as nat, n as nat));
}

/// Build the bytes around the payload, chaining to `section` and starting at `base`.
pub fn build_update(section: &Section, base: u64, region_len: u64) -> (r: Result<Update, ZolalError>)
    requires
        section.dict@.len() <= MAX_READ,
        base + region_len <= OUTPUT_LIMIT,
    ensures
        match r {
            Ok(u) => {
                &&& update_parts(section.at(), base as nat, region_len as nat) == Ok::<
                    (Seq<u8>, Seq<u8>),
                    Fault,
                >((u.prefix@, u.suffix@))
                &&& u.base == base
                &&& u.prefix@.len() + u.suffix@.len() <= 0x200_0000
            },
            Err(e) => update_parts(section.at(), base as nat, region_len as nat) == Err::<
                (Seq<u8>, Seq<u8>),
                Fault,
            >(e@),
        },
{
    proof {
        reveal(update_parts);
    }
    let size: u64 = match dict_uint(section.dict.as_slice(), "Size".as_bytes()) {
        Some(size) => size,
        None => {
            return Err(malformed("no /Size in trailer"));
        },
    };
    let root = match dict_value(section.dict.as_slice(), "Root".as_bytes()) {
        Some(root) => root,
        None => {
            return Err(malformed("no /Root in trailer"));
        },
    };
    let new: u64 = match section.form {
        XrefForm::Table => 1,
        XrefForm::Stream => 2,
    };
    if size > u64::MAX - new {
        return Err(malformed("absurd /Size in trailer"));
    }
    proof {
        lemma_words();
    }
    let mut prefix: Vec<u8> = Vec::new();
    push_opening(&mut prefix, size, region_len);
    assert(prefix@ =~= object_opening(size as nat, region_len as nat));
    let at: u64 = base + prefix.len() as u64 + region_len + 18;
    let mut suffix: Vec<u8> = Vec::new();
    push_text(&mut suffix, "\nendstream\nendobj\n");
    assert(suffix@ =~= mid());
    match section.form {
        XrefForm::Table => {
            if base > MAX_TABLE_OFFSET || at > MAX_TABLE_OFFSET {
                return Err(
                    ZolalError::InvalidRequest(
                        "the result would be too large for this PDF's cross-reference table (offsets over 10 digits); use a video carrier instead".to_owned(),
                    ),
                );
            }
            push_table(&mut suffix, section, root, size, base);
        },
        XrefForm::Stream => {
            push_stream(&mut suffix, section, root, size, base, at);
        },
    }
    push_closing(&mut suffix, at);
    Ok(Update { base, prefix, suffix })
}

/// How long the fixed parts of an update are.
proof fn lemma_update_words()
    ensures
        utf8(" 0 obj\n<< /Length ").len() == 18,
        utf8(" >>\nstream\n").len() == 11,
        utf8("xref\n").len() == 5,
        utf8(" 1\n").len() == 3,
        utf8(" 00000 n\r\ntrailer\n").len() == 18,
        utf8("<< /Size ").len() == 9,
        utf8(" >>").len() == 3,
        utf8("\n").len() == 1,
        utf8(" 0 obj\n").len() == 7,
        utf8("<< /Type /XRef /Size ").len() == 21,
        utf8(" /Index [").len() == 9,
        utf8(" 1 ").len() == 3,
        utf8(" 1] /W [1 8 2]").len() == 14,
        utf8(" /Length 22 >>").len() == 14,
        utf8("\nstream\n").len() == 8,
        utf8("startxref\n").len() == 10,
        utf8("\n%%EOF\n").len() == 7,
{
    reveal_strlit(" 0 obj\n<< /Length ");
    reveal_strlit(" >>\nstream\n");
    reveal_strlit("xref\n");
    reveal_strlit(" 1\n");
    reveal_strlit(" 00000 n\r\ntrailer\n");
    reveal_strlit("<< /Size ");
    reveal_strlit(" >>");
    reveal_strlit("\n");
    reveal_strlit(" 0 obj\n");
    reveal_strlit("<< /Type /XRef /Size ");
    reveal_strlit(" /Index [");
    reveal_strlit(" 1 ");
    reveal_strlit(" 1] /W [1 8 2]");
    reveal_strlit(" /Length 22 >>");
    reveal_strlit("\nstream\n");
    reveal_strlit("startxref\n");
    reveal_strlit("\n%%EOF\n");
    assert forall|t: Seq<char>| vstd::utf8::is_ascii_chars(t) implies #[trigger] vstd::utf8::encode_utf8(
        t,
    ).len() == t.len() by {
        vstd::utf8::is_ascii_chars_encode_utf8(t);
    }
    assert(" 0 obj\n<< /Length ".is_ascii());
    assert(" >>\nstream\n".is_ascii());
    assert("xref\n".is_ascii());
    assert(" 1\n".is_ascii());
    assert(" 00000 n\r\ntrailer\n".is_ascii());
    assert("<< /Size ".is_ascii());
    assert(" >>".is_ascii());
    assert("\n".is_ascii());
    assert(" 0 obj\n".is_ascii());
    assert("<< /Type /XRef /Size ".is_ascii());
    assert(" /Index [".is_ascii());
    assert(" 1 ".is_ascii());
    assert(" 1] /W [1 8 2]".is_ascii());
    assert(" /Length 22 >>".is_ascii());
    assert("\nstream\n".is_ascii());
    assert("startxref\n".is_ascii());
    assert("\n%%EOF\n".is_ascii());
}

/// Work out the update to append: which section to chain to, where to truncate, and the exact bytes on
/// either side of the payload.
fn plan_update<S: ReadSeek>(src: &S, region_len: u64) -> (r: Result<Update, ZolalError>)
    requires
        src.content().len() + region_len <= OUTPUT_LIMIT,
    ensures
        match r {
            Ok(u) => {
                &&& u.base <= src.content().len()
                &&& u.prefix@.len() + u.suffix@.len() <= 0x200_0000
                &&& anchor(src.content()) matches Ok((s, base)) && base == u.base && update_parts(
                    s,
                    base as nat,
                    region_len as nat,
                ) == Ok::<(Seq<u8>, Seq<u8>), Fault>((u.prefix@, u.suffix@))
            },
            Err(e) => (!src.reliable() && e is Io) || planned(src.content(), region_len as nat)
                == Err::<(int, Seq<u8>, Seq<u8>), Fault>(e@),
        },
{
    proof {
        reveal(anchor);
        reveal(hide_base);
    }
    let file_len: u64 = match src.size() {
        Ok(n) => n,
        Err(e) => {
            return Err(ZolalError::from_io(e));
        },
    };
    let at: u64 = last_startxref(src, file_len)?;
    let last = section_at(src, at, file_len, true)?;
    if dict_value(last.dict.as_slice(), "Encrypt".as_bytes()).is_some() {
        return Err(
            ZolalError::InvalidRequest(
                "this PDF is encrypted; hiding in it is not supported".to_owned(),
            ),
        );
    }
    match previous_hide_base(src, &last, file_len)? {
        Some(base) => {
            let prev: u64 = match appended_update_prev(&last) {
                Some(prev) => prev,
                None => {
                    return Err(malformed("update section without a backward /Prev"));
                },
            };
            let chain_to = section_at(src, prev, file_len, false)?;
            build_update(&chain_to, base, region_len)
        },
        None => build_update(&last, file_len, region_len),
    }
}

/// Find where the document ends that a hide may have appended an update to: at the end of the file, or
/// where that update begins.
fn find_document_end<S: ReadSeek>(src: &S) -> (r: Result<u64, ZolalError>)
    ensures
        match r {
            Ok(end) => document_end(src.content()) == Ok::<int, Fault>(end as int) && end
                <= src.content().len(),
            Err(e) => (!src.reliable() && e is Io) || document_end(src.content()) == Err::<int, Fault>(
                e@,
            ),
        },
{
    let file_len: u64 = match src.size() {
        Ok(n) => n,
        Err(e) => {
            return Err(ZolalError::from_io(e));
        },
    };
    let at: u64 = last_startxref(src, file_len)?;
    let last = section_at(src, at, file_len, true)?;
    match previous_hide_base(src, &last, file_len)? {
        Some(base) => Ok(base),
        None => Ok(file_len),
    }
}

/// Where an update begins and what it puts around a payload of `n` bytes.
pub open spec fn planned(c: Seq<u8>, n: nat) -> Result<(int, Seq<u8>, Seq<u8>), Fault> {
    match anchor(c) {
        Err(e) => Err(e),
        Ok((s, base)) => match update_parts(s, base as nat, n) {
            Err(e) => Err(e),
            Ok((prefix, suffix)) => Ok((base, prefix, suffix)),
        },
    }
}

/// Put `x` into a list of numbers that go down.
fn insert(list: &mut Vec<u64>, x: u64)
    ensures
        final(list)@ == insert_down(old(list)@, x),
{
    let ghost before = list@;
    let mut i: usize = list.len();
    assert(before.take(i as int) =~= before);
    assert(insert_down(before.take(i as int), x) + before.skip(i as int) =~= insert_down(before, x));
    while i > 0 && list[i - 1] < x
        invariant
            list@ == before,
            i <= before.len(),
            insert_down(before.take(i as int), x) + before.skip(i as int) == insert_down(before, x),
        decreases i,
    {
        proof {
            let here = before.take(i as int);
            let less = before.take(i - 1);
            assert(here.drop_last() =~= less);
            assert(here.last() == before[i - 1]);
            assert(insert_down(here, x) + before.skip(i as int) =~= insert_down(less, x) + before.skip(
                i - 1,
            ));
        }
        i = i - 1;
    }
    list.insert(i, x);
    assert(list@ =~= before.take(i as int).push(x) + before.skip(i as int));
}

/// The offsets of the entries, highest first.
fn sorted_offsets(entries: &Vec<(u64, u64)>) -> (r: Vec<u64>)
    ensures
        r@ == offsets_down(entries@),
{
    let mut out: Vec<u64> = Vec::new();
    let mut i: usize = 0;
    assert(entries@.take(0) =~= Seq::<(u64, u64)>::empty());
    assert(out@ =~= Seq::<u64>::empty());
    while i < entries.len()
        invariant
            i <= entries@.len(),
            out@ == offsets_down(entries@.take(i as int)),
        decreases entries@.len() - i,
    {
        assert(entries@.take(i + 1).drop_last() =~= entries@.take(i as int));
        insert(&mut out, entries[i].1);
        i = i + 1;
    }
    assert(entries@.take(i as int) =~= entries@);
    out
}

// ---------------------------------------------------------------------------------------------
// The carrier

/// PDF carrier implementation.
pub struct PdfCarrier;

impl Carrier for PdfCarrier {
    open spec fn recognised(head: Seq<u8>) -> bool {
        starts(head, utf8("%PDF-"))
    }

    open spec fn regions(content: Seq<u8>) -> Result<Seq<Region>, Fault> {
        match startxref(content) {
            Err(e) => Err(e),
            Ok(at) => match section_of(content, at, true) {
                Err(e) => Err(e),
                Ok(last) => match update_prev(last) {
                    None => Ok(Seq::empty()),
                    Some(prev) => Ok(
                        bodies(
                            content,
                            offsets_down(last.entries),
                            prev as int,
                            MAX_CANDIDATES as int,
                        ),
                    ),
                },
            },
        }
    }

    open spec fn region_bytes(content: Seq<u8>, region: Region) -> Result<Seq<u8>, Fault> {
        Ok(gathered(content, seq![(region.offset, region.len)]))
    }

    open spec fn embedded(content: Seq<u8>, technique: Technique, region: Seq<u8>) -> Seq<u8> {
        match planned(content, region.len()) {
            Ok((base, prefix, suffix)) => clip(content, 0, base) + prefix + region + suffix,
            Err(_) => Seq::empty(),
        }
    }

    open spec fn embedded_len(content: Seq<u8>, technique: Technique, region_len: nat) -> Result<
        nat,
        Fault,
    > {
        if technique != Technique::PdfObject {
            Err(not_applicable(technique, " does not apply to a PDF carrier"@))
        } else {
            match planned(content, region_len) {
                Ok((base, prefix, suffix)) => Ok(
                    (base + prefix.len() + region_len + suffix.len()) as nat,
                ),
                Err(e) => Err(e),
            }
        }
    }

    open spec fn stripped(content: Seq<u8>) -> Result<Seq<u8>, Fault> {
        match document_end(content) {
            Ok(end) => Ok(clip(content, 0, end)),
            Err(e) => Err(e),
        }
    }

    open spec fn reencoded(content: Seq<u8>) -> Result<bool, Fault> {
        Ok(false)
    }

    fn probe(head: &[u8]) -> (r: bool) {
        assert(head@.skip(0) =~= head@);
        stands_at(head, 0, "%PDF-".as_bytes())
    }

    fn candidate_regions<S: ReadSeek>(&self, src: &S) -> (r: Result<Vec<Region>, ZolalError>) {
        let file_len: u64 = match src.size() {
            Ok(n) => n,
            Err(e) => {
                return Err(ZolalError::from_io(e));
            },
        };
        let at: u64 = last_startxref(src, file_len)?;
        let last = section_at(src, at, file_len, true)?;
        let ghost c = src.content();
        let mut regions: Vec<Region> = Vec::new();
        let prev: u64 = match appended_update_prev(&last) {
            Some(prev) => prev,
            None => {
                assert(regions@ =~= Seq::<Region>::empty());
                return Ok(regions);
            },
        };
        let offsets = sorted_offsets(&last.entries);
        let ghost all = bodies(c, offsets@, prev as int, MAX_CANDIDATES as int);
        let mut i: usize = 0;
        assert(offsets@.skip(0) =~= offsets@);
        assert(regions@ + all =~= all);
        while i < offsets.len() && regions.len() < MAX_CANDIDATES
            invariant
                c == src.content(),
                file_len == c.len(),
                i <= offsets@.len(),
                regions@.len() <= MAX_CANDIDATES,
                regions@ + bodies(
                    c,
                    offsets@.skip(i as int),
                    prev as int,
                    MAX_CANDIDATES - regions@.len(),
                ) == all,
                Self::regions(c) == Ok::<Seq<Region>, Fault>(all),
            decreases offsets@.len() - i,
        {
            let ghost here = offsets@.skip(i as int);
            let ghost before = regions@;
            assert(here[0] == offsets@[i as int]);
            assert(here.skip(1) =~= offsets@.skip(i + 1));
            if offsets[i] > prev {
                if let Some((start, len)) = stream_body(src, offsets[i], file_len)? {
                    let region = Region {
                        offset: start,
                        len,
                        technique: Technique::PdfObject,
                        fragmented: false,
                    };
                    regions.push(region);
                    proof {
                        let more = bodies(
                            c,
                            offsets@.skip(i + 1),
                            prev as int,
                            MAX_CANDIDATES - regions@.len(),
                        );
                        assert(regions@ + more =~= before + (seq![region] + more));
                    }
                }
            }
            i = i + 1;
        }
        assert(regions@ + Seq::<Region>::empty() =~= regions@);
        Ok(regions)
    }

    fn open_region<'a, S: ReadSeek>(&self, src: &'a S, region: &Region) -> (r: Result<
        RegionReader<'a, S>,
        ZolalError,
    >) {
        let mut parts: Vec<(u64, u64)> = Vec::new();
        parts.push((region.offset, region.len));
        assert(parts@ =~= seq![(region.offset, region.len)]);
        Ok(RegionReader::new(src, parts))
    }

    fn embed<S: ReadSeek, W: Write, F: Fill>(
        &self,
        src: &S,
        dst: &mut W,
        technique: Technique,
        region_len: u64,
        fill: &mut F,
    ) -> (r: Result<u64, ZolalError>) {
        if technique != Technique::PdfObject {
            return Err(technique_mismatch(technique, " does not apply to a PDF carrier"));
        }
        let update = plan_update(src, region_len)?;
        let ghost c = src.content();
        let mut out = CountingWriter::new(dst);
        copy_range(
            src,
            &mut out,
            0,
            update.base,
            malformed("carrier changed while it was being read"),
        )?;
        match out.write_all(update.prefix.as_slice()) {
            Ok(()) => {},
            Err(e) => {
                return Err(ZolalError::from_io(e));
            },
        }
        pump(&mut out, fill, region_len)?;
        match out.write_all(update.suffix.as_slice()) {
            Ok(()) => {},
            Err(e) => {
                return Err(ZolalError::from_io(e));
            },
        }
        proof {
            let region = newly_produced(*old(fill), *fill);
            assert(out.written() =~= old(dst).written() + Self::embedded(c, technique, region));
        }
        Ok(out.count())
    }

    fn output_len<S: ReadSeek>(&self, src: &S, technique: Technique, region_len: u64) -> (r: Result<
        u64,
        ZolalError,
    >) {
        if technique != Technique::PdfObject {
            return Err(technique_mismatch(technique, " does not apply to a PDF carrier"));
        }
        let update = plan_update(src, region_len)?;
        Ok(
            update.base + (update.prefix.len() as u64 + update.suffix.len() as u64) + region_len,
        )
    }

    fn strip<S: ReadSeek, W: Write>(&self, src: &S, dst: &mut W) -> (r: Result<u64, ZolalError>) {
        let end: u64 = find_document_end(src)?;
        let mut out = CountingWriter::new(dst);
        copy_range(
            src,
            &mut out,
            0,
            end,
            malformed("carrier changed while it was being read"),
        )?;
        Ok(out.count())
    }

    fn looks_reencoded<S: ReadSeek>(&self, src: &S) -> (r: Result<bool, ZolalError>) {
        Ok(false)
    }
}

} // verus!
