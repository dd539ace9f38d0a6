//! What hiding in a PDF does to a document given part by part: one with a classic cross-reference table, a
//! trailer and a `startxref` at its end.

use super::pdf::{
    anchor, bodies, body_of, closing, gap_len, hide_base, insert_down, lemma_body_after, offsets_down,
    section_of, section_start, startxref, subsection, table, table_rows, update_parts, update_prev,
    wrapped, PdfCarrier, SectionAt, TableEnd, XrefForm,
};
use super::pdf_laws::{
    lemma_clip_front, lemma_closing, lemma_no_mark, lemma_no_trailer, lemma_offset_listed,
    lemma_padded, lemma_starts_further, lemma_stream_object, lemma_table_begins,
    lemma_text_nl_endstream_nl_endobj_nl, lemma_text_nl_eof_nl, lemma_text_sp_0_obj_nl_open_length,
    lemma_text_sp_close_nl_stream_nl, lemma_text_startxref_nl, lemma_text_trailer, lemma_text_xref,
    lemma_trailer, lemma_uint_alone, lemma_window_front,
};
use super::pdf_lemmas::{
    all_sound, dict_of, find, lemma_dict_of, lemma_no_ws, lemma_one_space, lemma_uint_here,
    lemma_uint_spaced,
};
use super::pdf_syntax::{starts, uint, uint_of, value_of, ws_len};
use super::{Carrier, Region, Technique};
use crate::error::Fault;
use crate::io::clip;
use crate::text::{decimal, is_digit, lemma_decimal_digits, lemma_decimal_len_u64, padded, utf8};
use vstd::prelude::*;

verus! {

/// A row of a cross-reference table.
pub ghost struct TableRow {
    pub offset: nat,
    /// Whether the object is in use.
    pub used: bool,
}

/// The twenty bytes of a row.
pub open spec fn row_text(r: TableRow) -> Seq<u8> {
    padded(r.offset, 10) + seq![
        0x20u8,
        0x30,
        0x30,
        0x30,
        0x30,
        0x30,
        0x20,
        if r.used {
            0x6eu8
        } else {
            0x66u8
        },
        0x0d,
        0x0a,
    ]
}

/// Rows back to back.
pub open spec fn rows_text(rows: Seq<TableRow>) -> Seq<u8>
    decreases rows.len(),
{
    if rows.len() == 0 {
        Seq::empty()
    } else {
        rows_text(rows.drop_last()) + row_text(rows.last())
    }
}

/// The numbers and offsets of the objects in use.
pub open spec fn in_use(rows: Seq<TableRow>, first: nat) -> Seq<(u64, u64)>
    decreases rows.len(),
{
    if rows.len() == 0 {
        Seq::empty()
    } else if rows.last().used {
        in_use(rows.drop_last(), first).push(((first + rows.len() - 1) as u64, rows.last().offset as u64))
    } else {
        in_use(rows.drop_last(), first)
    }
}

/// The head of a table: `xref`, the number of the first object and how many there are.
pub open spec fn table_head(first: nat, count: nat) -> Seq<u8> {
    seq![0x78u8, 0x72, 0x65, 0x66, 0x0a] + decimal(first) + seq![0x20u8] + decimal(count) + seq![0x0au8]
}

/// A document: its objects, a table of them, a trailer, and where the table stands.
pub open spec fn document(
    body: Seq<u8>,
    first: nat,
    rows: Seq<TableRow>,
    pairs: Seq<(Seq<u8>, Seq<u8>)>,
) -> Seq<u8> {
    body + table_head(first, rows.len()) + rows_text(rows) + seq![
        0x74u8,
        0x72,
        0x61,
        0x69,
        0x6c,
        0x65,
        0x72,
        0x0a,
    ] + dict_of(pairs) + seq![0x0au8] + seq![0x73u8, 0x74, 0x61, 0x72, 0x74, 0x78, 0x72, 0x65, 0x66, 0x0a]
        + decimal(body.len()) + seq![0x0au8, 0x25, 0x25, 0x45, 0x4f, 0x46, 0x0a]
}

/// What a document needs to be one.
pub open spec fn document_valid(
    body: Seq<u8>,
    first: nat,
    rows: Seq<TableRow>,
    pairs: Seq<(Seq<u8>, Seq<u8>)>,
) -> bool {
    &&& all_sound(pairs)
    &&& dict_of(pairs).len() + 2 <= 0x10_0000
    &&& first + rows.len() <= u64::MAX
    &&& 20 * rows.len() <= u64::MAX
    &&& forall|i: int| 0 <= i < rows.len() ==> (#[trigger] rows[i]).offset <= 9_999_999_999
    &&& body.len() <= u64::MAX
}

/// Rows are read as what they are made of.
proof fn lemma_rows_read(bytes: Seq<u8>, first: nat, rows: Seq<TableRow>)
    requires
        starts(bytes, rows_text(rows)),
        first + rows.len() <= u64::MAX,
        forall|i: int| 0 <= i < rows.len() ==> (#[trigger] rows[i]).offset <= 9_999_999_999,
    ensures
        rows_text(rows).len() == 20 * rows.len(),
        table_rows(bytes, first, rows.len()) == in_use(rows, first),
    decreases rows.len(),
{
    if rows.len() > 0 {
        let less = rows.drop_last();
        let r = rows.last();
        let k = rows.len() as int;
        assert(r == rows[k - 1]);
        assert(forall|i: int| 0 <= i < less.len() ==> less[i] == rows[i]);
        let text = rows_text(rows);
        let before = rows_text(less);
        let n = text.len() as int;
        assert(bytes.take(before.len() as int) =~= before) by {
            assert forall|i: int| 0 <= i < before.len() implies bytes[i] == before[i] by {
                assert(bytes.take(n)[i] == text[i]);
            }
        }
        lemma_rows_read(bytes, first, less);
        lemma_padded(r.offset);
        let row = bytes.subrange(20 * (k - 1), 20 * k);
        assert(row =~= row_text(r)) by {
            assert forall|i: int| 0 <= i < 20 implies row[i] == row_text(r)[i] by {
                assert(bytes.take(n)[20 * (k - 1) + i] == text[20 * (k - 1) + i]);
            }
        }
        assert(row.subrange(0, 10) =~= padded(r.offset, 10));
        assert(wrapped(first + k - 1) == (first + k - 1) as u64);
    }
}

proof fn lemma_line_parts(a: Seq<u8>, b: Seq<u8>, t: Seq<u8>)
    ensures
        ({
            let win = seq![0x0au8] + a + seq![0x20u8] + b + seq![0x0au8] + t;
            let y = seq![0x0au8] + t;
            let z = seq![0x20u8] + b + y;
            &&& win == seq![0x0au8] + (a + z)
            &&& win.skip(1) == a + z
            &&& win.skip(1 + a.len() as int) == z
            &&& win.skip(2 + a.len() as int + b.len() as int) == y
            &&& z.len() > 0 && z[0] == 0x20
            &&& gap_len(y) == 1
        }),
{
    let win = seq![0x0au8] + a + seq![0x20u8] + b + seq![0x0au8] + t;
    let y = seq![0x0au8] + t;
    let z = seq![0x20u8] + b + y;
    assert(win =~= seq![0x0au8] + (a + z));
    assert(win.skip(1) =~= a + z);
    assert(win.skip(1 + a.len() as int) =~= z);
    assert(win.skip(2 + a.len() as int + b.len() as int) =~= y);
    assert(y[0] == 0x0a);
}

/// The line before the rows.
proof fn lemma_line(first: nat, count: nat, t: Seq<u8>)
    requires
        first <= u64::MAX,
        count <= u64::MAX,
    ensures
        ({
            let win = seq![0x0au8] + decimal(first) + seq![0x20u8] + decimal(count) + seq![0x0au8] + t;
            &&& subsection(win) == Some(
                (first, count, decimal(first).len() as int + decimal(count).len() as int + 3),
            )
            &&& !starts(win.skip(ws_len(win)), utf8("trailer"))
        }),
{
    let a = decimal(first);
    let b = decimal(count);
    let win = seq![0x0au8] + a + seq![0x20u8] + b + seq![0x0au8] + t;
    let y = seq![0x0au8] + t;
    let z = seq![0x20u8] + b + y;
    let x = a + z;
    lemma_line_parts(a, b, t);
    assert(x.len() > 0 && is_digit(x[0])) by {
        lemma_decimal_digits(first);
        assert(x[0] == a[0]);
    }
    assert(ws_len(win) == 1) by {
        lemma_no_ws(x);
        lemma_one_space(0x0a, x);
    }
    assert(uint(x) == Some((first, a.len() as int))) by {
        lemma_uint_here(first, z);
    }
    assert(uint(z) == Some((count, 1 + b.len() as int))) by {
        lemma_uint_spaced(0x20, count, y);
    }
    lemma_no_trailer(x);
}

/// The entries that are remembered: none where the table has over 64 rows.
pub open spec fn remembered(rows: Seq<TableRow>, first: nat) -> Seq<(u64, u64)> {
    if rows.len() <= 64 {
        in_use(rows, first)
    } else {
        Seq::empty()
    }
}

/// The table up to its trailer.
proof fn lemma_rows_body(out: Seq<u8>, pos: int, first: nat, rows: Seq<TableRow>)
    requires
        0 <= pos <= out.len(),
        first + rows.len() <= u64::MAX,
        20 * rows.len() <= u64::MAX,
        forall|i: int| 0 <= i < rows.len() ==> (#[trigger] rows[i]).offset <= 9_999_999_999,
        starts(
            out.skip(pos),
            (seq![0x0au8] + decimal(first) + seq![0x20u8] + decimal(rows.len()) + seq![0x0au8]) + (rows_text(
                rows,
            ) + utf8("trailer")),
        ),
    ensures
        table(out, pos, 0, Seq::empty(), true) matches Ok(end) && end.total == rows.len() && end.at == pos
            + decimal(first).len() + decimal(rows.len()).len() + 3 + 20 * rows.len() + 7 && (rows.len() <= 64
            ==> end.entries == in_use(rows, first)),
{
    let n = rows.len();
    let a = decimal(first);
    let b = decimal(n);
    let line = seq![0x0au8] + a + seq![0x20u8] + b + seq![0x0au8];
    let text = rows_text(rows);
    let word = utf8("trailer");
    lemma_text_trailer();
    lemma_decimal_len_u64(first as u64);
    lemma_decimal_len_u64(n as u64);
    lemma_starts_further(out, pos, line, text + word);
    let from = pos + line.len();
    lemma_starts_further(out, from, text, word);
    assert(starts(text, text)) by {
        assert(text.take(text.len() as int) =~= text);
    }
    lemma_rows_read(text, first, rows);
    let to = from + 20 * n;
    let t = lemma_clip_front(out, pos, 64, line);
    assert(clip(out, pos, pos + 64) =~= line + t);
    lemma_line(first, n, t);
    assert(clip(out, from, to) =~= text) by {
        assert(out.skip(from).take(text.len() as int) == text);
        assert(clip(out, from, to) =~= out.skip(from).take(text.len() as int));
    }
    let u = lemma_clip_front(out, to, 64, word);
    let win = clip(out, to, to + 64);
    assert(win[0] == word[0]);
    lemma_no_ws(win);
    assert(win.skip(0) =~= win);
    assert(win.take(7) =~= word);
    let list = if n <= 64 {
        Seq::<(u64, u64)>::empty() + in_use(rows, first)
    } else {
        Seq::empty()
    };
    assert(table(out, to, n, list, true) == Ok::<TableEnd, Fault>(
        TableEnd { at: to + 7, total: n, entries: list },
    ));
    assert(Seq::<(u64, u64)>::empty() + in_use(rows, first) =~= in_use(rows, first));
}

proof fn lemma_regrouped(
    body: Seq<u8>,
    xref: Seq<u8>,
    nl: Seq<u8>,
    a: Seq<u8>,
    sp: Seq<u8>,
    b: Seq<u8>,
    text: Seq<u8>,
    word: Seq<u8>,
    dict: Seq<u8>,
    start: Seq<u8>,
    d: Seq<u8>,
    eof: Seq<u8>,
)
    ensures
        body + ((xref + nl) + a + sp + b + nl) + text + (word + nl) + dict + nl + start + d + eof == body + (
        xref + ((nl + a + sp + b + nl + (text + word)) + (nl + dict + nl))) + (start + d + eof),
{
    assert(body + ((xref + nl) + a + sp + b + nl) + text + (word + nl) + dict + nl + start + d + eof =~= body
        + (xref + ((nl + a + sp + b + nl + (text + word)) + (nl + dict + nl))) + (start + d + eof));
}

/// The line before the rows.
spec fn head_line(first: nat, count: nat) -> Seq<u8> {
    seq![0x0au8] + decimal(first) + seq![0x20u8] + decimal(count) + seq![0x0au8]
}

/// What stands between the objects and `startxref`.
spec fn section_text(first: nat, rows: Seq<TableRow>, pairs: Seq<(Seq<u8>, Seq<u8>)>) -> Seq<u8> {
    utf8("xref") + ((head_line(first, rows.len()) + (rows_text(rows) + utf8("trailer"))) + (seq![0x0au8]
        + dict_of(pairs) + seq![0x0au8]))
}

proof fn lemma_layout(body: Seq<u8>, first: nat, rows: Seq<TableRow>, pairs: Seq<(Seq<u8>, Seq<u8>)>)
    ensures
        document(body, first, rows, pairs) == body + section_text(first, rows, pairs) + closing(body.len()),
        utf8("xref").len() == 4,
        utf8("trailer").len() == 7,
{
    let nl = seq![0x0au8];
    lemma_text_xref();
    lemma_text_trailer();
    lemma_text_startxref_nl();
    lemma_text_nl_eof_nl();
    assert(seq![0x78u8, 0x72, 0x65, 0x66, 0x0a] =~= utf8("xref") + nl);
    assert(seq![0x74u8, 0x72, 0x61, 0x69, 0x6c, 0x65, 0x72, 0x0a] =~= utf8("trailer") + nl);
    assert(seq![0x73u8, 0x74, 0x61, 0x72, 0x74, 0x78, 0x72, 0x65, 0x66, 0x0a] =~= utf8("startxref\n"));
    assert(seq![0x0au8, 0x25, 0x25, 0x45, 0x4f, 0x46, 0x0a] =~= utf8("\n%%EOF\n"));
    lemma_regrouped(
        body,
        utf8("xref"),
        nl,
        decimal(first),
        seq![0x20u8],
        decimal(rows.len()),
        rows_text(rows),
        utf8("trailer"),
        dict_of(pairs),
        utf8("startxref\n"),
        decimal(body.len()),
        utf8("\n%%EOF\n"),
    );
}

proof fn lemma_middle(a: Seq<u8>, b: Seq<u8>, c: Seq<u8>)
    ensures
        starts((a + b + c).skip(a.len() as int), b),
{
    let s = (a + b + c).skip(a.len() as int);
    assert(s.take(b.len() as int) =~= b);
}

/// The section of a document.
proof fn lemma_section_read(c: Seq<u8>, at: int, first: nat, rows: Seq<TableRow>, pairs: Seq<(Seq<u8>, Seq<u8>)>)
    requires
        0 <= at <= c.len(),
        document_valid(Seq::empty(), first, rows, pairs),
        starts(c.skip(at), section_text(first, rows, pairs)),
        utf8("xref").len() == 4,
        utf8("trailer").len() == 7,
    ensures
        section_of(c, at, true) == Ok::<SectionAt, Fault>(
            SectionAt {
                offset: at,
                form: XrefForm::Table,
                entries: remembered(rows, first),
                dict: dict_of(pairs),
            },
        ),
{
    let nl = seq![0x0au8];
    let dict = dict_of(pairs);
    let line = head_line(first, rows.len());
    let text = rows_text(rows);
    let front = line + (text + utf8("trailer"));
    lemma_starts_further(c, at, utf8("xref"), front + (nl + dict + nl));
    lemma_starts_further(c, at + 4, front, nl + dict + nl);
    lemma_rows_body(c, at + 4, first, rows);
    let end = table(c, at + 4, 0, Seq::empty(), true)->Ok_0;
    assert(starts(text, text)) by {
        assert(text.take(text.len() as int) =~= text);
    }
    lemma_rows_read(text, first, rows);
    assert(end.at == at + 4 + front.len());
    lemma_trailer(c, end.at, pairs);
    assert(c[at + 4] == 0x0a) by {
        assert(c.skip(at + 4).take(front.len() as int)[0] == front[0]);
    }
    lemma_table_begins(c, at);
    reveal(section_of);
}

/// A document is read as what it is made of: its last section is its table, which lists the objects that
/// are in use, and every key of its trailer has the first value that the trailer gives it.
pub proof fn pdf_documents_are_read(
    body: Seq<u8>,
    first: nat,
    rows: Seq<TableRow>,
    pairs: Seq<(Seq<u8>, Seq<u8>)>,
    key: Seq<u8>,
)
    requires
        document_valid(body, first, rows, pairs),
    ensures
        startxref(document(body, first, rows, pairs)) == Ok::<int, Fault>(body.len() as int),
        section_of(document(body, first, rows, pairs), body.len() as int, true) == Ok::<SectionAt, Fault>(
            SectionAt {
                offset: body.len() as int,
                form: XrefForm::Table,
                entries: remembered(rows, first),
                dict: dict_of(pairs),
            },
        ),
        value_of(dict_of(pairs), key) == find(pairs, key),
{
    lemma_dict_of(pairs, Seq::empty(), key);
    lemma_layout(body, first, rows, pairs);
    let mine = section_text(first, rows, pairs);
    lemma_closing(body + mine, body.len());
    lemma_middle(body, mine, closing(body.len()));
    lemma_section_read(document(body, first, rows, pairs), body.len() as int, first, rows, pairs);
}

/// A document that was never updated offers no place to look, stripping leaves it as it is, and hiding
/// appends an update and changes nothing before it: the payload as an object of its own, a table that lists
/// that object, a trailer that keeps what the old one said of `/Root`, `/ID` and `/Info`, makes room for one
/// more object and points back at the old table, and where the new table stands.
pub proof fn pdf_update_is_appended(
    body: Seq<u8>,
    first: nat,
    rows: Seq<TableRow>,
    pairs: Seq<(Seq<u8>, Seq<u8>)>,
    root: Seq<u8>,
    size: nat,
    region: Seq<u8>,
)
    requires
        document_valid(body, first, rows, pairs),
        find(pairs, utf8("Prev")) is None,
        find(pairs, utf8("Encrypt")) is None,
        find(pairs, utf8("Root")) == Some(root),
        find(pairs, utf8("Size")) == Some(decimal(size)),
        size < u64::MAX,
        document(body, first, rows, pairs).len() + region.len() <= 9_999_999_000,
    ensures
        ({
            let c = document(body, first, rows, pairs);
            let object = decimal(size) + utf8(" 0 obj\n<< /Length ") + decimal(region.len()) + utf8(
                " >>\nstream\n",
            );
            let object_end = utf8("\nendstream\nendobj\n");
            let at = c.len() + object.len() + region.len() + object_end.len();
            let id = match find(pairs, utf8("ID")) {
                Some(v) => utf8(" /") + utf8("ID") + utf8(" ") + v,
                None => Seq::empty(),
            };
            let info = match find(pairs, utf8("Info")) {
                Some(v) => utf8(" /") + utf8("Info") + utf8(" ") + v,
                None => Seq::empty(),
            };
            let trailer = utf8("<< /Size ") + decimal(size + 1) + (utf8(" /Root ") + root + utf8(" /Prev ")
                + decimal(body.len()) + (id + info)) + utf8(" >>");
            let xref = utf8("xref\n") + decimal(size) + utf8(" 1\n") + padded(c.len(), 10) + utf8(
                " 00000 n\r\ntrailer\n",
            ) + trailer + utf8("\n");
            let last = utf8("startxref\n") + decimal(at) + utf8("\n%%EOF\n");
            &&& PdfCarrier::embedded(c, Technique::PdfObject, region) == c + object + region + (object_end + xref
                + last)
            &&& PdfCarrier::embedded_len(c, Technique::PdfObject, region.len()) == Ok::<nat, Fault>(
                c.len() + object.len() + region.len() + (object_end + xref + last).len(),
            )
            &&& PdfCarrier::regions(c) == Ok::<Seq<Region>, Fault>(Seq::empty())
            &&& PdfCarrier::stripped(c) == Ok::<Seq<u8>, Fault>(c)
        }),
{
    let c = document(body, first, rows, pairs);
    let s = SectionAt {
        offset: body.len() as int,
        form: XrefForm::Table,
        entries: remembered(rows, first),
        dict: dict_of(pairs),
    };
    pdf_documents_are_read(body, first, rows, pairs, utf8("Prev"));
    pdf_documents_are_read(body, first, rows, pairs, utf8("Encrypt"));
    pdf_documents_are_read(body, first, rows, pairs, utf8("Root"));
    pdf_documents_are_read(body, first, rows, pairs, utf8("Size"));
    pdf_documents_are_read(body, first, rows, pairs, utf8("ID"));
    pdf_documents_are_read(body, first, rows, pairs, utf8("Info"));
    lemma_no_mark(size);
    lemma_uint_alone(size);
    assert(uint_of(s.dict, utf8("Size")) == Some(size));
    assert(update_prev(s) is None);
    assert(hide_base(c, s) is None) by {
        reveal(hide_base);
    }
    assert(anchor(c) == Ok::<(SectionAt, int), Fault>((s, c.len() as int))) by {
        reveal(anchor);
    }
    lemma_section_near(size, region.len(), c.len());
    reveal(update_parts);
    assert(clip(c, 0, c.len() as int) =~= c);
}

proof fn lemma_section_near(size: nat, n: nat, base: nat)
    requires
        size <= u64::MAX,
        n <= u64::MAX,
    ensures
        section_start(size, base, n) <= base + n + 200,
{
    lemma_decimal_len_u64(size as u64);
    lemma_decimal_len_u64(n as u64);
    lemma_text_sp_0_obj_nl_open_length();
    lemma_text_sp_close_nl_stream_nl();
    lemma_text_nl_endstream_nl_endobj_nl();
}

/// Hiding in an encrypted document is refused, and so it is in one whose trailer has no `/Size` or no
/// `/Root`.
pub proof fn pdf_unfit_trailers_are_refused(
    body: Seq<u8>,
    first: nat,
    rows: Seq<TableRow>,
    pairs: Seq<(Seq<u8>, Seq<u8>)>,
    n: nat,
)
    requires
        document_valid(body, first, rows, pairs),
        find(pairs, utf8("Prev")) is None,
    ensures
        ({
            let refused = PdfCarrier::embedded_len(
                document(body, first, rows, pairs),
                Technique::PdfObject,
                n,
            );
            &&& find(pairs, utf8("Encrypt")) is Some ==> refused == Err::<nat, Fault>(
                Fault::InvalidRequest("this PDF is encrypted; hiding in it is not supported"@),
            )
            &&& find(pairs, utf8("Encrypt")) is None && find(pairs, utf8("Size")) is None ==> refused == Err::<
                nat,
                Fault,
            >(Fault::MalformedContainer { format: "PDF"@, detail: "no /Size in trailer"@ })
            &&& find(pairs, utf8("Encrypt")) is None && find(pairs, utf8("Root")) is None && uint_of(
                dict_of(pairs),
                utf8("Size"),
            ) is Some ==> refused == Err::<nat, Fault>(
                Fault::MalformedContainer { format: "PDF"@, detail: "no /Root in trailer"@ },
            )
        }),
{
    let c = document(body, first, rows, pairs);
    let s = SectionAt {
        offset: body.len() as int,
        form: XrefForm::Table,
        entries: remembered(rows, first),
        dict: dict_of(pairs),
    };
    pdf_documents_are_read(body, first, rows, pairs, utf8("Prev"));
    pdf_documents_are_read(body, first, rows, pairs, utf8("Encrypt"));
    pdf_documents_are_read(body, first, rows, pairs, utf8("Root"));
    pdf_documents_are_read(body, first, rows, pairs, utf8("Size"));
    assert(update_prev(s) is None);
    assert(hide_base(c, s) is None) by {
        reveal(hide_base);
    }
    reveal(anchor);
    reveal(update_parts);
}

/// A stream object holds what its `/Length` says, from the line after `stream` on. One that is compressed,
/// that is a cross-reference stream or that runs past the end of the file holds nothing to look at.
pub proof fn pdf_streams_are_read(
    before: Seq<u8>,
    number: nat,
    pairs: Seq<(Seq<u8>, Seq<u8>)>,
    after: Seq<u8>,
    n: nat,
)
    requires
        number <= u64::MAX,
        n <= u64::MAX,
        all_sound(pairs),
        dict_of(pairs).len() <= 0xf_ff00,
        find(pairs, utf8("Length")) == Some(decimal(n)),
    ensures
        ({
            let opening = decimal(number) + utf8(" 0 obj\n") + dict_of(pairs) + utf8("\nstream\n");
            let c = before + opening + after;
            let plain = find(pairs, utf8("Filter")) is None && find(pairs, utf8("Type")) != Some(utf8("/XRef"));
            &&& plain && n <= after.len() ==> body_of(c, before.len() as int) == Some(
                (before.len() as int + opening.len() as int, n as int),
            )
            &&& !plain || n > after.len() ==> body_of(c, before.len() as int) is None
        }),
{
    let opening = decimal(number) + utf8(" 0 obj\n") + dict_of(pairs) + utf8("\nstream\n");
    let c = before + opening + after;
    let at = before.len() as int;
    lemma_middle(before, opening, after);
    lemma_stream_object(number, pairs, Seq::empty());
    assert(opening + Seq::<u8>::empty() =~= opening);
    lemma_decimal_len_u64(number as u64);
    let rest = lemma_window_front(c, at, opening);
    lemma_stream_object(number, pairs, rest);
    lemma_dict_of(pairs, Seq::empty(), utf8("Filter"));
    lemma_dict_of(pairs, Seq::empty(), utf8("Type"));
    lemma_dict_of(pairs, Seq::empty(), utf8("Length"));
    lemma_no_mark(n);
    lemma_uint_alone(n);
    reveal(body_of);
}

/// `r` is the body of one of the objects, which stands behind `prev`.
pub open spec fn offered_by(c: Seq<u8>, r: Region, list: Seq<(u64, u64)>, prev: nat) -> bool {
    exists|k: int|
        0 <= k < list.len() && (#[trigger] list[k]).1 > prev && body_of(c, list[k].1 as int) == Some(
            (r.offset as int, r.len as int),
        )
}

proof fn lemma_listed_offset(list: Seq<(u64, u64)>, x: u64)
    requires
        offsets_down(list).contains(x),
    ensures
        exists|k: int| 0 <= k < list.len() && (#[trigger] list[k]).1 == x,
    decreases list.len(),
{
    if list.len() > 0 {
        let rest = list.drop_last();
        lemma_only_inserted(offsets_down(rest), list.last().1, x);
        if x == list.last().1 {
            assert(list[list.len() - 1].1 == x);
        } else {
            lemma_listed_offset(rest, x);
            let k = choose|k: int| 0 <= k < rest.len() && (#[trigger] rest[k]).1 == x;
            assert(list[k].1 == x);
        }
    }
}

proof fn lemma_only_inserted(list: Seq<u64>, x: u64, y: u64)
    requires
        insert_down(list, x).contains(y),
    ensures
        y == x || list.contains(y),
    decreases list.len(),
{
    let out = insert_down(list, x);
    let k = choose|k: int| 0 <= k < out.len() && out[k] == y;
    if list.len() > 0 && list.last() < x {
        let rest = list.drop_last();
        let inner = insert_down(rest, x);
        if k < inner.len() {
            assert(inner[k] == y);
            lemma_only_inserted(rest, x, y);
            if y != x {
                let j = choose|j: int| 0 <= j < rest.len() && rest[j] == y;
                assert(list[j] == y);
            }
        } else {
            assert(list[list.len() - 1] == y);
        }
    } else if k < list.len() {
        assert(list[k] == y);
    }
}

proof fn lemma_offsets_len(list: Seq<(u64, u64)>)
    ensures
        offsets_down(list).len() == list.len(),
    decreases list.len(),
{
    if list.len() > 0 {
        let rest = list.drop_last();
        lemma_offsets_len(rest);
        lemma_insert_len(offsets_down(rest), list.last().1);
    }
}

proof fn lemma_insert_len(list: Seq<u64>, x: u64)
    ensures
        insert_down(list, x).len() == list.len() + 1,
    decreases list.len(),
{
    if list.len() > 0 && list.last() < x {
        lemma_insert_len(list.drop_last(), x);
    }
}

proof fn lemma_bodies(c: Seq<u8>, offsets: Seq<u64>, prev: nat, room: int)
    requires
        c.len() <= u64::MAX,
        room >= 0,
    ensures
        bodies(c, offsets, prev as int, room).len() <= room,
        forall|j: int|
            0 <= j < bodies(c, offsets, prev as int, room).len() ==> body_at_some(
                c,
                #[trigger] bodies(c, offsets, prev as int, room)[j],
                offsets,
                prev,
            ),
        offsets.len() <= room ==> forall|k: int|
            0 <= k < offsets.len() && #[trigger] offsets[k] > prev && body_of(c, offsets[k] as int) is Some
                ==> some_body_at(bodies(c, offsets, prev as int, room), body_of(c, offsets[k] as int)->Some_0),
    decreases offsets.len(),
{
    let list = bodies(c, offsets, prev as int, room);
    if offsets.len() > 0 && room > 0 {
        let more = offsets.skip(1);
        lemma_body_after(c, offsets[0] as int);
        let taken = offsets[0] > prev && body_of(c, offsets[0] as int) is Some;
        let left = if taken {
            room - 1
        } else {
            room
        };
        let rest = bodies(c, more, prev as int, left);
        lemma_bodies(c, more, prev, left);
        let d: int = if taken {
            1
        } else {
            0
        };
        assert(list.skip(d) =~= rest);
        assert forall|j: int| 0 <= j < list.len() implies body_at_some(c, #[trigger] list[j], offsets, prev) by {
            if j < d {
                assert(offsets[0] > prev);
            } else {
                assert(list[j] == rest[j - d]);
                assert(body_at_some(c, rest[j - d], more, prev));
                let k = choose|k: int|
                    0 <= k < more.len() && #[trigger] more[k] > prev && body_of(c, more[k] as int) == Some(
                        (rest[j - d].offset as int, rest[j - d].len as int),
                    ) && rest[j - d].technique == Technique::PdfObject && !rest[j - d].fragmented;
                assert(offsets[k + 1] == more[k]);
            }
        }
        if offsets.len() <= room {
            assert forall|k: int|
                0 <= k < offsets.len() && #[trigger] offsets[k] > prev && body_of(
                    c,
                    offsets[k] as int,
                ) is Some implies some_body_at(list, body_of(c, offsets[k] as int)->Some_0) by {
                let b = body_of(c, offsets[k] as int)->Some_0;
                if k == 0 {
                    assert(list[0].offset == b.0 && list[0].len == b.1);
                } else {
                    assert(more[k - 1] == offsets[k]);
                    assert(some_body_at(rest, b));
                    let j = choose|j: int|
                        0 <= j < rest.len() && (#[trigger] rest[j]).offset == b.0 && rest[j].len == b.1;
                    assert(list[j + d] == rest[j]);
                }
            }
        }
    }
}

spec fn body_at_some(c: Seq<u8>, r: Region, offsets: Seq<u64>, prev: nat) -> bool {
    exists|k: int|
        0 <= k < offsets.len() && #[trigger] offsets[k] > prev && body_of(c, offsets[k] as int) == Some(
            (r.offset as int, r.len as int),
        ) && r.technique == Technique::PdfObject && !r.fragmented
}

/// One of the places is there.
pub open spec fn some_body_at(list: Seq<Region>, b: (int, int)) -> bool {
    exists|j: int| 0 <= j < list.len() && (#[trigger] list[j]).offset == b.0 && list[j].len == b.1
}

/// Where to look in an updated document: in the plain stream objects that its last section lists and that
/// stand behind the section before, at most four of them. Where the section lists four objects or fewer, all
/// of those are offered.
pub proof fn pdf_places_to_look(c: Seq<u8>, at: int, last: SectionAt, prev: nat)
    requires
        c.len() <= u64::MAX,
        startxref(c) == Ok::<int, Fault>(at),
        section_of(c, at, true) == Ok::<SectionAt, Fault>(last),
        uint_of(last.dict, utf8("Prev")) == Some(prev),
    ensures
        prev >= last.offset ==> PdfCarrier::regions(c) == Ok::<Seq<Region>, Fault>(Seq::empty()),
        prev < last.offset ==> PdfCarrier::regions(c) is Ok && PdfCarrier::regions(c)->Ok_0.len() <= 4,
        forall|j: int|
            prev < last.offset && 0 <= j < PdfCarrier::regions(c)->Ok_0.len() ==> offered_by(
                c,
                #[trigger] PdfCarrier::regions(c)->Ok_0[j],
                last.entries,
                prev,
            ) && PdfCarrier::regions(c)->Ok_0[j].technique == Technique::PdfObject
                && !PdfCarrier::regions(c)->Ok_0[j].fragmented,
        forall|k: int|
            prev < last.offset && last.entries.len() <= 4 && 0 <= k < last.entries.len() && (
            #[trigger] last.entries[k]).1 > prev && body_of(c, last.entries[k].1 as int) is Some
                ==> some_body_at(PdfCarrier::regions(c)->Ok_0, body_of(c, last.entries[k].1 as int)->Some_0),
{
    if prev < last.offset {
        assert(update_prev(last) == Some(prev));
        let offsets = offsets_down(last.entries);
        let list = bodies(c, offsets, prev as int, 4);
        lemma_bodies(c, offsets, prev, 4);
        lemma_offsets_len(last.entries);
        assert forall|j: int| 0 <= j < list.len() implies offered_by(
            c,
            #[trigger] list[j],
            last.entries,
            prev,
        ) && list[j].technique == Technique::PdfObject && !list[j].fragmented by {
            assert(body_at_some(c, list[j], offsets, prev));
            let k = choose|k: int|
                0 <= k < offsets.len() && #[trigger] offsets[k] > prev && body_of(c, offsets[k] as int)
                    == Some((list[j].offset as int, list[j].len as int)) && list[j].technique
                    == Technique::PdfObject && !list[j].fragmented;
            assert(offsets.contains(offsets[k]));
            lemma_listed_offset(last.entries, offsets[k]);
        }
        if last.entries.len() <= 4 {
            assert forall|k: int|
                0 <= k < last.entries.len() && (#[trigger] last.entries[k]).1 > prev && body_of(
                    c,
                    last.entries[k].1 as int,
                ) is Some implies some_body_at(list, body_of(c, last.entries[k].1 as int)->Some_0) by {
                lemma_offset_listed(last.entries, k);
                let i = choose|i: int| 0 <= i < offsets.len() && offsets[i] == last.entries[k].1;
                assert(offsets[i] > prev);
            }
        }
    }
}

/// Objects that stand further back in the file are looked at first, and every object of the section is.
pub proof fn pdf_last_objects_come_first(list: Seq<(u64, u64)>)
    ensures
        offsets_down(list).len() == list.len(),
        forall|i: int, j: int|
            0 <= i < j < list.len() ==> #[trigger] offsets_down(list)[i] >= #[trigger] offsets_down(list)[j],
        forall|k: int| 0 <= k < list.len() ==> offsets_down(list).contains((#[trigger] list[k]).1),
    decreases list.len(),
{
    lemma_offsets_len(list);
    if list.len() > 0 {
        let rest = list.drop_last();
        pdf_last_objects_come_first(rest);
        lemma_goes_down(offsets_down(rest), list.last().1);
    }
    assert forall|k: int| 0 <= k < list.len() implies offsets_down(list).contains((#[trigger] list[k]).1) by {
        lemma_offset_listed(list, k);
    }
}

proof fn lemma_goes_down(list: Seq<u64>, x: u64)
    requires
        forall|i: int, j: int| 0 <= i < j < list.len() ==> #[trigger] list[i] >= #[trigger] list[j],
    ensures
        insert_down(list, x).len() == list.len() + 1,
        forall|i: int, j: int|
            0 <= i < j < list.len() + 1 ==> #[trigger] insert_down(list, x)[i] >= #[trigger] insert_down(list, x)[j],
        forall|i: int| 0 <= i < list.len() + 1 ==> #[trigger] insert_down(list, x)[i] >= (if list.len() > 0
            && list.last() < x {
            list.last()
        } else {
            x
        }),
    decreases list.len(),
{
    if list.len() > 0 && list.last() < x {
        let rest = list.drop_last();
        lemma_goes_down(rest, x);
        let n = list.len() as int;
        assert(n >= 2 ==> list[n - 2] >= list[n - 1]);
        assert(n >= 2 ==> rest.last() == list[n - 2]);
    }
}

} // verus!
