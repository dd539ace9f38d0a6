//! What hiding in a PDF promises: the region can be found and read again, the document stays, and a
//! later hide or strip undoes an earlier one.

use super::pdf::{
    added, anchor, bodies, body_of, carried, carried_entry, closing, document_end, gap_len,
    hide_base, insert_down, low_number, mid, object_header, object_opening, offsets_down,
    other_entry, planned, row_bytes, section_of, section_start, startxref, stream_bytes,
    stream_dict, stream_entries, stream_opening, stream_row, stream_rows, subsection, table,
    table_begins, table_bytes, table_dict, table_rows, trailer_tail, update_parts, update_prev,
    window, wrapped, PdfCarrier, SectionAt, TableEnd, XrefForm, MAX_CANDIDATES, MAX_READ,
    MAX_TABLE_OFFSET, TAIL_WINDOW,
};
use super::pdf_lemmas::{
    all_sound, arrays_are_sound, balanced, dict_of, entries, entry, find, lemma_ascii,
    lemma_dict_of, lemma_no_uint, lemma_no_ws, lemma_obj_word, lemma_one_space, lemma_section_more,
    lemma_span_spaced, lemma_uint_here, lemma_uint_spaced, lemma_word_spaced, names_are_sound,
    no_digit_next, numbers_are_sound, sound, sound_key,
};
use super::pdf_syntax::{
    decimal_value, last_at, span, starts, uint, uint_of, uints, uints_of, value_of, ws_len,
};
use super::{reads_back, Carrier, Region, Technique};
use crate::bytes::{be_bytes, lemma_be_bytes_len, lemma_be_round_trip, lemma_pow256};
use crate::error::Fault;
use crate::io::{clip, lemma_gather_one};
use crate::text::{
    decimal, is_digit, lemma_decimal_digits, lemma_decimal_len, lemma_decimal_len_u64,
    lemma_number_of_decimal, number, padded, utf8,
};
use vstd::prelude::*;

verus! {

// ---------------------------------------------------------------------------------------------
// The words of an update

proof fn lemma_keys()
    ensures
        utf8("Size") == seq![0x53u8, 0x69, 0x7a, 0x65],
        utf8("Root") == seq![0x52u8, 0x6f, 0x6f, 0x74],
        utf8("Prev") == seq![0x50u8, 0x72, 0x65, 0x76],
        utf8("ID") == seq![0x49u8, 0x44],
        utf8("Info") == seq![0x49u8, 0x6e, 0x66, 0x6f],
        utf8("Length") == seq![0x4cu8, 0x65, 0x6e, 0x67, 0x74, 0x68],
        utf8("Type") == seq![0x54u8, 0x79, 0x70, 0x65],
        utf8("Filter") == seq![0x46u8, 0x69, 0x6c, 0x74, 0x65, 0x72],
        utf8("Encrypt") == seq![0x45u8, 0x6e, 0x63, 0x72, 0x79, 0x70, 0x74],
        utf8("Index") == seq![0x49u8, 0x6e, 0x64, 0x65, 0x78],
        utf8("W") == seq![0x57u8],
        utf8("/XRef") == seq![0x2fu8, 0x58, 0x52, 0x65, 0x66],
{
    reveal_strlit("Size");
    reveal_strlit("Root");
    reveal_strlit("Prev");
    reveal_strlit("ID");
    reveal_strlit("Info");
    reveal_strlit("Length");
    reveal_strlit("Type");
    reveal_strlit("Filter");
    reveal_strlit("Encrypt");
    reveal_strlit("Index");
    reveal_strlit("W");
    reveal_strlit("/XRef");
    lemma_ascii("Size");
    lemma_ascii("Root");
    lemma_ascii("Prev");
    lemma_ascii("ID");
    lemma_ascii("Info");
    lemma_ascii("Length");
    lemma_ascii("Type");
    lemma_ascii("Filter");
    lemma_ascii("Encrypt");
    lemma_ascii("Index");
    lemma_ascii("W");
    lemma_ascii("/XRef");
    assert(utf8("Size") =~= seq![0x53u8, 0x69, 0x7a, 0x65]);
    assert(utf8("Root") =~= seq![0x52u8, 0x6f, 0x6f, 0x74]);
    assert(utf8("Prev") =~= seq![0x50u8, 0x72, 0x65, 0x76]);
    assert(utf8("ID") =~= seq![0x49u8, 0x44]);
    assert(utf8("Info") =~= seq![0x49u8, 0x6e, 0x66, 0x6f]);
    assert(utf8("Length") =~= seq![0x4cu8, 0x65, 0x6e, 0x67, 0x74, 0x68]);
    assert(utf8("Type") =~= seq![0x54u8, 0x79, 0x70, 0x65]);
    assert(utf8("Filter") =~= seq![0x46u8, 0x69, 0x6c, 0x74, 0x65, 0x72]);
    assert(utf8("Encrypt") =~= seq![0x45u8, 0x6e, 0x63, 0x72, 0x79, 0x70, 0x74]);
    assert(utf8("Index") =~= seq![0x49u8, 0x6e, 0x64, 0x65, 0x78]);
    assert(utf8("W") =~= seq![0x57u8]);
    assert(utf8("/XRef") =~= seq![0x2fu8, 0x58, 0x52, 0x65, 0x66]);
}

/// A key that no update has.
spec fn never_written(k: Seq<u8>) -> bool {
    k != utf8("Size") && k != utf8("Root") && k != utf8("Prev") && k != utf8("ID") && k != utf8("Info") && k
        != utf8("Length") && k != utf8("Type") && k != utf8("Index") && k != utf8("W")
}

proof fn lemma_key_facts()
    ensures
        sound_key(utf8("Size")),
        sound_key(utf8("Root")),
        sound_key(utf8("Prev")),
        sound_key(utf8("ID")),
        sound_key(utf8("Info")),
        sound_key(utf8("Length")),
        sound_key(utf8("Type")),
        sound_key(utf8("Index")),
        sound_key(utf8("W")),
        utf8("Prev") != utf8("Size"),
        utf8("Prev") != utf8("Root"),
        utf8("Prev") != utf8("Type"),
        utf8("Prev") != utf8("Index"),
        utf8("Prev") != utf8("W"),
        never_written(utf8("Filter")),
        never_written(utf8("Encrypt")),
        utf8("Index") != utf8("Type"),
        utf8("Index") != utf8("Size"),
        utf8("W") != utf8("Type"),
        utf8("W") != utf8("Size"),
        utf8("W") != utf8("Index"),
        utf8("Type") != utf8("Length"),
{
    lemma_keys();
    let size = utf8("Size");
    let root = utf8("Root");
    let prev = utf8("Prev");
    let id = utf8("ID");
    let info = utf8("Info");
    let length = utf8("Length");
    let ty = utf8("Type");
    let filter = utf8("Filter");
    let encrypt = utf8("Encrypt");
    let index = utf8("Index");
    let w = utf8("W");
    assert(size[0] == 0x53 && root[0] == 0x52 && prev[0] == 0x50 && id[0] == 0x49 && info[0] == 0x49);
    assert(length[0] == 0x4c && ty[0] == 0x54 && filter[0] == 0x46 && encrypt[0] == 0x45 && index[0]
        == 0x49 && w[0] == 0x57);
}

proof fn lemma_text_sp_root()
    ensures
        utf8(" /Root ") == seq![0x20u8, 0x2f, 0x52, 0x6f, 0x6f, 0x74, 0x20],
{
    reveal_strlit(" /Root ");
    lemma_ascii(" /Root ");
    assert(utf8(" /Root ") =~= seq![0x20u8, 0x2f, 0x52, 0x6f, 0x6f, 0x74, 0x20]);
}

proof fn lemma_text_root()
    ensures
        utf8("Root") == seq![0x52u8, 0x6f, 0x6f, 0x74],
{
    reveal_strlit("Root");
    lemma_ascii("Root");
    assert(utf8("Root") =~= seq![0x52u8, 0x6f, 0x6f, 0x74]);
}

proof fn lemma_text_sp_prev()
    ensures
        utf8(" /Prev ") == seq![0x20u8, 0x2f, 0x50, 0x72, 0x65, 0x76, 0x20],
{
    reveal_strlit(" /Prev ");
    lemma_ascii(" /Prev ");
    assert(utf8(" /Prev ") =~= seq![0x20u8, 0x2f, 0x50, 0x72, 0x65, 0x76, 0x20]);
}

proof fn lemma_text_prev()
    ensures
        utf8("Prev") == seq![0x50u8, 0x72, 0x65, 0x76],
{
    reveal_strlit("Prev");
    lemma_ascii("Prev");
    assert(utf8("Prev") =~= seq![0x50u8, 0x72, 0x65, 0x76]);
}

proof fn lemma_text_open_size()
    ensures
        utf8("<< /Size ") == seq![0x3cu8, 0x3c, 0x20, 0x2f, 0x53, 0x69, 0x7a, 0x65, 0x20],
{
    reveal_strlit("<< /Size ");
    lemma_ascii("<< /Size ");
    assert(utf8("<< /Size ") =~= seq![0x3cu8, 0x3c, 0x20, 0x2f, 0x53, 0x69, 0x7a, 0x65, 0x20]);
}

proof fn lemma_text_size()
    ensures
        utf8("Size") == seq![0x53u8, 0x69, 0x7a, 0x65],
{
    reveal_strlit("Size");
    lemma_ascii("Size");
    assert(utf8("Size") =~= seq![0x53u8, 0x69, 0x7a, 0x65]);
}

proof fn lemma_text_sp_close()
    ensures
        utf8(" >>") == seq![0x20u8, 0x3e, 0x3e],
{
    reveal_strlit(" >>");
    lemma_ascii(" >>");
    assert(utf8(" >>") =~= seq![0x20u8, 0x3e, 0x3e]);
}

proof fn lemma_text_slash()
    ensures
        utf8(" /") == seq![0x20u8, 0x2f],
{
    reveal_strlit(" /");
    lemma_ascii(" /");
    assert(utf8(" /") =~= seq![0x20u8, 0x2f]);
}

proof fn lemma_text_space()
    ensures
        utf8(" ") == seq![0x20u8],
{
    reveal_strlit(" ");
    lemma_ascii(" ");
    assert(utf8(" ") =~= seq![0x20u8]);
}

proof fn lemma_text_nl()
    ensures
        utf8("\n") == seq![0x0au8],
{
    reveal_strlit("\n");
    lemma_ascii("\n");
    assert(utf8("\n") =~= seq![0x0au8]);
}

proof fn lemma_text_sp_0_obj_nl()
    ensures
        utf8(" 0 obj\n") == seq![0x20u8, 0x30, 0x20, 0x6f, 0x62, 0x6a, 0x0a],
{
    reveal_strlit(" 0 obj\n");
    lemma_ascii(" 0 obj\n");
    assert(utf8(" 0 obj\n") =~= seq![0x20u8, 0x30, 0x20, 0x6f, 0x62, 0x6a, 0x0a]);
}

pub proof fn lemma_text_sp_0_obj_nl_open_length()
    ensures
        utf8(" 0 obj\n<< /Length ") == seq![0x20u8, 0x30, 0x20, 0x6f, 0x62, 0x6a, 0x0a, 0x3c, 0x3c, 0x20, 0x2f, 0x4c, 0x65, 0x6e, 0x67, 0x74, 0x68, 0x20],
{
    reveal_strlit(" 0 obj\n<< /Length ");
    lemma_ascii(" 0 obj\n<< /Length ");
    assert(utf8(" 0 obj\n<< /Length ") =~= seq![0x20u8, 0x30, 0x20, 0x6f, 0x62, 0x6a, 0x0a, 0x3c, 0x3c, 0x20, 0x2f, 0x4c, 0x65, 0x6e, 0x67, 0x74, 0x68, 0x20]);
}

proof fn lemma_text_length()
    ensures
        utf8("Length") == seq![0x4cu8, 0x65, 0x6e, 0x67, 0x74, 0x68],
{
    reveal_strlit("Length");
    lemma_ascii("Length");
    assert(utf8("Length") =~= seq![0x4cu8, 0x65, 0x6e, 0x67, 0x74, 0x68]);
}

pub proof fn lemma_text_sp_close_nl_stream_nl()
    ensures
        utf8(" >>\nstream\n") == seq![0x20u8, 0x3e, 0x3e, 0x0a, 0x73, 0x74, 0x72, 0x65, 0x61, 0x6d, 0x0a],
{
    reveal_strlit(" >>\nstream\n");
    lemma_ascii(" >>\nstream\n");
    assert(utf8(" >>\nstream\n") =~= seq![0x20u8, 0x3e, 0x3e, 0x0a, 0x73, 0x74, 0x72, 0x65, 0x61, 0x6d, 0x0a]);
}

proof fn lemma_text_stream()
    ensures
        utf8("stream") == seq![0x73u8, 0x74, 0x72, 0x65, 0x61, 0x6d],
{
    reveal_strlit("stream");
    lemma_ascii("stream");
    assert(utf8("stream") =~= seq![0x73u8, 0x74, 0x72, 0x65, 0x61, 0x6d]);
}

proof fn lemma_text_nl_stream_nl()
    ensures
        utf8("\nstream\n") == seq![0x0au8, 0x73, 0x74, 0x72, 0x65, 0x61, 0x6d, 0x0a],
{
    reveal_strlit("\nstream\n");
    lemma_ascii("\nstream\n");
    assert(utf8("\nstream\n") =~= seq![0x0au8, 0x73, 0x74, 0x72, 0x65, 0x61, 0x6d, 0x0a]);
}

pub proof fn lemma_text_nl_endstream_nl_endobj_nl()
    ensures
        utf8("\nendstream\nendobj\n") == seq![0x0au8, 0x65, 0x6e, 0x64, 0x73, 0x74, 0x72, 0x65, 0x61, 0x6d, 0x0a, 0x65, 0x6e, 0x64, 0x6f, 0x62, 0x6a, 0x0a],
{
    reveal_strlit("\nendstream\nendobj\n");
    lemma_ascii("\nendstream\nendobj\n");
    assert(utf8("\nendstream\nendobj\n") =~= seq![0x0au8, 0x65, 0x6e, 0x64, 0x73, 0x74, 0x72, 0x65, 0x61, 0x6d, 0x0a, 0x65, 0x6e, 0x64, 0x6f, 0x62, 0x6a, 0x0a]);
}

proof fn lemma_text_xref_nl()
    ensures
        utf8("xref\n") == seq![0x78u8, 0x72, 0x65, 0x66, 0x0a],
{
    reveal_strlit("xref\n");
    lemma_ascii("xref\n");
    assert(utf8("xref\n") =~= seq![0x78u8, 0x72, 0x65, 0x66, 0x0a]);
}

pub proof fn lemma_text_xref()
    ensures
        utf8("xref") == seq![0x78u8, 0x72, 0x65, 0x66],
{
    reveal_strlit("xref");
    lemma_ascii("xref");
    assert(utf8("xref") =~= seq![0x78u8, 0x72, 0x65, 0x66]);
}

proof fn lemma_text_sp_1_nl()
    ensures
        utf8(" 1\n") == seq![0x20u8, 0x31, 0x0a],
{
    reveal_strlit(" 1\n");
    lemma_ascii(" 1\n");
    assert(utf8(" 1\n") =~= seq![0x20u8, 0x31, 0x0a]);
}

proof fn lemma_text_sp_00000_n_cr_nl_trailer_nl()
    ensures
        utf8(" 00000 n\r\ntrailer\n") == seq![0x20u8, 0x30, 0x30, 0x30, 0x30, 0x30, 0x20, 0x6e, 0x0d, 0x0a, 0x74, 0x72, 0x61, 0x69, 0x6c, 0x65, 0x72, 0x0a],
{
    reveal_strlit(" 00000 n\r\ntrailer\n");
    lemma_ascii(" 00000 n\r\ntrailer\n");
    assert(utf8(" 00000 n\r\ntrailer\n") =~= seq![0x20u8, 0x30, 0x30, 0x30, 0x30, 0x30, 0x20, 0x6e, 0x0d, 0x0a, 0x74, 0x72, 0x61, 0x69, 0x6c, 0x65, 0x72, 0x0a]);
}

pub proof fn lemma_text_trailer()
    ensures
        utf8("trailer") == seq![0x74u8, 0x72, 0x61, 0x69, 0x6c, 0x65, 0x72],
{
    reveal_strlit("trailer");
    lemma_ascii("trailer");
    assert(utf8("trailer") =~= seq![0x74u8, 0x72, 0x61, 0x69, 0x6c, 0x65, 0x72]);
}

proof fn lemma_text_open_type_xref_size()
    ensures
        utf8("<< /Type /XRef /Size ") == seq![0x3cu8, 0x3c, 0x20, 0x2f, 0x54, 0x79, 0x70, 0x65, 0x20, 0x2f, 0x58, 0x52, 0x65, 0x66, 0x20, 0x2f, 0x53, 0x69, 0x7a, 0x65, 0x20],
{
    reveal_strlit("<< /Type /XRef /Size ");
    lemma_ascii("<< /Type /XRef /Size ");
    assert(utf8("<< /Type /XRef /Size ") =~= seq![0x3cu8, 0x3c, 0x20, 0x2f, 0x54, 0x79, 0x70, 0x65, 0x20, 0x2f, 0x58, 0x52, 0x65, 0x66, 0x20, 0x2f, 0x53, 0x69, 0x7a, 0x65, 0x20]);
}

proof fn lemma_text_type()
    ensures
        utf8("Type") == seq![0x54u8, 0x79, 0x70, 0x65],
{
    reveal_strlit("Type");
    lemma_ascii("Type");
    assert(utf8("Type") =~= seq![0x54u8, 0x79, 0x70, 0x65]);
}

proof fn lemma_text_name_xref()
    ensures
        utf8("/XRef") == seq![0x2fu8, 0x58, 0x52, 0x65, 0x66],
{
    reveal_strlit("/XRef");
    lemma_ascii("/XRef");
    assert(utf8("/XRef") =~= seq![0x2fu8, 0x58, 0x52, 0x65, 0x66]);
}

proof fn lemma_text_sp_index_array()
    ensures
        utf8(" /Index [") == seq![0x20u8, 0x2f, 0x49, 0x6e, 0x64, 0x65, 0x78, 0x20, 0x5b],
{
    reveal_strlit(" /Index [");
    lemma_ascii(" /Index [");
    assert(utf8(" /Index [") =~= seq![0x20u8, 0x2f, 0x49, 0x6e, 0x64, 0x65, 0x78, 0x20, 0x5b]);
}

proof fn lemma_text_index()
    ensures
        utf8("Index") == seq![0x49u8, 0x6e, 0x64, 0x65, 0x78],
{
    reveal_strlit("Index");
    lemma_ascii("Index");
    assert(utf8("Index") =~= seq![0x49u8, 0x6e, 0x64, 0x65, 0x78]);
}

proof fn lemma_text_sp_1()
    ensures
        utf8(" 1 ") == seq![0x20u8, 0x31, 0x20],
{
    reveal_strlit(" 1 ");
    lemma_ascii(" 1 ");
    assert(utf8(" 1 ") =~= seq![0x20u8, 0x31, 0x20]);
}

proof fn lemma_text_sp_1_end_w_array_1_8_2_end()
    ensures
        utf8(" 1] /W [1 8 2]") == seq![0x20u8, 0x31, 0x5d, 0x20, 0x2f, 0x57, 0x20, 0x5b, 0x31, 0x20, 0x38, 0x20, 0x32, 0x5d],
{
    reveal_strlit(" 1] /W [1 8 2]");
    lemma_ascii(" 1] /W [1 8 2]");
    assert(utf8(" 1] /W [1 8 2]") =~= seq![0x20u8, 0x31, 0x5d, 0x20, 0x2f, 0x57, 0x20, 0x5b, 0x31, 0x20, 0x38, 0x20, 0x32, 0x5d]);
}

proof fn lemma_text_w()
    ensures
        utf8("W") == seq![0x57u8],
{
    reveal_strlit("W");
    lemma_ascii("W");
    assert(utf8("W") =~= seq![0x57u8]);
}

proof fn lemma_text_sp_length_22_close()
    ensures
        utf8(" /Length 22 >>") == seq![0x20u8, 0x2f, 0x4c, 0x65, 0x6e, 0x67, 0x74, 0x68, 0x20, 0x32, 0x32, 0x20, 0x3e, 0x3e],
{
    reveal_strlit(" /Length 22 >>");
    lemma_ascii(" /Length 22 >>");
    assert(utf8(" /Length 22 >>") =~= seq![0x20u8, 0x2f, 0x4c, 0x65, 0x6e, 0x67, 0x74, 0x68, 0x20, 0x32, 0x32, 0x20, 0x3e, 0x3e]);
}

pub proof fn lemma_text_startxref_nl()
    ensures
        utf8("startxref\n") == seq![0x73u8, 0x74, 0x61, 0x72, 0x74, 0x78, 0x72, 0x65, 0x66, 0x0a],
{
    reveal_strlit("startxref\n");
    lemma_ascii("startxref\n");
    assert(utf8("startxref\n") =~= seq![0x73u8, 0x74, 0x61, 0x72, 0x74, 0x78, 0x72, 0x65, 0x66, 0x0a]);
}

proof fn lemma_text_startxref()
    ensures
        utf8("startxref") == seq![0x73u8, 0x74, 0x61, 0x72, 0x74, 0x78, 0x72, 0x65, 0x66],
{
    reveal_strlit("startxref");
    lemma_ascii("startxref");
    assert(utf8("startxref") =~= seq![0x73u8, 0x74, 0x61, 0x72, 0x74, 0x78, 0x72, 0x65, 0x66]);
}

pub proof fn lemma_text_nl_eof_nl()
    ensures
        utf8("\n%%EOF\n") == seq![0x0au8, 0x25, 0x25, 0x45, 0x4f, 0x46, 0x0a],
{
    reveal_strlit("\n%%EOF\n");
    lemma_ascii("\n%%EOF\n");
    assert(utf8("\n%%EOF\n") =~= seq![0x0au8, 0x25, 0x25, 0x45, 0x4f, 0x46, 0x0a]);
}

proof fn lemma_phrase_sp_root()
    ensures
        utf8(" /Root ") == seq![0x20u8, 0x2f] + utf8("Root") + seq![0x20u8],
{
    lemma_text_sp_root();
    lemma_text_root();
    assert(utf8(" /Root ") =~= seq![0x20u8, 0x2f] + utf8("Root") + seq![0x20u8]);
}

proof fn lemma_phrase_sp_prev()
    ensures
        utf8(" /Prev ") == seq![0x20u8, 0x2f] + utf8("Prev") + seq![0x20u8],
{
    lemma_text_sp_prev();
    lemma_text_prev();
    assert(utf8(" /Prev ") =~= seq![0x20u8, 0x2f] + utf8("Prev") + seq![0x20u8]);
}

proof fn lemma_phrase_open_size()
    ensures
        utf8("<< /Size ") == seq![0x3cu8, 0x3c, 0x20, 0x2f] + utf8("Size") + seq![0x20u8],
{
    lemma_text_open_size();
    lemma_text_size();
    assert(utf8("<< /Size ") =~= seq![0x3cu8, 0x3c, 0x20, 0x2f] + utf8("Size") + seq![0x20u8]);
}

proof fn lemma_phrase_sp_close()
    ensures
        utf8(" >>") == seq![0x20u8, 0x3e, 0x3e],
{
    lemma_text_sp_close();
    assert(utf8(" >>") =~= seq![0x20u8, 0x3e, 0x3e]);
}

proof fn lemma_phrase_slash()
    ensures
        utf8(" /") == seq![0x20u8, 0x2f],
{
    lemma_text_slash();
    assert(utf8(" /") =~= seq![0x20u8, 0x2f]);
}

proof fn lemma_phrase_space()
    ensures
        utf8(" ") == seq![0x20u8],
{
    lemma_text_space();
    assert(utf8(" ") =~= seq![0x20u8]);
}

proof fn lemma_phrase_nl()
    ensures
        utf8("\n") == seq![0x0au8],
{
    lemma_text_nl();
    assert(utf8("\n") =~= seq![0x0au8]);
}

proof fn lemma_phrase_sp_0_obj_nl()
    ensures
        utf8(" 0 obj\n") == seq![0x20u8, 0x30, 0x20, 0x6f, 0x62, 0x6a, 0x0a],
{
    lemma_text_sp_0_obj_nl();
    assert(utf8(" 0 obj\n") =~= seq![0x20u8, 0x30, 0x20, 0x6f, 0x62, 0x6a, 0x0a]);
}

proof fn lemma_phrase_sp_0_obj_nl_open_length()
    ensures
        utf8(" 0 obj\n<< /Length ") == seq![0x20u8, 0x30, 0x20, 0x6f, 0x62, 0x6a, 0x0a, 0x3c, 0x3c,
            0x20, 0x2f] + utf8("Length") + seq![0x20u8],
{
    lemma_text_sp_0_obj_nl_open_length();
    lemma_text_length();
    assert(utf8(" 0 obj\n<< /Length ") =~= seq![0x20u8, 0x30, 0x20, 0x6f, 0x62, 0x6a, 0x0a, 0x3c, 0x3c,
    0x20, 0x2f] + utf8("Length") + seq![0x20u8]);
}

proof fn lemma_phrase_sp_close_nl_stream_nl()
    ensures
        utf8(" >>\nstream\n") == seq![0x20u8, 0x3e, 0x3e, 0x0a] + utf8("stream") + seq![0x0au8],
{
    lemma_text_sp_close_nl_stream_nl();
    lemma_text_stream();
    assert(utf8(" >>\nstream\n") =~= seq![0x20u8, 0x3e, 0x3e, 0x0a] + utf8("stream") + seq![0x0au8]);
}

proof fn lemma_phrase_nl_stream_nl()
    ensures
        utf8("\nstream\n") == seq![0x0au8] + utf8("stream") + seq![0x0au8],
{
    lemma_text_nl_stream_nl();
    lemma_text_stream();
    assert(utf8("\nstream\n") =~= seq![0x0au8] + utf8("stream") + seq![0x0au8]);
}

proof fn lemma_phrase_nl_endstream_nl_endobj_nl()
    ensures
        mid().len() == 18,
{
    lemma_text_nl_endstream_nl_endobj_nl();
}

/// The fixed parts of an update, taken apart.
proof fn lemma_phrases()
    ensures
        utf8(" /Root ") == seq![0x20u8, 0x2f] + utf8("Root") + seq![0x20u8],
        utf8(" /Prev ") == seq![0x20u8, 0x2f] + utf8("Prev") + seq![0x20u8],
        utf8("<< /Size ") == seq![0x3cu8, 0x3c, 0x20, 0x2f] + utf8("Size") + seq![0x20u8],
        utf8(" >>") == seq![0x20u8, 0x3e, 0x3e],
        utf8(" /") == seq![0x20u8, 0x2f],
        utf8(" ") == seq![0x20u8],
        utf8("\n") == seq![0x0au8],
        utf8(" 0 obj\n") == seq![0x20u8, 0x30, 0x20, 0x6f, 0x62, 0x6a, 0x0a],
        utf8(" 0 obj\n<< /Length ") == seq![0x20u8, 0x30, 0x20, 0x6f, 0x62, 0x6a, 0x0a, 0x3c, 0x3c, 0x20,
            0x2f] + utf8("Length") + seq![0x20u8],
        utf8(" >>\nstream\n") == seq![0x20u8, 0x3e, 0x3e, 0x0a] + utf8("stream") + seq![0x0au8],
        utf8("\nstream\n") == seq![0x0au8] + utf8("stream") + seq![0x0au8],
        mid().len() == 18,
{
    lemma_phrase_sp_root();
    lemma_phrase_sp_prev();
    lemma_phrase_open_size();
    lemma_phrase_sp_close();
    lemma_phrase_slash();
    lemma_phrase_space();
    lemma_phrase_nl();
    lemma_phrase_sp_0_obj_nl();
    lemma_phrase_sp_0_obj_nl_open_length();
    lemma_phrase_sp_close_nl_stream_nl();
    lemma_phrase_nl_stream_nl();
    lemma_phrase_nl_endstream_nl_endobj_nl();
}

proof fn lemma_phrase_xref_nl()
    ensures
        utf8("xref\n") == utf8("xref") + seq![0x0au8],
{
    lemma_text_xref_nl();
    lemma_text_xref();
    assert(utf8("xref\n") =~= utf8("xref") + seq![0x0au8]);
}

proof fn lemma_phrase_sp_1_nl()
    ensures
        utf8(" 1\n") == seq![0x20u8, 0x31, 0x0a],
{
    lemma_text_sp_1_nl();
    assert(utf8(" 1\n") =~= seq![0x20u8, 0x31, 0x0a]);
}

proof fn lemma_phrase_sp_00000_n_cr_nl_trailer_nl()
    ensures
        utf8(" 00000 n\r\ntrailer\n") == seq![0x20u8, 0x30, 0x30, 0x30, 0x30, 0x30, 0x20, 0x6e, 0x0d,
            0x0a] + utf8("trailer") + seq![0x0au8],
{
    lemma_text_sp_00000_n_cr_nl_trailer_nl();
    lemma_text_trailer();
    assert(utf8(" 00000 n\r\ntrailer\n") =~= seq![0x20u8, 0x30, 0x30, 0x30, 0x30, 0x30, 0x20, 0x6e, 0x0d,
    0x0a] + utf8("trailer") + seq![0x0au8]);
}

proof fn lemma_phrase_open_type_xref_size()
    ensures
        utf8("<< /Type /XRef /Size ") == seq![0x3cu8, 0x3c] + entry(utf8("Type"), utf8("/XRef"))
            + seq![0x20u8, 0x2f] + utf8("Size") + seq![0x20u8],
{
    lemma_text_open_type_xref_size();
    lemma_text_type();
    lemma_text_name_xref();
    lemma_text_size();
    assert(utf8("<< /Type /XRef /Size ") =~= seq![0x3cu8, 0x3c] + entry(utf8("Type"), utf8("/XRef"))
    + seq![0x20u8, 0x2f] + utf8("Size") + seq![0x20u8]);
}

proof fn lemma_phrase_sp_index_array()
    ensures
        utf8(" /Index [") == seq![0x20u8, 0x2f] + utf8("Index") + seq![0x20u8, 0x5b],
{
    lemma_text_sp_index_array();
    lemma_text_index();
    assert(utf8(" /Index [") =~= seq![0x20u8, 0x2f] + utf8("Index") + seq![0x20u8, 0x5b]);
}

proof fn lemma_phrase_sp_1()
    ensures
        utf8(" 1 ") == seq![0x20u8, 0x31, 0x20],
{
    lemma_text_sp_1();
    assert(utf8(" 1 ") =~= seq![0x20u8, 0x31, 0x20]);
}

proof fn lemma_phrase_sp_1_end_w_array_1_8_2_end()
    ensures
        utf8(" 1] /W [1 8 2]") == seq![0x20u8, 0x31, 0x5d] + entry(
            utf8("W"),
            seq![0x5bu8, 0x31, 0x20, 0x38, 0x20, 0x32, 0x5d],
        ),
{
    lemma_text_sp_1_end_w_array_1_8_2_end();
    lemma_text_w();
    assert(utf8(" 1] /W [1 8 2]") =~= seq![0x20u8, 0x31, 0x5d] + entry(
    utf8("W"),
    seq![0x5bu8, 0x31, 0x20, 0x38, 0x20, 0x32, 0x5d],
    ));
}

proof fn lemma_phrase_sp_length_22_close()
    ensures
        utf8(" /Length 22 >>") == entry(utf8("Length"), seq![0x32u8, 0x32]) + seq![0x20u8, 0x3e,
            0x3e],
{
    lemma_text_sp_length_22_close();
    lemma_text_length();
    assert(utf8(" /Length 22 >>") =~= entry(utf8("Length"), seq![0x32u8, 0x32]) + seq![0x20u8, 0x3e,
    0x3e]);
}

proof fn lemma_phrase_startxref_nl()
    ensures
        utf8("startxref\n") == utf8("startxref") + seq![0x0au8],
{
    lemma_text_startxref_nl();
    lemma_text_startxref();
    assert(utf8("startxref\n") =~= utf8("startxref") + seq![0x0au8]);
}

proof fn lemma_phrase_startxref()
    ensures
        utf8("startxref") == seq![0x73u8, 0x74, 0x61, 0x72, 0x74, 0x78, 0x72, 0x65, 0x66],
{
    lemma_text_startxref();
    assert(utf8("startxref") =~= seq![0x73u8, 0x74, 0x61, 0x72, 0x74, 0x78, 0x72, 0x65, 0x66]);
}

proof fn lemma_phrase_nl_eof_nl()
    ensures
        utf8("\n%%EOF\n") == seq![0x0au8, 0x25, 0x25, 0x45, 0x4f, 0x46, 0x0a],
{
    lemma_text_nl_eof_nl();
    assert(utf8("\n%%EOF\n") =~= seq![0x0au8, 0x25, 0x25, 0x45, 0x4f, 0x46, 0x0a]);
}

/// The fixed parts of a cross-reference section, taken apart.
proof fn lemma_section_phrases()
    ensures
        utf8("xref\n") == utf8("xref") + seq![0x0au8],
        utf8(" 1\n") == seq![0x20u8, 0x31, 0x0a],
        utf8(" 00000 n\r\ntrailer\n") == seq![0x20u8, 0x30, 0x30, 0x30, 0x30, 0x30, 0x20, 0x6e, 0x0d, 0x0a]
            + utf8("trailer") + seq![0x0au8],
        utf8("<< /Type /XRef /Size ") == seq![0x3cu8, 0x3c] + entry(utf8("Type"), utf8("/XRef"))
            + seq![0x20u8, 0x2f] + utf8("Size") + seq![0x20u8],
        utf8(" /Index [") == seq![0x20u8, 0x2f] + utf8("Index") + seq![0x20u8, 0x5b],
        utf8(" 1 ") == seq![0x20u8, 0x31, 0x20],
        utf8(" 1] /W [1 8 2]") == seq![0x20u8, 0x31, 0x5d] + entry(
            utf8("W"),
            seq![0x5bu8, 0x31, 0x20, 0x38, 0x20, 0x32, 0x5d],
        ),
        utf8(" /Length 22 >>") == entry(utf8("Length"), seq![0x32u8, 0x32]) + seq![0x20u8, 0x3e, 0x3e],
        utf8("startxref\n") == utf8("startxref") + seq![0x0au8],
        utf8("startxref") == seq![0x73u8, 0x74, 0x61, 0x72, 0x74, 0x78, 0x72, 0x65, 0x66],
        utf8("\n%%EOF\n") == seq![0x0au8, 0x25, 0x25, 0x45, 0x4f, 0x46, 0x0a],
{
    lemma_phrase_xref_nl();
    lemma_phrase_sp_1_nl();
    lemma_phrase_sp_00000_n_cr_nl_trailer_nl();
    lemma_phrase_open_type_xref_size();
    lemma_phrase_sp_index_array();
    lemma_phrase_sp_1();
    lemma_phrase_sp_1_end_w_array_1_8_2_end();
    lemma_phrase_sp_length_22_close();
    lemma_phrase_startxref_nl();
    lemma_phrase_startxref();
    lemma_phrase_nl_eof_nl();
}

proof fn lemma_small_numbers()
    ensures
        decimal(0) == seq![0x30u8],
        decimal(1) == seq![0x31u8],
        decimal(2) == seq![0x32u8],
        decimal(8) == seq![0x38u8],
        decimal(22) == seq![0x32u8, 0x32],
{
    reveal_with_fuel(decimal, 3);
    assert(decimal(22) =~= seq![0x32u8, 0x32]);
}

// ---------------------------------------------------------------------------------------------
// The payload object

/// An object header reads back.
proof fn lemma_object(n: nat, t: Seq<u8>)
    requires
        n <= u64::MAX,
    ensures
        object_header(decimal(n) + utf8(" 0 obj\n") + t) == Some(decimal(n).len() as int + 6),
        (decimal(n) + utf8(" 0 obj\n") + t).skip(decimal(n).len() as int + 6) == seq![0x0au8] + t,
{
    lemma_phrases();
    lemma_obj_word();
    lemma_small_numbers();
    let d = decimal(n);
    let s = d + utf8(" 0 obj\n") + t;
    let x = utf8(" 0 obj\n") + t;
    assert(s =~= d + x);
    assert(x[0] == 0x20);
    lemma_uint_here(n, x);
    assert(s.skip(d.len() as int) =~= x);
    let y = seq![0x20u8, 0x6f, 0x62, 0x6a, 0x0a] + t;
    assert(x =~= seq![0x20u8] + decimal(0) + y);
    lemma_uint_spaced(0x20, 0, y);
    assert(s.skip(d.len() as int + 2) =~= y);
    assert(y =~= seq![0x20u8] + utf8("obj") + (seq![0x0au8] + t));
    lemma_word_spaced(0x20, utf8("obj"), seq![0x0au8] + t);
    assert(s.skip(d.len() as int + 6) =~= seq![0x0au8] + t);
}

/// `stream` on a line of its own reads back.
proof fn lemma_stream_line(t: Seq<u8>)
    ensures
        stream_opening(utf8("\nstream\n") + t) == Some(8int),
{
    lemma_phrases();
    lemma_obj_word();
    let s = utf8("\nstream\n") + t;
    let x = seq![0x0au8] + t;
    assert(s =~= seq![0x0au8] + utf8("stream") + x);
    lemma_word_spaced(0x0a, utf8("stream"), x);
    assert(s[7] == 0x0a);
}

/// The only entry of a payload object.
spec fn length_pairs(n: nat) -> Seq<(Seq<u8>, Seq<u8>)> {
    seq![(utf8("Length"), decimal(n))]
}

proof fn lemma_one_entry(key: Seq<u8>, value: Seq<u8>)
    ensures
        entries(seq![(key, value)]) == entry(key, value),
        find(seq![(key, value)], key) == Some(value),
        forall|k: Seq<u8>| k != key ==> #[trigger] find(seq![(key, value)], k) is None,
{
    let p = seq![(key, value)];
    assert(p.skip(1) =~= Seq::<(Seq<u8>, Seq<u8>)>::empty());
    assert(entries(p.skip(1)) =~= Seq::<u8>::empty());
    assert(entries(p) =~= entry(key, value));
    assert forall|k: Seq<u8>| k != key implies #[trigger] find(p, k) is None by {
        assert(find(p.skip(1), k) is None);
    }
}

proof fn lemma_opening(size: nat, n: nat)
    ensures
        object_opening(size, n) == decimal(size) + utf8(" 0 obj\n") + dict_of(length_pairs(n)) + utf8(
            "\nstream\n",
        ),
{
    lemma_phrases();
    lemma_one_entry(utf8("Length"), decimal(n));
    assert(object_opening(size, n) =~= decimal(size) + utf8(" 0 obj\n") + dict_of(length_pairs(n))
        + utf8("\nstream\n"));
}

pub proof fn lemma_no_mark(n: nat)
    ensures
        !decimal(n).contains(0x52),
{
    lemma_decimal_digits(n);
    if decimal(n).contains(0x52) {
        let i = choose|i: int| 0 <= i < decimal(n).len() && decimal(n)[i] == 0x52;
        assert(is_digit(decimal(n)[i]));
    }
}

/// A number on its own reads back.
pub proof fn lemma_uint_alone(n: nat)
    requires
        n <= u64::MAX,
    ensures
        uint(decimal(n)) == Some((n, decimal(n).len() as int)),
{
    lemma_uint_here(n, Seq::empty());
    assert(decimal(n) + Seq::<u8>::empty() =~= decimal(n));
}

/// The dictionary of a payload object says how long the payload is, and nothing else.
proof fn lemma_length_dict(n: nat)
    requires
        n <= u64::MAX,
    ensures
        all_sound(length_pairs(n)),
        value_of(dict_of(length_pairs(n)), utf8("Filter")) is None,
        value_of(dict_of(length_pairs(n)), utf8("Type")) is None,
        uint_of(dict_of(length_pairs(n)), utf8("Length")) == Some(n),
{
    let pairs = length_pairs(n);
    lemma_key_facts();
    numbers_are_sound(n);
    lemma_dict_of(pairs, Seq::empty(), utf8("Filter"));
    lemma_dict_of(pairs, Seq::empty(), utf8("Type"));
    lemma_dict_of(pairs, Seq::empty(), utf8("Length"));
    lemma_one_entry(utf8("Length"), decimal(n));
    lemma_no_mark(n);
    lemma_uint_alone(n);
}

/// An object with a dictionary of sound entries and a stream, taken apart.
pub proof fn lemma_stream_object(number: nat, pairs: Seq<(Seq<u8>, Seq<u8>)>, rest: Seq<u8>)
    requires
        number <= u64::MAX,
        all_sound(pairs),
    ensures
        ({
            let win = decimal(number) + utf8(" 0 obj\n") + dict_of(pairs) + utf8("\nstream\n") + rest;
            let h = decimal(number).len() as int + 6;
            let to = 1 + dict_of(pairs).len() as int;
            &&& object_header(win) == Some(h)
            &&& span(win.skip(h)) == Some((1int, to))
            &&& win.subrange(h + 1, h + to) == dict_of(pairs)
            &&& stream_opening(win.skip(h + to)) == Some(8int)
            &&& win.len() == h + to + 8 + rest.len()
        }),
{
    let d = decimal(number);
    let dict = dict_of(pairs);
    let line = utf8("\nstream\n");
    let head = utf8(" 0 obj\n");
    let win = d + head + dict + line + rest;
    let h = d.len() as int + 6;
    let to = 1 + dict.len() as int;
    assert(line.len() == 8 && head.len() == 7 && head[6] == 0x0a) by {
        lemma_phrases();
        lemma_obj_word();
    }
    let t = dict + line + rest;
    assert(win =~= d + head + t);
    lemma_object(number, t);
    assert(seq![0x0au8] + t =~= seq![0x0au8] + dict + (line + rest));
    lemma_span_spaced(0x0a, pairs, line + rest);
    assert(win.subrange(h + 1, h + to) =~= win.skip(h).subrange(1, to));
    assert(win.skip(h + to) =~= line + rest);
    lemma_stream_line(rest);
}

/// What stands at the front of a window.
pub proof fn lemma_window_front(out: Seq<u8>, base: int, front: Seq<u8>) -> (rest: Seq<u8>)
    requires
        0 <= base < out.len(),
        0 < front.len() <= MAX_READ,
        starts(out.skip(base), front),
    ensures
        window(out, base) == front + rest,
{
    let win = window(out, base);
    let rest = win.skip(front.len() as int);
    assert forall|i: int| 0 <= i < front.len() implies win[i] == front[i] by {
        assert(out.skip(base).take(front.len() as int)[i] == out[base + i]);
    }
    assert(win =~= front + rest);
    rest
}

/// The body of a payload object is found where it was put.
proof fn lemma_payload(out: Seq<u8>, base: int, size: nat, n: nat)
    requires
        0 <= base,
        size <= u64::MAX,
        n <= u64::MAX,
        object_opening(size, n).len() <= 80,
        base + object_opening(size, n).len() + n <= out.len(),
        starts(out.skip(base), object_opening(size, n)),
    ensures
        body_of(out, base) == Some((base + object_opening(size, n).len(), n as int)),
{
    let dict = dict_of(length_pairs(n));
    let h = decimal(size).len() as int + 6;
    let to = 1 + dict.len() as int;
    lemma_payload_parts(out, base, size, n);
    lemma_length_dict(n);
    lemma_body(out, base, h, to, dict, n);
}

proof fn lemma_payload_parts(out: Seq<u8>, base: int, size: nat, n: nat)
    requires
        0 <= base,
        size <= u64::MAX,
        n <= u64::MAX,
        object_opening(size, n).len() <= 80,
        base + object_opening(size, n).len() + n <= out.len(),
        starts(out.skip(base), object_opening(size, n)),
    ensures
        ({
            let dict = dict_of(length_pairs(n));
            let h = decimal(size).len() as int + 6;
            let to = 1 + dict.len() as int;
            let win = window(out, base);
            &&& object_header(win) == Some(h)
            &&& span(win.skip(h)) == Some((1int, to))
            &&& win.subrange(h + 1, h + to) == dict
            &&& stream_opening(win.skip(h + to)) == Some(8int)
            &&& object_opening(size, n).len() == h + to + 8
        }),
{
    let opening = object_opening(size, n);
    let dict = dict_of(length_pairs(n));
    lemma_opening(size, n);
    assert(all_sound(length_pairs(n))) by {
        lemma_length_dict(n);
    }
    assert(opening.len() > 0) by {
        lemma_decimal_digits(size);
    }
    let rest = lemma_window_front(out, base, opening);
    lemma_stream_object(size, length_pairs(n), rest);
}

/// What a body is made of.
proof fn lemma_body(out: Seq<u8>, base: int, h: int, to: int, dict: Seq<u8>, n: nat)
    requires
        object_header(window(out, base)) == Some(h),
        span(window(out, base).skip(h)) == Some((1int, to)),
        window(out, base).subrange(h + 1, h + to) == dict,
        value_of(dict, utf8("Filter")) is None,
        value_of(dict, utf8("Type")) is None,
        uint_of(dict, utf8("Length")) == Some(n),
        stream_opening(window(out, base).skip(h + to)) == Some(8int),
        base + h + to + 8 + n <= out.len(),
    ensures
        body_of(out, base) == Some((base + h + to + 8, n as int)),
{
    reveal(body_of);
}

// ---------------------------------------------------------------------------------------------
// The end of the file

proof fn lemma_last_at(bytes: Seq<u8>, needle: Seq<u8>, p: int, from: int)
    requires
        needle.len() > 0,
        0 <= p <= from,
        from + needle.len() <= bytes.len(),
        starts(bytes.skip(p), needle),
        forall|i: int| p < i <= from ==> #[trigger] bytes[i] != needle[0],
    ensures
        last_at(bytes, needle, from) == Some(p),
    decreases from - p,
{
    if from > p {
        let s = bytes.skip(from);
        assert(s[0] == bytes[from]);
        if starts(s, needle) {
            assert(s.take(needle.len() as int)[0] == needle[0]);
        }
        lemma_last_at(bytes, needle, p, from - 1);
    }
}

/// The final `startxref` is found and points where it was told to.
pub proof fn lemma_closing(before: Seq<u8>, at: nat)
    requires
        at <= u64::MAX,
        at < before.len(),
    ensures
        startxref(before + closing(at)) == Ok::<int, Fault>(at as int),
{
    reveal(startxref);
    lemma_section_phrases();
    lemma_decimal_len_u64(at as u64);
    lemma_decimal_digits(at);
    let d = decimal(at);
    let end = closing(at);
    let out = before + end;
    let word = utf8("startxref");
    assert(end.len() == 17 + d.len());
    let tail = if out.len() > TAIL_WINDOW {
        out.skip(out.len() - TAIL_WINDOW)
    } else {
        out
    };
    let p = tail.len() - end.len();
    assert(tail.skip(p) =~= end);
    assert(end =~= word + (seq![0x0au8] + d + utf8("\n%%EOF\n")));
    assert(end.take(9) =~= word);
    assert forall|i: int| p < i <= tail.len() - 9 implies #[trigger] tail[i] != word[0] by {
        let k = i - p;
        assert(tail[i] == tail.skip(p)[k]);
        assert(tail[i] == end[k]);
        if k < 9 {
            assert(end[k] == word[k]);
        } else if k == 9 {
            assert(end[k] == 0x0a);
        } else if k < 10 + d.len() {
            assert(end[k] == d[k - 10]);
            assert(is_digit(d[k - 10]));
        } else {
            assert(end[k] == utf8("\n%%EOF\n")[k - 10 - d.len()]);
        }
    }
    lemma_last_at(tail, word, p, tail.len() - 9);
    let rest = seq![0x0au8] + d + utf8("\n%%EOF\n");
    assert(tail.skip(p + 9) =~= rest);
    lemma_uint_spaced(0x0a, at, utf8("\n%%EOF\n"));
}

// ---------------------------------------------------------------------------------------------
// The trailer

/// The entries carried over from the old trailer.
spec fn carried_pairs(dict: Seq<u8>) -> Seq<(Seq<u8>, Seq<u8>)> {
    let id = match value_of(dict, utf8("ID")) {
        Some(v) => seq![(utf8("ID"), v)],
        None => Seq::empty(),
    };
    let info = match value_of(dict, utf8("Info")) {
        Some(v) => seq![(utf8("Info"), v)],
        None => Seq::empty(),
    };
    id + info
}

/// The entries that both forms of a section share.
spec fn tail_pairs(s: SectionAt, root: Seq<u8>) -> Seq<(Seq<u8>, Seq<u8>)> {
    seq![(utf8("Root"), root), (utf8("Prev"), decimal(s.offset as nat))] + carried_pairs(s.dict)
}

/// The entries of a classic trailer.
spec fn table_pairs(s: SectionAt, root: Seq<u8>, size: nat) -> Seq<(Seq<u8>, Seq<u8>)> {
    seq![(utf8("Size"), decimal(size + 1))] + tail_pairs(s, root)
}

/// A trailer whose values can be carried over: they stand for themselves wherever they are put, as
/// references and plain arrays do, whatever bytes the strings in them hold.
pub open spec fn portable(s: SectionAt) -> bool {
    &&& value_of(s.dict, utf8("Root")) matches Some(v) ==> sound(v)
    &&& value_of(s.dict, utf8("ID")) matches Some(v) ==> sound(v)
    &&& value_of(s.dict, utf8("Info")) matches Some(v) ==> sound(v)
}

proof fn lemma_entries_concat(a: Seq<(Seq<u8>, Seq<u8>)>, b: Seq<(Seq<u8>, Seq<u8>)>)
    ensures
        entries(a + b) == entries(a) + entries(b),
    decreases a.len(),
{
    if a.len() == 0 {
        assert(a + b =~= b);
        assert(entries(a) + entries(b) =~= entries(b));
    } else {
        assert((a + b).skip(1) =~= a.skip(1) + b);
        assert((a + b)[0] == a[0]);
        lemma_entries_concat(a.skip(1), b);
        assert(entries(a + b) =~= entries(a) + entries(b));
    }
}

proof fn lemma_find_concat(
    a: Seq<(Seq<u8>, Seq<u8>)>,
    b: Seq<(Seq<u8>, Seq<u8>)>,
    key: Seq<u8>,
)
    ensures
        find(a + b, key) == (if find(a, key) is Some {
            find(a, key)
        } else {
            find(b, key)
        }),
    decreases a.len(),
{
    if a.len() == 0 {
        assert(a + b =~= b);
    } else {
        assert((a + b).skip(1) =~= a.skip(1) + b);
        assert((a + b)[0] == a[0]);
        lemma_find_concat(a.skip(1), b, key);
    }
}

proof fn lemma_carried(dict: Seq<u8>)
    ensures
        carried(dict) == entries(carried_pairs(dict)),
        find(carried_pairs(dict), utf8("Filter")) is None,
        find(carried_pairs(dict), utf8("Encrypt")) is None,
{
    let none = Seq::<(Seq<u8>, Seq<u8>)>::empty();
    let id = match value_of(dict, utf8("ID")) {
        Some(v) => seq![(utf8("ID"), v)],
        None => none,
    };
    let info = match value_of(dict, utf8("Info")) {
        Some(v) => seq![(utf8("Info"), v)],
        None => none,
    };
    assert(entries(none) =~= Seq::<u8>::empty());
    lemma_key_facts();
    assert(utf8(" /") == seq![0x20u8, 0x2f] && utf8(" ") == seq![0x20u8]) by {
        lemma_phrases();
    }
    if let Some(v) = value_of(dict, utf8("ID")) {
        lemma_one_entry(utf8("ID"), v);
    }
    if let Some(v) = value_of(dict, utf8("Info")) {
        lemma_one_entry(utf8("Info"), v);
    }
    assert(entries(id) =~= carried_entry(dict, utf8("ID")));
    assert(entries(info) =~= carried_entry(dict, utf8("Info")));
    lemma_entries_concat(id, info);
    lemma_find_concat(id, info, utf8("Filter"));
    lemma_find_concat(id, info, utf8("Encrypt"));
}

proof fn lemma_two_entries(p: Seq<(Seq<u8>, Seq<u8>)>)
    requires
        p.len() == 2,
    ensures
        entries(p) == entry(p[0].0, p[0].1) + entry(p[1].0, p[1].1),
        p[0].0 != p[1].0 ==> find(p, p[1].0) == Some(p[1].1),
        forall|k: Seq<u8>| k != p[0].0 && k != p[1].0 ==> #[trigger] find(p, k) is None,
{
    let (k1, v1) = p[0];
    let (k2, v2) = p[1];
    let q = seq![(k2, v2)];
    assert(p.skip(1) =~= q);
    lemma_one_entry(k2, v2);
    assert forall|k: Seq<u8>| k != k1 && k != k2 implies #[trigger] find(p, k) is None by {
        assert(find(p.skip(1), k) == find(q, k));
    }
}

/// The shared end of a trailer: what it is made of, and what it says.
proof fn lemma_tail(s: SectionAt, root: Seq<u8>)
    requires
        portable(s),
        value_of(s.dict, utf8("Root")) == Some(root),
        0 <= s.offset <= u64::MAX,
    ensures
        trailer_tail(s, root) == entries(tail_pairs(s, root)),
        all_sound(tail_pairs(s, root)),
        find(tail_pairs(s, root), utf8("Prev")) == Some(decimal(s.offset as nat)),
        find(tail_pairs(s, root), utf8("Filter")) is None,
        find(tail_pairs(s, root), utf8("Encrypt")) is None,
{
    let prev = decimal(s.offset as nat);
    let front = seq![(utf8("Root"), root), (utf8("Prev"), prev)];
    let back = carried_pairs(s.dict);
    lemma_key_facts();
    lemma_carried(s.dict);
    lemma_two_entries(front);
    lemma_entries_concat(front, back);
    lemma_find_concat(front, back, utf8("Prev"));
    lemma_find_concat(front, back, utf8("Filter"));
    lemma_find_concat(front, back, utf8("Encrypt"));
    numbers_are_sound(s.offset as nat);
    assert(trailer_tail(s, root) =~= entry(utf8("Root"), root) + entry(utf8("Prev"), prev) + carried(
        s.dict,
    )) by {
        assert(utf8(" /Root ") == seq![0x20u8, 0x2f] + utf8("Root") + seq![0x20u8] && utf8(" /Prev ")
            == seq![0x20u8, 0x2f] + utf8("Prev") + seq![0x20u8]) by {
            lemma_phrases();
        }
    }
    let all = front + back;
    assert forall|i: int| 0 <= i < all.len() implies sound_key((#[trigger] all[i]).0) && sound(all[i].1) by {
        if i >= 2 {
            assert(all[i] == back[i - 2]);
        }
    }
}

#[verifier::spinoff_prover]
#[verifier::rlimit(40)]
proof fn lemma_table_dict(s: SectionAt, root: Seq<u8>, size: nat)
    requires
        portable(s),
        value_of(s.dict, utf8("Root")) == Some(root),
        0 <= s.offset <= u64::MAX,
        size < u64::MAX,
    ensures
        table_dict(s, root, size) == dict_of(table_pairs(s, root, size)),
        all_sound(table_pairs(s, root, size)),
        value_of(table_dict(s, root, size), utf8("Prev")) == Some(decimal(s.offset as nat)),
        value_of(table_dict(s, root, size), utf8("Encrypt")) is None,
{
    let front = seq![(utf8("Size"), decimal(size + 1))];
    let back = tail_pairs(s, root);
    let all = front + back;
    lemma_key_facts();
    lemma_tail(s, root);
    lemma_one_entry(utf8("Size"), decimal(size + 1));
    lemma_entries_concat(front, back);
    lemma_find_concat(front, back, utf8("Prev"));
    lemma_find_concat(front, back, utf8("Encrypt"));
    numbers_are_sound(size + 1);
    assert(table_dict(s, root, size) =~= dict_of(all)) by {
        assert(utf8("<< /Size ") == seq![0x3cu8, 0x3c, 0x20, 0x2f] + utf8("Size") + seq![0x20u8] && utf8(
            " >>",
        ) == seq![0x20u8, 0x3e, 0x3e]) by {
            lemma_phrases();
        }
    }
    assert forall|i: int| 0 <= i < all.len() implies sound_key((#[trigger] all[i]).0) && sound(all[i].1) by {
        if i >= 1 {
            assert(all[i] == back[i - 1]);
        }
    }
    lemma_dict_of(all, Seq::empty(), utf8("Prev"));
    lemma_dict_of(all, Seq::empty(), utf8("Encrypt"));
}

// ---------------------------------------------------------------------------------------------
// A classic section

/// What stands at the front of a short read.
pub proof fn lemma_clip_front(out: Seq<u8>, pos: int, m: int, front: Seq<u8>) -> (rest: Seq<u8>)
    requires
        0 <= pos < out.len(),
        0 < front.len() <= m,
        starts(out.skip(pos), front),
    ensures
        clip(out, pos, pos + m) == front + rest,
{
    let win = clip(out, pos, pos + m);
    let rest = win.skip(front.len() as int);
    assert forall|i: int| 0 <= i < front.len() implies win[i] == front[i] by {
        assert(out.skip(pos).take(front.len() as int)[i] == out[pos + i]);
    }
    assert(win =~= front + rest);
    rest
}

/// What stands further on.
pub proof fn lemma_starts_further(out: Seq<u8>, pos: int, a: Seq<u8>, b: Seq<u8>)
    requires
        0 <= pos <= out.len(),
        starts(out.skip(pos), a + b),
    ensures
        starts(out.skip(pos), a),
        starts(out.skip(pos + a.len()), b),
        pos + a.len() + b.len() <= out.len(),
{
    let s = out.skip(pos);
    let n = (a + b).len() as int;
    assert(s.take(n) == a + b);
    assert(s.take(a.len() as int) =~= a) by {
        assert forall|i: int| 0 <= i < a.len() implies s[i] == a[i] by {
            assert(s.take(n)[i] == (a + b)[i]);
        }
    }
    let t = out.skip(pos + a.len());
    assert(t.take(b.len() as int) =~= b) by {
        assert forall|i: int| 0 <= i < b.len() implies t[i] == b[i] by {
            assert(s.take(n)[a.len() + i] == (a + b)[a.len() + i]);
        }
    }
}

/// A digit does not begin `trailer`.
pub proof fn lemma_no_trailer(x: Seq<u8>)
    requires
        x.len() > 0,
        is_digit(x[0]),
    ensures
        !starts(x, utf8("trailer")),
{
    lemma_text_trailer();
    if starts(x, utf8("trailer")) {
        assert(x.take(7)[0] == x[0]);
    }
}

/// The first line of a subsection with one entry.
proof fn lemma_subsection_line(size: nat, t: Seq<u8>)
    requires
        size <= u64::MAX,
    ensures
        ({
            let win = seq![0x0au8] + decimal(size) + utf8(" 1\n") + t;
            &&& subsection(win) == Some((size, 1nat, decimal(size).len() as int + 4))
            &&& !starts(win.skip(ws_len(win)), utf8("trailer"))
        }),
{
    let d = decimal(size);
    let word = utf8(" 1\n");
    assert(word == seq![0x20u8, 0x31, 0x0a]) by {
        lemma_text_sp_1_nl();
    }
    lemma_small_numbers();
    lemma_decimal_digits(size);
    let win = seq![0x0au8] + d + word + t;
    let x = d + (word + t);
    assert(win =~= seq![0x0au8] + x);
    assert(x[0] == d[0] && is_digit(d[0]));
    lemma_no_ws(x);
    lemma_one_space(0x0a, x);
    assert(win.skip(1) =~= x);
    assert((word + t)[0] == 0x20);
    lemma_uint_here(size, word + t);
    let y = seq![0x0au8] + t;
    assert(win.skip(1 + d.len() as int) =~= seq![0x20u8] + decimal(1) + y);
    lemma_uint_spaced(0x20, 1, y);
    assert(win.skip(3 + d.len() as int) =~= y);
    assert(gap_len(y) == 1) by {
        assert(y[0] == 0x0a);
    }
    lemma_no_trailer(x);
}

proof fn lemma_zeros(k: nat, d: Seq<u8>)
    ensures
        number(Seq::new(k, |i: int| 0x30u8) + d) == number(d),
    decreases d.len(), k,
{
    let z = Seq::new(k, |i: int| 0x30u8);
    if d.len() == 0 {
        assert(z + d =~= z);
        if k > 0 {
            let y = Seq::new((k - 1) as nat, |i: int| 0x30u8);
            assert(z.drop_last() =~= y);
            lemma_zeros((k - 1) as nat, d);
            assert(y + d =~= y);
        }
    } else {
        assert((z + d).drop_last() =~= z + d.drop_last());
        lemma_zeros(k, d.drop_last());
    }
}

/// Ten digits hold every offset that a classic table can.
pub proof fn lemma_padded(base: nat)
    requires
        base <= MAX_TABLE_OFFSET,
    ensures
        padded(base, 10).len() == 10,
        decimal_value(padded(base, 10)) == Some(base),
{
    let d = decimal(base);
    assert(d.len() <= 10) by {
        assert(vstd::arithmetic::power::pow(10, 10) == 10000000000int) by {
            reveal_with_fuel(vstd::arithmetic::power::pow, 11);
        }
        lemma_decimal_len(base, 10);
    }
    lemma_decimal_digits(base);
    lemma_number_of_decimal(base);
    let k = (10 - d.len()) as nat;
    let z = Seq::new(k, |i: int| 0x30u8);
    lemma_zeros(k, d);
    let p = padded(base, 10);
    assert(p =~= z + d);
    assert forall|i: int| 0 <= i < p.len() implies is_digit(p[i]) by {
        if i >= k {
            assert(p[i] == d[i - k]);
        }
    }
}

/// The fixed end of a table entry.
spec fn entry_end() -> Seq<u8> {
    seq![0x20u8, 0x30, 0x30, 0x30, 0x30, 0x30, 0x20, 0x6e, 0x0d, 0x0a]
}

/// One entry reads back.
proof fn lemma_table_row(base: nat, first: nat)
    requires
        base <= MAX_TABLE_OFFSET,
    ensures
        (padded(base, 10) + entry_end()).len() == 20,
        table_rows(padded(base, 10) + entry_end(), first, 1) == seq![(wrapped(first as int), base as u64)],
{
    lemma_padded(base);
    let row = padded(base, 10) + entry_end();
    assert(row.subrange(0, 20) =~= row);
    assert(row[17] == entry_end()[7]);
    assert(row.subrange(0, 10) =~= padded(base, 10));
    assert(table_rows(row, first, 0) =~= Seq::<(u64, u64)>::empty());
    reveal_with_fuel(table_rows, 2);
    assert(table_rows(row, first, 1) =~= seq![(wrapped(first as int), base as u64)]);
}

/// The subsection of a classic section, up to its trailer.
proof fn lemma_table_body(out: Seq<u8>, pos: int, size: nat, base: nat)
    requires
        0 <= pos,
        size <= u64::MAX,
        base <= MAX_TABLE_OFFSET,
        pos <= out.len(),
        starts(
            out.skip(pos),
            seq![0x0au8] + decimal(size) + utf8(" 1\n") + (padded(base, 10) + entry_end()) + utf8(
                "trailer",
            ),
        ),
    ensures
        table(out, pos, 0, Seq::empty(), true) == Ok::<TableEnd, Fault>(
            TableEnd {
                at: pos + decimal(size).len() + 31,
                total: 1,
                entries: seq![(wrapped(size as int), base as u64)],
            },
        ),
{
    let d = decimal(size);
    let line = seq![0x0au8] + d + utf8(" 1\n");
    let row = padded(base, 10) + entry_end();
    let word = utf8("trailer");
    assert(utf8(" 1\n").len() == 3) by {
        lemma_text_sp_1_nl();
    }
    assert(word.len() == 7 && word[0] == 0x74) by {
        lemma_obj_word();
    }
    lemma_table_row(base, size);
    lemma_decimal_len_u64(size as u64);
    assert(line + row + word =~= line + (row + word));
    lemma_starts_further(out, pos, line, row + word);
    let from = pos + line.len();
    lemma_starts_further(out, from, row, word);
    let to = from + 20;
    let t = lemma_clip_front(out, pos, 64, line);
    lemma_subsection_line(size, t);
    assert(clip(out, from, to) =~= row) by {
        assert(out.skip(from).take(20) == row);
        assert(clip(out, from, to) =~= out.skip(from).take(20));
    }
    let u = lemma_clip_front(out, to, 64, word);
    let win = clip(out, to, to + 64);
    lemma_no_ws(win);
    assert(win.skip(0) =~= win);
    assert(win.take(7) =~= word);
    let one = seq![(wrapped(size as int), base as u64)];
    assert(table(out, to, 1, one, true) == Ok::<TableEnd, Fault>(
        TableEnd { at: to + 7, total: 1, entries: one },
    ));
    assert(Seq::<(u64, u64)>::empty() + one =~= one);
}

/// A classic section reads back.
proof fn lemma_table_section(out: Seq<u8>, at: int, s: SectionAt, root: Seq<u8>, size: nat, base: nat)
    requires
        0 <= at <= out.len(),
        portable(s),
        value_of(s.dict, utf8("Root")) == Some(root),
        0 <= s.offset <= u64::MAX,
        size < u64::MAX,
        base <= MAX_TABLE_OFFSET,
        table_bytes(s, root, size, base).len() <= MAX_READ,
        starts(out.skip(at), table_bytes(s, root, size, base)),
    ensures
        section_of(out, at, true) == Ok::<SectionAt, Fault>(
            SectionAt {
                offset: at,
                form: XrefForm::Table,
                entries: seq![(wrapped(size as int), base as u64)],
                dict: table_dict(s, root, size),
            },
        ),
{
    let d = decimal(size);
    let dict = table_dict(s, root, size);
    let xref = utf8("xref");
    let body = table_front(size, base);
    let nl = seq![0x0au8];
    lemma_table_bytes(s, root, size, base);
    lemma_table_front(size, base);
    lemma_xref_phrase();
    lemma_starts_further(out, at, xref, body + (nl + dict + nl));
    lemma_starts_further(out, at + 4, body, nl + dict + nl);
    lemma_table_body(out, at + 4, size, base);
    let end = at + 4 + d.len() + 31;
    lemma_table_dict(s, root, size);
    lemma_trailer(out, end, table_pairs(s, root, size));
    assert(out[at + 4] == 0x0a) by {
        assert(out.skip(at + 4).take(body.len() as int)[0] == body[0]);
    }
    lemma_table_begins(out, at);
    lemma_table_is(out, at, end, wrapped(size as int), base as u64, dict);
}

/// A classic section up to its dictionary, without `xref`.
spec fn table_front(size: nat, base: nat) -> Seq<u8> {
    seq![0x0au8] + decimal(size) + utf8(" 1\n") + (padded(base, 10) + entry_end()) + utf8("trailer")
}

proof fn lemma_xref_phrase()
    ensures
        utf8("xref").len() == 4,
        utf8("xref\n") == utf8("xref") + seq![0x0au8],
        utf8("\n") == seq![0x0au8],
{
    lemma_text_xref_nl();
    lemma_text_xref();
    lemma_text_nl();
    assert(utf8("xref\n") =~= utf8("xref") + seq![0x0au8]);
}

proof fn lemma_entry_phrase()
    ensures
        utf8(" 00000 n\r\ntrailer\n") == entry_end() + utf8("trailer") + seq![0x0au8],
        utf8("trailer").len() == 7,
        entry_end().len() == 10,
        utf8(" 1\n").len() == 3,
{
    lemma_text_sp_00000_n_cr_nl_trailer_nl();
    lemma_text_trailer();
    lemma_text_sp_1_nl();
    assert(utf8(" 00000 n\r\ntrailer\n") =~= entry_end() + utf8("trailer") + seq![0x0au8]);
}

proof fn lemma_table_front(size: nat, base: nat)
    requires
        base <= MAX_TABLE_OFFSET,
    ensures
        table_front(size, base).len() == decimal(size).len() + 31,
        table_front(size, base)[0] == 0x0a,
{
    lemma_padded(base);
    lemma_entry_phrase();
}

proof fn lemma_table_bytes(s: SectionAt, root: Seq<u8>, size: nat, base: nat)
    ensures
        table_bytes(s, root, size, base) == utf8("xref") + (table_front(size, base) + (seq![0x0au8]
            + table_dict(s, root, size) + seq![0x0au8])),
{
    lemma_xref_phrase();
    lemma_entry_phrase();
    lemma_regroup(
        utf8("xref"),
        seq![0x0au8],
        decimal(size),
        utf8(" 1\n"),
        padded(base, 10),
        entry_end(),
        utf8("trailer"),
        table_dict(s, root, size),
    );
}

proof fn lemma_regroup(
    a: Seq<u8>,
    nl: Seq<u8>,
    d: Seq<u8>,
    one: Seq<u8>,
    p: Seq<u8>,
    e: Seq<u8>,
    word: Seq<u8>,
    dict: Seq<u8>,
)
    ensures
        (a + nl) + d + one + p + (e + word + nl) + dict + nl == a + ((nl + d + one + (p + e) + word) + (
        nl + dict + nl)),
{
    assert((a + nl) + d + one + p + (e + word + nl) + dict + nl =~= a + ((nl + d + one + (p + e) + word)
        + (nl + dict + nl)));
}

/// The dictionary behind `trailer` reads back.
pub proof fn lemma_trailer(out: Seq<u8>, end: int, pairs: Seq<(Seq<u8>, Seq<u8>)>)
    requires
        0 <= end < out.len(),
        all_sound(pairs),
        dict_of(pairs).len() + 2 <= MAX_READ,
        starts(out.skip(end), seq![0x0au8] + dict_of(pairs) + seq![0x0au8]),
    ensures
        span(window(out, end)) == Some((1int, 1 + dict_of(pairs).len() as int)),
        window(out, end).subrange(1, 1 + dict_of(pairs).len() as int) == dict_of(pairs),
{
    let nl = seq![0x0au8];
    let dict = dict_of(pairs);
    let rest = lemma_window_front(out, end, nl + dict + nl);
    assert(nl + dict + nl + rest =~= nl + dict + (nl + rest));
    lemma_span_spaced(0x0a, pairs, nl + rest);
}

/// What a classic section is made of.
proof fn lemma_table_is(out: Seq<u8>, at: int, end: int, number: u64, base: u64, dict: Seq<u8>)
    requires
        table_begins(clip(out, at, at + 16)),
        table(out, at + 4, 0, Seq::empty(), true) == Ok::<TableEnd, Fault>(
            TableEnd { at: end, total: 1, entries: seq![(number, base)] },
        ),
        span(window(out, end)) == Some((1int, 1 + dict.len() as int)),
        window(out, end).subrange(1, 1 + dict.len() as int) == dict,
    ensures
        section_of(out, at, true) == Ok::<SectionAt, Fault>(
            SectionAt {
                offset: at,
                form: XrefForm::Table,
                entries: seq![(number, base)],
                dict,
            },
        ),
{
    reveal(section_of);
}

pub proof fn lemma_table_begins(out: Seq<u8>, at: int)
    requires
        0 <= at,
        at + 5 <= out.len(),
        starts(out.skip(at), utf8("xref")),
        out[at + 4] == 0x0a,
    ensures
        table_begins(clip(out, at, at + 16)),
{
    assert(utf8("xref").len() == 4) by {
        lemma_obj_word();
    }
    let head = clip(out, at, at + 16);
    assert(head.take(4) =~= out.skip(at).take(4));
    assert(head[4] == out[at + 4]);
}

// ---------------------------------------------------------------------------------------------
// A cross-reference stream

/// What stands in the brackets of `/Index`.
spec fn index_content(size: nat) -> Seq<u8> {
    decimal(size) + (seq![0x20u8] + decimal(1) + (seq![0x20u8] + decimal(size + 1) + (seq![0x20u8]
        + decimal(1))))
}

/// What stands in the brackets of `/W`.
spec fn width_content() -> Seq<u8> {
    decimal(1) + (seq![0x20u8] + decimal(8) + (seq![0x20u8] + decimal(2)))
}

/// An array.
spec fn array(content: Seq<u8>) -> Seq<u8> {
    seq![0x5bu8] + content + seq![0x5du8]
}

/// The entries before those that both forms share.
spec fn stream_front(size: nat) -> Seq<(Seq<u8>, Seq<u8>)> {
    seq![
        (utf8("Type"), utf8("/XRef")),
        (utf8("Size"), decimal(size + 2)),
        (utf8("Index"), array(index_content(size))),
        (utf8("W"), array(width_content())),
    ]
}

/// The entries of a cross-reference stream.
spec fn stream_pairs(s: SectionAt, root: Seq<u8>, size: nat) -> Seq<(Seq<u8>, Seq<u8>)> {
    stream_front(size) + (tail_pairs(s, root) + seq![(utf8("Length"), decimal(22))])
}

proof fn lemma_uints_here(n: nat, t: Seq<u8>)
    requires
        n <= u64::MAX,
        no_digit_next(t),
    ensures
        uints(decimal(n) + t) == seq![n as u64] + uints(t),
{
    lemma_uint_here(n, t);
    lemma_decimal_digits(n);
    assert((decimal(n) + t).skip(decimal(n).len() as int) =~= t);
}

proof fn lemma_uints_spaced(n: nat, t: Seq<u8>)
    requires
        n <= u64::MAX,
        no_digit_next(t),
    ensures
        uints(seq![0x20u8] + decimal(n) + t) == seq![n as u64] + uints(t),
{
    lemma_uint_spaced(0x20, n, t);
    assert((seq![0x20u8] + decimal(n) + t).skip(1 + decimal(n).len() as int) =~= t);
}

proof fn lemma_uints_last(n: nat)
    requires
        n <= u64::MAX,
    ensures
        uints(seq![0x20u8] + decimal(n)) == seq![n as u64],
{
    let none = Seq::<u8>::empty();
    lemma_uints_spaced(n, none);
    assert(seq![0x20u8] + decimal(n) + none =~= seq![0x20u8] + decimal(n));
    lemma_no_uint(none);
    assert(uints(none) =~= Seq::<u64>::empty());
    assert(seq![n as u64] + uints(none) =~= seq![n as u64]);
}

proof fn lemma_index_content(size: nat)
    requires
        size < u64::MAX,
    ensures
        uints(index_content(size)) == seq![size as u64, 1u64, (size + 1) as u64, 1u64],
{
    let c = seq![0x20u8] + decimal(1);
    let b = seq![0x20u8] + decimal(size + 1) + c;
    let a = seq![0x20u8] + decimal(1) + b;
    lemma_uints_last(1);
    lemma_uints_spaced(size + 1, c);
    lemma_uints_spaced(1, b);
    lemma_uints_here(size, a);
    assert(uints(index_content(size)) =~= seq![size as u64, 1u64, (size + 1) as u64, 1u64]);
}

proof fn lemma_width_content()
    ensures
        uints(width_content()) == seq![1u64, 8u64, 2u64],
{
    let b = seq![0x20u8] + decimal(2);
    let a = seq![0x20u8] + decimal(8) + b;
    lemma_uints_last(2);
    lemma_uints_spaced(8, b);
    lemma_uints_here(1, a);
    assert(uints(width_content()) =~= seq![1u64, 8u64, 2u64]);
}

/// Digits and spaces.
spec fn digits_and_spaces(s: Seq<u8>) -> bool {
    forall|i: int| 0 <= i < s.len() ==> is_digit(#[trigger] s[i]) || s[i] == 0x20
}

proof fn lemma_balanced_digits(s: Seq<u8>)
    requires
        digits_and_spaces(s),
    ensures
        balanced(s, 0, 0),
    decreases s.len(),
{
    if s.len() > 0 {
        assert(is_digit(s[0]) || s[0] == 0x20);
        assert(forall|i: int| 0 <= i < s.skip(1).len() ==> s.skip(1)[i] == s[i + 1]);
        lemma_balanced_digits(s.skip(1));
    }
}

proof fn lemma_spaced_digits(n: nat, t: Seq<u8>)
    requires
        digits_and_spaces(t),
    ensures
        digits_and_spaces(decimal(n) + t),
        digits_and_spaces(seq![0x20u8] + decimal(n) + t),
        digits_and_spaces(seq![0x20u8] + decimal(n)),
{
    let d = decimal(n);
    lemma_decimal_digits(n);
    let a = d + t;
    assert forall|i: int| 0 <= i < a.len() implies is_digit(#[trigger] a[i]) || a[i] == 0x20 by {
        if i < d.len() {
            assert(a[i] == d[i]);
        } else {
            assert(a[i] == t[i - d.len()]);
        }
    }
    let b = seq![0x20u8] + d + t;
    assert forall|i: int| 0 <= i < b.len() implies is_digit(#[trigger] b[i]) || b[i] == 0x20 by {
        if i > 0 {
            assert(b[i] == a[i - 1]);
        }
    }
    let e = seq![0x20u8] + d;
    assert forall|i: int| 0 <= i < e.len() implies is_digit(#[trigger] e[i]) || e[i] == 0x20 by {
        if i > 0 {
            assert(e[i] == d[i - 1]);
        }
    }
}

proof fn lemma_arrays_sound(size: nat)
    ensures
        sound(array(index_content(size))),
        sound(array(width_content())),
{
    let none = Seq::<u8>::empty();
    let c = seq![0x20u8] + decimal(1);
    lemma_spaced_digits(1, none);
    let b = seq![0x20u8] + decimal(size + 1) + c;
    lemma_spaced_digits(size + 1, c);
    let a = seq![0x20u8] + decimal(1) + b;
    lemma_spaced_digits(1, b);
    lemma_spaced_digits(size, a);
    lemma_balanced_digits(index_content(size));
    arrays_are_sound(index_content(size));
    let e = seq![0x20u8] + decimal(2);
    lemma_spaced_digits(2, none);
    let f = seq![0x20u8] + decimal(8) + e;
    lemma_spaced_digits(8, e);
    lemma_spaced_digits(1, f);
    lemma_balanced_digits(width_content());
    arrays_are_sound(width_content());
}

/// The array under a key reads back.
proof fn lemma_array_of(dict: Seq<u8>, key: Seq<u8>, content: Seq<u8>)
    requires
        value_of(dict, key) == Some(array(content)),
    ensures
        uints_of(dict, key) == Some(uints(content)),
{
    let v = array(content);
    assert(v.subrange(1, v.len() - 1) =~= content);
}

proof fn lemma_front_find(size: nat, p: Seq<(Seq<u8>, Seq<u8>)>, key: Seq<u8>)
    requires
        p == stream_front(size),
    ensures
        find(p, utf8("Type")) == Some(utf8("/XRef")),
        find(p, utf8("Index")) == Some(array(index_content(size))),
        find(p, utf8("W")) == Some(array(width_content())),
        key != utf8("Type") && key != utf8("Size") && key != utf8("Index") && key != utf8("W") ==> find(
            p,
            key,
        ) is None,
{
    lemma_key_facts();
    let q = p.skip(1);
    let r = q.skip(1);
    let t = r.skip(1);
    let u = t.skip(1);
    assert(q[0] == p[1] && r[0] == p[2] && t[0] == p[3]);
    assert(u.len() == 0);
    reveal_with_fuel(find, 5);
}

proof fn lemma_front_entries(size: nat)
    ensures
        entries(stream_front(size)) == entry(utf8("Type"), utf8("/XRef")) + (entry(
            utf8("Size"),
            decimal(size + 2),
        ) + (entry(utf8("Index"), array(index_content(size))) + entry(
            utf8("W"),
            array(width_content()),
        ))),
{
    let p = stream_front(size);
    let q = p.skip(1);
    let r = q.skip(1);
    let t = r.skip(1);
    let u = t.skip(1);
    assert(q[0] == p[1] && r[0] == p[2] && t[0] == p[3]);
    assert(u.len() == 0);
    reveal_with_fuel(entries, 5);
    assert(entries(u) =~= Seq::<u8>::empty());
    assert(entries(t) =~= entry(utf8("W"), array(width_content())));
}

/// The dictionary of a cross-reference stream: what it is made of, and what it says.
proof fn lemma_stream_dict_says(s: SectionAt, root: Seq<u8>, size: nat)
    requires
        portable(s),
        value_of(s.dict, utf8("Root")) == Some(root),
        0 <= s.offset <= u64::MAX,
        size < u64::MAX - 1,
    ensures
        ({
            let pairs = stream_pairs(s, root, size);
            let dict = dict_of(pairs);
            &&& all_sound(pairs)
            &&& value_of(dict, utf8("Prev")) == Some(decimal(s.offset as nat))
            &&& value_of(dict, utf8("Encrypt")) is None
            &&& value_of(dict, utf8("Filter")) is None
            &&& value_of(dict, utf8("Type")) == Some(utf8("/XRef"))
            &&& uints_of(dict, utf8("Index")) == Some(
                seq![size as u64, 1u64, (size + 1) as u64, 1u64],
            )
            &&& uints_of(dict, utf8("W")) == Some(seq![1u64, 8u64, 2u64])
        }),
{
    let front = stream_front(size);
    let tail = tail_pairs(s, root);
    let last = seq![(utf8("Length"), decimal(22))];
    let back = tail + last;
    let all = front + back;
    lemma_key_facts();
    lemma_tail(s, root);
    lemma_one_entry(utf8("Length"), decimal(22));
    lemma_front_find(size, front, utf8("Prev"));
    lemma_front_find(size, front, utf8("Encrypt"));
    lemma_front_find(size, front, utf8("Filter"));
    lemma_find_concat(tail, last, utf8("Prev"));
    lemma_find_concat(tail, last, utf8("Encrypt"));
    lemma_find_concat(tail, last, utf8("Filter"));
    lemma_find_concat(front, back, utf8("Prev"));
    lemma_find_concat(front, back, utf8("Encrypt"));
    lemma_find_concat(front, back, utf8("Filter"));
    lemma_find_concat(front, back, utf8("Type"));
    lemma_find_concat(front, back, utf8("Index"));
    lemma_find_concat(front, back, utf8("W"));
    assert(all_sound(all)) by {
        lemma_stream_sound(s, root, size);
    }
    let none = Seq::<u8>::empty();
    lemma_dict_of(all, none, utf8("Prev"));
    lemma_dict_of(all, none, utf8("Encrypt"));
    lemma_dict_of(all, none, utf8("Filter"));
    lemma_dict_of(all, none, utf8("Type"));
    lemma_dict_of(all, none, utf8("Index"));
    lemma_dict_of(all, none, utf8("W"));
    lemma_array_of(dict_of(all), utf8("Index"), index_content(size));
    lemma_array_of(dict_of(all), utf8("W"), width_content());
    lemma_index_content(size);
    lemma_width_content();
}

proof fn lemma_stream_sound(s: SectionAt, root: Seq<u8>, size: nat)
    requires
        portable(s),
        value_of(s.dict, utf8("Root")) == Some(root),
        0 <= s.offset <= u64::MAX,
        size < u64::MAX - 1,
    ensures
        all_sound(stream_pairs(s, root, size)),
{
    let front = stream_front(size);
    let tail = tail_pairs(s, root);
    let last = seq![(utf8("Length"), decimal(22))];
    let back = tail + last;
    let all = front + back;
    lemma_key_facts();
    lemma_tail(s, root);
    numbers_are_sound(22);
    numbers_are_sound(size + 2);
    lemma_arrays_sound(size);
    assert(sound(utf8("/XRef"))) by {
        lemma_text_name_xref();
        let name = seq![0x58u8, 0x52, 0x65, 0x66];
        assert(utf8("/XRef") =~= seq![0x2fu8] + name);
        names_are_sound(name);
    }
    assert forall|i: int| 0 <= i < all.len() implies sound_key((#[trigger] all[i]).0) && sound(all[i].1) by {
        if i < 4 {
            assert(all[i] == front[i]);
        } else if i < 4 + tail.len() {
            assert(all[i] == tail[i - 4]);
        } else {
            assert(all[i] == last[0]);
        }
    }
}

proof fn lemma_stream_phrases(size: nat)
    ensures
        utf8("<< /Type /XRef /Size ") == seq![0x3cu8, 0x3c] + entry(utf8("Type"), utf8("/XRef"))
            + seq![0x20u8, 0x2f] + utf8("Size") + seq![0x20u8],
        utf8(" /Index [") + decimal(size) + utf8(" 1 ") + decimal(size + 1) + utf8(" 1] /W [1 8 2]")
            == entry(utf8("Index"), array(index_content(size))) + entry(
            utf8("W"),
            array(width_content()),
        ),
        utf8(" /Length 22 >>") == entry(utf8("Length"), decimal(22)) + seq![0x20u8, 0x3e, 0x3e],
{
    lemma_section_phrases();
    lemma_small_numbers();
    let w = seq![0x5bu8, 0x31, 0x20, 0x38, 0x20, 0x32, 0x5d];
    assert(array(width_content()) =~= w);
    assert(utf8(" /Index [") + decimal(size) + utf8(" 1 ") + decimal(size + 1) + utf8(" 1] /W [1 8 2]")
        =~= entry(utf8("Index"), array(index_content(size))) + entry(
        utf8("W"),
        array(width_content()),
    ));
}

proof fn lemma_stream_dict(s: SectionAt, root: Seq<u8>, size: nat)
    requires
        portable(s),
        value_of(s.dict, utf8("Root")) == Some(root),
        0 <= s.offset <= u64::MAX,
        size < u64::MAX - 1,
    ensures
        stream_dict(s, root, size) == dict_of(stream_pairs(s, root, size)),
{
    let front = stream_front(size);
    let tail = tail_pairs(s, root);
    let last = seq![(utf8("Length"), decimal(22))];
    let back = tail + last;
    lemma_tail(s, root);
    lemma_one_entry(utf8("Length"), decimal(22));
    lemma_entries_concat(tail, last);
    lemma_entries_concat(front, back);
    lemma_front_entries(size);
    lemma_stream_phrases(size);
    lemma_stream_regroup(
        entry(utf8("Type"), utf8("/XRef")),
        seq![0x20u8, 0x2f] + utf8("Size") + seq![0x20u8],
        decimal(size + 2),
        utf8(" /Index ["),
        decimal(size),
        utf8(" 1 "),
        decimal(size + 1),
        utf8(" 1] /W [1 8 2]"),
        trailer_tail(s, root),
        entry(utf8("Length"), decimal(22)),
    );
    assert(entry(utf8("Size"), decimal(size + 2)) == seq![0x20u8, 0x2f] + utf8("Size") + seq![0x20u8]
        + decimal(size + 2));
    lemma_three(
        seq![0x3cu8, 0x3c] + entry(utf8("Type"), utf8("/XRef")),
        seq![0x20u8, 0x2f],
        utf8("Size"),
        seq![0x20u8],
    );
}

proof fn lemma_three(a: Seq<u8>, b: Seq<u8>, c: Seq<u8>, d: Seq<u8>)
    ensures
        a + b + c + d == a + (b + c + d),
{
    assert(a + b + c + d =~= a + (b + c + d));
}

proof fn lemma_stream_regroup(
    ty: Seq<u8>,
    key: Seq<u8>,
    n: Seq<u8>,
    i1: Seq<u8>,
    a: Seq<u8>,
    i2: Seq<u8>,
    b: Seq<u8>,
    i3: Seq<u8>,
    tail: Seq<u8>,
    len: Seq<u8>,
)
    ensures
        ({
            let open = seq![0x3cu8, 0x3c];
            let close = seq![0x20u8, 0x3e, 0x3e];
            (open + ty + key) + n + i1 + a + i2 + b + i3 + tail + (len + close) == open + ((ty + ((key + n)
                + (i1 + a + i2 + b + i3))) + (tail + len)) + close
        }),
{
    let open = seq![0x3cu8, 0x3c];
    let close = seq![0x20u8, 0x3e, 0x3e];
    assert((open + ty + key) + n + i1 + a + i2 + b + i3 + tail + (len + close) =~= open + ((ty + ((key + n)
        + (i1 + a + i2 + b + i3))) + (tail + len)) + close);
}

/// One row reads back.
proof fn lemma_row(row: Seq<u8>, offset: nat, number: int)
    requires
        offset <= u64::MAX,
        row == row_bytes(offset),
    ensures
        row.len() == 11,
        stream_row(row, number, 1, 8) == seq![(wrapped(number), offset as u64)],
{
    lemma_be_bytes_len(offset, 8);
    lemma_pow256();
    lemma_be_round_trip(offset, 8);
    let kind = row.take(1);
    assert(kind =~= seq![1u8]);
    assert(kind.drop_last() =~= Seq::<u8>::empty());
    reveal_with_fuel(low_number, 2);
    assert(low_number(kind) == 1);
    assert(row.subrange(1, 9) =~= be_bytes(offset, 8));
}

/// The two rows of an update read back.
proof fn lemma_rows(win: Seq<u8>, body: int, index: Seq<u64>, base: nat, at: nat, size: nat)
    requires
        0 <= body,
        body + 22 <= win.len(),
        base <= u64::MAX,
        at <= u64::MAX,
        size < u64::MAX,
        index == seq![size as u64, 1u64, (size + 1) as u64, 1u64],
        win.subrange(body, body + 11) == row_bytes(base),
        win.subrange(body + 11, body + 22) == row_bytes(at),
    ensures
        stream_rows(win, body, index, 0, 0, 1, 8, 2) == seq![
            (wrapped(size as int), base as u64),
            (wrapped(size as int + 1), at as u64),
        ],
{
    lemma_row(win.subrange(body, body + 11), base, size as int);
    lemma_row(win.subrange(body + 11, body + 22), at, size as int + 1);
    let back = index.skip(2);
    let none = back.skip(2);
    let e = Seq::<(u64, u64)>::empty();
    assert(back[0] == size + 1 && back[1] == 1);
    assert(index[0] == size && index[1] == 1);
    assert(stream_rows(win, body + 22, none, 0, 2, 1, 8, 2) =~= e);
    assert(stream_rows(win, body + 22, back, 1, 2, 1, 8, 2) =~= e);
    let second = stream_row(win.subrange(body + 11, body + 22), size as int + 1, 1, 8);
    assert(stream_rows(win, body + 11, back, 0, 1, 1, 8, 2) =~= second + e);
    assert(stream_rows(win, body + 11, index, 1, 1, 1, 8, 2) =~= second);
    let first = stream_row(win.subrange(body, body + 11), size as int, 1, 8);
    assert(stream_rows(win, body, index, 0, 0, 1, 8, 2) =~= first + second);
}

/// A cross-reference stream, taken apart.
proof fn lemma_stream_parts(
    out: Seq<u8>,
    at: int,
    s: SectionAt,
    root: Seq<u8>,
    size: nat,
    base: nat,
) -> (rest: Seq<u8>)
    requires
        0 <= at < out.len(),
        portable(s),
        value_of(s.dict, utf8("Root")) == Some(root),
        0 <= s.offset <= u64::MAX,
        size < u64::MAX - 1,
        stream_bytes(s, root, size, base, at as nat).len() <= MAX_READ,
        starts(out.skip(at), stream_bytes(s, root, size, base, at as nat)),
    ensures
        ({
            let dict = stream_dict(s, root, size);
            let win = window(out, at);
            let h = decimal(size + 1).len() as int + 6;
            let to = 1 + dict.len() as int;
            let body = h + to + 8;
            &&& object_header(win) == Some(h)
            &&& span(win.skip(h)) == Some((1int, to))
            &&& win.subrange(h + 1, h + to) == dict
            &&& stream_opening(win.skip(h + to)) == Some(8int)
            &&& body + 22 <= win.len()
            &&& win.subrange(body, body + 11) == row_bytes(base)
            &&& win.subrange(body + 11, body + 22) == row_bytes(at as nat)
            &&& !table_begins(clip(out, at, at + 16))
        }),
{
    let dict = stream_dict(s, root, size);
    let pairs = stream_pairs(s, root, size);
    let d = decimal(size + 1);
    let head = utf8(" 0 obj\n");
    let line = utf8("\nstream\n");
    let r1 = row_bytes(base);
    let r2 = row_bytes(at as nat);
    let whole = stream_bytes(s, root, size, base, at as nat);
    lemma_decimal_digits(size + 1);
    lemma_be_bytes_len(base, 8);
    lemma_be_bytes_len(at as nat, 8);
    assert(head.len() == 7 && line.len() == 8) by {
        lemma_text_sp_0_obj_nl();
        lemma_text_nl_stream_nl();
    }
    assert(whole.len() > 0);
    let more = lemma_window_front(out, at, whole);
    let rest = r1 + r2 + (mid() + more);
    lemma_stream_layout(d, head, dict, line, r1, r2, mid(), more);
    lemma_stream_dict(s, root, size);
    lemma_stream_sound(s, root, size);
    lemma_stream_object(size + 1, pairs, rest);
    lemma_digit_begins_no_table(out, at, d);
    rest
}

proof fn lemma_stream_layout(
    d: Seq<u8>,
    head: Seq<u8>,
    dict: Seq<u8>,
    line: Seq<u8>,
    r1: Seq<u8>,
    r2: Seq<u8>,
    middle: Seq<u8>,
    more: Seq<u8>,
)
    requires
        head.len() == 7,
        line.len() == 8,
        r1.len() == 11,
        r2.len() == 11,
        d.len() > 0,
    ensures
        ({
            let win = d + head + dict + line + r1 + r2 + middle + more;
            let rest = r1 + r2 + (middle + more);
            let body = d.len() as int + 6 + 1 + dict.len() as int + 8;
            &&& win == d + head + dict + line + rest
            &&& win[0] == d[0]
            &&& body + 22 <= win.len()
            &&& win.subrange(body, body + 11) == r1
            &&& win.subrange(body + 11, body + 22) == r2
        }),
{
    let win = d + head + dict + line + r1 + r2 + middle + more;
    let rest = r1 + r2 + (middle + more);
    let body = d.len() as int + 6 + 1 + dict.len() as int + 8;
    assert(win =~= d + head + dict + line + rest);
    assert(win.subrange(body, body + 11) =~= r1);
    assert(win.subrange(body + 11, body + 22) =~= r2);
}

proof fn lemma_digit_begins_no_table(out: Seq<u8>, at: int, d: Seq<u8>)
    requires
        0 <= at < out.len(),
        d.len() > 0,
        is_digit(d[0]),
        window(out, at).len() > 0,
        window(out, at)[0] == d[0],
    ensures
        !table_begins(clip(out, at, at + 16)),
{
    let head = clip(out, at, at + 16);
    assert(head[0] == out[at] && window(out, at)[0] == out[at]);
    assert(utf8("xref").len() == 4 && utf8("xref")[0] == 0x78) by {
        lemma_obj_word();
    }
    if starts(head, utf8("xref")) {
        assert(head.take(4)[0] == utf8("xref")[0]);
    }
}

/// What a cross-reference stream is made of.
proof fn lemma_stream_is(out: Seq<u8>, at: int, h: int, to: int, dict: Seq<u8>, list: Seq<(u64, u64)>)
    requires
        !table_begins(clip(out, at, at + 16)),
        object_header(window(out, at)) == Some(h),
        span(window(out, at).skip(h)) == Some((1int, to)),
        window(out, at).subrange(h + 1, h + to) == dict,
        stream_opening(window(out, at).skip(h + to)) == Some(8int),
        value_of(dict, utf8("Filter")) is None,
        value_of(dict, utf8("Type")) == Some(utf8("/XRef")),
        stream_entries(window(out, at), h + to + 8, dict) == list,
    ensures
        section_of(out, at, true) == Ok::<SectionAt, Fault>(
            SectionAt { offset: at, form: XrefForm::Stream, entries: list, dict },
        ),
        body_of(out, at) is None,
{
    reveal(section_of);
    reveal(body_of);
}

/// A cross-reference stream reads back, and is no place to look.
proof fn lemma_stream_section(
    out: Seq<u8>,
    at: int,
    s: SectionAt,
    root: Seq<u8>,
    size: nat,
    base: nat,
)
    requires
        0 <= at < out.len(),
        at <= u64::MAX,
        base <= u64::MAX,
        portable(s),
        value_of(s.dict, utf8("Root")) == Some(root),
        0 <= s.offset <= u64::MAX,
        size < u64::MAX - 1,
        stream_bytes(s, root, size, base, at as nat).len() <= MAX_READ,
        starts(out.skip(at), stream_bytes(s, root, size, base, at as nat)),
    ensures
        section_of(out, at, true) == Ok::<SectionAt, Fault>(
            SectionAt {
                offset: at,
                form: XrefForm::Stream,
                entries: seq![
                    (wrapped(size as int), base as u64),
                    (wrapped(size as int + 1), at as u64),
                ],
                dict: stream_dict(s, root, size),
            },
        ),
        body_of(out, at) is None,
{
    let dict = stream_dict(s, root, size);
    let rest = lemma_stream_parts(out, at, s, root, size, base);
    let h = decimal(size + 1).len() as int + 6;
    let to = 1 + dict.len() as int;
    let win = window(out, at);
    let index = seq![size as u64, 1u64, (size + 1) as u64, 1u64];
    lemma_stream_dict(s, root, size);
    lemma_stream_dict_says(s, root, size);
    lemma_rows(win, h + to + 8, index, base, at as nat, size);
    let list = seq![(wrapped(size as int), base as u64), (wrapped(size as int + 1), at as u64)];
    assert(stream_entries(win, h + to + 8, dict) == list) by {
        let w = seq![1u64, 8u64, 2u64];
        assert(w[0] == 1 && w[1] == 8 && w[2] == 2);
    }
    lemma_stream_is(out, at, h, to, dict, list);
}

// ---------------------------------------------------------------------------------------------
// A file after a hide

/// What an update chains to stands before it.
proof fn lemma_anchor(c: Seq<u8>)
    ensures
        anchor(c) matches Ok((s, base)) ==> 0 <= s.offset < base <= c.len(),
{
    reveal(anchor);
    if let Ok((s, base)) = anchor(c) {
        let at = startxref(c)->Ok_0;
        lemma_startxref(c);
        lemma_section_offset(c, at, true);
        let last = section_of(c, at, true)->Ok_0;
        lemma_hide_base(c, last);
        if let Some(prev) = update_prev(last) {
            lemma_section_offset(c, prev as int, false);
        }
    }
}

proof fn lemma_startxref(c: Seq<u8>)
    ensures
        startxref(c) matches Ok(at) ==> 0 <= at < c.len(),
{
    reveal(startxref);
}

proof fn lemma_section_offset(c: Seq<u8>, offset: int, want: bool)
    ensures
        section_of(c, offset, want) matches Ok(s) ==> s.offset == offset,
{
    reveal(section_of);
}

proof fn lemma_hide_base(c: Seq<u8>, s: SectionAt)
    ensures
        hide_base(c, s) matches Some(base) ==> update_prev(s) is Some && update_prev(s)->Some_0 < base
            <= c.len(),
{
    reveal(hide_base);
    if let Some(base) = hide_base(c, s) {
        super::pdf::lemma_body_after(c, base);
    }
}

/// The section of a file after a hide.
spec fn new_section(s: SectionAt, root: Seq<u8>, size: nat, base: nat, at: nat) -> SectionAt {
    if s.form == XrefForm::Table {
        SectionAt {
            offset: at as int,
            form: XrefForm::Table,
            entries: seq![(wrapped(size as int), base as u64)],
            dict: table_dict(s, root, size),
        }
    } else {
        SectionAt {
            offset: at as int,
            form: XrefForm::Stream,
            entries: seq![(wrapped(size as int), base as u64), (wrapped(size as int + 1), at as u64)],
            dict: stream_dict(s, root, size),
        }
    }
}

/// What a hide needs of a file to be undone and read back: the values that go into the new trailer
/// can be carried over, and the new cross-reference section is small enough to be read at once.
pub open spec fn hideable(c: Seq<u8>, n: nat) -> bool {
    &&& planned(c, n) is Ok
    &&& anchor(c) matches Ok((s, base)) && portable(s) && update_section(s, base as nat, n).len() <= MAX_READ
}

/// The cross-reference section of an update for a payload of `n` bytes that chains to `s` and begins at
/// `base`.
pub open spec fn update_section(s: SectionAt, base: nat, n: nat) -> Seq<u8> {
    let size = uint_of(s.dict, utf8("Size"))->Some_0;
    let root = value_of(s.dict, utf8("Root"))->Some_0;
    section_bytes(s, root, size, base, section_start(size, base, n))
}

/// The pieces of a file after a hide.
proof fn lemma_pieces(c: Seq<u8>, region: Seq<u8>)
    requires
        hideable(c, region.len()),
        PdfCarrier::embedded(c, Technique::PdfObject, region).len() <= u64::MAX,
    ensures
        ({
            let (s, base) = anchor(c)->Ok_0;
            let size = uint_of(s.dict, utf8("Size"))->Some_0;
            let root = value_of(s.dict, utf8("Root"))->Some_0;
            let n = region.len();
            let out = PdfCarrier::embedded(c, Technique::PdfObject, region);
            &&& 0 <= s.offset < base <= c.len()
            &&& size + added(s.form) <= u64::MAX
            &&& value_of(s.dict, utf8("Root")) == Some(root)
            &&& out.take(base) == c.take(base)
            &&& s.form == XrefForm::Table ==> base <= MAX_TABLE_OFFSET
            &&& composed(out, s, root, size, base, region)
        }),
{
    let (s, base) = anchor(c)->Ok_0;
    let size = uint_of(s.dict, utf8("Size"))->Some_0;
    let root = value_of(s.dict, utf8("Root"))->Some_0;
    let front = clip(c, 0, base);
    lemma_anchor(c);
    lemma_plan_parts(c, region);
    assert(front.len() == base);
    lemma_composed(front, s, root, size, region);
    let out = PdfCarrier::embedded(c, Technique::PdfObject, region);
    assert(out.take(base) =~= front);
    assert(front =~= c.take(base));
}

/// `out` goes on from `base` with an update.
spec fn composed(
    out: Seq<u8>,
    s: SectionAt,
    root: Seq<u8>,
    size: nat,
    base: int,
    region: Seq<u8>,
) -> bool {
    let n = region.len();
    let at = section_start(size, base as nat, n);
    let opening = object_opening(size, n);
    let section = section_bytes(s, root, size, base as nat, at);
    &&& opening.len() <= 80
    &&& base + opening.len() + n + 18 == at
    &&& at < out.len()
    &&& section.len() <= MAX_READ
    &&& starts(out.skip(base), opening)
    &&& starts(out.skip(at as int), section)
    &&& clip(out, base + opening.len(), base + opening.len() + n) == region
    &&& out == out.take(out.len() - closing(at).len()) + closing(at)
    &&& at < out.len() - closing(at).len()
}

proof fn lemma_composed(front: Seq<u8>, s: SectionAt, root: Seq<u8>, size: nat, region: Seq<u8>)
    requires
        size < u64::MAX,
        ({
            let at = section_start(size, front.len(), region.len());
            let section = section_bytes(s, root, size, front.len(), at);
            let suffix = mid() + section + closing(at);
            &&& section.len() <= MAX_READ
            &&& (front + object_opening(size, region.len()) + region + suffix).len() <= u64::MAX
        }),
    ensures
        ({
            let at = section_start(size, front.len(), region.len());
            let section = section_bytes(s, root, size, front.len(), at);
            let suffix = mid() + section + closing(at);
            composed(
                front + object_opening(size, region.len()) + region + suffix,
                s,
                root,
                size,
                front.len() as int,
                region,
            )
        }),
{
    let n = region.len();
    let at = section_start(size, front.len(), n);
    let section = section_bytes(s, root, size, front.len(), at);
    lemma_sandwich(front, object_opening(size, n), region, mid(), section, closing(at));
    lemma_section_bytes(s, root, size, front.len(), at);
    lemma_opening_len(size, n);
    assert(mid().len() == 18) by {
        lemma_text_nl_endstream_nl_endobj_nl();
    }
}

/// A section of the given form.
#[verifier::opaque]
pub open spec fn section_bytes(s: SectionAt, root: Seq<u8>, size: nat, base: nat, at: nat) -> Seq<u8> {
    if s.form == XrefForm::Table {
        table_bytes(s, root, size, base)
    } else {
        stream_bytes(s, root, size, base, at)
    }
}

proof fn lemma_section_bytes(s: SectionAt, root: Seq<u8>, size: nat, base: nat, at: nat)
    ensures
        section_bytes(s, root, size, base, at).len() > 0,
{
    reveal(section_bytes);
    lemma_xref_phrase();
    lemma_decimal_digits(size + 1);
}

proof fn lemma_opening_len(size: nat, n: nat)
    requires
        size <= u64::MAX,
        n <= u64::MAX,
    ensures
        object_opening(size, n).len() <= 80,
{
    lemma_decimal_len_u64(size as u64);
    lemma_decimal_len_u64(n as u64);
    lemma_text_sp_0_obj_nl_open_length();
    lemma_text_sp_close_nl_stream_nl();
}

/// What a hide appends.
proof fn lemma_plan_parts(c: Seq<u8>, region: Seq<u8>)
    requires
        hideable(c, region.len()),
    ensures
        ({
            let (s, base) = anchor(c)->Ok_0;
            let size = uint_of(s.dict, utf8("Size"))->Some_0;
            let root = value_of(s.dict, utf8("Root"))->Some_0;
            let n = region.len();
            let at = section_start(size, base as nat, n);
            let section = section_bytes(s, root, size, base as nat, at);
            let suffix = mid() + section + closing(at);
            &&& size + added(s.form) <= u64::MAX
            &&& value_of(s.dict, utf8("Root")) == Some(root)
            &&& section.len() <= MAX_READ
            &&& s.form == XrefForm::Table ==> base <= MAX_TABLE_OFFSET
            &&& PdfCarrier::embedded(c, Technique::PdfObject, region) == clip(c, 0, base)
                + object_opening(size, n) + region + suffix
        }),
{
    reveal(section_bytes);
    reveal(update_parts);
    lemma_anchor(c);
}

proof fn lemma_sandwich(
    front: Seq<u8>,
    opening: Seq<u8>,
    region: Seq<u8>,
    middle: Seq<u8>,
    section: Seq<u8>,
    end: Seq<u8>,
)
    ensures
        ({
            let out = front + opening + region + (middle + section + end);
            let b = front.len() as int;
            let r = b + opening.len();
            let at = r + region.len() + middle.len();
            &&& out.len() == at + section.len() + end.len()
            &&& starts(out.skip(b), opening)
            &&& clip(out, r, r + region.len()) == region
            &&& starts(out.skip(at), section)
            &&& out == out.take(out.len() - end.len()) + end
        }),
{
    let out = front + opening + region + (middle + section + end);
    let b = front.len() as int;
    let r = b + opening.len();
    let at = r + region.len() + middle.len();
    assert(out.skip(b).take(opening.len() as int) =~= opening);
    assert(clip(out, r, r + region.len()) =~= region);
    assert(out.skip(at).take(section.len() as int) =~= section);
    assert(out =~= out.take(out.len() - end.len()) + end);
}

/// A file after a hide: its last section is the new one, which lists the payload and chains back.
proof fn lemma_hidden(c: Seq<u8>, region: Seq<u8>)
    requires
        hideable(c, region.len()),
        PdfCarrier::embedded(c, Technique::PdfObject, region).len() <= u64::MAX,
    ensures
        ({
            let (s, base) = anchor(c)->Ok_0;
            let size = uint_of(s.dict, utf8("Size"))->Some_0;
            let root = value_of(s.dict, utf8("Root"))->Some_0;
            let n = region.len();
            let at = section_start(size, base as nat, n);
            let out = PdfCarrier::embedded(c, Technique::PdfObject, region);
            let last = new_section(s, root, size, base as nat, at);
            let start = base + object_opening(size, n).len();
            &&& 0 <= s.offset < base <= c.len()
            &&& base < at
            &&& out.take(base) == c.take(base)
            &&& startxref(out) == Ok::<int, Fault>(at as int)
            &&& section_of(out, at as int, true) == Ok::<SectionAt, Fault>(last)
            &&& update_prev(last) == Some(s.offset as nat)
            &&& value_of(last.dict, utf8("Encrypt")) is None
            &&& body_of(out, base) == Some((start, n as int))
            &&& s.form == XrefForm::Stream ==> body_of(out, at as int) is None
            &&& start + n + mid().len() == at
            &&& clip(out, start, start + n) == region
            &&& at <= u64::MAX
        }),
{
    reveal(section_bytes);
    let (s, base) = anchor(c)->Ok_0;
    let size = uint_of(s.dict, utf8("Size"))->Some_0;
    let root = value_of(s.dict, utf8("Root"))->Some_0;
    let n = region.len();
    let at = section_start(size, base as nat, n);
    let out = PdfCarrier::embedded(c, Technique::PdfObject, region);
    lemma_pieces(c, region);
    lemma_closing(out.take(out.len() - closing(at).len()), at);
    lemma_payload(out, base, size, n);
    let last = new_section(s, root, size, base as nat, at);
    if s.form == XrefForm::Table {
        lemma_table_section(out, at as int, s, root, size, base as nat);
        lemma_table_dict(s, root, size);
    } else {
        lemma_stream_section(out, at as int, s, root, size, base as nat);
        lemma_stream_dict(s, root, size);
        lemma_stream_dict_says(s, root, size);
    }
    lemma_no_mark(s.offset as nat);
    lemma_uint_alone(s.offset as nat);
}

// ---------------------------------------------------------------------------------------------
// The laws

proof fn lemma_offsets(list: Seq<(u64, u64)>)
    ensures
        list.len() == 1 ==> offsets_down(list) == seq![list[0].1],
        list.len() == 2 && list[0].1 < list[1].1 ==> offsets_down(list) == seq![list[1].1, list[0].1],
{
    let none = Seq::<(u64, u64)>::empty();
    let e = Seq::<u64>::empty();
    assert(offsets_down(none) =~= e);
    if list.len() == 1 {
        assert(list.drop_last() =~= none);
        assert(offsets_down(list) =~= seq![list[0].1]);
    } else if list.len() == 2 && list[0].1 < list[1].1 {
        let one = list.drop_last();
        assert(one.drop_last() =~= none);
        assert(offsets_down(one) =~= seq![list[0].1]);
        let a = seq![list[0].1];
        assert(a.drop_last() =~= e);
        assert(insert_down(e, list[1].1) =~= seq![list[1].1]);
        assert(offsets_down(list) =~= seq![list[1].1, list[0].1]);
    }
}

/// The only place to look is the payload.
proof fn lemma_one_body(out: Seq<u8>, list: Seq<(u64, u64)>, prev: int, start: int, n: int)
    requires
        0 <= prev,
        list.len() == 1 || (list.len() == 2 && list[0].1 < list[1].1 && body_of(out, list[1].1 as int) is None),
        list[0].1 > prev,
        body_of(out, list[0].1 as int) == Some((start, n)),
    ensures
        bodies(out, offsets_down(list), prev, MAX_CANDIDATES as int) == seq![
            Region {
                offset: start as u64,
                len: n as u64,
                technique: Technique::PdfObject,
                fragmented: false,
            },
        ],
{
    lemma_offsets(list);
    let r = Region {
        offset: start as u64,
        len: n as u64,
        technique: Technique::PdfObject,
        fragmented: false,
    };
    let b = list[0].1;
    let one = seq![b];
    let e = Seq::<u64>::empty();
    assert(one.skip(1) =~= e);
    assert(forall|room: int| bodies(out, e, prev, room) == Seq::<Region>::empty());
    assert(bodies(out, one.skip(1), prev, 3) =~= Seq::<Region>::empty());
    assert(bodies(out, one, prev, 4) =~= seq![r]);
    if list.len() == 2 {
        let two = seq![list[1].1, b];
        assert(two.skip(1) =~= one);
        assert(bodies(out, two, prev, 4) == bodies(out, two.skip(1), prev, 4));
    }
}

/// After a hide, the document offers exactly one place to look, and that holds what was hidden.
pub proof fn pdf_region_reads_back(c: Seq<u8>, region: Seq<u8>)
    requires
        hideable(c, region.len()),
        PdfCarrier::embedded(c, Technique::PdfObject, region).len() <= u64::MAX,
    ensures
        reads_back::<PdfCarrier>(PdfCarrier::embedded(c, Technique::PdfObject, region), region),
        PdfCarrier::regions(PdfCarrier::embedded(c, Technique::PdfObject, region))->Ok_0.len() == 1,
        PdfCarrier::regions(PdfCarrier::embedded(c, Technique::PdfObject, region))->Ok_0[0].technique
            == Technique::PdfObject,
{
    let (s, base) = anchor(c)->Ok_0;
    let size = uint_of(s.dict, utf8("Size"))->Some_0;
    let root = value_of(s.dict, utf8("Root"))->Some_0;
    let n = region.len();
    let at = section_start(size, base as nat, n);
    let out = PdfCarrier::embedded(c, Technique::PdfObject, region);
    let last = new_section(s, root, size, base as nat, at);
    let start = base + object_opening(size, n).len();
    lemma_hidden(c, region);
    lemma_one_body(out, last.entries, s.offset, start, n as int);
    lemma_gather_one(out, start as u64, n as u64);
    let list = PdfCarrier::regions(out)->Ok_0;
    assert(list[0].offset == start && list[0].len == n);
}

/// The document's own bytes are never touched: a file that nothing was hidden in comes out unchanged
/// up to its length.
pub proof fn pdf_embed_only_appends(c: Seq<u8>, region: Seq<u8>)
    requires
        PdfCarrier::embedded_len(c, Technique::PdfObject, region.len()) is Ok,
        hide_base(c, section_of(c, startxref(c)->Ok_0, true)->Ok_0) is None,
    ensures
        PdfCarrier::embedded(c, Technique::PdfObject, region).take(c.len() as int) == c,
{
    reveal(anchor);
    let out = PdfCarrier::embedded(c, Technique::PdfObject, region);
    assert(clip(c, 0, c.len() as int) =~= c);
    assert(out.take(c.len() as int) =~= c);
}

/// A document that was never updated, or whose `/Prev` points forward as in a linearized file, offers
/// no place to look.
pub proof fn pdf_original_offers_nothing(c: Seq<u8>)
    requires
        startxref(c) is Ok,
        section_of(c, startxref(c)->Ok_0, true) is Ok,
        update_prev(section_of(c, startxref(c)->Ok_0, true)->Ok_0) is None,
    ensures
        PdfCarrier::regions(c) == Ok::<Seq<Region>, Fault>(Seq::empty()),
{
}

proof fn lemma_inserted(list: Seq<u64>, x: u64)
    ensures
        insert_down(list, x).contains(x),
        forall|y: u64| list.contains(y) ==> #[trigger] insert_down(list, x).contains(y),
    decreases list.len(),
{
    let out = insert_down(list, x);
    if list.len() > 0 && list.last() < x {
        let rest = list.drop_last();
        lemma_inserted(rest, x);
        let inner = insert_down(rest, x);
        assert(out == inner.push(list.last()));
        assert forall|y: u64| inner.contains(y) implies out.contains(y) by {
            let k = choose|k: int| 0 <= k < inner.len() && inner[k] == y;
            assert(out[k] == y);
        }
        assert forall|y: u64| list.contains(y) implies #[trigger] out.contains(y) by {
            let k = choose|k: int| 0 <= k < list.len() && list[k] == y;
            if k < rest.len() {
                assert(rest[k] == y);
            } else {
                assert(out[inner.len() as int] == y);
            }
        }
    } else {
        assert(out[list.len() as int] == x);
        assert forall|y: u64| list.contains(y) implies #[trigger] out.contains(y) by {
            let k = choose|k: int| 0 <= k < list.len() && list[k] == y;
            assert(out[k] == y);
        }
    }
}

pub proof fn lemma_offset_listed(list: Seq<(u64, u64)>, k: int)
    requires
        0 <= k < list.len(),
    ensures
        offsets_down(list).contains(list[k].1),
    decreases list.len(),
{
    let rest = list.drop_last();
    lemma_inserted(offsets_down(rest), list.last().1);
    if k < rest.len() {
        lemma_offset_listed(rest, k);
        assert(rest[k] == list[k]);
    }
}

proof fn lemma_body_offered(c: Seq<u8>, offsets: Seq<u64>, prev: int, room: int, x: u64)
    requires
        offsets.contains(x),
        x > prev,
        body_of(c, x as int) is Some,
        room > 0,
    ensures
        bodies(c, offsets, prev, room).len() > 0,
    decreases offsets.len(),
{
    if offsets[0] != x {
        let k = choose|k: int| 0 <= k < offsets.len() && offsets[k] == x;
        assert(offsets.skip(1)[k - 1] == x);
        lemma_body_offered(c, offsets.skip(1), prev, room, x);
    }
}

proof fn lemma_other_entry(list: Seq<(u64, u64)>, offset: int)
    ensures
        other_entry(list, offset) matches Some(at) ==> exists|k: int|
            0 <= k < list.len() && (#[trigger] list[k]).1 == at,
    decreases list.len(),
{
    if list.len() > 0 && list[0].1 == offset {
        lemma_other_entry(list.skip(1), offset);
        if let Some(at) = other_entry(list, offset) {
            let k = choose|k: int| 0 <= k < list.skip(1).len() && (#[trigger] list.skip(1)[k]).1 == at;
            assert(list[k + 1].1 == at);
        }
    }
}

/// A document that offers no place to look ends in no update of ours.
pub proof fn pdf_quiet_is_original(c: Seq<u8>)
    requires
        anchor(c) is Ok,
        PdfCarrier::regions(c) == Ok::<Seq<Region>, Fault>(Seq::empty()),
    ensures
        anchor(c)->Ok_0.1 == c.len(),
        PdfCarrier::stripped(c) == Ok::<Seq<u8>, Fault>(c),
{
    reveal(anchor);
    reveal(hide_base);
    let last = section_of(c, startxref(c)->Ok_0, true)->Ok_0;
    if let Some(base) = hide_base(c, last) {
        let prev = update_prev(last)->Some_0;
        lemma_other_entry(last.entries, last.offset);
        let k = choose|k: int| 0 <= k < last.entries.len() && (#[trigger] last.entries[k]).1 == base;
        lemma_offset_listed(last.entries, k);
        lemma_body_offered(
            c,
            offsets_down(last.entries),
            prev as int,
            MAX_CANDIDATES as int,
            last.entries[k].1,
        );
        assert(false);
    }
    pdf_strip_copies(c);
}

/// The section that a new update would chain to stands wholly before it. Only a file that already
/// ends in an update can fail this, if the section before that update runs on into it.
pub open spec fn settled(c: Seq<u8>) -> bool {
    anchor(c) matches Ok((s, base)) && section_of(c.take(base), s.offset, false) is Ok
}

/// A file that nothing was hidden in is settled.
pub proof fn pdf_fresh_is_settled(c: Seq<u8>)
    requires
        anchor(c) is Ok,
        anchor(c)->Ok_0.1 == c.len(),
    ensures
        settled(c),
{
    let (s, base) = anchor(c)->Ok_0;
    lemma_anchor(c);
    lemma_anchor_section(c);
    assert(c.take(base) =~= c);
    if section_of(c, s.offset, true) is Ok {
        lemma_section_more(c, c, s.offset, true, false);
    }
}

/// An update depends on the section it chains to by its form, place and dictionary alone.
proof fn lemma_same_parts(a: SectionAt, b: SectionAt, base: nat, n: nat)
    requires
        a.form == b.form,
        a.offset == b.offset,
        a.dict == b.dict,
    ensures
        update_parts(a, base, n) == update_parts(b, base, n),
        update_section(a, base, n) == update_section(b, base, n),
        portable(a) == portable(b),
{
    reveal(update_parts);
    reveal(section_bytes);
    let size = uint_of(a.dict, utf8("Size"))->Some_0;
    let root = value_of(a.dict, utf8("Root"))->Some_0;
    assert(trailer_tail(a, root) == trailer_tail(b, root));
    assert(table_dict(a, root, size) == table_dict(b, root, size));
    assert(stream_dict(a, root, size) == stream_dict(b, root, size));
}

/// What a later update of a file that something was hidden in chains to, and where it begins: as if
/// nothing had been hidden.
proof fn lemma_anchor_again(c: Seq<u8>, region: Seq<u8>)
    requires
        hideable(c, region.len()),
        settled(c),
        PdfCarrier::embedded(c, Technique::PdfObject, region).len() <= u64::MAX,
    ensures
        ({
            let (s, base) = anchor(c)->Ok_0;
            let out = PdfCarrier::embedded(c, Technique::PdfObject, region);
            &&& out.take(base) == c.take(base)
            &&& 0 <= base <= out.len()
            &&& base <= c.len()
            &&& anchor(out) matches Ok((s2, base2)) && base2 == base && s2.form == s.form && s2.offset
                == s.offset && s2.dict == s.dict
        }),
{
    reveal(anchor);
    reveal(hide_base);
    let (s, base) = anchor(c)->Ok_0;
    let size = uint_of(s.dict, utf8("Size"))->Some_0;
    let root = value_of(s.dict, utf8("Root"))->Some_0;
    let n = region.len();
    let at = section_start(size, base as nat, n);
    let out = PdfCarrier::embedded(c, Technique::PdfObject, region);
    let last = new_section(s, root, size, base as nat, at);
    let a = c.take(base);
    lemma_hidden(c, region);
    lemma_body_inside(out, base);
    assert(out.take(a.len() as int) =~= a);
    assert(c.take(a.len() as int) =~= a);
    lemma_section_more(a, out, s.offset, false, false);
    lemma_section_more(a, c, s.offset, false, true);
    lemma_section_more(a, c, s.offset, false, false);
    lemma_anchor_section(c);
    assert(hide_base(out, last) == Some(base)) by {
        assert(last.entries[0].1 == base);
    }
}

proof fn lemma_body_inside(out: Seq<u8>, base: int)
    requires
        0 <= base,
        body_of(out, base) is Some,
    ensures
        base <= out.len(),
{
    super::pdf::lemma_body_after(out, base);
}

/// The section of an anchor is one of the file's.
proof fn lemma_anchor_section(c: Seq<u8>)
    requires
        anchor(c) is Ok,
    ensures
        ({
            let (s, base) = anchor(c)->Ok_0;
            section_of(c, s.offset, true) == Ok::<SectionAt, Fault>(s) || section_of(c, s.offset, false)
                == Ok::<SectionAt, Fault>(s)
        }),
{
    reveal(anchor);
    let at = startxref(c)->Ok_0;
    lemma_section_offset(c, at, true);
    let last = section_of(c, at, true)->Ok_0;
    lemma_hide_base(c, last);
    if let Some(prev) = update_prev(last) {
        lemma_section_offset(c, prev as int, false);
    }
}

/// Stripping a document that something was hidden in gives what stripping it before would have given:
/// the update is cut off again. Where the document held nothing before, it comes out as it was, to the
/// byte.
pub proof fn pdf_strip_undoes_embed(c: Seq<u8>, region: Seq<u8>)
    requires
        hideable(c, region.len()),
        PdfCarrier::embedded(c, Technique::PdfObject, region).len() <= u64::MAX,
    ensures
        ({
            let (s, base) = anchor(c)->Ok_0;
            let out = PdfCarrier::embedded(c, Technique::PdfObject, region);
            &&& PdfCarrier::stripped(out) == PdfCarrier::stripped(c)
            &&& PdfCarrier::stripped(out) == Ok::<Seq<u8>, Fault>(c.take(base))
            &&& base == c.len() ==> PdfCarrier::stripped(out) == Ok::<Seq<u8>, Fault>(c)
        }),
{
    let (s, base) = anchor(c)->Ok_0;
    let size = uint_of(s.dict, utf8("Size"))->Some_0;
    let root = value_of(s.dict, utf8("Root"))->Some_0;
    let at = section_start(size, base as nat, region.len());
    let out = PdfCarrier::embedded(c, Technique::PdfObject, region);
    let last = new_section(s, root, size, base as nat, at);
    lemma_hidden(c, region);
    lemma_body_inside(out, base);
    assert(hide_base(out, last) == Some(base)) by {
        reveal(hide_base);
        assert(last.entries[0].1 == base);
    }
    assert(document_end(c) == Ok::<int, Fault>(base)) by {
        reveal(anchor);
    }
    assert(clip(out, 0, base) =~= out.take(base));
    assert(clip(c, 0, base) =~= c.take(base));
    if base == c.len() {
        assert(c.take(base) =~= c);
    }
}

/// A document that ends in no update of ours is copied as it is, whatever else its trailer says.
pub proof fn pdf_strip_copies(c: Seq<u8>)
    requires
        startxref(c) is Ok,
        section_of(c, startxref(c)->Ok_0, true) is Ok,
        hide_base(c, section_of(c, startxref(c)->Ok_0, true)->Ok_0) is None,
    ensures
        PdfCarrier::stripped(c) == Ok::<Seq<u8>, Fault>(c),
{
    assert(clip(c, 0, c.len() as int) =~= c);
}

/// Hiding into a document that already holds something replaces it: the result is what hiding into
/// the document before would have given.
pub proof fn pdf_rehiding_replaces(c: Seq<u8>, old_region: Seq<u8>, region: Seq<u8>)
    requires
        hideable(c, old_region.len()),
        settled(c),
        PdfCarrier::embedded(c, Technique::PdfObject, old_region).len() <= u64::MAX,
    ensures
        PdfCarrier::embedded(
            PdfCarrier::embedded(c, Technique::PdfObject, old_region),
            Technique::PdfObject,
            region,
        ) == PdfCarrier::embedded(c, Technique::PdfObject, region),
        PdfCarrier::embedded_len(
            PdfCarrier::embedded(c, Technique::PdfObject, old_region),
            Technique::PdfObject,
            region.len(),
        ) == PdfCarrier::embedded_len(c, Technique::PdfObject, region.len()),
{
    let (s, base) = anchor(c)->Ok_0;
    let out = PdfCarrier::embedded(c, Technique::PdfObject, old_region);
    lemma_anchor_again(c, old_region);
    let (s2, _) = anchor(out)->Ok_0;
    lemma_same_parts(s2, s, base as nat, region.len());
    assert(clip(out, 0, base) =~= out.take(base));
    assert(clip(c, 0, base) =~= c.take(base));
}

/// A document stays settled and hideable after a hide, so all of this holds of the next hide, too.
pub proof fn pdf_hiding_keeps_hideable(c: Seq<u8>, region: Seq<u8>, next: nat)
    requires
        hideable(c, region.len()),
        hideable(c, next),
        settled(c),
        PdfCarrier::embedded(c, Technique::PdfObject, region).len() <= u64::MAX,
    ensures
        settled(PdfCarrier::embedded(c, Technique::PdfObject, region)),
        hideable(PdfCarrier::embedded(c, Technique::PdfObject, region), next),
{
    let (s, base) = anchor(c)->Ok_0;
    let out = PdfCarrier::embedded(c, Technique::PdfObject, region);
    lemma_anchor_again(c, region);
    let (s2, _) = anchor(out)->Ok_0;
    lemma_same_parts(s2, s, base as nat, next);
}


/// A document with something hidden in it still begins as it did.
pub proof fn pdf_stays_recognised(c: Seq<u8>, region: Seq<u8>)
    requires
        PdfCarrier::recognised(c),
        PdfCarrier::embedded_len(c, Technique::PdfObject, region.len()) is Ok,
    ensures
        ({
            let out = PdfCarrier::embedded(c, Technique::PdfObject, region);
            out.len() >= 5 && out.take(5) == c.take(5)
        }),
{
    reveal_strlit("%PDF-");
    lemma_ascii("%PDF-");
    let (s, base) = anchor(c)->Ok_0;
    let out = PdfCarrier::embedded(c, Technique::PdfObject, region);
    lemma_anchor(c);
    assert(base >= 5) by {
        reveal(anchor);
        reveal(hide_base);
        reveal(body_of);
        if base < 5 {
            let win = window(c, base);
            assert(win[0] == c[base]);
            assert(c.take(5)[base] == c[base]);
            lemma_no_ws(win);
            lemma_no_uint(win);
            assert(false);
        }
    }
    assert(out.take(5) =~= c.take(5));
}

// ---------------------------------------------------------------------------------------------
// What the new trailer says

proof fn lemma_distinct_keys()
    ensures
        utf8("ID") != utf8("Info"),
        utf8("Root") != utf8("ID") && utf8("Root") != utf8("Info") && utf8("Root") != utf8("Prev"),
        utf8("Prev") != utf8("ID") && utf8("Prev") != utf8("Info"),
        utf8("Size") != utf8("ID") && utf8("Size") != utf8("Info") && utf8("Size") != utf8("Root"),
        utf8("Length") != utf8("ID") && utf8("Length") != utf8("Info") && utf8("Length") != utf8("Root"),
        utf8("Type") != utf8("ID") && utf8("Type") != utf8("Info") && utf8("Type") != utf8("Root"),
        utf8("Index") != utf8("ID") && utf8("Index") != utf8("Info") && utf8("Index") != utf8("Root"),
        utf8("W") != utf8("ID") && utf8("W") != utf8("Info") && utf8("W") != utf8("Root"),
        utf8("Type") != utf8("Size"),
{
    lemma_keys();
    let id = utf8("ID");
    let info = utf8("Info");
    let root = utf8("Root");
    let index = utf8("Index");
    assert(id.len() == 2 && info.len() == 4 && root.len() == 4 && index.len() == 5);
    assert(root[0] == 0x52 && info[0] == 0x49);
    assert(utf8("Prev")[0] == 0x50 && utf8("Size")[0] == 0x53 && utf8("Length")[0] == 0x4c && utf8("Type")[0]
        == 0x54 && utf8("W")[0] == 0x57);
    assert(id[0] == 0x49);
}

proof fn lemma_carried_says(dict: Seq<u8>)
    ensures
        find(carried_pairs(dict), utf8("ID")) == value_of(dict, utf8("ID")),
        find(carried_pairs(dict), utf8("Info")) == value_of(dict, utf8("Info")),
{
    let none = Seq::<(Seq<u8>, Seq<u8>)>::empty();
    let id = match value_of(dict, utf8("ID")) {
        Some(v) => seq![(utf8("ID"), v)],
        None => none,
    };
    let info = match value_of(dict, utf8("Info")) {
        Some(v) => seq![(utf8("Info"), v)],
        None => none,
    };
    lemma_distinct_keys();
    if let Some(v) = value_of(dict, utf8("ID")) {
        lemma_one_entry(utf8("ID"), v);
    }
    if let Some(v) = value_of(dict, utf8("Info")) {
        lemma_one_entry(utf8("Info"), v);
    }
    lemma_find_concat(id, info, utf8("ID"));
    lemma_find_concat(id, info, utf8("Info"));
}

proof fn lemma_tail_says(s: SectionAt, root: Seq<u8>)
    ensures
        find(tail_pairs(s, root), utf8("Root")) == Some(root),
        find(tail_pairs(s, root), utf8("ID")) == value_of(s.dict, utf8("ID")),
        find(tail_pairs(s, root), utf8("Info")) == value_of(s.dict, utf8("Info")),
{
    let front = seq![(utf8("Root"), root), (utf8("Prev"), decimal(s.offset as nat))];
    let back = carried_pairs(s.dict);
    lemma_distinct_keys();
    lemma_carried_says(s.dict);
    lemma_two_entries(front);
    lemma_find_concat(front, back, utf8("Root"));
    lemma_find_concat(front, back, utf8("ID"));
    lemma_find_concat(front, back, utf8("Info"));
}

#[verifier::spinoff_prover]
proof fn lemma_table_says(s: SectionAt, root: Seq<u8>, size: nat)
    requires
        portable(s),
        value_of(s.dict, utf8("Root")) == Some(root),
        0 <= s.offset <= u64::MAX,
        size < u64::MAX,
    ensures
        value_of(table_dict(s, root, size), utf8("Root")) == Some(root),
        value_of(table_dict(s, root, size), utf8("ID")) == value_of(s.dict, utf8("ID")),
        value_of(table_dict(s, root, size), utf8("Info")) == value_of(s.dict, utf8("Info")),
        uint_of(table_dict(s, root, size), utf8("Size")) == Some(size + 1),
{
    let front = seq![(utf8("Size"), decimal(size + 1))];
    let back = tail_pairs(s, root);
    let all = front + back;
    let none = Seq::<u8>::empty();
    lemma_distinct_keys();
    lemma_table_dict(s, root, size);
    lemma_tail_says(s, root);
    lemma_one_entry(utf8("Size"), decimal(size + 1));
    lemma_find_concat(front, back, utf8("Root"));
    lemma_find_concat(front, back, utf8("ID"));
    lemma_find_concat(front, back, utf8("Info"));
    lemma_find_concat(front, back, utf8("Size"));
    lemma_dict_of(all, none, utf8("Root"));
    lemma_dict_of(all, none, utf8("ID"));
    lemma_dict_of(all, none, utf8("Info"));
    lemma_dict_of(all, none, utf8("Size"));
    lemma_no_mark(size + 1);
    lemma_uint_alone(size + 1);
}

#[verifier::spinoff_prover]
proof fn lemma_stream_says(s: SectionAt, root: Seq<u8>, size: nat)
    requires
        portable(s),
        value_of(s.dict, utf8("Root")) == Some(root),
        0 <= s.offset <= u64::MAX,
        size < u64::MAX - 1,
    ensures
        value_of(stream_dict(s, root, size), utf8("Root")) == Some(root),
        value_of(stream_dict(s, root, size), utf8("ID")) == value_of(s.dict, utf8("ID")),
        value_of(stream_dict(s, root, size), utf8("Info")) == value_of(s.dict, utf8("Info")),
        uint_of(stream_dict(s, root, size), utf8("Size")) == Some(size + 2),
{
    let front = stream_front(size);
    let tail = tail_pairs(s, root);
    let last = seq![(utf8("Length"), decimal(22))];
    let back = tail + last;
    let all = front + back;
    let none = Seq::<u8>::empty();
    lemma_distinct_keys();
    lemma_stream_dict(s, root, size);
    lemma_stream_dict_says(s, root, size);
    lemma_tail_says(s, root);
    lemma_one_entry(utf8("Length"), decimal(22));
    lemma_front_find(size, front, utf8("Root"));
    lemma_front_find(size, front, utf8("ID"));
    lemma_front_find(size, front, utf8("Info"));
    lemma_find_concat(tail, last, utf8("Root"));
    lemma_find_concat(tail, last, utf8("ID"));
    lemma_find_concat(tail, last, utf8("Info"));
    lemma_find_concat(front, back, utf8("Root"));
    lemma_find_concat(front, back, utf8("ID"));
    lemma_find_concat(front, back, utf8("Info"));
    lemma_find_concat(front, back, utf8("Size"));
    assert(find(front, utf8("Size")) == Some(decimal(size + 2))) by {
        let q = front.skip(1);
        assert(q[0] == front[1]);
        reveal_with_fuel(find, 3);
    }
    lemma_dict_of(all, none, utf8("Root"));
    lemma_dict_of(all, none, utf8("ID"));
    lemma_dict_of(all, none, utf8("Info"));
    lemma_dict_of(all, none, utf8("Size"));
    lemma_no_mark(size + 2);
    lemma_uint_alone(size + 2);
}

/// The document keeps its catalogue, its identity and its metadata: the trailer that a viewer reads last
/// says of `/Root`, `/ID` and `/Info` what the trailer before it said. It has the form of that one, chains
/// back to it, makes room for the objects that were added, and lists the payload where it stands; that is a
/// stream object of exactly the region.
pub proof fn pdf_identity_is_kept(c: Seq<u8>, region: Seq<u8>)
    requires
        hideable(c, region.len()),
        PdfCarrier::embedded(c, Technique::PdfObject, region).len() <= u64::MAX,
    ensures
        ({
            let (s, base) = anchor(c)->Ok_0;
            let out = PdfCarrier::embedded(c, Technique::PdfObject, region);
            let size = uint_of(s.dict, utf8("Size"))->Some_0;
            &&& startxref(out) matches Ok(at) && section_of(out, at, true) matches Ok(last) && {
                &&& value_of(last.dict, utf8("Root")) == value_of(s.dict, utf8("Root"))
                &&& value_of(last.dict, utf8("ID")) == value_of(s.dict, utf8("ID"))
                &&& value_of(last.dict, utf8("Info")) == value_of(s.dict, utf8("Info"))
                &&& value_of(last.dict, utf8("Encrypt")) is None
                &&& uint_of(last.dict, utf8("Prev")) == Some(s.offset as nat)
                &&& uint_of(last.dict, utf8("Size")) == Some(
                    if s.form == XrefForm::Table {
                        size + 1
                    } else {
                        size + 2
                    },
                )
                &&& last.form == s.form
                &&& last.entries[0] == (wrapped(size as int), base as u64)
                &&& last.entries.len() == (if s.form == XrefForm::Table {
                    1nat
                } else {
                    2nat
                })
                &&& s.form == XrefForm::Stream ==> last.entries[1] == (wrapped(size as int + 1), at as u64)
            }
            &&& out.take(base) == c.take(base)
            &&& body_of(out, base) matches Some((from, n)) && n == region.len() && clip(out, from, from + n)
                == region
        }),
{
    let (s, base) = anchor(c)->Ok_0;
    let size = uint_of(s.dict, utf8("Size"))->Some_0;
    let root = value_of(s.dict, utf8("Root"))->Some_0;
    let n = region.len();
    let at = section_start(size, base as nat, n);
    let out = PdfCarrier::embedded(c, Technique::PdfObject, region);
    let last = new_section(s, root, size, base as nat, at);
    lemma_hidden(c, region);
    lemma_plan_parts(c, region);
    lemma_no_mark(s.offset as nat);
    lemma_uint_alone(s.offset as nat);
    if s.form == XrefForm::Table {
        lemma_table_says(s, root, size);
        lemma_table_dict(s, root, size);
    } else {
        lemma_stream_says(s, root, size);
        lemma_stream_dict(s, root, size);
        lemma_stream_dict_says(s, root, size);
    }
}

} // verus!
