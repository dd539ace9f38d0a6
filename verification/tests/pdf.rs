//! The PDF carrier.

use zolal_core::carrier::pdf::{
    build_update, last_startxref, section_at, PdfCarrier, MAX_TABLE_OFFSET,
};
use zolal_core::carrier::pdf_syntax::{dict_uint, dict_uint_array, dict_value};
use zolal_core::carrier::{Carrier, Fill, Region, Technique};
use zolal_core::error::ZolalError;
use zolal_core::io::{copy_all, MemoryFile};

/// Hands out its bytes in one block.
struct Bytes(Vec<u8>);

impl Fill for Bytes {
    fn next_block(&mut self) -> Result<Vec<u8>, ZolalError> {
        Ok(std::mem::take(&mut self.0))
    }
}

fn file(bytes: &[u8]) -> MemoryFile {
    MemoryFile::new(bytes.to_vec())
}

/// The four objects every fixture shares: catalog, page tree, one page, one content stream.
fn body_objects() -> Vec<Vec<u8>> {
    let content = b"BT /F1 12 Tf 20 100 Td (hello) Tj ET";
    let mut stream = format!("<< /Length {} >>\nstream\n", content.len()).into_bytes();
    stream.extend_from_slice(content);
    stream.extend_from_slice(b"\nendstream");
    vec![
        b"<< /Type /Catalog /Pages 2 0 R >>".to_vec(),
        b"<< /Type /Pages /Kids [3 0 R] /Count 1 >>".to_vec(),
        b"<< /Type /Page /Parent 2 0 R /MediaBox [0 0 200 200] /Contents 4 0 R >>".to_vec(),
        stream,
    ]
}

/// Write `%PDF` header and the shared objects; returns the bytes and each object's offset.
fn body() -> (Vec<u8>, Vec<u64>) {
    let mut out = b"%PDF-1.7\n%\xE2\xE3\xCF\xD3\n".to_vec();
    let mut offsets = Vec::new();
    for (i, object) in body_objects().iter().enumerate() {
        offsets.push(out.len() as u64);
        out.extend_from_slice(format!("{} 0 obj\n", i + 1).as_bytes());
        out.extend_from_slice(object);
        out.extend_from_slice(b"\nendobj\n");
    }
    (out, offsets)
}

/// A valid PDF with a classic cross-reference table. `extra` goes inside the trailer dict.
fn classic_pdf(extra: &str) -> Vec<u8> {
    let (mut out, offsets) = body();
    let xref = out.len() as u64;
    out.extend_from_slice(format!("xref\n0 {}\n", offsets.len() + 1).as_bytes());
    out.extend_from_slice(b"0000000000 65535 f\r\n");
    for offset in &offsets {
        out.extend_from_slice(format!("{offset:010} 00000 n\r\n").as_bytes());
    }
    out.extend_from_slice(
        format!(
            "trailer\n<< /Size {} /Root 1 0 R{extra} >>\nstartxref\n{xref}\n%%EOF\n",
            offsets.len() + 1
        )
        .as_bytes(),
    );
    out
}

/// A valid PDF whose cross-reference section is an (uncompressed) stream, as PDF 1.5+ writes.
fn xref_stream_pdf() -> Vec<u8> {
    let (mut out, offsets) = body();
    let xref = out.len() as u64;
    let entry = |data: &mut Vec<u8>, kind: u8, at: u64, gen: u16| {
        data.push(kind);
        data.extend_from_slice(&(at as u32).to_be_bytes());
        data.extend_from_slice(&gen.to_be_bytes());
    };
    let mut data = Vec::new();
    entry(&mut data, 0, 0, 0xFFFF); // the free list head
    for offset in &offsets {
        entry(&mut data, 1, *offset, 0);
    }
    entry(&mut data, 1, xref, 0); // the cross-reference stream lists itself
    out.extend_from_slice(
        format!(
            "5 0 obj\n<< /Type /XRef /Size 6 /W [1 4 2] /Root 1 0 R /Length {} >>\nstream\n",
            data.len()
        )
        .as_bytes(),
    );
    out.extend_from_slice(&data);
    out.extend_from_slice(b"\nendstream\nendobj\n");
    out.extend_from_slice(format!("startxref\n{xref}\n%%EOF\n").as_bytes());
    out
}

fn embed(pdf: &[u8], region: &[u8]) -> Vec<u8> {
    let mut out = Vec::new();
    PdfCarrier
        .embed(
            &file(pdf),
            &mut out,
            Technique::PdfObject,
            region.len() as u64,
            &mut Bytes(region.to_vec()),
        )
        .unwrap();
    out
}

fn regions(pdf: &[u8]) -> Vec<Region> {
    PdfCarrier.candidate_regions(&file(pdf)).unwrap()
}

fn read_back(pdf: &[u8]) -> Vec<u8> {
    let regions = regions(pdf);
    let region = regions.first().expect("a candidate region");
    let src = file(pdf);
    let mut got = Vec::new();
    copy_all(&mut PdfCarrier.open_region(&src, region).unwrap(), &mut got).unwrap();
    got
}

#[test]
fn a_clean_pdf_offers_nothing() {
    // No /Prev means the file was never updated, so none of its streams can be ours. Saying
    // "nothing hidden" beats making reveal try every content stream and cry wrong passphrase.
    for pdf in [classic_pdf(""), xref_stream_pdf()] {
        assert!(regions(&pdf).is_empty());
    }
}

#[test]
fn embed_appends_an_update_that_reads_back() {
    let region: Vec<u8> = (0..5000u32).map(|i| (i % 251) as u8).collect();
    for pdf in [classic_pdf(""), xref_stream_pdf()] {
        let out = embed(&pdf, &region);
        assert_eq!(&out[..pdf.len()], &pdf[..], "original bytes untouched");
        assert!(out.ends_with(b"%%EOF\n"), "file still ends with %%EOF");

        // The update's startxref must point at the section just written.
        let tail = String::from_utf8_lossy(&out[out.len() - 40..]).into_owned();
        let at: u64 = tail
            .rsplit("startxref")
            .next()
            .unwrap()
            .trim()
            .trim_end_matches("%%EOF")
            .trim()
            .parse()
            .unwrap();
        assert!(at > pdf.len() as u64 && at < out.len() as u64);

        let found = regions(&out);
        assert_eq!(found.len(), 1, "exactly one candidate: our object");
        assert_eq!(found[0].len, region.len() as u64);
        assert_eq!(read_back(&out), region);
    }
}

#[test]
fn the_appended_section_matches_the_form_already_in_use() {
    // A classic file gets a classic table; a 1.5+ file gets a cross-reference stream.
    let classic = embed(&classic_pdf(""), b"x");
    assert!(classic.ends_with(b"%%EOF\n"));
    assert!(String::from_utf8_lossy(&classic[classic_pdf("").len()..]).contains("\nxref\n"));

    let modern = embed(&xref_stream_pdf(), b"x");
    let appended = String::from_utf8_lossy(&modern[xref_stream_pdf().len()..]).into_owned();
    assert!(appended.contains("/Type /XRef"), "{appended}");
    assert!(!appended.contains("\nxref\n"));
}

#[test]
fn pdf_output_len_matches_embed() {
    for pdf in [classic_pdf(""), xref_stream_pdf()] {
        for len in [0u64, 1, 5000] {
            let predicted = PdfCarrier
                .output_len(&file(&pdf), Technique::PdfObject, len)
                .unwrap();
            let region = vec![7u8; len as usize];
            assert_eq!(predicted, embed(&pdf, &region).len() as u64, "len {len}");
        }
    }
}

#[test]
fn re_hiding_replaces_the_previous_update() {
    for pdf in [classic_pdf(""), xref_stream_pdf()] {
        let first = embed(&pdf, b"the first secret");
        let second = embed(&first, b"the second secret");
        // The old update is truncated away, not stacked on top of.
        assert_eq!(second.len(), pdf.len() + (second.len() - pdf.len()));
        assert_eq!(
            second.len() as u64,
            PdfCarrier
                .output_len(&file(&pdf), Technique::PdfObject, 17)
                .unwrap(),
            "same size as hiding into the original"
        );
        assert_eq!(&second[..pdf.len()], &pdf[..]);
        assert_eq!(read_back(&second), b"the second secret");
        assert_eq!(regions(&second).len(), 1, "no stale region left behind");
    }
}

#[test]
fn a_foreign_update_is_never_truncated() {
    // Somebody else's incremental update (two added objects) must survive untouched: losing
    // a user's annotations would be far worse than leaving a stale region behind.
    let base = classic_pdf("");
    let mut updated = base.clone();
    let prev_xref = {
        let tail = String::from_utf8_lossy(&base[base.len() - 40..]).into_owned();
        tail.rsplit("startxref")
            .next()
            .unwrap()
            .trim()
            .trim_end_matches("%%EOF")
            .trim()
            .parse::<u64>()
            .unwrap()
    };
    let five = updated.len() as u64;
    updated.extend_from_slice(b"5 0 obj\n<< /Note (annotation) >>\nendobj\n");
    let six = updated.len() as u64;
    updated.extend_from_slice(b"6 0 obj\n<< /Note (another) >>\nendobj\n");
    let xref = updated.len() as u64;
    updated.extend_from_slice(b"xref\n5 2\n");
    updated
        .extend_from_slice(format!("{five:010} 00000 n\r\n{six:010} 00000 n\r\n").as_bytes());
    updated.extend_from_slice(
        format!(
            "trailer\n<< /Size 7 /Root 1 0 R /Prev {prev_xref} >>\nstartxref\n{xref}\n%%EOF\n"
        )
        .as_bytes(),
    );

    let out = embed(&updated, b"secret");
    assert_eq!(&out[..updated.len()], &updated[..], "foreign update kept");
    assert_eq!(read_back(&out), b"secret");
}

/// A linearized ("fast web view") file: the `startxref` at the end points at a section near
/// the *front*, whose `/Prev` points *forward* to the main one. Real Illustrator and web
/// output looks like this.
fn linearized_pdf() -> Vec<u8> {
    let (mut out, offsets) = body();
    let main_xref = out.len() as u64;
    out.extend_from_slice(format!("xref\n0 {}\n", offsets.len() + 1).as_bytes());
    out.extend_from_slice(b"0000000000 65535 f\r\n");
    for offset in &offsets {
        out.extend_from_slice(format!("{offset:010} 00000 n\r\n").as_bytes());
    }
    out.extend_from_slice(
        format!(
            "trailer\n<< /Size {} /Root 1 0 R >>\nstartxref\n0\n%%EOF\n",
            offsets.len() + 1
        )
        .as_bytes(),
    );
    // The front section: same entries, but chaining *forward* to the main one.
    let front = out.len() as u64;
    out.extend_from_slice(format!("xref\n0 {}\n", offsets.len() + 1).as_bytes());
    out.extend_from_slice(b"0000000000 65535 f\r\n");
    for offset in &offsets {
        out.extend_from_slice(format!("{offset:010} 00000 n\r\n").as_bytes());
    }
    out.extend_from_slice(
        format!(
            "trailer\n<< /Size {} /Root 1 0 R /Prev {main_xref} >>\nstartxref\n{front}\n%%EOF\n",
            offsets.len() + 1
        )
        .as_bytes(),
    );
    out
}

#[test]
fn a_linearized_file_is_not_mistaken_for_an_update() {
    // Its `/Prev` points forward, so it is the original document, not an appended revision.
    // Getting this wrong means a clean PDF answers "wrong passphrase" instead of "nothing
    // hidden", and risks the replace-on-re-hide check truncating a real document.
    let pdf = linearized_pdf();
    assert!(
        regions(&pdf).is_empty(),
        "no candidates in a clean linearized file"
    );

    // Hiding still works, and still leaves the original bytes alone.
    let out = embed(&pdf, b"secret");
    assert_eq!(&out[..pdf.len()], &pdf[..]);
    assert_eq!(read_back(&out), b"secret");
    assert_eq!(regions(&out).len(), 1);
}

#[test]
fn encrypted_pdfs_are_refused() {
    let encrypted = classic_pdf(" /Encrypt 9 0 R /ID [<0102> <0304>]");
    let err = PdfCarrier
        .output_len(&file(&encrypted), Technique::PdfObject, 10)
        .unwrap_err();
    assert!(matches!(err, ZolalError::InvalidRequest(m) if m.contains("encrypted")));
}

#[test]
fn the_document_identity_is_carried_over() {
    let pdf = classic_pdf(" /ID [<0102> <0304>] /Info 9 0 R");
    let out = embed(&pdf, b"x");
    let appended = String::from_utf8_lossy(&out[pdf.len()..]).into_owned();
    assert!(appended.contains("/ID [<0102> <0304>]"), "{appended}");
    assert!(appended.contains("/Info 9 0 R"), "{appended}");
    assert!(appended.contains("/Root 1 0 R"), "{appended}");
}

#[test]
fn a_classic_table_cannot_address_beyond_ten_digits() {
    // Offsets are 10 fixed digits, so a classic file has a hard ceiling. Refuse rather than
    // write a table that silently addresses the wrong place.
    let pdf = classic_pdf("");
    let section = section_at(
        &file(&pdf),
        last_startxref(&file(&pdf), pdf.len() as u64).unwrap(),
        pdf.len() as u64,
        false,
    )
    .unwrap();
    let err = build_update(&section, MAX_TABLE_OFFSET, 100).unwrap_err();
    assert!(
        matches!(err, ZolalError::InvalidRequest(m) if m.contains("cross-reference table"))
    );
}

#[test]
fn pdf_hostile_input_errors_and_never_panics() {
    let try_regions =
        |bytes: &[u8]| PdfCarrier.candidate_regions(&file(bytes));
    let good = embed(&classic_pdf(""), &[3u8; 80]);
    for cut in 0..good.len() {
        let _ = try_regions(&good[..cut]);
    }
    for i in (0..good.len()).step_by(3) {
        for bit in [0x01, 0x80] {
            let mut bad = good.clone();
            bad[i] ^= bit;
            let _ = try_regions(&bad);
            let _ = PdfCarrier.output_len(&file(&bad), Technique::PdfObject, 10);
        }
    }
    // No startxref at all: an error, never a panic and never a false candidate.
    let junk = b"%PDF-1.7\nnothing here at all\n";
    assert!(matches!(
        try_regions(junk),
        Err(ZolalError::MalformedContainer { .. })
    ));
}

#[test]
fn dictionary_parsing_handles_awkward_values() {
    let dict =
        b"<< /A 1 0 R /B (a (nested) \\) string) /C << /D [1 2 [3]] >> /E /Name /F 42 >>";
    assert_eq!(dict_value(dict, b"A"), Some(b"1 0 R".as_slice()));
    assert_eq!(dict_value(dict, b"E"), Some(b"/Name".as_slice()));
    assert_eq!(dict_uint(dict, b"F"), Some(42));
    assert_eq!(
        dict_uint(dict, b"A"),
        None,
        "indirect refs are not integers"
    );
    assert_eq!(dict_value(dict, b"missing"), None);
    assert_eq!(
        dict_uint_array(b"<< /W [1 8 2] >>", b"W"),
        Some(vec![1, 8, 2])
    );
}

#[test]
fn stripping_a_document_restores_it() {
    for pdf in [classic_pdf(""), xref_stream_pdf(), linearized_pdf()] {
        let stego = embed(&pdf, &[1u8; 3000]);
        let mut out = Vec::new();
        PdfCarrier.strip(&file(&stego), &mut out).unwrap();
        assert_eq!(out, pdf);
    }
}

#[test]
fn a_size_that_leaves_no_object_numbers_is_refused() {
    let mut bytes = classic_pdf("");
    let needle = b"/Size 5";
    let pos = (0..bytes.len()).find(|&i| bytes[i..].starts_with(needle)).unwrap();
    bytes.splice(pos..pos + needle.len(), b"/Size 18446744073709551615".iter().copied());
    let err = PdfCarrier
        .output_len(&file(&bytes), Technique::PdfObject, 10)
        .unwrap_err();
    assert!(matches!(err, ZolalError::MalformedContainer { .. }));
}

#[test]
fn the_last_object_number_of_a_classic_table_is_usable() {
    let mut bytes = classic_pdf("");
    let needle = b"/Size 5";
    let pos = (0..bytes.len()).find(|&i| bytes[i..].starts_with(needle)).unwrap();
    bytes.splice(pos..pos + needle.len(), b"/Size 18446744073709551614".iter().copied());
    let stego = embed(&bytes, b"payload");
    assert_eq!(read_back(&stego), b"payload");
    let mut out = Vec::new();
    PdfCarrier.strip(&file(&stego), &mut out).unwrap();
    assert_eq!(out, bytes);
}

#[test]
fn a_cross_reference_stream_needs_two_object_numbers() {
    let mut bytes = xref_stream_pdf();
    let needle = b"/Size 6";
    let pos = (0..bytes.len()).find(|&i| bytes[i..].starts_with(needle)).unwrap();
    bytes.splice(pos..pos + needle.len(), b"/Size 18446744073709551614".iter().copied());
    let err = PdfCarrier
        .output_len(&file(&bytes), Technique::PdfObject, 10)
        .unwrap_err();
    assert!(matches!(err, ZolalError::MalformedContainer { .. }));
}

/// A classic document with the given bytes inside its trailer.
fn classic_with(extra: &[u8]) -> Vec<u8> {
    let mut bytes = classic_pdf("");
    let needle = b"/Root 1 0 R";
    let pos = (0..bytes.len()).find(|&i| bytes[i..].starts_with(needle)).unwrap() + needle.len();
    bytes.splice(pos..pos, extra.iter().copied());
    bytes
}

#[test]
fn a_binary_id_is_carried_over_as_it_is() {
    let id = b"/ID [(\xFF\x80\x01\xC3) (\xE2\x28\xA1\\)\x29)]";
    let mut extra = b" ".to_vec();
    extra.extend_from_slice(id);
    extra.extend_from_slice(b" /Info 3 0 R");
    let pdf = classic_with(&extra);
    let stego = embed(&pdf, b"first payload");
    assert_eq!(stego[..pdf.len()], pdf[..]);
    let appended = &stego[pdf.len()..];
    assert!(appended.windows(id.len()).any(|w| w == id));
    assert!(appended.windows(11).any(|w| w == b"/Info 3 0 R"));
    assert_eq!(regions(&stego).len(), 1);
    assert_eq!(read_back(&stego), b"first payload");
    // Hiding again replaces, and stripping restores.
    assert_eq!(embed(&stego, b"second"), embed(&pdf, b"second"));
    let mut out = Vec::new();
    PdfCarrier.strip(&file(&stego), &mut out).unwrap();
    assert_eq!(out, pdf);
}

#[test]
fn stripping_a_document_that_cannot_carry_anything_copies_it() {
    let encrypted = classic_pdf(" /Encrypt 9 0 R /ID [<0102> <0304>]");
    let mut sizeless = classic_pdf("");
    let pos = (0..sizeless.len()).find(|&i| sizeless[i..].starts_with(b"/Size")).unwrap();
    sizeless[pos + 1] = b'X';
    for pdf in [encrypted, sizeless] {
        assert!(PdfCarrier.output_len(&file(&pdf), Technique::PdfObject, 10).is_err());
        let mut out = Vec::new();
        assert_eq!(PdfCarrier.strip(&file(&pdf), &mut out).unwrap(), pdf.len() as u64);
        assert_eq!(out, pdf);
    }
}

#[test]
fn nested_values_are_carried_over_as_they_are() {
    for value in [
        "[[(a) 1] << /K [2 (]>>)] >> <0102>]",
        "(text (in) brackets \\) here)",
        "<< /A << /B (>>) >> /C [1 2] >>",
    ] {
        let pdf = classic_pdf(&format!(" /ID {value} /Info 9 0 R"));
        let region = vec![0x5Au8; 64];
        let out = embed(&pdf, &region);
        let appended = String::from_utf8_lossy(&out[pdf.len()..]).into_owned();
        assert!(appended.contains(&format!("/ID {value}")), "{appended}");
        assert!(appended.contains("/Info 9 0 R"), "{appended}");
        assert_eq!(read_back(&out), region);
        assert_eq!(embed(&out, &region), out);
    }
}
