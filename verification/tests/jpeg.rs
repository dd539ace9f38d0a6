//! The JPEG carrier.

use std::cell::Cell;
use zolal_core::carrier::jpeg::{
    app15_overhead, looks_reencoded, scan, JpegCarrier, Layout, APP15_MAX_PAYLOAD,
};
use zolal_core::carrier::{Carrier, Fill, Technique};
use zolal_core::error::{IoError, ZolalError};
use zolal_core::io::{copy_all, MemoryFile, ReadSeek};

const M_APP0: u8 = 0xE0;
const M_APP1: u8 = 0xE1;
const M_APP15: u8 = 0xEF;
const M_SOS: u8 = 0xDA;
const M_EOI: u8 = 0xD9;

/// Hands out its bytes in one block.
struct Bytes(Vec<u8>);

impl Fill for Bytes {
    fn next_block(&mut self) -> Result<Vec<u8>, ZolalError> {
        Ok(std::mem::take(&mut self.0))
    }
}

fn seg(marker: u8, body: &[u8]) -> Vec<u8> {
    let mut out = vec![0xFF, marker];
    out.extend_from_slice(&((body.len() + 2) as u16).to_be_bytes());
    out.extend_from_slice(body);
    out
}

/// Structurally valid (not decodable) JPEG. Scan data exercises stuffed bytes, a restart marker and fill
/// bytes before EOI.
fn jpeg(header: &[Vec<u8>]) -> Vec<u8> {
    let mut out = vec![0xFF, 0xD8];
    out.extend(seg(M_APP0, b"JFIF\0\x01\x01\0\0\x01\0\x01\0\0"));
    for s in header {
        out.extend_from_slice(s);
    }
    out.extend(seg(0xDB, &[0u8; 65]));
    out.extend(seg(0xC0, &[8, 0, 8, 0, 8, 1, 1, 0x11, 0]));
    out.extend(seg(M_SOS, &[1, 1, 0, 0, 63, 0]));
    out.extend_from_slice(&[0x12, 0xFF, 0x00, 0x34, 0xFF, 0xD0, 0x56, 0xFF, 0xFF]);
    out.extend_from_slice(&[0xFF, M_EOI]);
    out
}

fn file(bytes: &[u8]) -> MemoryFile {
    MemoryFile::new(bytes.to_vec())
}

fn layout(bytes: &[u8]) -> Result<Layout, ZolalError> {
    scan(&file(bytes))
}

#[test]
fn finds_end_of_image_trailer_and_exif() {
    let plain = jpeg(&[]);
    let mut with = jpeg(&[seg(M_APP1, b"Exif\0\0MM\0*")]);
    let image_len = with.len() as u64;
    with.extend_from_slice(b"trailing");

    let l = layout(&with).unwrap();
    assert_eq!(l.image_end, image_len);
    assert_eq!(l.file_len - l.image_end, 8);
    assert!(l.has_exif);
    assert!(!layout(&plain).unwrap().has_exif);
    assert!(looks_reencoded(&file(&plain)).unwrap());
    assert!(!looks_reencoded(&file(&with)).unwrap());
}

#[test]
fn follows_chained_images_but_not_lookalikes() {
    let primary = jpeg(&[]);
    let secondary = jpeg(&[]);
    let mut chained = [primary.clone(), secondary.clone()].concat();
    let both = chained.len() as u64;
    chained.extend_from_slice(b"payload");
    assert_eq!(layout(&chained).unwrap().image_end, both);

    // FF D8 followed by junk is trailing data, not an image.
    let fake = [primary.clone(), vec![0xFF, 0xD8, 0x00, 0x11, 0x22]].concat();
    assert_eq!(layout(&fake).unwrap().image_end, primary.len() as u64);
}

#[test]
fn gathers_app15_and_places_insertion_after_leading_run() {
    let a = seg(M_APP15, &[1; 10]);
    let b = seg(M_APP15, &[2; 20]);
    let icc = seg(0xE2, b"ICC_PROFILE\0");
    let photo = jpeg(&[seg(M_APP1, b"Exif\0\0"), a.clone(), icc, b.clone()]);
    let l = layout(&photo).unwrap();

    assert_eq!(l.app15.len(), 2);
    assert_eq!(l.app15[0].len - 4, 10);
    assert_eq!(l.app15[1].len - 4, 20);
    // After APP0, APP1 and the first APP15; before the ICC APP2.
    assert_eq!(l.insert_at, l.app15[0].offset + l.app15[0].len);

    let regions = JpegCarrier.candidate_regions(&file(&photo)).unwrap();
    assert_eq!(regions.len(), 1);
    assert!(regions[0].fragmented);
    let src = file(&photo);
    let mut got = Vec::new();
    copy_all(&mut JpegCarrier.open_region(&src, &regions[0]).unwrap(), &mut got).unwrap();
    assert_eq!(got, [vec![1; 10], vec![2; 20]].concat());
}

fn embed(carrier: &[u8], technique: Technique, region: &[u8]) -> Vec<u8> {
    let mut out = Vec::new();
    let n = JpegCarrier
        .embed(
            &file(carrier),
            &mut out,
            technique,
            region.len() as u64,
            &mut Bytes(region.to_vec()),
        )
        .unwrap();
    assert_eq!(n, out.len() as u64);
    out
}

fn read_back(stego: &[u8], technique: Technique) -> Vec<u8> {
    let src = file(stego);
    let regions = JpegCarrier.candidate_regions(&src).unwrap();
    let region = regions.iter().find(|r| r.technique == technique).unwrap();
    let mut got = Vec::new();
    copy_all(&mut JpegCarrier.open_region(&src, region).unwrap(), &mut got).unwrap();
    got
}

#[test]
fn app15_embed_splits_and_reassembles() {
    let region: Vec<u8> = (0..200_000u32).map(|i| (i % 251) as u8).collect();
    let carrier = jpeg(&[]);
    let out = embed(&carrier, Technique::JpegApp15, &region);

    let l = layout(&out).unwrap();
    assert_eq!(l.app15.len(), 4); // 3 full segments + 1 short
    assert_eq!(
        out.len() as u64,
        carrier.len() as u64 + region.len() as u64 + app15_overhead(region.len() as u64)
    );
    assert_eq!(read_back(&out, Technique::JpegApp15), region);
}

#[test]
fn embedding_replaces_previous_regions() {
    let carrier = [jpeg(&[seg(M_APP15, b"old app15")]), b"old trailer".to_vec()].concat();
    let clean_len = jpeg(&[]).len();

    let trailer = embed(&carrier, Technique::JpegTrailer, b"new");
    assert_eq!(trailer.len(), clean_len + 3);
    assert_eq!(read_back(&trailer, Technique::JpegTrailer), b"new");
    assert!(layout(&trailer).unwrap().app15.is_empty());

    let app15 = embed(&carrier, Technique::JpegApp15, b"new");
    for (technique, out) in [
        (Technique::JpegTrailer, &trailer),
        (Technique::JpegApp15, &app15),
    ] {
        let predicted = JpegCarrier.output_len(&file(&carrier), technique, 3).unwrap();
        assert_eq!(predicted, out.len() as u64, "{technique:?}");
    }
    let l = layout(&app15).unwrap();
    assert_eq!(l.app15.len(), 1);
    assert_eq!(l.file_len, l.image_end, "old trailer dropped");
    assert_eq!(read_back(&app15, Technique::JpegApp15), b"new");
}

#[test]
fn fill_that_lies_about_its_length_is_caught() {
    let err = JpegCarrier
        .embed(
            &file(&jpeg(&[])),
            &mut Vec::new(),
            Technique::JpegTrailer,
            10,
            &mut Bytes(b"short".to_vec()),
        )
        .unwrap_err();
    assert!(matches!(err, ZolalError::Io(_)));
    assert_eq!(
        err.message(),
        "io error: internal error: region should be 10 bytes, 5 were written"
    );
}

#[test]
fn jpeg_hostile_input_errors_and_never_panics() {
    let good = [jpeg(&[seg(M_APP15, &[7; 40])]), b"tail".to_vec()].concat();
    for cut in 0..good.len() {
        let _ = layout(&good[..cut]);
    }
    for i in 0..good.len() {
        for bit in [0x01, 0x80] {
            let mut bad = good.clone();
            bad[i] ^= bit;
            let _ = layout(&bad);
            let _ = JpegCarrier.candidate_regions(&file(&bad));
        }
    }
    let no_eoi = &jpeg(&[])[..jpeg(&[]).len() - 2];
    assert!(matches!(
        layout(no_eoi),
        Err(ZolalError::MalformedContainer { .. })
    ));
    let bad_len = [vec![0xFF, 0xD8], vec![0xFF, 0xE0, 0x00, 0x01]].concat();
    assert!(matches!(
        layout(&bad_len),
        Err(ZolalError::MalformedContainer { .. })
    ));
}

/// A file that goes on in zeros, and counts the bytes that are read from it.
struct Counting {
    front: Vec<u8>,
    len: u64,
    read: Cell<u64>,
}

impl ReadSeek for Counting {
    fn size(&self) -> Result<u64, IoError> {
        Ok(self.len)
    }

    fn read_at(&self, offset: u64, max: usize) -> Result<Vec<u8>, IoError> {
        let end = self.len.min(offset.saturating_add(max as u64));
        let mut out = Vec::new();
        let mut at = offset;
        while at < end {
            out.push(self.front.get(at as usize).copied().unwrap_or(0));
            at += 1;
        }
        self.read.set(self.read.get() + out.len() as u64);
        Ok(out)
    }
}

#[test]
fn walking_never_reads_the_hidden_region() {
    // A 1 GiB trailer: if the walk read it, this test would crawl.
    let image = jpeg(&[]);
    let src = Counting {
        len: image.len() as u64 + (1 << 30),
        front: image.clone(),
        read: Cell::new(0),
    };
    let regions = JpegCarrier.candidate_regions(&src).unwrap();
    assert_eq!(regions[0].len, 1 << 30);
    assert!(src.read.get() < 64 * 1024, "read {} bytes", src.read.get());

    // APP15: skipping 150 full segments must not read their payloads.
    let region = vec![0xA5u8; 150 * APP15_MAX_PAYLOAD];
    let stego = embed(&image, Technique::JpegApp15, &region);
    let src = Counting {
        len: stego.len() as u64,
        front: stego.clone(),
        read: Cell::new(0),
    };
    JpegCarrier.candidate_regions(&src).unwrap();
    assert!(
        src.read.get() < stego.len() as u64 / 20,
        "read {} of {} bytes",
        src.read.get(),
        stego.len()
    );
}

#[test]
fn stripping_a_photo_restores_it() {
    let carrier = jpeg(&[seg(M_APP1, b"Exif\0\0MM\0*")]);
    for technique in [Technique::JpegTrailer, Technique::JpegApp15] {
        let stego = embed(&carrier, technique, &[9u8; 100_000]);
        let mut out = Vec::new();
        JpegCarrier.strip(&file(&stego), &mut out).unwrap();
        assert_eq!(out, carrier, "{technique:?}");
        assert!(JpegCarrier.candidate_regions(&file(&out)).unwrap().is_empty());
    }
}

#[test]
fn techniques_of_other_formats_do_not_apply_to_a_photo() {
    let err = JpegCarrier
        .output_len(&file(&jpeg(&[])), Technique::Mp4FreeBox, 10)
        .unwrap_err();
    assert_eq!(
        err.message(),
        "invalid request: Mp4FreeBox does not apply to a JPEG carrier"
    );
}

#[test]
fn app15_overhead_is_four_bytes_a_segment() {
    assert_eq!(app15_overhead(0), 0);
    assert_eq!(app15_overhead(1), 4);
    assert_eq!(app15_overhead(65533), 4);
    assert_eq!(app15_overhead(65534), 8);
    assert_eq!(app15_overhead(200_000), 16);
}
