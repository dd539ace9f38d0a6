//! The MP4 carrier.

use zolal_core::carrier::mp4::{free_box_overhead, scan, write_free_header, Layout, Mp4Carrier};
use zolal_core::carrier::{Carrier, Fill, Technique};
use zolal_core::error::{IoError, IoErrorKind, ZolalError};
use zolal_core::io::{copy_all, MemoryFile, ReadSeek};

/// Hands out its bytes in one block.
struct Bytes(Vec<u8>);

impl Fill for Bytes {
    fn next_block(&mut self) -> Result<Vec<u8>, ZolalError> {
        Ok(std::mem::take(&mut self.0))
    }
}

fn boxed(kind: &[u8; 4], body: &[u8]) -> Vec<u8> {
    let total = (8 + body.len()) as u32;
    let mut out = total.to_be_bytes().to_vec();
    out.extend_from_slice(kind);
    out.extend_from_slice(body);
    out
}

/// Minimal ISOBMFF shape for the walker: ftyp, a moov stand-in, mdat.
fn synth_mp4() -> Vec<u8> {
    [
        boxed(b"ftyp", b"isom\0\0\x02\0isomiso2"),
        boxed(b"moov", &[0u8; 200]),
        boxed(b"mdat", &vec![0x11u8; 500]),
    ]
    .concat()
}

fn file(bytes: &[u8]) -> MemoryFile {
    MemoryFile::new(bytes.to_vec())
}

fn scan_bytes(bytes: &[u8]) -> Result<Layout, ZolalError> {
    scan(&file(bytes))
}

fn embed(carrier: &[u8], region: &[u8]) -> Vec<u8> {
    let mut out = Vec::new();
    Mp4Carrier
        .embed(
            &file(carrier),
            &mut out,
            Technique::Mp4FreeBox,
            region.len() as u64,
            &mut Bytes(region.to_vec()),
        )
        .unwrap();
    out
}

fn read_back(stego: &[u8]) -> Vec<u8> {
    let src = file(stego);
    let regions = Mp4Carrier.candidate_regions(&src).unwrap();
    let region = regions.first().expect("a candidate region");
    let mut got = Vec::new();
    copy_all(&mut Mp4Carrier.open_region(&src, region).unwrap(), &mut got).unwrap();
    got
}

#[test]
fn walks_boxes_and_finds_no_region_in_a_clean_file() {
    let carrier = synth_mp4();
    let layout = scan_bytes(&carrier).unwrap();
    assert_eq!(layout.boxes.len(), 3);
    assert_eq!(&layout.boxes[0].kind, b"ftyp");
    assert_eq!(layout.file_len, carrier.len() as u64);
    assert!(Mp4Carrier.candidate_regions(&file(&carrier)).unwrap().is_empty());
    assert_eq!(layout.kept_end().unwrap(), carrier.len() as u64);
}

#[test]
fn embed_appends_a_free_box_that_reads_back() {
    let carrier = synth_mp4();
    let region: Vec<u8> = (0..40_000u32).map(|i| (i % 251) as u8).collect();
    let out = embed(&carrier, &region);

    assert_eq!(&out[..carrier.len()], &carrier[..], "original bytes untouched");
    assert_eq!(
        out.len() as u64,
        carrier.len() as u64 + 8 + region.len() as u64
    );
    let layout = scan_bytes(&out).unwrap();
    assert_eq!(layout.boxes.len(), 4);
    assert!(layout.boxes[3].is_padding());
    assert_eq!(read_back(&out), region);
}

#[test]
fn re_hiding_replaces_the_trailing_free_box() {
    let carrier = synth_mp4();
    let first = embed(&carrier, b"first payload, longer");
    let second = embed(&first, b"second");
    // Exactly one free box, holding the new payload, not two stacked.
    let padding = scan_bytes(&second)
        .unwrap()
        .boxes
        .iter()
        .filter(|b| b.is_padding())
        .count();
    assert_eq!(padding, 1);
    assert_eq!(read_back(&second), b"second");
    assert_eq!(second.len(), carrier.len() + 8 + "second".len());
}

#[test]
fn interior_padding_is_preserved_and_still_a_candidate() {
    // A free box between moov and mdat (alignment padding) must survive a hide and stay readable as a
    // lower-priority candidate.
    let carrier = [
        boxed(b"ftyp", b"isom\0\0\x02\0isomiso2"),
        boxed(b"free", &[0xAA; 30]),
        boxed(b"mdat", &[0x11; 100]),
    ]
    .concat();
    let out = embed(&carrier, b"payload");

    let src = file(&out);
    let regions = Mp4Carrier.candidate_regions(&src).unwrap();
    assert_eq!(regions.len(), 2, "our new box + the interior one");
    // Newest (ours, at the end) is tried first.
    let mut ours = Vec::new();
    copy_all(&mut Mp4Carrier.open_region(&src, &regions[0]).unwrap(), &mut ours).unwrap();
    assert_eq!(ours, b"payload");
}

#[test]
fn mp4_output_len_matches_embed() {
    let carrier = synth_mp4();
    for len in [0u64, 1, 40_000] {
        let predicted = Mp4Carrier
            .output_len(&file(&carrier), Technique::Mp4FreeBox, len)
            .unwrap();
        let region = vec![0u8; len as usize];
        assert_eq!(predicted, embed(&carrier, &region).len() as u64, "len {len}");
    }
}

#[test]
fn free_header_uses_largesize_past_the_32_bit_limit() {
    let mut small = Vec::new();
    write_free_header(&mut small, 100);
    assert_eq!(small, [0, 0, 0, 108, b'f', b'r', b'e', b'e']);

    // A body that pushes the 32-bit total over u32::MAX must switch to the 64-bit form, without
    // allocating the body.
    let region_len = u64::from(u32::MAX);
    let mut big = Vec::new();
    write_free_header(&mut big, region_len);
    assert_eq!(big[..4], 1u32.to_be_bytes());
    assert_eq!(&big[4..8], b"free");
    assert_eq!(big[8..16], (16 + region_len).to_be_bytes());
    assert_eq!(free_box_overhead(100), 8);
    assert_eq!(free_box_overhead(region_len), 16);
}

#[test]
fn open_ended_last_box_is_refused_for_embedding() {
    // size == 0 mdat: readable, but nothing can be appended after it.
    let mut carrier = boxed(b"ftyp", b"isom\0\0\x02\0isomiso2");
    carrier.extend_from_slice(&0u32.to_be_bytes());
    carrier.extend_from_slice(b"mdat");
    carrier.extend_from_slice(&[0x11; 100]);

    let layout = scan_bytes(&carrier).unwrap();
    assert!(layout.boxes.last().unwrap().open_ended);
    let err = Mp4Carrier
        .output_len(&file(&carrier), Technique::Mp4FreeBox, 10)
        .unwrap_err();
    assert!(matches!(err, ZolalError::MalformedContainer { .. }));
}

#[test]
fn largesize_box_is_parsed() {
    // A box using the 64-bit size form must be walked correctly.
    let mut carrier = boxed(b"ftyp", b"isom\0\0\x02\0isomiso2");
    let body = [0x22u8; 40];
    carrier.extend_from_slice(&1u32.to_be_bytes());
    carrier.extend_from_slice(b"mdat");
    carrier.extend_from_slice(&(16u64 + body.len() as u64).to_be_bytes());
    carrier.extend_from_slice(&body);

    let layout = scan_bytes(&carrier).unwrap();
    assert_eq!(layout.boxes.len(), 2);
    assert_eq!(layout.boxes[1].header_len, 16);
    assert_eq!(layout.boxes[1].total, 16 + body.len() as u64);
}

#[test]
fn mp4_hostile_input_errors_and_never_panics() {
    let good = embed(&synth_mp4(), &[7u8; 50]);
    for cut in 0..good.len() {
        let _ = scan_bytes(&good[..cut]);
    }
    for i in 0..good.len() {
        for bit in [0x01, 0x80] {
            let mut bad = good.clone();
            bad[i] ^= bit;
            let _ = scan_bytes(&bad);
            let _ = Mp4Carrier.candidate_regions(&file(&bad));
        }
    }
    // A box claiming more than the file holds.
    let mut overrun = boxed(b"ftyp", b"isom\0\0\x02\0isomiso2");
    overrun.extend_from_slice(&0xFFFF_FFFEu32.to_be_bytes());
    overrun.extend_from_slice(b"mdat");
    assert!(matches!(
        scan_bytes(&overrun),
        Err(ZolalError::MalformedContainer { .. })
    ));
}

#[test]
fn stripping_a_video_restores_it() {
    let carrier = synth_mp4();
    let stego = embed(&carrier, &[5u8; 70_000]);
    let mut out = Vec::new();
    let n = Mp4Carrier.strip(&file(&stego), &mut out).unwrap();
    assert_eq!(out, carrier);
    assert_eq!(n, carrier.len() as u64);
}

#[test]
fn stripping_an_open_ended_file_copies_it() {
    let mut carrier = boxed(b"ftyp", b"isom\0\0\x02\0isomiso2");
    carrier.extend_from_slice(&0u32.to_be_bytes());
    carrier.extend_from_slice(b"mdat");
    carrier.extend_from_slice(&[0x11; 100]);
    let mut out = Vec::new();
    assert_eq!(Mp4Carrier.strip(&file(&carrier), &mut out).unwrap(), 132);
    assert_eq!(out, carrier);
}

/// A file whose reads fail beyond some offset, as if it had been cut off.
struct Cut(Vec<u8>, u64);

impl ReadSeek for Cut {
    fn size(&self) -> Result<u64, IoError> {
        Ok(self.0.len() as u64)
    }

    fn read_at(&self, offset: u64, max: usize) -> Result<Vec<u8>, IoError> {
        if offset + max as u64 > self.1 {
            return Err(IoError::new(IoErrorKind::UnexpectedEof, "cut off"));
        }
        let from = offset as usize;
        Ok(self.0[from..self.0.len().min(from + max)].to_vec())
    }
}

#[test]
fn a_video_that_is_cut_off_meanwhile_is_malformed() {
    let src = Cut({
        let mut bytes = boxed(b"ftyp", b"isom\0\0\x02\0isomiso2");
        bytes.extend_from_slice(&boxed(b"mdat", &[1; 40]));
        bytes
    }, 26);
    let err = Mp4Carrier.candidate_regions(&src).unwrap_err();
    assert!(matches!(err, ZolalError::MalformedContainer { .. }), "{err:?}");
}
