//! What crosses a C interface.

use zolal_core::carrier::{CarrierFormat, Technique};
use zolal_core::codes::{
    clean_out, describe_failure, format_code, probe_out, technique_code, technique_from, verdict_code,
    Failure, ZolalErrorDetail, ZolalProgress, ZOLAL_ERR_CANCELLED, ZOLAL_ERR_CARRIER_TOO_SMALL,
    ZOLAL_ERR_CORRUPT_BUNDLE, ZOLAL_ERR_DAMAGED_PAYLOAD, ZOLAL_ERR_INTERNAL,
    ZOLAL_ERR_INVALID_REQUEST, ZOLAL_ERR_IO, ZOLAL_ERR_MALFORMED_CONTAINER,
    ZOLAL_ERR_NO_HIDDEN_DATA, ZOLAL_ERR_PAYLOAD_TOO_LARGE, ZOLAL_ERR_UNSUPPORTED_FORMAT,
    ZOLAL_ERR_WRONG_PASSPHRASE, ZOLAL_FORMAT_MP4, ZOLAL_TECHNIQUE_MP4_FREE_BOX,
};
use zolal_core::crypto::kdf::KdfParams;
use zolal_core::error::{IoError, IoErrorKind, ZolalError};
use zolal_core::io::{MemoryFile, ReadSeek};
use zolal_core::ops::{
    clean, hide_files, plausibility, probe, reveal_files, temp_name, temp_name_from, temp_name_of, HideReport,
    Verdict,
};
use zolal_core::payload::bundle::{MemoryFolder, MemoryPayloads, PayloadFile};
use zolal_core::progress::{AtomicProgress, NoProgress, Progress};

const FAST: KdfParams = KdfParams {
    memory_kib: 8,
    iterations: 1,
    parallelism: 1,
};

/// A minimal but structurally valid MP4: an `ftyp` box and an `mdat` box.
fn synth_mp4() -> Vec<u8> {
    let mut out = Vec::new();
    let ftyp = b"isom\0\0\x02\0isomiso2";
    out.extend_from_slice(&((8 + ftyp.len()) as u32).to_be_bytes());
    out.extend_from_slice(b"ftyp");
    out.extend_from_slice(ftyp);
    let media = vec![0x11u8; 400];
    out.extend_from_slice(&((8 + media.len()) as u32).to_be_bytes());
    out.extend_from_slice(b"mdat");
    out.extend_from_slice(&media);
    out
}

fn hide_one<G: Progress>(
    carrier: &[u8],
    name: &str,
    payload: &[u8],
    pass: &str,
    progress: &G,
) -> Result<(Vec<u8>, HideReport), ZolalError> {
    let files = vec![PayloadFile {
        label: name.to_string(),
        name: Some(name.to_string()),
        is_file: true,
        len: payload.len() as u64,
    }];
    let payloads = MemoryPayloads {
        files: vec![payload.to_vec()],
    };
    let mut out = Vec::new();
    let report = hide_files(
        &MemoryFile::new(carrier.to_vec()),
        Technique::Auto,
        &files,
        &payloads,
        &mut out,
        pass,
        Some(FAST),
        progress,
    )?;
    Ok((out, report))
}

fn failed(e: ZolalError) -> (i32, ZolalErrorDetail) {
    describe_failure(Failure::Core(e))
}

#[test]
fn hide_and_reveal_through_the_abi() {
    let carrier = synth_mp4();

    // probe: nothing hidden yet
    let info = probe_out(&probe(&MemoryFile::new(carrier.clone())).unwrap());
    assert_eq!(info.format, ZOLAL_FORMAT_MP4);
    assert!(!info.has_candidate_region);

    // plausibility
    let predicted = plausibility(&MemoryFile::new(carrier.clone()), 100).unwrap();
    assert!(predicted.result_size > 0);

    // hide
    let (stego, report) =
        hide_one(&carrier, "secret.txt", b"meet at noon", "correct horse", &NoProgress).unwrap();
    assert_eq!(technique_code(report.technique), ZOLAL_TECHNIQUE_MP4_FREE_BOX);
    assert_eq!(report.output_size, stego.len() as u64);

    // reveal
    let mut out = MemoryFolder::new();
    let recovered = reveal_files(
        &MemoryFile::new(stego.clone()),
        &mut out,
        "correct horse",
        Some(FAST),
        &NoProgress,
    )
    .unwrap();
    assert_eq!(recovered.files.len(), 1);
    assert_eq!(recovered.total_bytes, 12);
    assert_eq!(
        technique_code(recovered.technique),
        ZOLAL_TECHNIQUE_MP4_FREE_BOX
    );
    assert_eq!(out.files[0].1, b"meet at noon");

    // clean
    let mut cleaned = Vec::new();
    let report = clean(
        &MemoryFile::new(stego.clone()),
        &mut cleaned,
        "correct horse",
        Some(FAST),
        &NoProgress,
    )
    .unwrap();
    let report = clean_out(&report);
    assert_eq!(cleaned, carrier);
    assert_eq!(report.output_size, carrier.len() as u64);
    assert_eq!(report.removed_bytes, (stego.len() - carrier.len()) as u64);
    assert_eq!(report.technique, ZOLAL_TECHNIQUE_MP4_FREE_BOX);
}

#[test]
fn the_ux_error_contract_survives_the_crossing() {
    let carrier = synth_mp4();
    // Big enough to span several 64 KiB chunks: within a single chunk, damage and a wrong key are
    // genuinely indistinguishable, so only a multi-chunk payload can tell them apart.
    let (stego, _) =
        hide_one(&carrier, "s.bin", &vec![9u8; 200 * 1024], "right", &NoProgress).unwrap();

    let reveal_one = |file: &[u8], pass: &str| {
        let err = reveal_files(
            &MemoryFile::new(file.to_vec()),
            &mut MemoryFolder::new(),
            pass,
            Some(FAST),
            &NoProgress,
        )
        .unwrap_err();
        failed(err)
    };

    // Wrong key on a real payload, versus nothing hidden at all: still distinct.
    let (code, err) = reveal_one(&stego, "wrong");
    assert_eq!(code, ZOLAL_ERR_WRONG_PASSPHRASE);
    assert_eq!(err.message, None);

    let (code, err) = reveal_one(&carrier, "right");
    assert_eq!(code, ZOLAL_ERR_NO_HIDDEN_DATA);
    assert!(
        !err.looks_reencoded,
        "an MP4 carries no re-encoding heuristic"
    );

    // A damaged payload is its own answer, not "wrong passphrase". Corrupt bytes in place: truncating
    // an MP4 instead breaks the box header, which the container catches first.
    let mut corrupt = stego.clone();
    let last = corrupt.len() - 1;
    corrupt[last] ^= 0x01;
    let (code, _) = reveal_one(&corrupt, "right");
    assert_eq!(code, ZOLAL_ERR_DAMAGED_PAYLOAD);

    // Truncation is caught by the container itself, which is a clearer answer still.
    let mut cut = stego.clone();
    cut.truncate(cut.len() - 1);
    let (code, _) = reveal_one(&cut, "right");
    assert_eq!(code, ZOLAL_ERR_MALFORMED_CONTAINER);

    // An unconverted HEIC names itself.
    let heic = b"\0\0\0\x18ftypheic\0\0\0\0mif1heic".to_vec();
    let (code, err) = failed(probe(&MemoryFile::new(heic)).unwrap_err());
    assert_eq!(code, ZOLAL_ERR_UNSUPPORTED_FORMAT);
    let message = err.message.unwrap();
    assert!(message.starts_with("HEIC"), "{message}");
}

#[test]
fn cancelling_through_the_handle_stops_the_work() {
    let handle = ZolalProgress(AtomicProgress::new());
    handle.0.cancel();
    let err = hide_one(&synth_mp4(), "big.bin", &vec![7u8; 512 * 1024], "pw", &handle.0).unwrap_err();
    assert_eq!(failed(err).0, ZOLAL_ERR_CANCELLED);
    assert_eq!(handle.0.snapshot().0, 0);
}

#[test]
fn every_error_has_its_code_and_detail() {
    let (code, detail) = failed(ZolalError::NoHiddenData {
        carrier_looks_reencoded: true,
    });
    assert_eq!(code, ZOLAL_ERR_NO_HIDDEN_DATA);
    assert!(detail.looks_reencoded);

    let (code, detail) = failed(ZolalError::PayloadTooLarge {
        output_size: 60,
        limit: 50,
        suggestion: CarrierFormat::Mp3,
    });
    assert_eq!(code, ZOLAL_ERR_PAYLOAD_TOO_LARGE);
    assert_eq!((detail.size, detail.limit, detail.suggestion), (60, 50, 3));
    assert!(detail.message.unwrap().starts_with("the result would be 60 bytes"));

    assert_eq!(failed(ZolalError::CarrierTooSmall).0, ZOLAL_ERR_CARRIER_TOO_SMALL);
    let (code, detail) = failed(ZolalError::CorruptBundle("no".to_string()));
    assert_eq!(code, ZOLAL_ERR_CORRUPT_BUNDLE);
    assert_eq!(detail.message.as_deref(), Some("payload bundle is corrupt: no"));
    assert_eq!(
        failed(ZolalError::InvalidRequest(String::new())).0,
        ZOLAL_ERR_INVALID_REQUEST
    );
    let (code, detail) = failed(ZolalError::Io(IoError::new(IoErrorKind::NotFound, "gone")));
    assert_eq!(code, ZOLAL_ERR_IO);
    assert_eq!(detail.message.as_deref(), Some("io error: gone"));
    assert_eq!(detail.suggestion, ZOLAL_FORMAT_MP4);

    let (code, detail) = describe_failure(Failure::Internal("null path".to_string()));
    assert_eq!(code, ZOLAL_ERR_INTERNAL);
    assert_eq!(detail.message.as_deref(), Some("null path"));
    // A C string cannot hold a NUL.
    let (_, detail) = describe_failure(Failure::Internal("a\0b".to_string()));
    assert_eq!(detail.message, None);
}

#[test]
fn techniques_come_back_from_their_codes() {
    for technique in [
        Technique::Auto,
        Technique::JpegTrailer,
        Technique::JpegApp15,
        Technique::Mp4FreeBox,
        Technique::PdfObject,
        Technique::Mp3Id3,
    ] {
        assert_eq!(technique_from(technique_code(technique)).unwrap(), technique);
    }
    let err = technique_from(6).unwrap_err();
    assert_eq!(err.message(), "invalid request: unknown technique code 6");
    assert_eq!(format_code(CarrierFormat::Pdf), 2);
    assert_eq!(verdict_code(Verdict::TooLarge), 3);
}

#[test]
fn temporary_names_are_generic() {
    assert_eq!(
        temp_name_from("reveal-", &[0, 1, 0x2a, 0xff]),
        ".reveal-00012aff.tmp"
    );
    let drawn = temp_name_of("hide-", Ok(vec![0xab, 0x0c])).unwrap();
    assert_eq!(drawn, ".hide-ab0c.tmp");
    let err = temp_name_of("hide-", Err("none left".to_string())).unwrap_err();
    assert_eq!(err.message(), "io error: OS random source failed: none left");
    let name = temp_name("").unwrap();
    assert_eq!(name.len(), 1 + 16 + 4);
    assert!(name.starts_with('.') && name.ends_with(".tmp"));
    assert_ne!(name, temp_name("").unwrap());
}

/// A file that is not there.
struct Missing;

impl ReadSeek for Missing {
    fn size(&self) -> Result<u64, IoError> {
        Err(IoError::new(IoErrorKind::NotFound, "/definitely/not/here.jpg"))
    }

    fn read_at(&self, _offset: u64, _max: usize) -> Result<Vec<u8>, IoError> {
        Err(IoError::new(IoErrorKind::NotFound, "/definitely/not/here.jpg"))
    }
}

#[test]
fn a_missing_file_is_an_io_error_with_a_message() {
    let (code, detail) = failed(probe(&Missing).unwrap_err());
    assert_eq!(code, ZOLAL_ERR_IO);
    assert!(detail.message.is_some());
}
