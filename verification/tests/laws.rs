//! The promises of the whole library, on concrete values.

use zolal_core::carrier::{CarrierFormat, Technique};
use zolal_core::codes::{format_code, technique_code};
use zolal_core::crypto::kdf::KdfParams;
use zolal_core::crypto::region_len;
use zolal_core::error::ZolalError;
use zolal_core::io::{MemoryFile, RegionReader};
use zolal_core::ops::{
    bigger_carrier, choose_technique, clean, find_hidden, labels_of, plan_hide, plausibility, probe, reveal_files,
    sniff, verdict, write_hidden_with, HidePlan, Verdict, JPEG_MAX_OUTPUT,
};
use zolal_core::payload::bundle::{MemoryFolder, MemoryPayloads, PayloadFile};
use zolal_core::progress::{AtomicProgress, NoProgress};
use zolal_core::size_limit;

const FAST: KdfParams = KdfParams {
    memory_kib: 8,
    iterations: 1,
    parallelism: 1,
};

fn boxed(kind: &[u8; 4], body: &[u8]) -> Vec<u8> {
    let mut out = ((8 + body.len()) as u32).to_be_bytes().to_vec();
    out.extend_from_slice(kind);
    out.extend_from_slice(body);
    out
}

fn video() -> Vec<u8> {
    [
        boxed(b"ftyp", b"isom\0\0\x02\0isomiso2"),
        boxed(b"mdat", &[0x11; 400]),
    ]
    .concat()
}

fn files() -> (Vec<PayloadFile>, MemoryPayloads) {
    let contents = vec![b"one".to_vec(), vec![7u8; 70_000]];
    let described = ["a.txt", "b.bin"]
        .iter()
        .zip(&contents)
        .map(|(name, bytes)| PayloadFile {
            label: format!("in/{name}"),
            name: Some(name.to_string()),
            is_file: true,
            len: bytes.len() as u64,
        })
        .collect();
    (described, MemoryPayloads { files: contents })
}

fn planned(carrier: &MemoryFile, described: &Vec<PayloadFile>) -> HidePlan {
    plan_hide(carrier, Technique::Auto, described, Some(FAST)).unwrap()
}

fn hidden(carrier: &[u8], preamble: Vec<u8>) -> Vec<u8> {
    let src = MemoryFile::new(carrier.to_vec());
    let (described, payloads) = files();
    let mut out = Vec::new();
    let n = write_hidden_with(
        &src,
        planned(&src, &described),
        labels_of(&described),
        &payloads,
        &mut out,
        preamble,
        "pw",
        &NoProgress,
    )
    .unwrap();
    assert_eq!(n, out.len() as u64);
    out
}

#[test]
fn a_plan_knows_every_size() {
    let src = MemoryFile::new(video());
    let (described, _) = files();
    let p = planned(&src, &described);
    assert_eq!(p.format, CarrierFormat::Mp4);
    assert_eq!(p.technique, Technique::Mp4FreeBox);
    assert_eq!(p.bundle_len, p.manifest.bundle_len());
    assert_eq!(p.region_len, region_len(p.bundle_len));
    assert_eq!(p.expected_size, video().len() as u64 + 8 + p.region_len);
    assert_eq!(
        hidden(&video(), vec![1; 35]).len() as u64,
        p.expected_size
    );
}

#[test]
fn the_preamble_decides_every_byte() {
    let one = hidden(&video(), vec![1; 35]);
    assert_eq!(one, hidden(&video(), vec![1; 35]));
    let two = hidden(&video(), vec![2; 35]);
    assert_ne!(one, two);
    // The region begins with the preamble, right behind the box header.
    let at = video().len() + 8;
    assert_eq!(one[at..at + 35], [1; 35]);
    assert_ne!(one[at + 35..], two[at + 35..]);
}

#[test]
fn what_is_hidden_is_found_and_revealed() {
    let stego = MemoryFile::new(hidden(&video(), vec![3; 35]));
    let info = probe(&stego).unwrap();
    assert_eq!(info.format, CarrierFormat::Mp4);
    assert!(info.has_candidate_region);

    let (format, (technique, opened)) = find_hidden(&stego, "pw", Some(FAST), &NoProgress).unwrap();
    assert_eq!(format, CarrierFormat::Mp4);
    assert_eq!(technique, Technique::Mp4FreeBox);
    assert_eq!(opened.header().to_bytes(), [1, 1]);

    let mut folder = MemoryFolder::new();
    let report = reveal_files(&stego, &mut folder, "pw", Some(FAST), &NoProgress).unwrap();
    assert_eq!(report.files, ["a.txt", "b.bin"]);
    assert_eq!(report.names, report.files);
    assert_eq!(report.total_bytes, 70_003);
    assert_eq!(folder.files[0].1, b"one");
    assert_eq!(folder.files[1].1, vec![7u8; 70_000]);
}

#[test]
fn cleaning_undoes_hiding_on_a_video() {
    let stego = hidden(&video(), vec![4; 35]);
    let mut out = Vec::new();
    let report = clean(
        &MemoryFile::new(stego.clone()),
        &mut out,
        "pw",
        Some(FAST),
        &NoProgress,
    )
    .unwrap();
    assert_eq!(out, video());
    assert_eq!(report.removed_bytes, (stego.len() - video().len()) as u64);
    assert_eq!(report.technique, Technique::Mp4FreeBox);
}

#[test]
fn hiding_twice_is_hiding_once() {
    let first = hidden(&video(), vec![5; 35]);
    assert_eq!(hidden(&first, vec![6; 35]), hidden(&video(), vec![6; 35]));
}

#[test]
fn a_technique_must_fit_the_format() {
    let src = MemoryFile::new(video());
    assert_eq!(sniff(&src).unwrap(), CarrierFormat::Mp4);
    assert_eq!(
        choose_technique(&src, Technique::Auto).unwrap(),
        (CarrierFormat::Mp4, Technique::Mp4FreeBox)
    );
    let err = choose_technique(&src, Technique::JpegApp15).unwrap_err();
    assert_eq!(
        err.message(),
        "invalid request: JpegApp15 can't be used on a MP4 carrier"
    );
    for format in [
        CarrierFormat::Jpeg,
        CarrierFormat::Mp4,
        CarrierFormat::Pdf,
        CarrierFormat::Mp3,
    ] {
        assert_eq!(Technique::Auto.resolve(format).format(), Some(format));
        assert_eq!(bigger_carrier(format), CarrierFormat::Mp4);
        assert_eq!(
            size_limit(format),
            if format == CarrierFormat::Jpeg {
                Some(JPEG_MAX_OUTPUT)
            } else {
                None
            }
        );
    }
}

#[test]
fn verdicts_follow_size_and_growth() {
    let mib = 1024 * 1024;
    let jpeg = |size: u64, s: bool, n: bool| verdict(CarrierFormat::Jpeg, size, s, n);
    assert_eq!(jpeg(12 * mib, false, false), Verdict::Natural);
    assert_eq!(jpeg(12 * mib + 1, false, false), Verdict::Noticeable);
    assert_eq!(jpeg(25 * mib, false, false), Verdict::Noticeable);
    assert_eq!(jpeg(25 * mib + 1, false, false), Verdict::Suspicious);
    assert_eq!(jpeg(50 * mib, false, false), Verdict::Suspicious);
    assert_eq!(jpeg(50 * mib + 1, false, false), Verdict::TooLarge);
    assert_eq!(jpeg(1, false, true), Verdict::Noticeable);
    assert_eq!(jpeg(1, true, true), Verdict::Suspicious);
    let mp4 = |s: bool, n: bool| verdict(CarrierFormat::Mp4, 1 << 40, s, n);
    assert_eq!(mp4(false, false), Verdict::Natural);
    assert_eq!(mp4(true, true), Verdict::Suspicious);
}

#[test]
fn codes_differ() {
    assert_ne!(
        technique_code(Technique::JpegTrailer),
        technique_code(Technique::JpegApp15)
    );
    assert_ne!(
        format_code(CarrierFormat::Jpeg),
        format_code(CarrierFormat::Mp3)
    );
}

#[test]
fn a_payload_beyond_all_limits_is_refused() {
    let src = MemoryFile::new(video());
    for len in [1 << 62, u64::MAX] {
        let described = vec![PayloadFile {
            label: "huge".to_string(),
            name: Some("huge".to_string()),
            is_file: true,
            len,
        }];
        let r = plan_hide(&src, Technique::Auto, &described, None);
        match r {
            Ok(p) => assert!(p.bundle_len > len),
            Err(e) => assert_eq!(
                e.message(),
                "invalid request: payload too large for one envelope (over 256 TiB)"
            ),
        }
    }
}

#[test]
fn sizes_that_no_file_has_are_still_predicted() {
    let src = MemoryFile::new(video());
    let p = plausibility(&src, 1 << 63).unwrap();
    // A box of 2^63 bytes and more needs the long header.
    assert_eq!(p.result_size, video().len() as u64 + 16 + region_len(1 << 63));
    let described = vec![PayloadFile {
        label: "huge".to_string(),
        name: Some("huge".to_string()),
        is_file: true,
        len: 1 << 63,
    }];
    let err = plan_hide(&src, Technique::Auto, &described, None).unwrap_err();
    assert!(matches!(err, ZolalError::InvalidRequest(_)));
}

#[test]
fn costs_that_cannot_be_met_are_refused_before_memory_is_asked_for() {
    let stego = MemoryFile::new(hidden(&video(), vec![3; 35]));
    let bad = KdfParams { iterations: 0, ..FAST };
    let mut folder = MemoryFolder::new();
    let err = reveal_files(&stego, &mut folder, "pw", Some(bad), &NoProgress).unwrap_err();
    assert!(matches!(err, ZolalError::InvalidRequest(_)));
    assert!(folder.files.is_empty());
}

#[test]
fn a_carrier_without_a_place_to_look_holds_nothing() {
    let plain = MemoryFile::new(video());
    let err = find_hidden(&plain, "pw", Some(FAST), &NoProgress).err().unwrap();
    assert!(matches!(err, ZolalError::NoHiddenData { carrier_looks_reencoded: false }));
    let mut out = Vec::new();
    let err = zolal_core::clean(&plain, &mut out, "pw", Some(FAST), &NoProgress).unwrap_err();
    assert!(matches!(err, ZolalError::NoHiddenData { .. }));
    assert!(out.is_empty());
    // Being asked to stop makes no difference where nothing would have been tried.
    let stop = AtomicProgress::new();
    stop.cancel();
    let err = find_hidden(&plain, "pw", Some(FAST), &stop).err().unwrap();
    assert!(matches!(err, ZolalError::NoHiddenData { .. }));
    let stego = MemoryFile::new(hidden(&video(), vec![3; 35]));
    let err = find_hidden(&stego, "pw", Some(FAST), &stop).err().unwrap();
    assert!(matches!(err, ZolalError::Cancelled));
}

#[test]
fn regions_are_read_in_parts() {
    let src = MemoryFile::new(b"abcdefgh".to_vec());
    let mut reader = RegionReader::new(&src, vec![(6, 2), (0, 3)]);
    let mut out = Vec::new();
    zolal_core::io::copy_all(&mut reader, &mut out).unwrap();
    assert_eq!(out, b"ghabc");
    assert!(matches!(
        ZolalError::from(ZolalError::Cancelled.into_io()),
        ZolalError::Cancelled
    ));
}
