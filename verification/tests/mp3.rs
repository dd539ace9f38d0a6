//! The MP3 carrier.

use zolal_core::carrier::mp3::{synchsafe, to_synchsafe, Mp3Carrier, MAX_TAG_BODY};
use zolal_core::carrier::Carrier;
use zolal_core::error::{IoError, IoErrorKind, ZolalError};
use zolal_core::io::ReadSeek;
use zolal_core::probe::{describe, detect};
use zolal_core::carrier::CarrierFormat;

#[test]
fn probe_accepts_mp3_and_rejects_lookalikes() {
    assert!(Mp3Carrier::probe(b"ID3\x03\x00\x00\x00\x00\x00\x00"));
    assert!(Mp3Carrier::probe(&[0xFF, 0xFB, 0x90, 0x00])); // MPEG-1 L3 128k 44.1k
    assert!(Mp3Carrier::probe(&[0xFF, 0xF3, 0x64, 0x00])); // MPEG-2 L3
    assert!(!Mp3Carrier::probe(&[0xFF, 0xD8, 0xFF, 0xE0])); // JPEG
    assert!(!Mp3Carrier::probe(&[0xFF, 0xF1, 0x50, 0x80])); // ADTS AAC
    assert!(!Mp3Carrier::probe(&[0xFF, 0xFB, 0xF0, 0x00])); // bad bitrate
    assert!(!Mp3Carrier::probe(b"ID3\x09"));
    assert!(!Mp3Carrier::probe(b"%PDF-1.7"));
}

#[test]
fn synchsafe_roundtrips() {
    for n in [0, 1, 127, 128, 0x0123_4567, MAX_TAG_BODY] {
        assert_eq!(synchsafe(&to_synchsafe(n)), Some(n));
    }
    assert_eq!(synchsafe(&[0x80, 0, 0, 0]), None);
}

#[test]
fn formats_are_told_apart_by_their_first_bytes() {
    assert_eq!(detect(&[0xFF, 0xD8, 0xFF, 0xE0]), Some(CarrierFormat::Jpeg));
    assert_eq!(detect(b"\0\0\0\x18ftypisom"), Some(CarrierFormat::Mp4));
    assert_eq!(detect(b"%PDF-1.7"), Some(CarrierFormat::Pdf));
    assert_eq!(detect(b"ID3\x04\0\0\0\0\0\0"), Some(CarrierFormat::Mp3));
    for (head, text) in [
        (
            &b"\0\0\0\x18ftypheic\0\0\0\0"[..],
            "HEIC (should be converted to JPEG first)",
        ),
        (
            &b"\0\0\0\x18ftypavif\0\0\0\0"[..],
            "AVIF (should be converted to JPEG first)",
        ),
        (
            &b"\0\0\0\x18ftypqt  \0\0\0\0"[..],
            "MOV/QuickTime (should be remuxed to MP4 first)",
        ),
        (&b"\0\0\0\x08ftyp"[..], "unrecognised ISOBMFF brand"),
        (&b"\x89PNG\r\n\x1a\n"[..], "PNG (not a supported carrier)"),
        (&b"hello"[..], "unknown"),
    ] {
        assert_eq!(detect(head), None, "{text}");
        assert_eq!(describe(head), text);
    }
}

/// A file whose reads fail beyond some offset, as if it had been cut off.
struct Cut(Vec<u8>, u64);

impl ReadSeek for Cut {
    fn size(&self) -> Result<u64, IoError> {
        Ok(self.0.len() as u64)
    }

    fn read_at(&self, offset: u64, max: usize) -> Result<Vec<u8>, IoError> {
        if offset + max as u64 > self.1 {
            return Err(IoError::new(IoErrorKind::UnexpectedEof, "cut off"));
        }
        let from = offset as usize;
        Ok(self.0[from..self.0.len().min(from + max)].to_vec())
    }
}

#[test]
fn a_song_that_is_cut_off_meanwhile_is_malformed() {
    let src = Cut(b"ID3\x03\0\0\0\0\0\x20TIT2\0\0\0\x04\0\0\0abcAAAAAAAAAAAAAAAAAAAAAAAAAAAAAAAA".to_vec(), 12);
    let err = Mp3Carrier.candidate_regions(&src).unwrap_err();
    assert!(matches!(err, ZolalError::MalformedContainer { .. }), "{err:?}");
}
