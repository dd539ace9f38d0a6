//! Errors, their texts, and their way through adapters.

use zolal_core::carrier::CarrierFormat;
use zolal_core::error::{IoError, IoErrorKind, ZolalError};

#[test]
fn wrapped_errors_survive_io_round_trip() {
    let back = ZolalError::from(ZolalError::DamagedPayload.into_io());
    assert!(matches!(back, ZolalError::DamagedPayload));

    let plain = ZolalError::from(IoError::new(IoErrorKind::NotFound, "x"));
    assert!(matches!(plain, ZolalError::Io(e) if e.kind() == IoErrorKind::NotFound));
}

#[test]
fn every_error_has_its_text() {
    for (error, text) in [
        (ZolalError::WrongPassphrase, "wrong passphrase"),
        (
            ZolalError::NoHiddenData {
                carrier_looks_reencoded: true,
            },
            "no hidden data found (carrier looks re-encoded: true)",
        ),
        (
            ZolalError::NoHiddenData {
                carrier_looks_reencoded: false,
            },
            "no hidden data found (carrier looks re-encoded: false)",
        ),
        (
            ZolalError::DamagedPayload,
            "the hidden data is damaged or incomplete",
        ),
        (
            ZolalError::UnsupportedFormat {
                detected: "unknown".to_string(),
            },
            "unsupported carrier format: unknown",
        ),
        (
            ZolalError::PayloadTooLarge {
                output_size: 60,
                limit: 50,
                suggestion: CarrierFormat::Mp4,
            },
            "the result would be 60 bytes, over the 50-byte limit for this carrier; use a MP4 carrier instead",
        ),
        (
            ZolalError::CarrierTooSmall,
            "carrier file is too small or truncated",
        ),
        (
            ZolalError::MalformedContainer {
                format: "JPEG",
                detail: "no".to_string(),
            },
            "malformed JPEG container: no",
        ),
        (
            ZolalError::CorruptBundle("no".to_string()),
            "payload bundle is corrupt: no",
        ),
        (
            ZolalError::InvalidRequest("no".to_string()),
            "invalid request: no",
        ),
        (ZolalError::Cancelled, "operation cancelled"),
    ] {
        assert_eq!(error.message(), text);
    }
    let wrapped = ZolalError::Io(ZolalError::Cancelled.into_io());
    assert_eq!(wrapped.message(), "io error: operation cancelled");
}
