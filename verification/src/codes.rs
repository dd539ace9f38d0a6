//! The numbers that stand for formats, techniques, verdicts and errors where the library is called
//! across a C interface, and what such a call hands back.

use crate::carrier::{CarrierFormat, Technique};
use crate::error::{fault_text, Fault, ZolalError};
use crate::ops::{CarrierInfo, CleanReport, Verdict};
use crate::progress::AtomicProgress;
use crate::text::{append_decimal, decimal_text};
use vstd::prelude::*;

verus! {

/// The call succeeded.
pub const ZOLAL_OK: i32 = 0;

/// A region that could hold a payload exists, but the passphrase did not authenticate it.
pub const ZOLAL_ERR_WRONG_PASSPHRASE: i32 = 1;

/// No hidden payload at all.
pub const ZOLAL_ERR_NO_HIDDEN_DATA: i32 = 2;

/// The passphrase was right but the payload is damaged or truncated. Nothing was written.
pub const ZOLAL_ERR_DAMAGED_PAYLOAD: i32 = 3;

/// Not a carrier. The message names what was detected.
pub const ZOLAL_ERR_UNSUPPORTED_FORMAT: i32 = 4;

/// The result would exceed the carrier format's size limit.
pub const ZOLAL_ERR_PAYLOAD_TOO_LARGE: i32 = 5;

/// The carrier is too small or truncated to be a valid file of its type.
pub const ZOLAL_ERR_CARRIER_TOO_SMALL: i32 = 6;

/// The container is structurally invalid.
pub const ZOLAL_ERR_MALFORMED_CONTAINER: i32 = 7;

/// The payload authenticated but its framing is invalid: a version mismatch or a bug.
pub const ZOLAL_ERR_CORRUPT_BUNDLE: i32 = 8;

/// The request itself was impossible: no payloads, a technique that does not fit, and so on.
pub const ZOLAL_ERR_INVALID_REQUEST: i32 = 9;

/// Cancelled through the progress handle. Nothing was left behind.
pub const ZOLAL_ERR_CANCELLED: i32 = 10;

/// A filesystem error.
pub const ZOLAL_ERR_IO: i32 = 11;

/// A null pointer, invalid UTF-8 where text was required, or a panic. Always a bug, never the user's.
pub const ZOLAL_ERR_INTERNAL: i32 = 12;

/// JPEG carrier.
pub const ZOLAL_FORMAT_JPEG: u8 = 0;

/// MP4 carrier.
pub const ZOLAL_FORMAT_MP4: u8 = 1;

/// PDF carrier.
pub const ZOLAL_FORMAT_PDF: u8 = 2;

/// MP3 carrier.
pub const ZOLAL_FORMAT_MP3: u8 = 3;

/// Let the library pick the default technique for the detected format.
pub const ZOLAL_TECHNIQUE_AUTO: u8 = 0;

/// Append after the JPEG end-of-image marker (the JPEG default).
pub const ZOLAL_TECHNIQUE_JPEG_TRAILER: u8 = 1;

/// Store across JPEG APP15 metadata segments.
pub const ZOLAL_TECHNIQUE_JPEG_APP15: u8 = 2;

/// Append an MP4 `free` box (the MP4 default).
pub const ZOLAL_TECHNIQUE_MP4_FREE_BOX: u8 = 3;

/// Append an unreferenced PDF stream object (the PDF default).
pub const ZOLAL_TECHNIQUE_PDF_OBJECT: u8 = 4;

/// Add a `PRIV` frame to the MP3's ID3v2 tag (the MP3 default).
pub const ZOLAL_TECHNIQUE_MP3_ID3: u8 = 5;

/// Growth is unremarkable for this kind of file.
pub const ZOLAL_VERDICT_NATURAL: u8 = 0;

/// Noticeably larger than expected, but not absurd.
pub const ZOLAL_VERDICT_NOTICEABLE: u8 = 1;

/// So large it invites the question; suggest a bigger carrier.
pub const ZOLAL_VERDICT_SUSPICIOUS: u8 = 2;

/// Over the hard limit: hiding will be refused. Suggest a video carrier.
pub const ZOLAL_VERDICT_TOO_LARGE: u8 = 3;

/// The number of a format.
pub open spec fn format_number(format: CarrierFormat) -> u8 {
    match format {
        CarrierFormat::Jpeg => ZOLAL_FORMAT_JPEG,
        CarrierFormat::Mp4 => ZOLAL_FORMAT_MP4,
        CarrierFormat::Pdf => ZOLAL_FORMAT_PDF,
        CarrierFormat::Mp3 => ZOLAL_FORMAT_MP3,
    }
}

/// The number of a format.
pub fn format_code(format: CarrierFormat) -> (r: u8)
    ensures
        r == format_number(format),
{
    match format {
        CarrierFormat::Jpeg => ZOLAL_FORMAT_JPEG,
        CarrierFormat::Mp4 => ZOLAL_FORMAT_MP4,
        CarrierFormat::Pdf => ZOLAL_FORMAT_PDF,
        CarrierFormat::Mp3 => ZOLAL_FORMAT_MP3,
    }
}

/// The number of a technique.
pub open spec fn technique_number(technique: Technique) -> u8 {
    match technique {
        Technique::Auto => ZOLAL_TECHNIQUE_AUTO,
        Technique::JpegTrailer => ZOLAL_TECHNIQUE_JPEG_TRAILER,
        Technique::JpegApp15 => ZOLAL_TECHNIQUE_JPEG_APP15,
        Technique::Mp4FreeBox => ZOLAL_TECHNIQUE_MP4_FREE_BOX,
        Technique::PdfObject => ZOLAL_TECHNIQUE_PDF_OBJECT,
        Technique::Mp3Id3 => ZOLAL_TECHNIQUE_MP3_ID3,
    }
}

/// The number of a technique.
pub fn technique_code(technique: Technique) -> (r: u8)
    ensures
        r == technique_number(technique),
{
    match technique {
        Technique::Auto => ZOLAL_TECHNIQUE_AUTO,
        Technique::JpegTrailer => ZOLAL_TECHNIQUE_JPEG_TRAILER,
        Technique::JpegApp15 => ZOLAL_TECHNIQUE_JPEG_APP15,
        Technique::Mp4FreeBox => ZOLAL_TECHNIQUE_MP4_FREE_BOX,
        Technique::PdfObject => ZOLAL_TECHNIQUE_PDF_OBJECT,
        Technique::Mp3Id3 => ZOLAL_TECHNIQUE_MP3_ID3,
    }
}

/// The technique of a number.
pub fn technique_from(code: u8) -> (r: Result<Technique, ZolalError>)
    ensures
        match r {
            Ok(technique) => technique_number(technique) == code,
            Err(e) => {
                &&& code > ZOLAL_TECHNIQUE_MP3_ID3
                &&& e@ == Fault::InvalidRequest("unknown technique code "@ + decimal_text(code as nat))
            },
        },
{
    if code == ZOLAL_TECHNIQUE_AUTO {
        Ok(Technique::Auto)
    } else if code == ZOLAL_TECHNIQUE_JPEG_TRAILER {
        Ok(Technique::JpegTrailer)
    } else if code == ZOLAL_TECHNIQUE_JPEG_APP15 {
        Ok(Technique::JpegApp15)
    } else if code == ZOLAL_TECHNIQUE_MP4_FREE_BOX {
        Ok(Technique::Mp4FreeBox)
    } else if code == ZOLAL_TECHNIQUE_PDF_OBJECT {
        Ok(Technique::PdfObject)
    } else if code == ZOLAL_TECHNIQUE_MP3_ID3 {
        Ok(Technique::Mp3Id3)
    } else {
        let mut text = "unknown technique code ".to_owned();
        append_decimal(&mut text, code as u64);
        Err(ZolalError::InvalidRequest(text))
    }
}

/// No two techniques have the same number, and no two formats.
pub proof fn codes_are_distinct(a: Technique, b: Technique, x: CarrierFormat, y: CarrierFormat)
    ensures
        technique_number(a) == technique_number(b) ==> a == b,
        format_number(x) == format_number(y) ==> x == y,
{
}

/// The number of a verdict.
pub open spec fn verdict_number(verdict: Verdict) -> u8 {
    match verdict {
        Verdict::Natural => ZOLAL_VERDICT_NATURAL,
        Verdict::Noticeable => ZOLAL_VERDICT_NOTICEABLE,
        Verdict::Suspicious => ZOLAL_VERDICT_SUSPICIOUS,
        Verdict::TooLarge => ZOLAL_VERDICT_TOO_LARGE,
    }
}

/// The number of a verdict.
pub fn verdict_code(verdict: Verdict) -> (r: u8)
    ensures
        r == verdict_number(verdict),
{
    match verdict {
        Verdict::Natural => ZOLAL_VERDICT_NATURAL,
        Verdict::Noticeable => ZOLAL_VERDICT_NOTICEABLE,
        Verdict::Suspicious => ZOLAL_VERDICT_SUSPICIOUS,
        Verdict::TooLarge => ZOLAL_VERDICT_TOO_LARGE,
    }
}

/// Detail for a failed call. Empty unless the code says otherwise.
#[derive(Debug)]
pub struct ZolalErrorDetail {
    /// A human-readable message, if there is one.
    pub message: Option<String>,
    /// For [`ZOLAL_ERR_NO_HIDDEN_DATA`]: whether the carrier looks re-encoded, which means telling the
    /// user to ask for the file again, sent as a file rather than as a photo.
    pub looks_reencoded: bool,
    /// For [`ZOLAL_ERR_PAYLOAD_TOO_LARGE`]: what the output would have weighed.
    pub size: u64,
    /// For [`ZOLAL_ERR_PAYLOAD_TOO_LARGE`]: the limit it exceeded.
    pub limit: u64,
    /// For [`ZOLAL_ERR_PAYLOAD_TOO_LARGE`]: the carrier format to suggest instead.
    pub suggestion: u8,
}

impl Default for ZolalErrorDetail {
    fn default() -> (r: Self)
        ensures
            r.message is None,
            !r.looks_reencoded,
            r.size == 0,
            r.limit == 0,
            r.suggestion == ZOLAL_FORMAT_MP4,
    {
        ZolalErrorDetail {
            message: None,
            looks_reencoded: false,
            size: 0,
            limit: 0,
            suggestion: ZOLAL_FORMAT_MP4,
        }
    }
}

/// What a probe learned about a file.
#[derive(Debug, Clone, Copy, PartialEq, Eq, Structural)]
pub struct ZolalProbe {
    /// One of the `ZOLAL_FORMAT_*` values.
    pub format: u8,
    /// Size on disk.
    pub file_size: u64,
    /// Whether a region exists that *could* hold hidden data. Never proof: only a passphrase can confirm.
    pub has_candidate_region: bool,
}

/// What a probe learned, in numbers.
pub fn probe_out(info: &CarrierInfo) -> (r: ZolalProbe)
    ensures
        r == (ZolalProbe {
            format: format_number(info.format),
            file_size: info.file_size,
            has_candidate_region: info.has_candidate_region,
        }),
{
    ZolalProbe {
        format: format_code(info.format),
        file_size: info.file_size,
        has_candidate_region: info.has_candidate_region,
    }
}

/// What a clean wrote.
#[derive(Debug, Clone, Copy, PartialEq, Eq, Structural)]
pub struct ZolalCleanReport {
    /// Size of the cleaned file.
    pub output_size: u64,
    /// How many bytes the carrier shed.
    pub removed_bytes: u64,
    /// One of the `ZOLAL_TECHNIQUE_*` values: where the payload had been.
    pub technique: u8,
}

/// What a clean wrote, in numbers.
pub fn clean_out(report: &CleanReport) -> (r: ZolalCleanReport)
    ensures
        r == (ZolalCleanReport {
            output_size: report.output_size,
            removed_bytes: report.removed_bytes,
            technique: technique_number(report.technique),
        }),
{
    ZolalCleanReport {
        output_size: report.output_size,
        removed_bytes: report.removed_bytes,
        technique: technique_code(report.technique),
    }
}

/// Progress and cancellation handle.
///
/// Safe to read from one thread while the operation runs on another: the counters are atomics.
pub struct ZolalProgress(pub AtomicProgress);

/// Why a call failed: something the library reported, or a caller's bug on the boundary (a null pointer,
/// text that is not UTF-8, a panic). The two are kept apart so that a mistake in the calling layer never
/// looks to the user like a disk problem.
#[derive(Debug)]
pub enum Failure {
    /// What the library reported.
    Core(ZolalError),
    /// What went wrong on the boundary.
    Internal(String),
}

/// A text as a C string can hold it: not at all if there is a NUL character in it.
pub open spec fn c_text(text: Seq<char>) -> Option<Seq<char>> {
    if text.contains('\0') {
        None
    } else {
        Some(text)
    }
}

/// The characters of a message, if there is one.
pub open spec fn message_of(message: Option<String>) -> Option<Seq<char>> {
    match message {
        Some(text) => Some(text@),
        None => None,
    }
}

/// A text as a C string can hold it.
fn c_message(text: String) -> (r: Option<String>)
    ensures
        message_of(r) == c_text(text@),
{
    let mut nul = false;
    let n: usize = text.as_str().unicode_len();
    let mut i: usize = 0;
    while i < n
        invariant
            i <= n,
            n == text@.len(),
            !nul,
            forall|k: int| 0 <= k < i ==> text@[k] != '\0',
        decreases n - i,
    {
        if text.as_str().get_char(i) == '\0' {
            assert(text@[i as int] == '\0');
            return None;
        }
        i = i + 1;
    }
    Some(text)
}

/// The status code of an error.
pub open spec fn status(fault: Fault) -> i32 {
    match fault {
        Fault::WrongPassphrase => ZOLAL_ERR_WRONG_PASSPHRASE,
        Fault::NoHiddenData { .. } => ZOLAL_ERR_NO_HIDDEN_DATA,
        Fault::DamagedPayload => ZOLAL_ERR_DAMAGED_PAYLOAD,
        Fault::UnsupportedFormat { .. } => ZOLAL_ERR_UNSUPPORTED_FORMAT,
        Fault::PayloadTooLarge { .. } => ZOLAL_ERR_PAYLOAD_TOO_LARGE,
        Fault::CarrierTooSmall => ZOLAL_ERR_CARRIER_TOO_SMALL,
        Fault::MalformedContainer { .. } => ZOLAL_ERR_MALFORMED_CONTAINER,
        Fault::CorruptBundle(_) => ZOLAL_ERR_CORRUPT_BUNDLE,
        Fault::InvalidRequest(_) => ZOLAL_ERR_INVALID_REQUEST,
        Fault::Cancelled => ZOLAL_ERR_CANCELLED,
        Fault::Io { .. } => ZOLAL_ERR_IO,
    }
}

/// The message that goes with an error, where one does.
pub open spec fn detail_text(fault: Fault) -> Option<Seq<char>> {
    match fault {
        Fault::UnsupportedFormat { detected } => c_text(detected),
        Fault::PayloadTooLarge { .. } | Fault::MalformedContainer { .. } | Fault::CorruptBundle(_)
        | Fault::InvalidRequest(_) | Fault::Io { .. } => c_text(fault_text(fault)),
        _ => None,
    }
}

/// A detail that says everything there is to say of an error.
pub open spec fn details(d: ZolalErrorDetail, fault: Fault) -> bool {
    &&& message_of(d.message) == detail_text(fault)
    &&& d.looks_reencoded == (fault matches Fault::NoHiddenData { carrier_looks_reencoded: true })
    &&& match fault {
        Fault::PayloadTooLarge { output_size, limit, suggestion } => d.size == output_size && d.limit
            == limit && d.suggestion == format_number(suggestion),
        _ => d.size == 0 && d.limit == 0 && d.suggestion == ZOLAL_FORMAT_MP4,
    }
}

fn bare() -> (r: ZolalErrorDetail)
    ensures
        r == (ZolalErrorDetail {
            message: None,
            looks_reencoded: false,
            size: 0,
            limit: 0,
            suggestion: ZOLAL_FORMAT_MP4,
        }),
{
    ZolalErrorDetail {
        message: None,
        looks_reencoded: false,
        size: 0,
        limit: 0,
        suggestion: ZOLAL_FORMAT_MP4,
    }
}

fn worded(text: String) -> (r: ZolalErrorDetail)
    ensures
        message_of(r.message) == c_text(text@),
        !r.looks_reencoded,
        r.size == 0,
        r.limit == 0,
        r.suggestion == ZOLAL_FORMAT_MP4,
{
    ZolalErrorDetail {
        message: c_message(text),
        looks_reencoded: false,
        size: 0,
        limit: 0,
        suggestion: ZOLAL_FORMAT_MP4,
    }
}

/// Map a failure onto its status code and detail.
pub fn describe_failure(failure: Failure) -> (r: (i32, ZolalErrorDetail))
    ensures
        match failure {
            Failure::Core(e) => r.0 == status(e@) && details(r.1, e@),
            Failure::Internal(text) => {
                &&& r.0 == ZOLAL_ERR_INTERNAL
                &&& message_of(r.1.message) == c_text(text@)
                &&& !r.1.looks_reencoded
                &&& r.1.size == 0
                &&& r.1.limit == 0
                &&& r.1.suggestion == ZOLAL_FORMAT_MP4
            },
        },
{
    let error = match failure {
        Failure::Core(error) => error,
        Failure::Internal(text) => {
            return (ZOLAL_ERR_INTERNAL, worded(text));
        },
    };
    let text = error.message();
    match error {
        ZolalError::WrongPassphrase => (ZOLAL_ERR_WRONG_PASSPHRASE, bare()),
        ZolalError::NoHiddenData { carrier_looks_reencoded } => {
            let mut detail = bare();
            detail.looks_reencoded = carrier_looks_reencoded;
            (ZOLAL_ERR_NO_HIDDEN_DATA, detail)
        },
        ZolalError::DamagedPayload => (ZOLAL_ERR_DAMAGED_PAYLOAD, bare()),
        ZolalError::PayloadTooLarge { output_size, limit, suggestion } => {
            let mut detail = worded(text);
            detail.size = output_size;
            detail.limit = limit;
            detail.suggestion = format_code(suggestion);
            (ZOLAL_ERR_PAYLOAD_TOO_LARGE, detail)
        },
        ZolalError::UnsupportedFormat { detected } => (ZOLAL_ERR_UNSUPPORTED_FORMAT, worded(detected)),
        ZolalError::CarrierTooSmall => (ZOLAL_ERR_CARRIER_TOO_SMALL, bare()),
        ZolalError::Cancelled => (ZOLAL_ERR_CANCELLED, bare()),
        ZolalError::MalformedContainer { .. } => (ZOLAL_ERR_MALFORMED_CONTAINER, worded(text)),
        ZolalError::CorruptBundle(_) => (ZOLAL_ERR_CORRUPT_BUNDLE, worded(text)),
        ZolalError::InvalidRequest(_) => (ZOLAL_ERR_INVALID_REQUEST, worded(text)),
        ZolalError::Io(_) => (ZOLAL_ERR_IO, worded(text)),
    }
}

/// Different kinds of error have different status codes, none of which says that all went well.
pub proof fn statuses_tell_errors_apart(a: Fault, b: Fault)
    ensures
        status(a) != ZOLAL_OK,
        status(a) != ZOLAL_ERR_INTERNAL,
        status(a) == ZOLAL_ERR_WRONG_PASSPHRASE <==> a is WrongPassphrase,
        status(a) == ZOLAL_ERR_NO_HIDDEN_DATA <==> a is NoHiddenData,
        status(a) == ZOLAL_ERR_DAMAGED_PAYLOAD <==> a is DamagedPayload,
        status(a) == status(b) && a is UnsupportedFormat ==> b is UnsupportedFormat,
        status(a) == status(b) && a is PayloadTooLarge ==> b is PayloadTooLarge,
        status(a) == status(b) && a is CarrierTooSmall ==> b is CarrierTooSmall,
        status(a) == status(b) && a is MalformedContainer ==> b is MalformedContainer,
        status(a) == status(b) && a is CorruptBundle ==> b is CorruptBundle,
        status(a) == status(b) && a is InvalidRequest ==> b is InvalidRequest,
        status(a) == status(b) && a is Cancelled ==> b is Cancelled,
        status(a) == status(b) && a is Io ==> b is Io,
{
}

} // verus!
