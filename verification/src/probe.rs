//! Format sniffing by magic bytes.
//!
//! Extensions are not trusted: users rename files, and chat apps rewrite names freely.

use crate::carrier::jpeg::JpegCarrier;
use crate::carrier::mp3::Mp3Carrier;
use crate::carrier::mp4::{
    avif_brand, begins_ftyp, heif_brand, is_avif_brand, is_heif_brand, is_quicktime_brand,
    quicktime_brand, starts_ftyp, Mp4Carrier,
};
use crate::carrier::pdf::PdfCarrier;
use crate::carrier::{Carrier, CarrierFormat};
use vstd::prelude::*;

verus! {

/// Bytes needed to identify any format.
pub const PROBE_LEN: usize = 16;

/// What [`detect`] returns.
pub open spec fn detected(head: Seq<u8>) -> Option<CarrierFormat> {
    if JpegCarrier::recognised(head) {
        Some(CarrierFormat::Jpeg)
    } else if Mp4Carrier::recognised(head) {
        Some(CarrierFormat::Mp4)
    } else if PdfCarrier::recognised(head) {
        Some(CarrierFormat::Pdf)
    } else if Mp3Carrier::recognised(head) {
        Some(CarrierFormat::Mp3)
    } else {
        None
    }
}

/// Identify a carrier format from the first bytes of a file.
///
/// Returns `None` for anything unsupported, including HEIC and MOV.
pub fn detect(head: &[u8]) -> (r: Option<CarrierFormat>)
    ensures
        r == detected(head@),
{
    if JpegCarrier::probe(head) {
        Some(CarrierFormat::Jpeg)
    } else if Mp4Carrier::probe(head) {
        Some(CarrierFormat::Mp4)
    } else if PdfCarrier::probe(head) {
        Some(CarrierFormat::Pdf)
    } else if Mp3Carrier::probe(head) {
        Some(CarrierFormat::Mp3)
    } else {
        None
    }
}

/// The brand of an ISOBMFF file, or nothing where the file is too short to have one.
pub open spec fn brand_of(head: Seq<u8>) -> Seq<u8> {
    if head.len() >= 12 {
        head.subrange(8, 12)
    } else {
        Seq::empty()
    }
}

/// What [`describe`] returns.
pub open spec fn description(head: Seq<u8>) -> Seq<char> {
    if starts_ftyp(head) {
        let brand = brand_of(head);
        if heif_brand(brand) {
            "HEIC (should be converted to JPEG first)"@
        } else if avif_brand(brand) {
            "AVIF (should be converted to JPEG first)"@
        } else if quicktime_brand(brand) {
            "MOV/QuickTime (should be remuxed to MP4 first)"@
        } else {
            "unrecognised ISOBMFF brand"@
        }
    } else if head.len() >= 4 && head[0] == 0x89 && head[1] == 0x50 && head[2] == 0x4e && head[3] == 0x47 {
        "PNG (not a supported carrier)"@
    } else {
        "unknown"@
    }
}

/// Human-readable name for an unsupported file, for error messages.
pub fn describe(head: &[u8]) -> (r: String)
    ensures
        r@ == description(head@),
{
    if begins_ftyp(head) {
        // An ISOBMFF brand that is no carrier: most likely HEIC or QuickTime.
        let none: [u8; 0] = [];
        let brand: &[u8] = if head.len() >= 12 {
            vstd::slice::slice_subrange(head, 8, 12)
        } else {
            none.as_slice()
        };
        assert(brand@ =~= brand_of(head@));
        if is_heif_brand(brand) {
            return "HEIC (should be converted to JPEG first)".to_owned();
        }
        if is_avif_brand(brand) {
            return "AVIF (should be converted to JPEG first)".to_owned();
        }
        if is_quicktime_brand(brand) {
            return "MOV/QuickTime (should be remuxed to MP4 first)".to_owned();
        }
        return "unrecognised ISOBMFF brand".to_owned();
    }
    if head.len() >= 4 && head[0] == 0x89 && head[1] == 0x50 && head[2] == 0x4e && head[3] == 0x47 {
        return "PNG (not a supported carrier)".to_owned();
    }
    "unknown".to_owned()
}

} // verus!
