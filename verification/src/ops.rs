//! What the library is for: look at a carrier, hide files in it, get them out, and clean it.
//!
//! Everything here works on open files. Finding them, temporary files and renames are the front end's
//! part, and with them the promise that an error leaves nothing behind: [`plan_hide`] and
//! [`find_hidden`] refuse what can be refused before anything is written.

use crate::carrier::jpeg::JpegCarrier;
use crate::carrier::mp3::Mp3Carrier;
use crate::carrier::mp4::Mp4Carrier;
use crate::carrier::pdf::PdfCarrier;
use crate::carrier::{
    newly_produced, technique_label, technique_name, walked, Carrier, CarrierFormat, Fill, Region,
    Technique, OUTPUT_LIMIT, SIZE_LIMIT,
};
use crate::crypto::envelope::{
    current_header, current_params, implied, kdf_candidates, version_params, VERSION,
};
use crate::crypto::kdf::{
    cost_fault, derived, kdf_fault, key_fault, lemma_key_fault, out_of_memory, KdfParams,
};
use crate::crypto::stream::{
    envelope, key_failed, lemma_sealing_bound, opening, preamble_failed, preamble_ok, random_bytes,
    random_error, random_failed, random_fault, sealed_end, too_large, unreadable, Contents, OpenReader,
    Sealer,
};
use crate::crypto::{
    chunk_count, envelope_len, region_len, MAX_PLAINTEXT_LEN, MIN_REGION_LEN,
};
use crate::error::{fails, Fault, IoError, IoErrorKind, IoFault, ZolalError};
use crate::io::{read_window, Read, ReadSeek, RegionReader, Write};
use crate::payload::bundle::{
    bundle_prefix, files_from, listing, plan, plan_fault, planned_item, read_bundle, texts, unpack,
    unpacked_len, BundleReader, Extracted, Folder, PayloadFile, Payloads, Unpacked,
};
use crate::payload::manifest::{encode_fault, items, whole_len, Entry, Manifest};
use crate::probe::{describe, description, detect, detected, PROBE_LEN};
use crate::progress::{decided, Progress};
use vstd::prelude::*;

verus! {

/// What can be told about a carrier file without a passphrase.
#[derive(Debug, Clone, Copy, PartialEq, Eq, Structural)]
pub struct CarrierInfo {
    /// Detected container format.
    pub format: CarrierFormat,
    /// Size in bytes.
    pub file_size: u64,
    /// Whether any structurally-plausible hiding region exists. This is **not** proof that something is
    /// hidden.
    pub has_candidate_region: bool,
}

/// How natural the output file will look.
#[derive(Debug, Clone, Copy, PartialEq, Eq, Structural)]
pub enum Verdict {
    /// Size growth is unremarkable for this kind of file.
    Natural,
    /// Noticeably larger than expected, but not absurd.
    Noticeable,
    /// So large it invites the question. Suggest a bigger carrier.
    Suspicious,
    /// Over the carrier's hard size limit: hiding will be refused.
    TooLarge,
}

/// A JPEG up to this size reads as natural.
pub const JPEG_NATURAL_MAX: u64 = 12_582_912;

/// A JPEG above this size stands out whatever it grew from.
pub const JPEG_SUSPICIOUS_ABOVE: u64 = 26_214_400;

/// Hard ceiling on a JPEG carrier's output. Viewers load the whole photo into memory, so a huge one
/// fails to open and gives the secret away.
pub const JPEG_MAX_OUTPUT: u64 = 52_428_800;

/// The limit of [`size_limit`].
pub open spec fn limit_of(format: CarrierFormat) -> Option<u64> {
    match format {
        CarrierFormat::Jpeg => Some(JPEG_MAX_OUTPUT),
        _ => None,
    }
}

/// The largest output that hiding will write for `format`, if it has a limit. Only JPEG has one.
pub fn size_limit(format: CarrierFormat) -> (r: Option<u64>)
    ensures
        r == limit_of(format),
{
    match format {
        CarrierFormat::Jpeg => Some(JPEG_MAX_OUTPUT),
        CarrierFormat::Mp4 | CarrierFormat::Pdf | CarrierFormat::Mp3 => None,
    }
}

/// The carrier format to suggest when `format` hits its [`size_limit`]: always a video.
pub fn bigger_carrier(format: CarrierFormat) -> (r: CarrierFormat)
    ensures
        r == CarrierFormat::Mp4,
{
    match format {
        CarrierFormat::Jpeg | CarrierFormat::Pdf | CarrierFormat::Mp3 => CarrierFormat::Mp4,
        CarrierFormat::Mp4 => CarrierFormat::Mp4,
    }
}

/// The verdict on an output of `result_size` bytes, given how its growth over the carrier was judged.
pub open spec fn verdict_of(
    format: CarrierFormat,
    result_size: u64,
    grew_suspiciously: bool,
    grew_noticeably: bool,
) -> Verdict {
    let jpeg = format == CarrierFormat::Jpeg;
    if jpeg && result_size > JPEG_MAX_OUTPUT {
        Verdict::TooLarge
    } else if grew_suspiciously || (jpeg && result_size > JPEG_SUSPICIOUS_ABOVE) {
        Verdict::Suspicious
    } else if grew_noticeably || (jpeg && result_size > JPEG_NATURAL_MAX) {
        Verdict::Noticeable
    } else {
        Verdict::Natural
    }
}

/// The verdict on an output of `result_size` bytes, given how its growth over the carrier was judged.
pub fn verdict(
    format: CarrierFormat,
    result_size: u64,
    grew_suspiciously: bool,
    grew_noticeably: bool,
) -> (r: Verdict)
    ensures
        r == verdict_of(format, result_size, grew_suspiciously, grew_noticeably),
{
    let (natural_max, suspicious_above): (u64, u64) = match format {
        CarrierFormat::Jpeg => (JPEG_NATURAL_MAX, JPEG_SUSPICIOUS_ABOVE),
        CarrierFormat::Mp4 | CarrierFormat::Pdf | CarrierFormat::Mp3 => (u64::MAX, u64::MAX),
    };
    let over = match size_limit(format) {
        Some(limit) => result_size > limit,
        None => false,
    };
    if over {
        Verdict::TooLarge
    } else if grew_suspiciously || result_size > suspicious_above {
        Verdict::Suspicious
    } else if grew_noticeably || result_size > natural_max {
        Verdict::Noticeable
    } else {
        Verdict::Natural
    }
}

/// A bigger output never looks more natural.
pub proof fn verdicts_grow_with_size(format: CarrierFormat, a: u64, b: u64, s: bool, n: bool)
    requires
        a <= b,
    ensures
        verdict_of(format, b, s, n) == Verdict::Natural ==> verdict_of(format, a, s, n)
            == Verdict::Natural,
        verdict_of(format, a, s, n) == Verdict::TooLarge ==> verdict_of(format, b, s, n)
            == Verdict::TooLarge,
{
}

// ---------------------------------------------------------------------------------------------
// Formats

/// What a file's first bytes say it is.
pub open spec fn sniffed(c: Seq<u8>) -> Result<CarrierFormat, Fault> {
    let head = if c.len() > PROBE_LEN {
        c.take(PROBE_LEN as int)
    } else {
        c
    };
    if head.len() == 0 {
        Err(Fault::CarrierTooSmall)
    } else {
        match detected(head) {
            Some(format) => Ok(format),
            None => Err(Fault::UnsupportedFormat { detected: description(head) }),
        }
    }
}

/// Read the first bytes and identify the format.
pub fn sniff<S: ReadSeek>(src: &S) -> (r: Result<CarrierFormat, ZolalError>)
    ensures
        match r {
            Ok(format) => sniffed(src.content()) == Ok::<CarrierFormat, Fault>(format),
            Err(e) => (!src.reliable() && e is Io) || sniffed(src.content()) == Err::<
                CarrierFormat,
                Fault,
            >(e@),
        },
{
    let head = read_window(src, 0, PROBE_LEN)?;
    proof {
        let c = src.content();
        if c.len() > PROBE_LEN {
            assert(head@ =~= c.take(PROBE_LEN as int));
        } else {
            assert(head@ =~= c);
        }
    }
    if head.len() == 0 {
        return Err(ZolalError::CarrierTooSmall);
    }
    match detect(head.as_slice()) {
        Some(format) => Ok(format),
        None => Err(ZolalError::UnsupportedFormat { detected: describe(head.as_slice()) }),
    }
}

/// [`Carrier::regions`] of the given format.
pub open spec fn regions_of(format: CarrierFormat, c: Seq<u8>) -> Result<Seq<Region>, Fault> {
    match format {
        CarrierFormat::Jpeg => JpegCarrier::regions(c),
        CarrierFormat::Mp4 => Mp4Carrier::regions(c),
        CarrierFormat::Pdf => PdfCarrier::regions(c),
        CarrierFormat::Mp3 => Mp3Carrier::regions(c),
    }
}

/// [`Carrier::embedded_len`] of the given format.
pub open spec fn embedded_len_of(
    format: CarrierFormat,
    c: Seq<u8>,
    technique: Technique,
    n: nat,
) -> Result<nat, Fault> {
    match format {
        CarrierFormat::Jpeg => JpegCarrier::embedded_len(c, technique, n),
        CarrierFormat::Mp4 => Mp4Carrier::embedded_len(c, technique, n),
        CarrierFormat::Pdf => PdfCarrier::embedded_len(c, technique, n),
        CarrierFormat::Mp3 => Mp3Carrier::embedded_len(c, technique, n),
    }
}

/// [`Carrier::embedded`] of the given format.
pub open spec fn embedded_of(
    format: CarrierFormat,
    c: Seq<u8>,
    technique: Technique,
    region: Seq<u8>,
) -> Seq<u8> {
    match format {
        CarrierFormat::Jpeg => JpegCarrier::embedded(c, technique, region),
        CarrierFormat::Mp4 => Mp4Carrier::embedded(c, technique, region),
        CarrierFormat::Pdf => PdfCarrier::embedded(c, technique, region),
        CarrierFormat::Mp3 => Mp3Carrier::embedded(c, technique, region),
    }
}

/// [`Carrier::stripped`] of the given format.
pub open spec fn stripped_of(format: CarrierFormat, c: Seq<u8>) -> Result<Seq<u8>, Fault> {
    match format {
        CarrierFormat::Jpeg => JpegCarrier::stripped(c),
        CarrierFormat::Mp4 => Mp4Carrier::stripped(c),
        CarrierFormat::Pdf => PdfCarrier::stripped(c),
        CarrierFormat::Mp3 => Mp3Carrier::stripped(c),
    }
}

fn regions_in<S: ReadSeek>(format: CarrierFormat, src: &S) -> (r: Result<Vec<Region>, ZolalError>)
    ensures
        r matches Ok(list) ==> regions_of(format, src.content()) == Ok::<Seq<Region>, Fault>(list@),
        r matches Err(e) ==> src.reliable() ==> regions_of(format, src.content()) == Err::<
            Seq<Region>,
            Fault,
        >(e@),
{
    match format {
        CarrierFormat::Jpeg => JpegCarrier.candidate_regions(src),
        CarrierFormat::Mp4 => Mp4Carrier.candidate_regions(src),
        CarrierFormat::Pdf => PdfCarrier.candidate_regions(src),
        CarrierFormat::Mp3 => Mp3Carrier.candidate_regions(src),
    }
}

fn output_len_in<S: ReadSeek>(
    format: CarrierFormat,
    src: &S,
    technique: Technique,
    region_len: u64,
) -> (r: Result<u64, ZolalError>)
    requires
        src.content().len() + region_len <= OUTPUT_LIMIT,
    ensures
        r matches Ok(n) ==> embedded_len_of(format, src.content(), technique, region_len as nat) == Ok::<
            nat,
            Fault,
        >(n as nat),
        r matches Err(e) ==> src.reliable() ==> embedded_len_of(
            format,
            src.content(),
            technique,
            region_len as nat,
        ) == Err::<nat, Fault>(e@),
{
    match format {
        CarrierFormat::Jpeg => JpegCarrier.output_len(src, technique, region_len),
        CarrierFormat::Mp4 => Mp4Carrier.output_len(src, technique, region_len),
        CarrierFormat::Pdf => PdfCarrier.output_len(src, technique, region_len),
        CarrierFormat::Mp3 => Mp3Carrier.output_len(src, technique, region_len),
    }
}

// ---------------------------------------------------------------------------------------------
// Looking

/// Whether a region is long enough to be an envelope.
pub open spec fn long_enough(region: Region) -> bool {
    region.len >= MIN_REGION_LEN
}

/// The regions that are long enough to be an envelope.
pub open spec fn plausible(list: Seq<Region>) -> Seq<Region>
    decreases list.len(),
{
    if list.len() == 0 {
        list
    } else if long_enough(list.last()) {
        plausible(list.drop_last()).push(list.last())
    } else {
        plausible(list.drop_last())
    }
}

fn keep_plausible(list: &Vec<Region>) -> (r: Vec<Region>)
    ensures
        r@ == plausible(list@),
{
    let mut out: Vec<Region> = Vec::new();
    let mut i: usize = 0;
    assert(list@.take(0) =~= Seq::<Region>::empty());
    assert(out@ =~= plausible(list@.take(0)));
    while i < list.len()
        invariant
            i <= list@.len(),
            out@ == plausible(list@.take(i as int)),
        decreases list@.len() - i,
    {
        assert(list@.take(i + 1).drop_last() =~= list@.take(i as int));
        if list[i].len >= MIN_REGION_LEN {
            out.push(list[i]);
        }
        i = i + 1;
    }
    assert(list@.take(i as int) =~= list@);
    out
}

/// What [`probe`] says of a file.
pub open spec fn probed(c: Seq<u8>) -> Result<CarrierInfo, Fault> {
    match sniffed(c) {
        Err(e) => Err(e),
        Ok(format) => match regions_of(format, c) {
            Err(e) => Err(e),
            Ok(list) => Ok(
                CarrierInfo {
                    format,
                    file_size: c.len() as u64,
                    has_candidate_region: plausible(list).len() > 0,
                },
            ),
        },
    }
}

/// Identify a carrier file and report whether it could hold (or already holds) a payload.
pub fn probe<S: ReadSeek>(src: &S) -> (r: Result<CarrierInfo, ZolalError>)
    ensures
        r matches Ok(info) ==> probed(src.content()) == Ok::<CarrierInfo, Fault>(info),
        r matches Err(e) ==> src.reliable() ==> probed(src.content()) == Err::<CarrierInfo, Fault>(e@),
{
    let file_size: u64 = match src.size() {
        Ok(n) => n,
        Err(e) => {
            return Err(ZolalError::from_io(e));
        },
    };
    let format = sniff(src)?;
    let regions = regions_in(format, src)?;
    let list = keep_plausible(&regions);
    Ok(CarrierInfo { format, file_size, has_candidate_region: list.len() > 0 })
}

/// The region length of a payload, where the size of an output can be worked out from it.
fn checked_region_len(carrier_size: u64, payload_bytes: u64) -> (r: Option<u64>)
    ensures
        match r {
            Some(n) => n == envelope_len(payload_bytes as nat) && carrier_size + n <= OUTPUT_LIMIT,
            None => carrier_size + envelope_len(payload_bytes as nat) > OUTPUT_LIMIT,
        },
{
    if carrier_size > OUTPUT_LIMIT || payload_bytes > OUTPUT_LIMIT {
        return None;
    }
    let region: u64 = region_len(payload_bytes);
    if region > OUTPUT_LIMIT - carrier_size {
        return None;
    }
    Some(region)
}

/// What hiding a payload in a carrier would come to.
#[derive(Debug, Clone, Copy, PartialEq, Eq, Structural)]
pub struct Prediction {
    /// The carrier's format.
    pub format: CarrierFormat,
    /// The carrier's size.
    pub carrier_size: u64,
    /// Predicted output size.
    pub result_size: u64,
}

/// What [`plausibility`] predicts.
pub open spec fn predicted(c: Seq<u8>, payload_bytes: nat) -> Result<Prediction, Fault> {
    match sniffed(c) {
        Err(e) => Err(e),
        Ok(format) => if c.len() + envelope_len(payload_bytes) > OUTPUT_LIMIT {
            Err(too_large())
        } else {
            match embedded_len_of(
                format,
                c,
                Technique::Auto.resolved(format),
                envelope_len(payload_bytes),
            ) {
                Err(e) => Err(e),
                Ok(n) => Ok(
                    Prediction { format, carrier_size: c.len() as u64, result_size: n as u64 },
                ),
            }
        },
    }
}

/// Predict the output size before committing to the operation, for the default technique.
///
/// The carrier side is exact; only the manifest is left out, tens of bytes per file. The size is judged
/// by [`verdict`].
pub fn plausibility<S: ReadSeek>(src: &S, payload_bytes: u64) -> (r: Result<Prediction, ZolalError>)
    ensures
        r matches Ok(p) ==> predicted(src.content(), payload_bytes as nat) == Ok::<Prediction, Fault>(p),
        r matches Err(e) ==> src.reliable() ==> predicted(src.content(), payload_bytes as nat) == Err::<
            Prediction,
            Fault,
        >(e@),
{
    let carrier_size: u64 = match src.size() {
        Ok(n) => n,
        Err(e) => {
            return Err(ZolalError::from_io(e));
        },
    };
    let format = sniff(src)?;
    let region: u64 = match checked_region_len(carrier_size, payload_bytes) {
        Some(n) => n,
        None => {
            return Err(too_large_error());
        },
    };
    let result_size: u64 = output_len_in(format, src, Technique::Auto.resolve(format), region)?;
    Ok(Prediction { format, carrier_size, result_size })
}

// ---------------------------------------------------------------------------------------------
// Hiding

/// What a hide will do, worked out before anything is derived or written.
#[derive(Debug)]
pub struct HidePlan {
    /// The carrier's format.
    pub format: CarrierFormat,
    /// The technique, resolved.
    pub technique: Technique,
    /// What is in the bundle.
    pub manifest: Manifest,
    /// How long the bundle is.
    pub bundle_len: u64,
    /// How long the region is.
    pub region_len: u64,
    /// How long the output will be.
    pub expected_size: u64,
    /// Argon2id costs.
    pub params: KdfParams,
}

/// The error for a technique of another format.
pub open spec fn wrong_technique(technique: Technique, format: CarrierFormat) -> Fault {
    Fault::InvalidRequest(
        technique_label(technique) + " can't be used on a "@ + format.label() + " carrier"@,
    )
}

/// Why nothing can be hidden in a file of this format, as far as the request says.
pub open spec fn request_fault(
    c: Seq<u8>,
    format: CarrierFormat,
    technique: Technique,
    files: Seq<PayloadFile>,
) -> Option<Fault> {
    if technique.home() != Some(format) {
        Some(wrong_technique(technique, format))
    } else {
        match plan_fault(files, files.len()) {
            Some(fault) => Some(fault),
            None => {
                let n = whole_len(files.map_values(|f: PayloadFile| planned_item(f)));
                if c.len() + envelope_len(n) > OUTPUT_LIMIT {
                    Some(too_large())
                } else {
                    match embedded_len_of(format, c, technique, envelope_len(n)) {
                        Err(fault) => Some(fault),
                        Ok(size) => if limit_of(format) is Some && size > limit_of(format)->Some_0 {
                            Some(
                                Fault::PayloadTooLarge {
                                    output_size: size,
                                    limit: limit_of(format)->Some_0 as nat,
                                    suggestion: CarrierFormat::Mp4,
                                },
                            )
                        } else if c.len() + envelope_len(n) > SIZE_LIMIT {
                            Some(too_large())
                        } else {
                            None
                        },
                    }
                }
            },
        }
    }
}

/// Why nothing can be hidden, if nothing can.
pub open spec fn hide_fault(c: Seq<u8>, technique: Technique, files: Seq<PayloadFile>) -> Option<Fault> {
    match sniffed(c) {
        Err(e) => Some(e),
        Ok(format) => request_fault(c, format, technique.resolved(format), files),
    }
}

/// The costs a new envelope is sealed with.
pub open spec fn costs(kdf_params: Option<KdfParams>) -> KdfParams {
    match kdf_params {
        Some(params) => params,
        None => version_params(VERSION)->Some_0,
    }
}

fn technique_error(technique: Technique, format: CarrierFormat) -> (r: ZolalError)
    ensures
        r@ == wrong_technique(technique, format),
{
    let mut text = technique_name(technique).to_owned();
    text.append(" can't be used on a ");
    text.append(format.name());
    text.append(" carrier");
    ZolalError::InvalidRequest(text)
}

/// A file's format and the technique to use on it, if the one asked for fits.
pub open spec fn chosen(c: Seq<u8>, technique: Technique) -> Result<(CarrierFormat, Technique), Fault> {
    match sniffed(c) {
        Err(fault) => Err(fault),
        Ok(format) => {
            let resolved = technique.resolved(format);
            if resolved.home() == Some(format) {
                Ok((format, resolved))
            } else {
                Err(wrong_technique(resolved, format))
            }
        },
    }
}

/// Identify a file's format and settle on a technique.
pub fn choose_technique<S: ReadSeek>(src: &S, technique: Technique) -> (r: Result<
    (CarrierFormat, Technique),
    ZolalError,
>)
    ensures
        r matches Ok(pair) ==> chosen(src.content(), technique) == Ok::<
            (CarrierFormat, Technique),
            Fault,
        >(pair),
        r matches Err(e) ==> src.reliable() ==> chosen(src.content(), technique) == Err::<
            (CarrierFormat, Technique),
            Fault,
        >(e@),
{
    let format = sniff(src)?;
    let technique = technique.resolve(format);
    let fits = match technique.format() {
        Some(home) => home == format,
        None => false,
    };
    if !fits {
        return Err(technique_error(technique, format));
    }
    Ok((format, technique))
}

/// Check a request and work out what it comes to, before any key derivation or writing: the exact size is
/// known up front.
pub fn plan_hide<S: ReadSeek>(
    src: &S,
    technique: Technique,
    files: &Vec<PayloadFile>,
    kdf_params: Option<KdfParams>,
) -> (r: Result<HidePlan, ZolalError>)
    ensures
        r matches Ok(p) ==> {
            &&& hide_fault(src.content(), technique, files@) is None
            &&& plan_for(src.content(), technique, files@, kdf_params, p)
        },
        r matches Err(e) ==> src.reliable() ==> hide_fault(src.content(), technique, files@) == Some(e@),
{
    let carrier_size: u64 = match src.size() {
        Ok(n) => n,
        Err(e) => {
            return Err(ZolalError::from_io(e));
        },
    };
    let (format, technique) = choose_technique(src, technique)?;
    let manifest = plan(files)?;
    let bundle_len: u64 = match manifest.checked_bundle_len() {
        Some(n) => n,
        None => {
            return Err(too_large_error());
        },
    };
    let region: u64 = match checked_region_len(carrier_size, bundle_len) {
        Some(n) => n,
        None => {
            return Err(too_large_error());
        },
    };
    let expected_size: u64 = output_len_in(format, src, technique, region)?;
    if let Some(limit) = size_limit(format) {
        if expected_size > limit {
            return Err(
                ZolalError::PayloadTooLarge {
                    output_size: expected_size,
                    limit,
                    suggestion: bigger_carrier(format),
                },
            );
        }
    }
    if carrier_size > SIZE_LIMIT || region > SIZE_LIMIT - carrier_size {
        return Err(too_large_error());
    }
    let params = match kdf_params {
        Some(params) => params,
        None => current_params(),
    };
    Ok(
        HidePlan {
            format,
            technique,
            manifest,
            bundle_len,
            region_len: region,
            expected_size,
            params,
        },
    )
}

fn too_large_error() -> (r: ZolalError)
    ensures
        r@ == too_large(),
{
    ZolalError::InvalidRequest("payload too large for one envelope (over 256 TiB)".to_owned())
}

/// A plan whose numbers are right for a carrier.
pub open spec fn plan_fits(c: Seq<u8>, p: HidePlan) -> bool {
    &&& p.bundle_len == whole_len(p.manifest.items())
    &&& p.bundle_len <= MAX_PLAINTEXT_LEN
    &&& p.region_len == envelope_len(p.bundle_len as nat)
    &&& c.len() + p.region_len <= SIZE_LIMIT
    &&& embedded_len_of(p.format, c, p.technique, p.region_len as nat) == Ok::<nat, Fault>(
        p.expected_size as nat,
    )
}

/// A plan that is right for a request.
pub open spec fn plan_for(
    c: Seq<u8>,
    technique: Technique,
    files: Seq<PayloadFile>,
    kdf_params: Option<KdfParams>,
    p: HidePlan,
) -> bool {
    &&& plan_fits(c, p)
    &&& sniffed(c) == Ok::<CarrierFormat, Fault>(p.format)
    &&& p.technique == technique.resolved(p.format)
    &&& p.manifest.items() == files.map_values(|f: PayloadFile| planned_item(f))
    &&& p.params == costs(kdf_params)
}

/// `region` is the envelope of `payload` under a passphrase and costs. It opens to it under the same, and
/// no JPEG walk takes it for an image.
pub open spec fn seals(
    region: Seq<u8>,
    payload: Seq<u8>,
    passphrase: Seq<char>,
    params: KdfParams,
) -> bool {
    &&& region.len() == envelope_len(payload.len())
    &&& region == envelope(region.take(35), payload, passphrase, params)
    &&& preamble_ok(region.take(35))
    &&& opening(region, None, region.len(), passphrase, params) == Ok::<Contents, Fault>(
        Contents { header: current_header(), payload, ending: None },
    )
}

/// `out` is the carrier with an envelope of `payload` in it.
pub open spec fn hides(
    out: Seq<u8>,
    c: Seq<u8>,
    p: HidePlan,
    payload: Seq<u8>,
    passphrase: Seq<char>,
) -> bool {
    exists|region: Seq<u8>|
        #[trigger] seals(region, payload, passphrase, p.params) && region.len() == p.region_len && out
            == embedded_of(p.format, c, p.technique, region) && out.len() == p.expected_size
}

fn embed_in<S: ReadSeek, W: Write, F: Fill>(
    format: CarrierFormat,
    src: &S,
    dst: &mut W,
    technique: Technique,
    region_len: u64,
    fill: &mut F,
) -> (r: Result<u64, ZolalError>)
    requires
        old(fill).wf(),
        src.content().len() + region_len <= SIZE_LIMIT,
        old(dst).written().len() + src.content().len() + old(fill).left() <= SIZE_LIMIT,
        embedded_len_of(format, src.content(), technique, region_len as nat) is Ok,
    ensures
        final(dst).reliable() == old(dst).reliable(),
        final(fill).wf(),
        final(fill).origin() == old(fill).origin(),
        r matches Ok(n) ==> {
            let region = newly_produced(*old(fill), *final(fill));
            let out = embedded_of(format, src.content(), technique, region);
            &&& region.len() == region_len
            &&& final(fill).left() == 0
            &&& old(fill).ending() is None
            &&& final(fill).ending() is None
            &&& final(fill).produced() == old(fill).produced() + region
            &&& embedded_len_of(format, src.content(), technique, region_len as nat) == Ok::<nat, Fault>(
                out.len(),
            )
            &&& final(dst).written() == old(dst).written() + out
            &&& n == out.len()
        },
        r matches Err(e) ==> src.reliable() && old(dst).reliable() && old(fill).reliable() ==> match old(fill).ending() {
            Some(fault) => e@ == fault,
            None => old(fill).left() != region_len && e@ == crate::carrier::mismatch(
                region_len as nat,
                old(fill).left(),
            ),
        },
{
    match format {
        CarrierFormat::Jpeg => JpegCarrier.embed(src, dst, technique, region_len, fill),
        CarrierFormat::Mp4 => Mp4Carrier.embed(src, dst, technique, region_len, fill),
        CarrierFormat::Pdf => PdfCarrier.embed(src, dst, technique, region_len, fill),
        CarrierFormat::Mp3 => Mp3Carrier.embed(src, dst, technique, region_len, fill),
    }
}

/// The payload of a plan, and how reading it ends.
pub open spec fn payload_of<P: Payloads>(
    payloads: &P,
    entries: Seq<Entry>,
    labels: Seq<String>,
) -> (Seq<u8>, Option<Fault>) {
    let files = files_from(payloads, entries, labels, 0);
    (bundle_prefix(items(entries)) + files.0, files.1)
}

/// Why a payload cannot be written into an envelope before the key is derived.
pub open spec fn writing_fault(p: HidePlan, labels: Seq<String>) -> Option<Fault> {
    if labels.len() != p.manifest.entries@.len() {
        Some(Fault::InvalidRequest("manifest does not match the payload list"@))
    } else if encode_fault(p.manifest.entries@) is Some {
        encode_fault(p.manifest.entries@)
    } else if chunk_count((p.bundle_len + 2) as nat) > 0x1_0000_0000 {
        Some(too_large())
    } else {
        None
    }
}

/// A failure to write a hidden payload whose manifest is in order: of the random source or the key
/// derivation, or what the payload ends in.
pub open spec fn sealing_failed<P: Payloads, G: Progress>(
    fault: Fault,
    p: HidePlan,
    labels: Seq<String>,
    payloads: &P,
    passphrase: Seq<char>,
    progress: &G,
) -> bool {
    let payload = payload_of(payloads, p.manifest.entries@, labels);
    ||| preamble_failed(fault)
    ||| key_failed(fault, passphrase, p.params)
    ||| key_fault(passphrase, p.params) is None && sealed_end(
        progress,
        payload.0.len(),
        p.bundle_len as nat,
        payload.1,
    ) == Some(fault)
}

/// Write the carrier with everything that a sealer produces.
fn write_sealed<'p, S: ReadSeek, R: Read, W: Write, G: Progress>(
    src: &S,
    format: CarrierFormat,
    technique: Technique,
    region_len: u64,
    sealer: Sealer<'p, R, G>,
    dst: &mut W,
    Ghost(passphrase): Ghost<Seq<char>>,
    Ghost(params): Ghost<KdfParams>,
) -> (r: Result<u64, ZolalError>)
    requires
        sealer.wf(),
        sealer.produced() == Seq::<u8>::empty(),
        sealer.left() <= region_len,
        sealer.origin()[0] == derived(passphrase, sealer.origin()[1].take(16), params),
        preamble_ok(sealer.origin()[1]),
        kdf_fault(vstd::utf8::encode_utf8(passphrase), sealer.origin()[1].take(16), params) is None,
        sealer.ending() is None ==> sealer.left() == region_len,
        src.content().len() + region_len <= SIZE_LIMIT,
        old(dst).written().len() == 0,
        embedded_len_of(format, src.content(), technique, region_len as nat) is Ok,
    ensures
        final(dst).reliable() == old(dst).reliable(),
        r matches Ok(n) ==> {
            &&& sealer.ending() is None
            &&& embedded_len_of(format, src.content(), technique, region_len as nat) == Ok::<nat, Fault>(
                n as nat,
            )
            &&& final(dst).written().len() == n
            &&& ({
                let region = envelope(sealer.origin()[1], sealer.origin()[2], passphrase, params);
                &&& seals(region, sealer.origin()[2], passphrase, params)
                &&& region.len() == region_len
                &&& final(dst).written() == embedded_of(format, src.content(), technique, region)
            })
        },
        r matches Err(e) ==> src.reliable() && old(dst).reliable() && sealer.reliable()
            ==> sealer.ending() == Some(e@),
{
    let ghost c = src.content();
    let mut sealer = sealer;
    let ghost before = sealer;
    let written: u64 = embed_in(format, src, dst, technique, region_len, &mut sealer)?;
    proof {
        let region = newly_produced(before, sealer);
        assert(sealer.produced() =~= region);
        sealer.finished_region_opens(passphrase, params);
        let out = embedded_of(format, c, technique, region);
        assert(old(dst).written() + out =~= out);
        assert(seals(region, sealer.origin()[2], passphrase, params));
    }
    Ok(written)
}

/// Carry out a plan with the given salt and nonce prefix: write the carrier to `dst` with the payload
/// hidden in it. Returns the number of bytes written.
///
/// A preamble must be used once only; [`write_hidden`] draws one.
pub fn write_hidden_with<S: ReadSeek, P: Payloads, W: Write, G: Progress>(
    src: &S,
    p: HidePlan,
    labels: Vec<String>,
    payloads: &P,
    dst: &mut W,
    preamble: Vec<u8>,
    passphrase: &str,
    progress: &G,
) -> (r: Result<u64, ZolalError>)
    requires
        plan_fits(src.content(), p),
        preamble_ok(preamble@),
        old(dst).written().len() == 0,
    ensures
        final(dst).reliable() == old(dst).reliable(),
        r matches Ok(n) ==> {
            let payload = payload_of(payloads, p.manifest.entries@, labels@);
            &&& n == p.expected_size
            &&& payload.1 is None
            &&& payload.0.len() == p.bundle_len
            &&& hides(final(dst).written(), src.content(), p, payload.0, passphrase@)
            &&& final(dst).written() == embedded_of(
                p.format,
                src.content(),
                p.technique,
                envelope(preamble@, payload.0, passphrase@, p.params),
            )
        },
        writing_fault(p, labels@) matches Some(fault) ==> fails(r, fault),
        key_fault(passphrase@, p.params) is Some ==> r is Err,
        progress.halted() ==> r is Err,
        r matches Err(e) ==> src.reliable() && payloads.reliable() && old(dst).reliable() && decided(
            progress,
        ) && writing_fault(p, labels@) is None ==> {
            let payload = payload_of(payloads, p.manifest.entries@, labels@);
            ||| key_failed(e@, passphrase@, p.params)
            ||| key_fault(passphrase@, p.params) is None && sealed_end(
                progress,
                payload.0.len(),
                p.bundle_len as nat,
                payload.1,
            ) == Some(e@)
        },
{
    let ghost c = src.content();
    let ghost payload = payload_of(payloads, p.manifest.entries@, labels@);
    let HidePlan { format, technique, manifest, bundle_len, region_len, expected_size, params } = p;
    let bundle = BundleReader::new(labels, payloads, manifest)?;
    let sealer = Sealer::with_preamble(bundle, bundle_len, preamble, passphrase, params, progress)?;
    proof {
        lemma_sealing_bound(payload.0.len(), bundle_len as nat);
        lemma_key_fault(passphrase@, sealer.origin()[1].take(16), params);
    }
    let written: u64 = write_sealed(
        src,
        format,
        technique,
        region_len,
        sealer,
        dst,
        Ghost(passphrase@),
        Ghost(params),
    )?;
    Ok(written)
}

/// Carry out a plan: write the carrier to `dst` with the payload hidden in it.
///
/// Streams throughout; reports progress as plaintext bytes sealed and honours cancellation. Any earlier
/// hidden content in the carrier is replaced. Returns the number of bytes written.
pub fn write_hidden<S: ReadSeek, P: Payloads, W: Write, G: Progress>(
    src: &S,
    p: HidePlan,
    labels: Vec<String>,
    payloads: &P,
    dst: &mut W,
    passphrase: &str,
    progress: &G,
) -> (r: Result<u64, ZolalError>)
    requires
        plan_fits(src.content(), p),
        old(dst).written().len() == 0,
    ensures
        final(dst).reliable() == old(dst).reliable(),
        r matches Ok(n) ==> {
            let payload = payload_of(payloads, p.manifest.entries@, labels@);
            &&& n == p.expected_size
            &&& payload.1 is None
            &&& payload.0.len() == p.bundle_len
            &&& hides(final(dst).written(), src.content(), p, payload.0, passphrase@)
        },
        writing_fault(p, labels@) matches Some(fault) ==> fails(r, fault),
        key_fault(passphrase@, p.params) is Some ==> r is Err,
        progress.halted() ==> r is Err,
        r matches Err(e) ==> src.reliable() && payloads.reliable() && old(dst).reliable() && decided(
            progress,
        ) && writing_fault(p, labels@) is None ==> sealing_failed(
            e@,
            p,
            labels@,
            payloads,
            passphrase@,
            progress,
        ),
{
    let ghost c = src.content();
    let ghost payload = payload_of(payloads, p.manifest.entries@, labels@);
    let HidePlan { format, technique, manifest, bundle_len, region_len, expected_size, params } = p;
    let bundle = BundleReader::new(labels, payloads, manifest)?;
    let sealer = Sealer::new(bundle, bundle_len, passphrase, params, progress)?;
    proof {
        lemma_sealing_bound(payload.0.len(), bundle_len as nat);
        lemma_key_fault(passphrase@, sealer.origin()[1].take(16), params);
    }
    let written: u64 = write_sealed(
        src,
        format,
        technique,
        region_len,
        sealer,
        dst,
        Ghost(passphrase@),
        Ghost(params),
    )?;
    Ok(written)
}


/// Outcome of a successful [`hide_files`].
#[derive(Debug, Clone, Copy, PartialEq, Eq, Structural)]
pub struct HideReport {
    /// Final size of the written carrier.
    pub output_size: u64,
    /// Technique actually used (resolves [`Technique::Auto`]).
    pub technique: Technique,
    /// The carrier's format.
    pub format: CarrierFormat,
}

/// How messages speak of the files.
pub open spec fn labelled(labels: Seq<String>, files: Seq<PayloadFile>) -> bool {
    labels.len() == files.len() && forall|i: int|
        0 <= i < labels.len() ==> (#[trigger] labels[i])@ == files[i].label@
}

/// What messages call each of the files.
pub fn labels_of(files: &Vec<PayloadFile>) -> (r: Vec<String>)
    ensures
        labelled(r@, files@),
{
    let mut out: Vec<String> = Vec::new();
    let mut i: usize = 0;
    while i < files.len()
        invariant
            i <= files@.len(),
            out@.len() == i,
            forall|k: int| 0 <= k < i ==> (#[trigger] out@[k])@ == files@[k].label@,
        decreases files@.len() - i,
    {
        out.push(files[i].label.as_str().to_owned());
        i = i + 1;
    }
    out
}

/// Hide `files` inside a carrier, writing the result to `dst`: [`plan_hide`] and then [`write_hidden`].
///
/// A request that is refused leaves `dst` as it was.
pub fn hide_files<S: ReadSeek, P: Payloads, W: Write, G: Progress>(
    src: &S,
    technique: Technique,
    files: &Vec<PayloadFile>,
    payloads: &P,
    dst: &mut W,
    passphrase: &str,
    kdf_params: Option<KdfParams>,
    progress: &G,
) -> (r: Result<HideReport, ZolalError>)
    requires
        old(dst).written().len() == 0,
    ensures
        final(dst).reliable() == old(dst).reliable(),
        r matches Ok(report) ==> {
            &&& hide_fault(src.content(), technique, files@) is None
            &&& sniffed(src.content()) == Ok::<CarrierFormat, Fault>(report.format)
            &&& report.technique == technique.resolved(report.format)
            &&& report.output_size == final(dst).written().len()
            &&& exists|p: HidePlan, labels: Seq<String>|
                {
                    &&& #[trigger] plan_for(src.content(), technique, files@, kdf_params, p)
                    &&& #[trigger] labelled(labels, files@)
                    &&& payload_of(payloads, p.manifest.entries@, labels).1 is None
                    &&& hides(
                        final(dst).written(),
                        src.content(),
                        p,
                        payload_of(payloads, p.manifest.entries@, labels).0,
                        passphrase@,
                    )
                }
        },
        r is Err && src.reliable() && hide_fault(src.content(), technique, files@) is Some ==> {
            &&& hide_fault(src.content(), technique, files@) == Some(r->Err_0@)
            &&& final(dst).written() == old(dst).written()
        },
        src.reliable() && hide_fault(src.content(), technique, files@) is Some ==> r is Err,
        key_fault(passphrase@, costs(kdf_params)) is Some ==> r is Err,
        progress.halted() ==> r is Err,
        r matches Err(e) ==> src.reliable() && hide_fault(src.content(), technique, files@) is None
            ==> exists|p: HidePlan, labels: Seq<String>|
            {
                &&& #[trigger] plan_for(src.content(), technique, files@, kdf_params, p)
                &&& #[trigger] labelled(labels, files@)
                &&& match writing_fault(p, labels) {
                    Some(fault) => e@ == fault,
                    None => payloads.reliable() && old(dst).reliable() && decided(progress)
                        ==> sealing_failed(e@, p, labels, payloads, passphrase@, progress),
                }
            },
{
    let p = plan_hide(src, technique, files, kdf_params)?;
    let ghost plan = p;
    let labels = labels_of(files);
    let ghost named = labels@;
    let report_technique = p.technique;
    let format = p.format;
    let r = write_hidden(src, p, labels, payloads, dst, passphrase, progress);
    proof {
        assert(plan_for(src.content(), technique, files@, kdf_params, plan));
        assert(labelled(named, files@));
    }
    match r {
        Ok(output_size) => Ok(HideReport { output_size, technique: report_technique, format }),
        Err(e) => Err(e),
    }
}

// ---------------------------------------------------------------------------------------------
// Temporary names

/// A hexadecimal digit, in lower case.
pub open spec fn hex_digit(n: u8) -> char {
    if n < 10 {
        ('0' as u8 + n) as char
    } else {
        ('a' as u8 + (n - 10)) as char
    }
}

/// Bytes as hexadecimal digits.
pub open spec fn hex(bytes: Seq<u8>) -> Seq<char>
    decreases bytes.len(),
{
    if bytes.len() == 0 {
        Seq::empty()
    } else {
        hex(bytes.drop_last()).push(hex_digit(bytes.last() / 16)).push(hex_digit(bytes.last() % 16))
    }
}

fn to_hex_digit(n: u8) -> (r: char)
    requires
        n < 16,
    ensures
        r == hex_digit(n),
{
    if n < 10 {
        ('0' as u8 + n) as char
    } else {
        ('a' as u8 + (n - 10)) as char
    }
}

/// The temporary name made of `prefix` and some bytes.
pub open spec fn temporary(prefix: Seq<char>, bytes: Seq<u8>) -> Seq<char> {
    "."@ + prefix + hex(bytes) + ".tmp"@
}

/// The temporary name made of `prefix` and some bytes. Deliberately generic: a leftover file after a
/// crash shouldn't announce what made it.
pub fn temp_name_from(prefix: &str, bytes: &[u8]) -> (r: String)
    ensures
        r@ == temporary(prefix@, bytes@),
{
    let mut name = ".".to_owned();
    name.append(prefix);
    let ghost start = name@;
    let mut i: usize = 0;
    assert(bytes@.take(0) =~= Seq::<u8>::empty());
    assert(start + hex(bytes@.take(0)) =~= start);
    while i < bytes.len()
        invariant
            i <= bytes@.len(),
            name@ == start + hex(bytes@.take(i as int)),
        decreases bytes@.len() - i,
    {
        let b: u8 = bytes[i];
        assert(bytes@.take(i + 1).drop_last() =~= bytes@.take(i as int));
        name.push(to_hex_digit(b / 16));
        name.push(to_hex_digit(b % 16));
        i = i + 1;
        assert(name@ =~= start + hex(bytes@.take(i as int)));
    }
    assert(bytes@.take(i as int) =~= bytes@);
    name.append(".tmp");
    name
}

/// What becomes of a draw: a temporary name, or an error where the random source failed.
pub fn temp_name_of(prefix: &str, draw: Result<Vec<u8>, String>) -> (r: Result<String, ZolalError>)
    ensures
        match draw {
            Ok(bytes) => r matches Ok(name) && name@ == temporary(prefix@, bytes@),
            Err(text) => fails(r, random_fault(text@)),
        },
{
    match draw {
        Ok(bytes) => Ok(temp_name_from(prefix, bytes.as_slice())),
        Err(text) => Err(random_error(text)),
    }
}

/// A random temporary name.
pub fn temp_name(prefix: &str) -> (r: Result<String, ZolalError>)
    ensures
        r matches Ok(name) ==> exists|bytes: Seq<u8>|
            bytes.len() == 8 && name@ == #[trigger] temporary(prefix@, bytes),
        r matches Err(e) ==> random_failed(e@),
{
    temp_name_of(prefix, random_bytes(8))
}

// ---------------------------------------------------------------------------------------------
// Finding

/// What trying one region with one set of costs gives.
pub open spec fn tried<C: Carrier>(
    c: Seq<u8>,
    region: Region,
    params: KdfParams,
    passphrase: Seq<char>,
) -> Result<Contents, Fault> {
    match C::region_bytes(c, region) {
        Err(fault) => Err(fault),
        Ok(bytes) => opening(bytes, None, region.len as nat, passphrase, params),
    }
}

/// The first region that opens, from the `i`th on and there from the `j`th set of costs on. A region that
/// does not authenticate is passed over; any other error ends the search.
pub open spec fn search<C: Carrier>(
    c: Seq<u8>,
    regions: Seq<Region>,
    costs: Seq<KdfParams>,
    passphrase: Seq<char>,
    i: nat,
    j: nat,
) -> Result<(Technique, Contents), Fault>
    decreases regions.len() - i, costs.len() - j,
{
    if i >= regions.len() {
        Err(Fault::WrongPassphrase)
    } else if j >= costs.len() {
        search::<C>(c, regions, costs, passphrase, i + 1, 0)
    } else {
        let region = regions[i as int];
        match tried::<C>(c, region, costs[j as int], passphrase) {
            Ok(contents) => Ok((region.technique, contents)),
            Err(fault) => if fault == Fault::WrongPassphrase && C::region_bytes(c, region) is Ok {
                search::<C>(c, regions, costs, passphrase, i, j + 1)
            } else {
                Err(fault)
            },
        }
    }
}

/// `region` opens to `contents` with one of the given costs.
pub open spec fn opens<C: Carrier>(
    c: Seq<u8>,
    region: Region,
    costs: Seq<KdfParams>,
    passphrase: Seq<char>,
    contents: Contents,
) -> bool {
    exists|j: int|
        0 <= j < costs.len() && tried::<C>(c, region, #[trigger] costs[j], passphrase) == Ok::<
            Contents,
            Fault,
        >(contents)
}

/// What an opened region holds.
pub open spec fn contents_of<'p, R: Read, G: Progress>(reader: OpenReader<'p, R, G>) -> Contents {
    Contents {
        header: reader.inner_header(),
        payload: reader.remaining(),
        ending: reader.ending(),
    }
}

/// A region that opened: where it is, and a reader of what it holds.
pub type Hit<'p, 's, S, G> = (Technique, OpenReader<'p, RegionReader<'s, S>, G>);

/// What follows from an attempt to open a region: a reader is kept, a wrong passphrase means to go on, and
/// any other error ends the search.
pub fn weigh_attempt<'p, R: Read, G: Progress>(attempt: Result<OpenReader<'p, R, G>, ZolalError>) -> (r:
    Result<Option<OpenReader<'p, R, G>>, ZolalError>)
    ensures
        match attempt {
            Ok(reader) => r == Ok::<Option<OpenReader<'p, R, G>>, ZolalError>(Some(reader)),
            Err(e) => if e@ == Fault::WrongPassphrase {
                r == Ok::<Option<OpenReader<'p, R, G>>, ZolalError>(None)
            } else {
                r == Err::<Option<OpenReader<'p, R, G>>, ZolalError>(e)
            },
        },
{
    match attempt {
        Ok(reader) => Ok(Some(reader)),
        Err(ZolalError::WrongPassphrase) => Ok(None),
        Err(e) => Err(e),
    }
}

/// The first region that opens with one of `costs`, in the order of both.
fn find<'p, 's, C: Carrier, S: ReadSeek, G: Progress>(
    carrier: &C,
    src: &'s S,
    regions: &Vec<Region>,
    costs: &Vec<KdfParams>,
    passphrase: &str,
    progress: &'p G,
) -> (r: Result<Hit<'p, 's, S, G>, ZolalError>)
    ensures
        r matches Ok(hit) ==> {
            &&& exists|i: int|
                0 <= i < regions@.len() && (#[trigger] regions@[i]).technique == hit.0 && opens::<C>(
                    src.content(),
                    regions@[i],
                    costs@,
                    passphrase@,
                    contents_of(hit.1),
                )
            &&& src.reliable() && progress.steady() ==> {
                &&& hit.1.reliable()
                &&& search::<C>(src.content(), regions@, costs@, passphrase@, 0, 0) == Ok::<
                    (Technique, Contents),
                    Fault,
                >((hit.0, contents_of(hit.1)))
            }
        },
        r matches Err(e) ==> src.reliable() && progress.steady() ==> search::<C>(
            src.content(),
            regions@,
            costs@,
            passphrase@,
            0,
            0,
        ) == Err::<(Technique, Contents), Fault>(e@) || (e@ == out_of_memory() && exists|j: int|
            0 <= j < costs@.len() && cost_fault(#[trigger] costs@[j]) is None),
        progress.halted() ==> r is Err,
        src.reliable() && progress.halted() && costs@.len() > 0 ==> fails(
            r,
            stopped::<C>(src.content(), regions@, 0),
        ),
{
    let ghost c = src.content();
    let ghost whole = search::<C>(c, regions@, costs@, passphrase@, 0, 0);
    let mut i: usize = 0;
    while i < regions.len()
        invariant
            i <= regions@.len(),
            c == src.content(),
            src.reliable() && progress.steady() ==> whole == search::<C>(
                c,
                regions@,
                costs@,
                passphrase@,
                i as nat,
                0,
            ),
            whole == search::<C>(c, regions@, costs@, passphrase@, 0, 0),
            src.reliable() && progress.halted() && costs@.len() > 0 ==> stopped::<C>(c, regions@, 0) == stopped::<C>(
                c,
                regions@,
                i as nat,
            ),
        decreases regions@.len() - i,
    {
        let mut j: usize = 0;
        while j < costs.len()
            invariant
                i < regions@.len(),
                j <= costs@.len(),
                c == src.content(),
                src.reliable() && progress.steady() ==> whole == search::<C>(
                    c,
                    regions@,
                    costs@,
                    passphrase@,
                    i as nat,
                    j as nat,
                ),
                whole == search::<C>(c, regions@, costs@, passphrase@, 0, 0),
                src.reliable() && progress.halted() && costs@.len() > 0 ==> {
                    &&& stopped::<C>(c, regions@, 0) == stopped::<C>(c, regions@, i as nat)
                    &&& j > 0 ==> stopped::<C>(c, regions@, i as nat) == stopped::<C>(
                        c,
                        regions@,
                        (i + 1) as nat,
                    )
                },
            decreases costs@.len() - j,
        {
            let region = regions[i];
            let params = costs[j];
            let bytes = carrier.open_region(src, &region)?;
            let attempt = OpenReader::new(bytes, region.len, passphrase, params, progress);
            match weigh_attempt(attempt)? {
                Some(reader) => {
                    proof {
                        let contents = contents_of(reader);
                        assert(tried::<C>(c, regions@[i as int], costs@[j as int], passphrase@) == Ok::<
                            Contents,
                            Fault,
                        >(contents));
                        assert(opens::<C>(c, regions@[i as int], costs@, passphrase@, contents));
                    }
                    return Ok((region.technique, reader));
                },
                None => {},
            }
            j = j + 1;
        }
        i = i + 1;
    }
    Err(ZolalError::WrongPassphrase)
}

/// [`search`] in the given format.
pub open spec fn search_of(
    format: CarrierFormat,
    c: Seq<u8>,
    regions: Seq<Region>,
    costs: Seq<KdfParams>,
    passphrase: Seq<char>,
) -> Result<(Technique, Contents), Fault> {
    match format {
        CarrierFormat::Jpeg => search::<JpegCarrier>(c, regions, costs, passphrase, 0, 0),
        CarrierFormat::Mp4 => search::<Mp4Carrier>(c, regions, costs, passphrase, 0, 0),
        CarrierFormat::Pdf => search::<PdfCarrier>(c, regions, costs, passphrase, 0, 0),
        CarrierFormat::Mp3 => search::<Mp3Carrier>(c, regions, costs, passphrase, 0, 0),
    }
}

/// [`opens`] in the given format.
pub open spec fn opens_in(
    format: CarrierFormat,
    c: Seq<u8>,
    region: Region,
    costs: Seq<KdfParams>,
    passphrase: Seq<char>,
    contents: Contents,
) -> bool {
    match format {
        CarrierFormat::Jpeg => opens::<JpegCarrier>(c, region, costs, passphrase, contents),
        CarrierFormat::Mp4 => opens::<Mp4Carrier>(c, region, costs, passphrase, contents),
        CarrierFormat::Pdf => opens::<PdfCarrier>(c, region, costs, passphrase, contents),
        CarrierFormat::Mp3 => opens::<Mp3Carrier>(c, region, costs, passphrase, contents),
    }
}

/// [`Carrier::reencoded`] of the given format.
pub open spec fn reencoded_of(format: CarrierFormat, c: Seq<u8>) -> Result<bool, Fault> {
    match format {
        CarrierFormat::Jpeg => JpegCarrier::reencoded(c),
        CarrierFormat::Mp4 => Mp4Carrier::reencoded(c),
        CarrierFormat::Pdf => PdfCarrier::reencoded(c),
        CarrierFormat::Mp3 => Mp3Carrier::reencoded(c),
    }
}

/// The costs that a search tries.
pub open spec fn tried_costs(kdf_params: Option<KdfParams>) -> Seq<KdfParams> {
    seq![costs(kdf_params)]
}

/// The places in a file that are long enough to be an envelope, of which there is one at least; or why
/// there is no place to look.
pub open spec fn candidates(c: Seq<u8>) -> Result<(CarrierFormat, Seq<Region>), Fault> {
    match sniffed(c) {
        Err(fault) => Err(fault),
        Ok(format) => match regions_of(format, c) {
            Err(fault) => Err(fault),
            Ok(list) => if plausible(list).len() == 0 {
                match reencoded_of(format, c) {
                    Err(fault) => Err(fault),
                    Ok(b) => Err(Fault::NoHiddenData { carrier_looks_reencoded: b }),
                }
            } else {
                Ok((format, plausible(list)))
            },
        },
    }
}

/// Whether a search comes to the point where memory for a key is asked for.
pub open spec fn seeks_key(c: Seq<u8>, kdf_params: Option<KdfParams>) -> bool {
    candidates(c) is Ok && cost_fault(costs(kdf_params)) is None
}

/// What a search from the `i`th region on comes to if cancellation has been asked for: that is noticed
/// at the first region which is readable.
pub open spec fn stopped<C: Carrier>(c: Seq<u8>, regions: Seq<Region>, i: nat) -> Fault
    decreases regions.len() - i,
{
    if i >= regions.len() {
        Fault::WrongPassphrase
    } else {
        let region = regions[i as int];
        match C::region_bytes(c, region) {
            Err(fault) => fault,
            Ok(bytes) => match unreadable(bytes, None, region.len as nat) {
                None => Fault::Cancelled,
                Some(fault) => if fault == Fault::WrongPassphrase {
                    stopped::<C>(c, regions, i + 1)
                } else {
                    fault
                },
            },
        }
    }
}

/// What a search comes to if cancellation has been asked for.
pub open spec fn halt_fault(c: Seq<u8>) -> Fault {
    match candidates(c) {
        Err(fault) => fault,
        Ok((format, regions)) => match format {
            CarrierFormat::Jpeg => stopped::<JpegCarrier>(c, regions, 0),
            CarrierFormat::Mp4 => stopped::<Mp4Carrier>(c, regions, 0),
            CarrierFormat::Pdf => stopped::<PdfCarrier>(c, regions, 0),
            CarrierFormat::Mp3 => stopped::<Mp3Carrier>(c, regions, 0),
        },
    }
}

/// What is hidden in a file: the format, where it is, and what it holds; or why nothing is found.
pub open spec fn found(c: Seq<u8>, kdf_params: Option<KdfParams>, passphrase: Seq<char>) -> Result<
    (CarrierFormat, Technique, Contents),
    Fault,
> {
    match candidates(c) {
        Err(fault) => Err(fault),
        Ok((format, regions)) => match search_of(
            format,
            c,
            regions,
            tried_costs(kdf_params),
            passphrase,
        ) {
            Err(fault) => Err(fault),
            Ok((technique, contents)) => Ok((format, technique, contents)),
        },
    }
}

/// Whether a file holds `contents` in one of the places where a hide puts them.
pub open spec fn holds(
    c: Seq<u8>,
    format: CarrierFormat,
    technique: Technique,
    kdf_params: Option<KdfParams>,
    passphrase: Seq<char>,
    contents: Contents,
) -> bool {
    regions_of(format, c) matches Ok(list) && exists|i: int|
        0 <= i < plausible(list).len() && (#[trigger] plausible(list)[i]).technique == technique
            && opens_in(
            format,
            c,
            plausible(list)[i],
            tried_costs(kdf_params),
            passphrase,
            contents,
        )
}

fn costs_to_try(kdf_params: Option<KdfParams>) -> (r: Vec<KdfParams>)
    ensures
        r@ == tried_costs(kdf_params),
{
    match kdf_params {
        Some(params) => {
            let mut out: Vec<KdfParams> = Vec::new();
            out.push(params);
            out
        },
        None => {
            let out = kdf_candidates();
            proof {
                assert(implied(out@[0]));
                if out@.len() > 1 {
                    assert(implied(out@[1]));
                    assert(out@[0] == out@[1]);
                }
                assert(out@ =~= tried_costs(kdf_params));
            }
            out
        },
    }
}

fn looks_reencoded_in<S: ReadSeek>(format: CarrierFormat, src: &S) -> (r: Result<bool, ZolalError>)
    ensures
        walked(r, src.reliable(), reencoded_of(format, src.content())),
{
    match format {
        CarrierFormat::Jpeg => JpegCarrier.looks_reencoded(src),
        CarrierFormat::Mp4 => Mp4Carrier.looks_reencoded(src),
        CarrierFormat::Pdf => PdfCarrier.looks_reencoded(src),
        CarrierFormat::Mp3 => Mp3Carrier.looks_reencoded(src),
    }
}

/// Find what is hidden in a file.
///
/// Tries each candidate region in priority order; the authentication tag decides which (if any) is
/// real. Errors, in the order to read them: [`ZolalError::NoHiddenData`] where no region is big enough to
/// be ours, [`ZolalError::WrongPassphrase`] where regions exist and none authenticates.
pub fn find_hidden<'p, 's, S: ReadSeek, G: Progress>(
    src: &'s S,
    passphrase: &str,
    kdf_params: Option<KdfParams>,
    progress: &'p G,
) -> (r: Result<(CarrierFormat, Hit<'p, 's, S, G>), ZolalError>)
    ensures
        r matches Ok((format, hit)) ==> {
            &&& sniffed(src.content()) == Ok::<CarrierFormat, Fault>(format)
            &&& holds(src.content(), format, hit.0, kdf_params, passphrase@, contents_of(hit.1))
            &&& src.reliable() && progress.steady() ==> {
                &&& hit.1.reliable()
                &&& found(src.content(), kdf_params, passphrase@) == Ok::<
                    (CarrierFormat, Technique, Contents),
                    Fault,
                >((format, hit.0, contents_of(hit.1)))
            }
        },
        src.reliable() ==> (candidates(src.content()) matches Err(fault) ==> fails(r, fault)),
        progress.halted() ==> r is Err,
        src.reliable() && progress.halted() ==> fails(r, halt_fault(src.content())),
        r matches Err(e) ==> src.reliable() && progress.steady() ==> found(
            src.content(),
            kdf_params,
            passphrase@,
        ) == Err::<(CarrierFormat, Technique, Contents), Fault>(e@) || (e@ == out_of_memory() && seeks_key(
            src.content(),
            kdf_params,
        )),
{
    let format = sniff(src)?;
    let all = regions_in(format, src)?;
    let regions = keep_plausible(&all);
    if regions.len() == 0 {
        let carrier_looks_reencoded = looks_reencoded_in(format, src)?;
        return Err(ZolalError::NoHiddenData { carrier_looks_reencoded });
    }
    let costs = costs_to_try(kdf_params);
    let r = match format {
        CarrierFormat::Jpeg => find(&JpegCarrier, src, &regions, &costs, passphrase, progress),
        CarrierFormat::Mp4 => find(&Mp4Carrier, src, &regions, &costs, passphrase, progress),
        CarrierFormat::Pdf => find(&PdfCarrier, src, &regions, &costs, passphrase, progress),
        CarrierFormat::Mp3 => find(&Mp3Carrier, src, &regions, &costs, passphrase, progress),
    };
    match r {
        Ok(hit) => Ok((format, hit)),
        Err(e) => Err(e),
    }
}


/// Outcome of a successful [`reveal_files`].
#[derive(Debug)]
pub struct RevealReport {
    /// The name each recovered file was created under, in bundle order.
    pub files: Vec<String>,
    /// Each file's name before collision numbering. When moving the files somewhere else, number against
    /// these.
    pub names: Vec<String>,
    /// Total plaintext bytes recovered.
    pub total_bytes: u64,
    /// Where the payload was found.
    pub technique: Technique,
}

/// What [`reveal_files`] gets out of a file, or why it gets nothing.
pub open spec fn revealed(c: Seq<u8>, kdf_params: Option<KdfParams>, passphrase: Seq<char>) -> Result<
    (Technique, Seq<Unpacked>),
    Fault,
> {
    match found(c, kdf_params, passphrase) {
        Err(fault) => Err(fault),
        Ok((_, technique, contents)) => match unpack(contents.payload, contents.ending) {
            Err(fault) => Err(fault),
            Ok(list) => Ok((technique, list)),
        },
    }
}

/// A report of what was extracted.
pub open spec fn reports(report: RevealReport, technique: Technique, list: Seq<Unpacked>) -> bool {
    &&& report.technique == technique
    &&& texts(report.files@) == list.map_values(|u: Unpacked| u.name)
    &&& texts(report.names@) == list.map_values(|u: Unpacked| u.base)
    &&& report.total_bytes == unpacked_len(list)
}

/// Take an opened region's bundle apart into a folder. The reader, and with it the key, is dropped whatever
/// comes of it.
pub fn extract<'p, R: Read, D: Folder, G: Progress>(
    technique: Technique,
    opened: OpenReader<'p, R, G>,
    folder: &mut D,
) -> (r: Result<RevealReport, ZolalError>)
    ensures
        final(folder).reliable() == old(folder).reliable(),
        r matches Ok(report) ==> unpack(opened.remaining(), opened.ending()) matches Ok(list) && {
            &&& reports(report, technique, list)
            &&& final(folder).files() == old(folder).files() + listing(list)
        },
        r matches Err(e) ==> opened.reliable() && old(folder).reliable() && old(folder).files().len()
            == 0 ==> unpack(
            opened.remaining(),
            opened.ending(),
        ) == Err::<Seq<Unpacked>, Fault>(e@),
{
    let mut opened = opened;
    let extracted = read_bundle(&mut opened, folder);
    match extracted {
        Ok(extracted) => {
            let Extracted { files, names, total_bytes } = extracted;
            Ok(RevealReport { files, names, total_bytes, technique })
        },
        Err(e) => Err(e),
    }
}

/// Recover hidden files from a carrier into a folder.
///
/// Errors are those of [`find_hidden`], and [`ZolalError::DamagedPayload`] where a region authenticated
/// and then broke. The folder must be thrown away on any error.
pub fn reveal_files<S: ReadSeek, D: Folder, G: Progress>(
    src: &S,
    folder: &mut D,
    passphrase: &str,
    kdf_params: Option<KdfParams>,
    progress: &G,
) -> (r: Result<RevealReport, ZolalError>)
    ensures
        final(folder).reliable() == old(folder).reliable(),
        r matches Ok(report) ==> {
            &&& exists|format: CarrierFormat, contents: Contents, list: Seq<Unpacked>|
                {
                    &&& #[trigger] holds(
                        src.content(),
                        format,
                        report.technique,
                        kdf_params,
                        passphrase@,
                        contents,
                    )
                    &&& unpack(contents.payload, contents.ending) == Ok::<Seq<Unpacked>, Fault>(list)
                    &&& final(folder).files() == old(folder).files() + #[trigger] listing(list)
                    &&& reports(report, report.technique, list)
                }
            &&& src.reliable() && progress.steady() ==> {
                &&& revealed(src.content(), kdf_params, passphrase@) matches Ok((technique, list))
                &&& reports(report, technique, list)
                &&& final(folder).files() == old(folder).files() + listing(list)
            }
        },
        src.reliable() ==> (candidates(src.content()) matches Err(fault) ==> {
            &&& fails(r, fault)
            &&& final(folder).files() == old(folder).files()
        }),
        progress.halted() ==> r is Err && final(folder).files() == old(folder).files(),
        src.reliable() && progress.halted() ==> fails(r, halt_fault(src.content())),
        r matches Err(e) ==> src.reliable() && progress.steady() && found(
            src.content(),
            kdf_params,
            passphrase@,
        ) is Err ==> final(folder).files() == old(folder).files(),
        r matches Err(e) ==> src.reliable() && progress.steady() && old(folder).reliable()
            && old(folder).files().len() == 0 ==> {
            ||| revealed(src.content(), kdf_params, passphrase@) == Err::<
                (Technique, Seq<Unpacked>),
                Fault,
            >(e@)
            ||| e@ == out_of_memory() && seeks_key(src.content(), kdf_params)
        },
{
    let (format, (technique, opened)) = find_hidden(src, passphrase, kdf_params, progress)?;
    let ghost contents = contents_of(opened);
    let r = extract(technique, opened, folder);
    proof {
        assert(holds(src.content(), format, technique, kdf_params, passphrase@, contents));
        if r is Ok {
            let list = unpack(contents.payload, contents.ending)->Ok_0;
            assert(reports(r->Ok_0, technique, list));
            assert(final(folder).files() == old(folder).files() + listing(list));
        }
    }
    r
}

// ---------------------------------------------------------------------------------------------
// Cleaning

/// Outcome of a successful [`clean`].
#[derive(Debug, Clone, Copy, PartialEq, Eq, Structural)]
pub struct CleanReport {
    /// Size of the cleaned file.
    pub output_size: u64,
    /// How many bytes the carrier shed.
    pub removed_bytes: u64,
    /// Where the payload had been.
    pub technique: Technique,
}

/// The error for a file beyond the sizes that files have.
pub open spec fn oversized() -> Fault {
    Fault::Io { kind: IoErrorKind::Other, cause: IoFault::Message("file too large"@) }
}

/// What is left of a file without its hidden region, or why nothing is.
pub open spec fn without_hidden(format: CarrierFormat, c: Seq<u8>) -> Result<Seq<u8>, Fault> {
    if c.len() > SIZE_LIMIT {
        Err(oversized())
    } else {
        stripped_of(format, c)
    }
}

/// What [`clean`] writes, and where the payload had been; or why it writes nothing.
pub open spec fn cleaned(c: Seq<u8>, kdf_params: Option<KdfParams>, passphrase: Seq<char>) -> Result<
    (Technique, Seq<u8>),
    Fault,
> {
    match found(c, kdf_params, passphrase) {
        Err(fault) => Err(fault),
        Ok((format, technique, _)) => match without_hidden(format, c) {
            Err(fault) => Err(fault),
            Ok(out) => Ok((technique, out)),
        },
    }
}

/// How many bytes a file of `before` bytes shed if `after` are left.
pub open spec fn shed(before: nat, after: nat) -> nat {
    if before > after {
        (before - after) as nat
    } else {
        0
    }
}

fn strip_in<S: ReadSeek, W: Write>(format: CarrierFormat, src: &S, dst: &mut W) -> (r: Result<
    u64,
    ZolalError,
>)
    requires
        old(dst).written().len() + src.content().len() <= SIZE_LIMIT,
    ensures
        final(dst).reliable() == old(dst).reliable(),
        r matches Ok(n) ==> stripped_of(format, src.content()) matches Ok(out) && {
            &&& final(dst).written() == old(dst).written() + out
            &&& n == out.len()
        },
        r matches Err(e) ==> src.reliable() && old(dst).reliable() ==> stripped_of(
            format,
            src.content(),
        ) == Err::<Seq<u8>, Fault>(e@),
{
    match format {
        CarrierFormat::Jpeg => JpegCarrier.strip(src, dst),
        CarrierFormat::Mp4 => Mp4Carrier.strip(src, dst),
        CarrierFormat::Pdf => PdfCarrier.strip(src, dst),
        CarrierFormat::Mp3 => Mp3Carrier.strip(src, dst),
    }
}

/// Write a file's cleaned bytes to `dst`, once [`find_hidden`] has said that something of ours is there.
pub fn write_clean<S: ReadSeek, W: Write>(
    src: &S,
    format: CarrierFormat,
    technique: Technique,
    dst: &mut W,
) -> (r: Result<CleanReport, ZolalError>)
    requires
        old(dst).written().len() == 0,
    ensures
        final(dst).reliable() == old(dst).reliable(),
        r matches Ok(report) ==> without_hidden(format, src.content()) matches Ok(out) && {
            &&& final(dst).written() == out
            &&& report.output_size == out.len()
            &&& report.removed_bytes == shed(src.content().len(), out.len())
            &&& report.technique == technique
        },
        r matches Err(e) ==> src.reliable() && old(dst).reliable() ==> without_hidden(
            format,
            src.content(),
        ) == Err::<Seq<u8>, Fault>(e@),
{
    let carrier_size: u64 = match src.size() {
        Ok(n) => n,
        Err(e) => {
            return Err(ZolalError::from_io(e));
        },
    };
    if carrier_size > SIZE_LIMIT {
        return Err(ZolalError::Io(IoError::other("file too large")));
    }
    let output_size: u64 = strip_in(format, src, dst)?;
    assert(old(dst).written() =~= Seq::<u8>::empty());
    proof {
        let out = stripped_of(format, src.content())->Ok_0;
        assert(old(dst).written() + out =~= out);
    }
    let removed_bytes: u64 = if carrier_size > output_size {
        carrier_size - output_size
    } else {
        0
    };
    Ok(CleanReport { output_size, removed_bytes, technique })
}

/// Remove hidden content from a carrier, writing an ordinary file of the same format to `dst`.
///
/// The passphrase must be the one the content was hidden with. That is not about decrypting it (nothing
/// is decrypted beyond the first chunk) but about *identification*: hiding is markerless, so a candidate
/// region is only known to be ours when its tag verifies. Stripping a region on structure alone could
/// throw away something another tool put there.
///
/// Errors match [`reveal_files`]. Where nothing of ours is found, nothing is written.
pub fn clean<S: ReadSeek, W: Write, G: Progress>(
    src: &S,
    dst: &mut W,
    passphrase: &str,
    kdf_params: Option<KdfParams>,
    progress: &G,
) -> (r: Result<CleanReport, ZolalError>)
    requires
        old(dst).written().len() == 0,
    ensures
        final(dst).reliable() == old(dst).reliable(),
        r matches Ok(report) ==> {
            &&& exists|format: CarrierFormat, contents: Contents| #[trigger]
                holds(
                    src.content(),
                    format,
                    report.technique,
                    kdf_params,
                    passphrase@,
                    contents,
                ) && sniffed(src.content()) == Ok::<CarrierFormat, Fault>(format) && without_hidden(
                    format,
                    src.content(),
                ) == Ok::<Seq<u8>, Fault>(final(dst).written())
            &&& report.output_size == final(dst).written().len()
            &&& report.removed_bytes == shed(src.content().len(), final(dst).written().len())
            &&& src.reliable() && progress.steady() ==> cleaned(
                src.content(),
                kdf_params,
                passphrase@,
            ) == Ok::<(Technique, Seq<u8>), Fault>((report.technique, final(dst).written()))
        },
        src.reliable() ==> (candidates(src.content()) matches Err(fault) ==> {
            &&& fails(r, fault)
            &&& final(dst).written() == old(dst).written()
        }),
        progress.halted() ==> r is Err && final(dst).written() == old(dst).written(),
        src.reliable() && progress.halted() ==> fails(r, halt_fault(src.content())),
        r matches Err(e) ==> src.reliable() && progress.steady() && old(dst).reliable() ==> cleaned(
            src.content(),
            kdf_params,
            passphrase@,
        ) == Err::<(Technique, Seq<u8>), Fault>(e@) || (e@ == out_of_memory() && seeks_key(
            src.content(),
            kdf_params,
        )),
        r is Err && src.reliable() && progress.steady() && found(
            src.content(),
            kdf_params,
            passphrase@,
        ) is Err ==> final(dst).written() == old(dst).written(),
{
    let (format, (technique, opened)) = find_hidden(src, passphrase, kdf_params, progress)?;
    let ghost contents = contents_of(opened);
    assert(holds(src.content(), format, technique, kdf_params, passphrase@, contents));
    write_clean(src, format, technique, dst)
}

} // verus!
