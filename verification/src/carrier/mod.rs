//! Carrier formats: the one abstraction every format difference collapses into.

pub mod jpeg;
pub mod jpeg_laws;
pub mod jpeg_parts;
pub mod mp3;
pub mod mp3_frames;
pub mod mp3_laws;
pub mod pdf;
pub mod pdf_laws;
pub mod pdf_lemmas;
pub mod pdf_parts;
pub mod pdf_syntax;
pub mod mp4;
pub mod mp4_laws;

use crate::error::{Fault, IoError, IoErrorKind, IoFault, ZolalError};
pub use crate::io::{CountingWriter, ReadSeek, RegionReader, Read, Write};
use crate::text::{append_decimal, decimal_text};
use vstd::prelude::*;

verus! {

/// Container formats accepted as carriers.
#[derive(Debug, Clone, Copy, PartialEq, Eq, Structural)]
pub enum CarrierFormat {
    /// JPEG image.
    Jpeg,
    /// MP4 / ISOBMFF video.
    Mp4,
    /// PDF document.
    Pdf,
    /// MP3 audio.
    Mp3,
}

impl CarrierFormat {
    /// The characters of [`CarrierFormat::name`].
    pub open spec fn label(self) -> Seq<char> {
        match self {
            CarrierFormat::Jpeg => "JPEG"@,
            CarrierFormat::Mp4 => "MP4"@,
            CarrierFormat::Pdf => "PDF"@,
            CarrierFormat::Mp3 => "MP3"@,
        }
    }

    /// Short display name.
    pub fn name(self) -> (r: &'static str)
        ensures
            r@ == self.label(),
    {
        match self {
            CarrierFormat::Jpeg => "JPEG",
            CarrierFormat::Mp4 => "MP4",
            CarrierFormat::Pdf => "PDF",
            CarrierFormat::Mp3 => "MP3",
        }
    }
}

/// Which container trick to use.
#[derive(Debug, Clone, Copy, PartialEq, Eq, Structural)]
pub enum Technique {
    /// Pick the default for the detected format.
    Auto,
    /// Append after the JPEG end-of-image marker. Default for JPEG.
    JpegTrailer,
    /// Store across `FFEF` APP15 segments, so it reads as metadata rather than junk at the end.
    JpegApp15,
    /// Append a top-level ISOBMFF `free` box. Default for MP4.
    Mp4FreeBox,
    /// Append an unreferenced stream object in a PDF incremental update. Default for PDF.
    PdfObject,
    /// Store in a private frame of the ID3v2 tag. Default for MP3.
    Mp3Id3,
}

impl Technique {
    /// What [`Technique::resolve`] returns.
    pub open spec fn resolved(self, format: CarrierFormat) -> Technique {
        match (self, format) {
            (Technique::Auto, CarrierFormat::Jpeg) => Technique::JpegTrailer,
            (Technique::Auto, CarrierFormat::Mp4) => Technique::Mp4FreeBox,
            (Technique::Auto, CarrierFormat::Pdf) => Technique::PdfObject,
            (Technique::Auto, CarrierFormat::Mp3) => Technique::Mp3Id3,
            (explicit, _) => explicit,
        }
    }

    /// Resolve [`Technique::Auto`] to the default technique for `format`.
    pub fn resolve(self, format: CarrierFormat) -> (r: Technique)
        ensures
            r == self.resolved(format),
    {
        match (self, format) {
            (Technique::Auto, CarrierFormat::Jpeg) => Technique::JpegTrailer,
            (Technique::Auto, CarrierFormat::Mp4) => Technique::Mp4FreeBox,
            (Technique::Auto, CarrierFormat::Pdf) => Technique::PdfObject,
            (Technique::Auto, CarrierFormat::Mp3) => Technique::Mp3Id3,
            (explicit, _) => explicit,
        }
    }

    /// What [`Technique::format`] returns.
    pub open spec fn home(self) -> Option<CarrierFormat> {
        match self {
            Technique::Auto => None,
            Technique::JpegTrailer | Technique::JpegApp15 => Some(CarrierFormat::Jpeg),
            Technique::Mp4FreeBox => Some(CarrierFormat::Mp4),
            Technique::PdfObject => Some(CarrierFormat::Pdf),
            Technique::Mp3Id3 => Some(CarrierFormat::Mp3),
        }
    }

    /// The format this technique applies to, or `None` for [`Technique::Auto`].
    pub fn format(self) -> (r: Option<CarrierFormat>)
        ensures
            r == self.home(),
    {
        match self {
            Technique::Auto => None,
            Technique::JpegTrailer | Technique::JpegApp15 => Some(CarrierFormat::Jpeg),
            Technique::Mp4FreeBox => Some(CarrierFormat::Mp4),
            Technique::PdfObject => Some(CarrierFormat::Pdf),
            Technique::Mp3Id3 => Some(CarrierFormat::Mp3),
        }
    }
}

/// Resolving [`Technique::Auto`] always lands on a technique of the format it was resolved for,
/// and resolving twice changes nothing.
pub proof fn auto_resolves_to_its_format(format: CarrierFormat, technique: Technique)
    ensures
        Technique::Auto.resolved(format).home() == Some(format),
        technique.resolved(format) != Technique::Auto,
        technique.resolved(format).resolved(format) == technique.resolved(format),
        technique != Technique::Auto ==> technique.resolved(format) == technique,
{
}

/// The largest offset a file can have. Sizes beyond it are not handled.
pub const SIZE_LIMIT: u64 = 0x7fff_ffff_ffff_ffff;

/// Up to this size of carrier and region together, the size of the output can be worked out in 64 bits,
/// whatever the container adds to it.
pub const OUTPUT_LIMIT: u64 = 0xffe0_0000_0000_0000;

/// A byte range that could hold an envelope.
#[derive(Debug, Clone, Copy, PartialEq, Eq, Structural)]
pub struct Region {
    /// Byte offset from the start of the file (of the first fragment, when fragmented).
    pub offset: u64,
    /// Length of the region in bytes (summed over fragments).
    pub len: u64,
    /// Which technique produced regions of this shape.
    pub technique: Technique,
    /// True when the bytes are not contiguous on disk and must be gathered first.
    pub fragmented: bool,
}

/// Produces the bytes of a region, block by block.
pub trait Fill {
    /// Everything produced so far.
    open spec fn produced(&self) -> Seq<u8> {
        Seq::empty()
    }

    /// How many bytes are still to come.
    open spec fn left(&self) -> nat {
        0
    }

    /// Whether it is in order. Every block needs this, and leaves it so.
    open spec fn wf(&self) -> bool {
        false
    }

    /// What it was made from. This never changes.
    open spec fn origin(&self) -> Seq<Seq<u8>> {
        Seq::empty()
    }

    /// What happens after the last of them: the end, or an error.
    open spec fn ending(&self) -> Option<Fault> {
        None
    }

    /// Whether nothing can go wrong before that.
    open spec fn reliable(&self) -> bool {
        false
    }

    /// The next block. An empty one means that there are no more.
    fn next_block(&mut self) -> (r: Result<Vec<u8>, ZolalError>)
        requires
            old(self).wf(),
        ensures
            final(self).wf(),
            old(self).reliable() ==> final(self).reliable(),
            final(self).origin() == old(self).origin(),
            r matches Ok(block) ==> {
                &&& block@.len() <= old(self).left()
                &&& final(self).left() == old(self).left() - block@.len()
                &&& final(self).produced() == old(self).produced() + block@
                &&& final(self).ending() == old(self).ending()
                &&& block@.len() == 0 ==> old(self).left() == 0 && old(self).ending() is None
            },
            r matches Err(e) ==> old(self).reliable() ==> {
                &&& old(self).left() == 0
                &&& old(self).ending() == Some(e@)
            },
    ;
}

/// What `after` has produced beyond `before`.
pub open spec fn newly_produced<F: Fill>(before: F, after: F) -> Seq<u8> {
    after.produced().skip(before.produced().len() as int)
}

/// The error for a [`Fill`] that produced another length than it promised.
pub open spec fn mismatch(expected: nat, got: nat) -> Fault {
    Fault::Io {
        kind: IoErrorKind::Other,
        cause: IoFault::Message(
            "internal error: region should be "@ + decimal_text(expected) + " bytes, "@
                + decimal_text(got) + " were written"@,
        ),
    }
}

/// The error for a [`Fill`] that produced another length than it promised. Always a bug.
pub fn region_len_mismatch(expected: u64, got: u64) -> (r: ZolalError)
    ensures
        r@ == mismatch(expected as nat, got as nat),
{
    let mut text = "internal error: region should be ".to_owned();
    append_decimal(&mut text, expected);
    text.append(" bytes, ");
    append_decimal(&mut text, got);
    text.append(" were written");
    ZolalError::Io(IoError::other(text.as_str()))
}

/// Write everything that `fill` produces, which has to come to `region_len` bytes.
pub fn pump<W: Write, F: Fill>(out: &mut CountingWriter<W>, fill: &mut F, region_len: u64) -> (r:
    Result<(), ZolalError>)
    requires
        old(out).wf(),
        old(fill).wf(),
        old(out).written().len() + old(fill).left() <= u64::MAX,
    ensures
        *final(final(out).inner) == *final(old(out).inner),
        final(out).reliable() == old(out).reliable(),
        final(fill).wf(),
        final(fill).origin() == old(fill).origin(),
        r is Ok ==> {
            let region = newly_produced(*old(fill), *final(fill));
            &&& final(out).wf()
            &&& final(out).extends(*old(out), region)
            &&& region.len() == region_len
            &&& old(fill).left() == region_len
            &&& final(fill).left() == 0
            &&& old(fill).ending() is None
            &&& final(fill).ending() is None
            &&& final(fill).produced() == old(fill).produced() + region
        },
        r matches Err(e) ==> old(out).reliable() && old(fill).reliable() ==> match old(fill).ending() {
            Some(fault) => e@ == fault,
            None => old(fill).left() != region_len && e@ == mismatch(
                region_len as nat,
                old(fill).left(),
            ),
        },
{
    let ghost mut region: Seq<u8> = Seq::empty();
    let mut got: u64 = 0;
    proof {
        assert(out.written() =~= old(out).written() + region);
        assert(fill.produced() =~= old(fill).produced() + region);
    }
    loop
        invariant
            old(out).written().len() + old(fill).left() <= u64::MAX,
            *final(out.inner) == *final(old(out).inner),
            out.reliable() == old(out).reliable(),
            old(fill).reliable() ==> fill.reliable(),
            fill.wf(),
            fill.origin() == old(fill).origin(),
            fill.ending() == old(fill).ending(),
            out.wf(),
            out.extends(*old(out), region),
            got == region.len(),
            region.len() + fill.left() == old(fill).left(),
            fill.produced() == old(fill).produced() + region,
        ensures
            fill.left() == 0,
            old(fill).ending() is None,
        decreases fill.left(),
    {
        let block = fill.next_block()?;
        if block.len() == 0 {
            assert(fill.produced() =~= old(fill).produced() + region);
            break;
        }
        match out.write_all(block.as_slice()) {
            Ok(()) => {},
            Err(e) => {
                return Err(ZolalError::from_io(e));
            },
        }
        proof {
            assert(out.written() =~= old(out).written() + (region + block@));
            assert(fill.produced() =~= old(fill).produced() + (region + block@));
            region = region + block@;
        }
        got = got + block.len() as u64;
    }
    assert(newly_produced(*old(fill), *fill) =~= region);
    if got != region_len {
        return Err(region_len_mismatch(region_len, got));
    }
    Ok(())
}

/// The name that [`technique_name`] gives.
pub open spec fn technique_label(technique: Technique) -> Seq<char> {
    match technique {
        Technique::Auto => "Auto"@,
        Technique::JpegTrailer => "JpegTrailer"@,
        Technique::JpegApp15 => "JpegApp15"@,
        Technique::Mp4FreeBox => "Mp4FreeBox"@,
        Technique::PdfObject => "PdfObject"@,
        Technique::Mp3Id3 => "Mp3Id3"@,
    }
}

/// The name of a technique, for error messages.
pub fn technique_name(technique: Technique) -> (r: &'static str)
    ensures
        r@ == technique_label(technique),
{
    match technique {
        Technique::Auto => "Auto",
        Technique::JpegTrailer => "JpegTrailer",
        Technique::JpegApp15 => "JpegApp15",
        Technique::Mp4FreeBox => "Mp4FreeBox",
        Technique::PdfObject => "PdfObject",
        Technique::Mp3Id3 => "Mp3Id3",
    }
}

/// The error for a technique of another format.
pub open spec fn not_applicable(technique: Technique, ending: Seq<char>) -> Fault {
    Fault::InvalidRequest(technique_label(technique) + ending)
}

/// The error for a technique of another format. `ending` completes the sentence.
pub fn technique_mismatch(technique: Technique, ending: &str) -> (r: ZolalError)
    ensures
        r@ == not_applicable(technique, ending@),
{
    let mut text = technique_name(technique).to_owned();
    text.append(ending);
    ZolalError::InvalidRequest(text)
}

/// An error that is the expected one, or a failure to read from a source that may fail.
pub open spec fn failed(e: ZolalError, steady: bool, expected: Fault) -> bool {
    e@ == expected || (!steady && e is Io)
}

/// A result of walking a file: the expected one, or a failure to read where the source may fail.
pub open spec fn walked<T>(r: Result<T, ZolalError>, steady: bool, expected: Result<T, Fault>) -> bool {
    match r {
        Ok(value) => expected == Ok::<T, Fault>(value),
        Err(e) => (!steady && e is Io) || expected == Err::<T, Fault>(e@),
    }
}

/// Implemented once per container format.
///
/// The spec functions say what each format does to the bytes of a file; the executable methods
/// stream.
pub trait Carrier: Sized {
    /// Whether a file that begins with `head` is of this format.
    spec fn recognised(head: Seq<u8>) -> bool;

    /// The byte ranges of a file that could hold an envelope, in priority order.
    spec fn regions(content: Seq<u8>) -> Result<Seq<Region>, Fault>;

    /// The bytes of one such range.
    spec fn region_bytes(content: Seq<u8>, region: Region) -> Result<Seq<u8>, Fault>;

    /// The file with a region in it.
    spec fn embedded(content: Seq<u8>, technique: Technique, region: Seq<u8>) -> Seq<u8>;

    /// The length of that file for a region of `region_len` bytes, or why there is none.
    spec fn embedded_len(content: Seq<u8>, technique: Technique, region_len: nat) -> Result<
        nat,
        Fault,
    >;

    /// The file with any hidden region left out.
    spec fn stripped(content: Seq<u8>) -> Result<Seq<u8>, Fault>;

    /// Whether the file looks like something re-encoded it.
    spec fn reencoded(content: Seq<u8>) -> Result<bool, Fault>;

    /// Cheap magic-byte test against the first few bytes of a file.
    fn probe(head: &[u8]) -> (r: bool)
        ensures
            r == Self::recognised(head@),
    ;

    /// Byte ranges that could hold an envelope, in priority order.
    ///
    /// This is structural and passphrase-free, which is what keeps the format markerless: the
    /// *possible* hiding places are listed and the authentication tag decides.
    fn candidate_regions<S: ReadSeek>(&self, src: &S) -> (r: Result<Vec<Region>, ZolalError>)
        ensures
            r matches Ok(list) ==> Self::regions(src.content()) == Ok::<Seq<Region>, Fault>(list@),
            r matches Err(e) ==> src.reliable() ==> Self::regions(src.content()) == Err::<
                Seq<Region>,
                Fault,
            >(e@),
    ;

    /// A reader over the bytes of `region`, gathering fragments if needed.
    fn open_region<'a, S: ReadSeek>(&self, src: &'a S, region: &Region) -> (r: Result<
        RegionReader<'a, S>,
        ZolalError,
    >)
        ensures
            r matches Ok(reader) ==> {
                &&& Self::region_bytes(src.content(), *region) == Ok::<Seq<u8>, Fault>(
                    reader.remaining(),
                )
                &&& reader.ending() is None
                &&& reader.reliable() == src.reliable()
            },
            r matches Err(e) ==> src.reliable() ==> Self::region_bytes(src.content(), *region)
                == Err::<Seq<u8>, Fault>(e@),
    ;

    /// Stream `src` to `dst`, splicing in a region of exactly `region_len` bytes produced by
    /// `fill`, using `technique` (already resolved).
    ///
    /// Returns the number of bytes written to `dst`.
    fn embed<S: ReadSeek, W: Write, F: Fill>(
        &self,
        src: &S,
        dst: &mut W,
        technique: Technique,
        region_len: u64,
        fill: &mut F,
    ) -> (r: Result<u64, ZolalError>)
        requires
            old(fill).wf(),
            src.content().len() + region_len <= SIZE_LIMIT,
            old(dst).written().len() + src.content().len() + old(fill).left() <= SIZE_LIMIT,
        ensures
            final(dst).reliable() == old(dst).reliable(),
            final(fill).wf(),
            final(fill).origin() == old(fill).origin(),
            r matches Ok(n) ==> {
                let region = newly_produced(*old(fill), *final(fill));
                let out = Self::embedded(src.content(), technique, region);
                &&& region.len() == region_len
                &&& old(fill).left() == region_len
                &&& final(fill).left() == 0
                &&& old(fill).ending() is None
                &&& final(fill).ending() is None
                &&& final(fill).produced() == old(fill).produced() + region
                &&& Self::embedded_len(src.content(), technique, region_len as nat) == Ok::<
                    nat,
                    Fault,
                >(out.len())
                &&& final(dst).written() == old(dst).written() + out
                &&& n == out.len()
            },
            r matches Err(e) ==> src.reliable() && old(dst).reliable() && old(fill).reliable()
                ==> match Self::embedded_len(src.content(), technique, region_len as nat) {
                Err(fault) => e@ == fault,
                Ok(_) => match old(fill).ending() {
                    Some(fault) => e@ == fault,
                    None => old(fill).left() != region_len && e@ == mismatch(
                        region_len as nat,
                        old(fill).left(),
                    ),
                },
            },
    ;

    /// Exact size of what [`Carrier::embed`] would write for a region of `region_len` bytes.
    ///
    /// Exact rather than "carrier size plus region" because embedding drops earlier hidden
    /// content: re-hiding into a heavy file must not be refused for weight it's about to lose.
    fn output_len<S: ReadSeek>(&self, src: &S, technique: Technique, region_len: u64) -> (r: Result<
        u64,
        ZolalError,
    >)
        requires
            src.content().len() + region_len <= OUTPUT_LIMIT,
        ensures
            r matches Ok(n) ==> Self::embedded_len(src.content(), technique, region_len as nat)
                == Ok::<nat, Fault>(n as nat),
            r matches Err(e) ==> src.reliable() ==> Self::embedded_len(
                src.content(),
                technique,
                region_len as nat,
            ) == Err::<nat, Fault>(e@),
    ;

    /// Stream `src` to `dst` with any hidden region left out, so the result is an ordinary file
    /// of this format again. Stripping a carrier that holds nothing is a plain copy.
    ///
    /// Returns the number of bytes written to `dst`.
    fn strip<S: ReadSeek, W: Write>(&self, src: &S, dst: &mut W) -> (r: Result<u64, ZolalError>)
        requires
            old(dst).written().len() + src.content().len() <= SIZE_LIMIT,
        ensures
            final(dst).reliable() == old(dst).reliable(),
            r matches Ok(n) ==> Self::stripped(src.content()) matches Ok(out) && {
                &&& final(dst).written() == old(dst).written() + out
                &&& n == out.len()
            },
            r matches Err(e) ==> src.reliable() && old(dst).reliable() ==> Self::stripped(
                src.content(),
            ) == Err::<Seq<u8>, Fault>(e@),
    ;

    /// Heuristic for [`ZolalError::NoHiddenData`]: does this carrier look like something (a chat
    /// app, usually) re-encoded it? A hint, never a claim.
    fn looks_reencoded<S: ReadSeek>(&self, src: &S) -> (r: Result<bool, ZolalError>)
        ensures
            walked(r, src.reliable(), Self::reencoded(src.content())),
    ;
}

/// The first place to look in `file` holds exactly `region`.
pub open spec fn reads_back<C: Carrier>(file: Seq<u8>, region: Seq<u8>) -> bool {
    C::regions(file) matches Ok(list) && {
        &&& list.len() > 0
        &&& list[0].len == region.len()
        &&& C::region_bytes(file, list[0]) == Ok::<Seq<u8>, Fault>(region)
    }
}

} // verus!
