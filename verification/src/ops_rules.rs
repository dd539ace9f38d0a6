//! What the operations decide, in numbers and bytes: what is accepted and what is refused, where a search
//! looks and what it finds, and what is said of files that nothing was hidden in.

use crate::carrier::jpeg::JpegCarrier;
use crate::carrier::jpeg_parts::{
    album, app15_bytes, has_app15, has_exif, jpeg_places_to_look, parts_valid, picture, tight, Part,
};
use crate::carrier::mp3::Mp3Carrier;
use crate::carrier::mp3_frames::{mp3_places_to_look, song, song_valid, TagFrame};
use crate::carrier::mp4::Mp4Carrier;
use crate::carrier::mp4_laws::{file_of, mp4_places_to_look, Piece};
use crate::carrier::pdf::PdfCarrier;
use crate::carrier::{Carrier, CarrierFormat, Region, Technique};
use crate::crypto::envelope_len;
use crate::crypto::kdf::KdfParams;
use crate::crypto::stream::{opening, Contents};
use crate::crypto::stream_laws::envelopes_have_a_range_of_lengths;
use crate::error::Fault;
use crate::ops::{
    chosen, cleaned, costs, embedded_len_of, embedded_of, found, hide_fault, holds, opens_in, plausible, predicted, probed,
    reencoded_of, regions_of, revealed, search, shed, sniffed, stopped, stripped_of, tried_costs, verdict_of, CarrierInfo, Prediction,
    Verdict,
};
use crate::payload::bundle::{plan_fault, planned_item, PayloadFile, Unpacked};
use crate::payload::manifest::whole_len;
use crate::probe_laws::{
    formats_follow_the_first_bytes, is_jpeg, is_mp3, is_mp4,
};
use vstd::prelude::*;

verus! {

// ---------------------------------------------------------------------------------------------
// Each format has its own carrier

/// What is done to a file is what its own format's carrier does.
pub proof fn formats_have_their_carriers(c: Seq<u8>, technique: Technique, region: Seq<u8>, n: nat)
    ensures
        embedded_of(CarrierFormat::Jpeg, c, technique, region) == JpegCarrier::embedded(c, technique, region),
        embedded_of(CarrierFormat::Mp4, c, technique, region) == Mp4Carrier::embedded(c, technique, region),
        embedded_of(CarrierFormat::Pdf, c, technique, region) == PdfCarrier::embedded(c, technique, region),
        embedded_of(CarrierFormat::Mp3, c, technique, region) == Mp3Carrier::embedded(c, technique, region),
        embedded_len_of(CarrierFormat::Jpeg, c, technique, n) == JpegCarrier::embedded_len(c, technique, n),
        embedded_len_of(CarrierFormat::Mp4, c, technique, n) == Mp4Carrier::embedded_len(c, technique, n),
        embedded_len_of(CarrierFormat::Pdf, c, technique, n) == PdfCarrier::embedded_len(c, technique, n),
        embedded_len_of(CarrierFormat::Mp3, c, technique, n) == Mp3Carrier::embedded_len(c, technique, n),
        stripped_of(CarrierFormat::Jpeg, c) == JpegCarrier::stripped(c),
        stripped_of(CarrierFormat::Mp4, c) == Mp4Carrier::stripped(c),
        stripped_of(CarrierFormat::Pdf, c) == PdfCarrier::stripped(c),
        stripped_of(CarrierFormat::Mp3, c) == Mp3Carrier::stripped(c),
        regions_of(CarrierFormat::Jpeg, c) == JpegCarrier::regions(c),
        regions_of(CarrierFormat::Mp4, c) == Mp4Carrier::regions(c),
        regions_of(CarrierFormat::Pdf, c) == PdfCarrier::regions(c),
        regions_of(CarrierFormat::Mp3, c) == Mp3Carrier::regions(c),
        reencoded_of(CarrierFormat::Jpeg, c) == JpegCarrier::reencoded(c),
        reencoded_of(CarrierFormat::Mp4, c) == Ok::<bool, Fault>(false),
        reencoded_of(CarrierFormat::Mp3, c) == Ok::<bool, Fault>(false),
{
}

/// Where nothing is asked for, a photo gets its region behind the image, a video in a `free` box, a document
/// in an object and a song in its tag. A technique of another format is refused, and says so.
pub proof fn techniques_fit_their_formats(c: Seq<u8>, format: CarrierFormat, technique: Technique)
    requires
        sniffed(c) == Ok::<CarrierFormat, Fault>(format),
    ensures
        technique == Technique::Auto ==> chosen(c, technique) == Ok::<(CarrierFormat, Technique), Fault>(
            (
                format,
                match format {
                    CarrierFormat::Jpeg => Technique::JpegTrailer,
                    CarrierFormat::Mp4 => Technique::Mp4FreeBox,
                    CarrierFormat::Pdf => Technique::PdfObject,
                    CarrierFormat::Mp3 => Technique::Mp3Id3,
                },
            ),
        ),
        ({
            ||| format == CarrierFormat::Jpeg && (technique == Technique::JpegTrailer || technique
                == Technique::JpegApp15)
            ||| format == CarrierFormat::Mp4 && technique == Technique::Mp4FreeBox
            ||| format == CarrierFormat::Pdf && technique == Technique::PdfObject
            ||| format == CarrierFormat::Mp3 && technique == Technique::Mp3Id3
        }) ==> chosen(c, technique) == Ok::<(CarrierFormat, Technique), Fault>((format, technique)),
        chosen(c, technique) matches Ok((f, t)) ==> f == format && (technique == Technique::Auto || t == technique),
        chosen(c, technique) is Err ==> technique != Technique::Auto,
{
}

// ---------------------------------------------------------------------------------------------
// Sizes

/// Only a JPEG is judged by its size: over 50 MiB it is too large, over 25 MiB it stands out, over 12 MiB it
/// is noticed. Any other file is judged by how much it grew.
pub proof fn photos_are_judged_by_size(size: u64, suspicious: bool, noticeable: bool, format: CarrierFormat)
    ensures
        verdict_of(CarrierFormat::Jpeg, size, suspicious, noticeable) == (if size > 50 * 1024 * 1024 {
            Verdict::TooLarge
        } else if suspicious || size > 25 * 1024 * 1024 {
            Verdict::Suspicious
        } else if noticeable || size > 12 * 1024 * 1024 {
            Verdict::Noticeable
        } else {
            Verdict::Natural
        }),
        format != CarrierFormat::Jpeg ==> verdict_of(format, size, suspicious, noticeable) == (if suspicious {
            Verdict::Suspicious
        } else if noticeable {
            Verdict::Noticeable
        } else {
            Verdict::Natural
        }),
{
}

/// A request that fits is granted: a known format, a technique of that format or none in particular, files
/// that can be bundled, room in the container, and no more than 50 MiB in the end where the carrier is a
/// JPEG. A JPEG that would be larger is refused with the advice to take a video.
pub proof fn requests_that_fit_are_granted(
    c: Seq<u8>,
    technique: Technique,
    resolved: Technique,
    format: CarrierFormat,
    files: Seq<PayloadFile>,
    size: nat,
)
    requires
        chosen(c, technique) == Ok::<(CarrierFormat, Technique), Fault>((format, resolved)),
        plan_fault(files, files.len()) is None,
        ({
            let n = envelope_len(whole_len(files.map_values(|f: PayloadFile| planned_item(f))));
            &&& embedded_len_of(format, c, resolved, n) == Ok::<nat, Fault>(size)
            &&& c.len() + n <= 0x7fff_ffff_ffff_ffff
        }),
    ensures
        format != CarrierFormat::Jpeg || size <= 50 * 1024 * 1024 ==> hide_fault(c, technique, files) is None,
        format == CarrierFormat::Jpeg && size > 50 * 1024 * 1024 ==> hide_fault(c, technique, files) == Some(
            Fault::PayloadTooLarge {
                output_size: size,
                limit: 50 * 1024 * 1024,
                suggestion: CarrierFormat::Mp4,
            },
        ),
{
}

/// A prediction is the size that hiding a payload of that length comes to, with the technique that is used
/// where none is asked for.
pub proof fn predictions_are_exact(c: Seq<u8>, payload: nat, p: Prediction)
    requires
        predicted(c, payload) == Ok::<Prediction, Fault>(p),
        c.len() <= u64::MAX,
    ensures
        sniffed(c) == Ok::<CarrierFormat, Fault>(p.format),
        p.carrier_size == c.len(),
        embedded_len_of(
            p.format,
            c,
            match p.format {
                CarrierFormat::Jpeg => Technique::JpegTrailer,
                CarrierFormat::Mp4 => Technique::Mp4FreeBox,
                CarrierFormat::Pdf => Technique::PdfObject,
                CarrierFormat::Mp3 => Technique::Mp3Id3,
            },
            envelope_len(payload),
        ) matches Ok(n) && p.result_size == n as u64,
{
}

/// The costs asked for are used, and where none are, those of the current version: 48 MiB, three passes, one
/// lane.
pub proof fn costs_asked_for_are_used(params: KdfParams)
    ensures
        costs(Some(params)) == params,
        costs(None) == (KdfParams { memory_kib: 49152, iterations: 3, parallelism: 1 }),
{
}

// ---------------------------------------------------------------------------------------------
// Searching

/// A place is looked at if it is 53 bytes long at least, and the places keep their order.
pub proof fn places_of_53_bytes_are_looked_at(list: Seq<Region>)
    ensures
        plausible(list) == list.filter(|r: Region| r.len >= 53),
    decreases list.len(),
{
    reveal(Seq::filter);
    if list.len() > 0 {
        places_of_53_bytes_are_looked_at(list.drop_last());
    }
}

/// Of several places, the first that opens is what is found: those before it that do not authenticate are
/// passed over, and those behind it are not looked at.
pub proof fn first_place_that_opens_is_found<C: Carrier>(
    c: Seq<u8>,
    regions: Seq<Region>,
    params: KdfParams,
    passphrase: Seq<char>,
    from: nat,
    i: int,
)
    requires
        from <= i < regions.len(),
        forall|j: int| from <= j < i ==> passed_over::<C>(c, #[trigger] regions[j], params, passphrase),
        C::region_bytes(c, regions[i]) is Ok,
    ensures
        ({
            let bytes = C::region_bytes(c, regions[i])->Ok_0;
            match opening(bytes, None, regions[i].len as nat, passphrase, params) {
                Ok(contents) => search::<C>(c, regions, seq![params], passphrase, from, 0) == Ok::<
                    (Technique, Contents),
                    Fault,
                >((regions[i].technique, contents)),
                Err(fault) => fault != Fault::WrongPassphrase ==> search::<C>(
                    c,
                    regions,
                    seq![params],
                    passphrase,
                    from,
                    0,
                ) == Err::<(Technique, Contents), Fault>(fault),
            }
        }),
    decreases i - from,
{
    reveal_with_fuel(search, 4);
    if from < i {
        assert(passed_over::<C>(c, regions[from as int], params, passphrase));
        first_place_that_opens_is_found::<C>(c, regions, params, passphrase, from + 1, i);
    }
}

/// The place can be read, and what it holds is answered as a wrong passphrase is.
pub open spec fn passed_over<C: Carrier>(
    c: Seq<u8>,
    region: Region,
    params: KdfParams,
    passphrase: Seq<char>,
) -> bool {
    C::region_bytes(c, region) matches Ok(bytes) && opening(
        bytes,
        None,
        region.len as nat,
        passphrase,
        params,
    ) == Err::<Contents, Fault>(Fault::WrongPassphrase)
}

/// Where no place opens, the passphrase is wrong.
pub proof fn no_place_that_opens_is_a_wrong_passphrase<C: Carrier>(
    c: Seq<u8>,
    regions: Seq<Region>,
    params: KdfParams,
    passphrase: Seq<char>,
    from: nat,
)
    requires
        from <= regions.len(),
        forall|j: int| from <= j < regions.len() ==> passed_over::<C>(c, #[trigger] regions[j], params, passphrase),
    ensures
        search::<C>(c, regions, seq![params], passphrase, from, 0) == Err::<(Technique, Contents), Fault>(
            Fault::WrongPassphrase,
        ),
    decreases regions.len() - from,
{
    reveal_with_fuel(search, 4);
    if from < regions.len() {
        assert(passed_over::<C>(c, regions[from as int], params, passphrase));
        no_place_that_opens_is_a_wrong_passphrase::<C>(c, regions, params, passphrase, from + 1);
    }
}

// ---------------------------------------------------------------------------------------------
// Files that nothing was hidden in

/// What is said of a file of `c.len()` bytes in which there is nothing to find.
pub open spec fn untouched(
    c: Seq<u8>,
    format: CarrierFormat,
    reencoded: bool,
    kdf_params: Option<KdfParams>,
    passphrase: Seq<char>,
) -> bool {
    let fault = Fault::NoHiddenData { carrier_looks_reencoded: reencoded };
    &&& probed(c) == Ok::<CarrierInfo, Fault>(
        (CarrierInfo { format, file_size: c.len() as u64, has_candidate_region: false }),
    )
    &&& found(c, kdf_params, passphrase) == Err::<(CarrierFormat, Technique, Contents), Fault>(fault)
    &&& revealed(c, kdf_params, passphrase) == Err::<(Technique, Seq<Unpacked>), Fault>(fault)
    &&& cleaned(c, kdf_params, passphrase) == Err::<(Technique, Seq<u8>), Fault>(fault)
}

proof fn lemma_untouched(
    c: Seq<u8>,
    format: CarrierFormat,
    reencoded: bool,
    list: Seq<Region>,
    kdf_params: Option<KdfParams>,
    passphrase: Seq<char>,
)
    requires
        sniffed(c) == Ok::<CarrierFormat, Fault>(format),
        regions_of(format, c) == Ok::<Seq<Region>, Fault>(list),
        forall|i: int| 0 <= i < list.len() ==> (#[trigger] list[i]).len < 53,
        reencoded_of(format, c) == Ok::<bool, Fault>(reencoded),
    ensures
        untouched(c, format, reencoded, kdf_params, passphrase),
{
    lemma_none_plausible(list);
}

proof fn lemma_none_plausible(list: Seq<Region>)
    requires
        forall|i: int| 0 <= i < list.len() ==> (#[trigger] list[i]).len < 53,
    ensures
        plausible(list).len() == 0,
    decreases list.len(),
{
    if list.len() > 0 {
        let less = list.drop_last();
        assert(list[list.len() - 1].len < 53);
        assert(forall|i: int| 0 <= i < less.len() ==> less[i] == list[i]);
        lemma_none_plausible(less);
    }
}

/// A video without a `free` or `skip` box of 53 bytes holds nothing, and is said to hold nothing.
pub proof fn plain_videos_hold_nothing(
    pieces: Seq<Piece>,
    kdf_params: Option<KdfParams>,
    passphrase: Seq<char>,
)
    requires
        pieces.len() > 0,
        forall|i: int| 0 <= i < pieces.len() ==> (#[trigger] pieces[i]).valid(),
        file_of(pieces).len() <= u64::MAX,
        is_mp4(file_of(pieces)),
        forall|i: int|
            0 <= i < pieces.len() && (#[trigger] pieces[i]).body.len() >= 53 ==> pieces[i].kind != seq![
                0x66u8,
                0x72,
                0x65,
                0x65,
            ] && pieces[i].kind != seq![0x73u8, 0x6b, 0x69, 0x70],
    ensures
        untouched(file_of(pieces), CarrierFormat::Mp4, false, kdf_params, passphrase),
{
    let c = file_of(pieces);
    formats_follow_the_first_bytes(c);
    mp4_places_to_look(pieces);
    let list = Mp4Carrier::regions(c)->Ok_0;
    assert forall|j: int| 0 <= j < list.len() implies (#[trigger] list[j]).len < 53 by {
        assert(crate::carrier::mp4_laws::looks_into_some(list[j], pieces));
    }
    lemma_untouched(c, CarrierFormat::Mp4, false, list, kdf_params, passphrase);
}

/// A song whose tag has no `PRIV` frame with an empty owner and 53 bytes behind it holds nothing, and is said
/// to hold nothing.
pub proof fn plain_songs_hold_nothing(
    major: u8,
    revision: u8,
    flags: u8,
    size: Seq<u8>,
    frames: Seq<TagFrame>,
    padding: Seq<u8>,
    rest: Seq<u8>,
    kdf_params: Option<KdfParams>,
    passphrase: Seq<char>,
)
    requires
        song_valid(major, flags, size, frames, padding),
        is_mp3(song(major, revision, flags, size, frames, padding, rest)),
        forall|i: int|
            0 <= i < frames.len() && (#[trigger] frames[i]).body.len() >= 54 ==> frames[i].id != seq![
                0x50u8,
                0x52,
                0x49,
                0x56,
            ] || frames[i].body[0] != 0 || frames[i].flags != seq![0u8, 0],
    ensures
        untouched(
            song(major, revision, flags, size, frames, padding, rest),
            CarrierFormat::Mp3,
            false,
            kdf_params,
            passphrase,
        ),
{
    let c = song(major, revision, flags, size, frames, padding, rest);
    formats_follow_the_first_bytes(c);
    mp3_places_to_look(major, revision, flags, size, frames, padding, rest);
    let list = Mp3Carrier::regions(c)->Ok_0;
    assert forall|j: int| 0 <= j < list.len() implies (#[trigger] list[j]).len < 53 by {
        assert(crate::carrier::mp3_frames::looks_into_some(list[j], c, frames));
    }
    lemma_untouched(c, CarrierFormat::Mp3, false, list, kdf_params, passphrase);
}

/// A photo, further pictures behind it included, with fewer than 53 bytes behind the last picture and in the
/// APP15 segments of its header holds nothing, and is said to hold nothing. If it has neither of these nor
/// EXIF data, it is said to look re-encoded.
pub proof fn plain_photos_hold_nothing(
    parts: Seq<Part>,
    fill: nat,
    more: Seq<(Seq<Part>, nat)>,
    tail: Seq<u8>,
    kdf_params: Option<KdfParams>,
    passphrase: Seq<char>,
)
    requires
        parts_valid(parts),
        tight(parts),
        forall|i: int| 0 <= i < more.len() ==> parts_valid((#[trigger] more[i]).0),
        tail.len() < 2 || tail[0] != 0xFF || tail[1] != 0xD8,
        (picture(parts, fill) + album(more) + tail).len() <= u64::MAX,
        tail.len() < 53,
        has_app15(parts) ==> app15_bytes(parts).len() < 53,
    ensures
        untouched(
            picture(parts, fill) + album(more) + tail,
            CarrierFormat::Jpeg,
            tail.len() == 0 && !has_app15(parts) && !has_exif(parts),
            kdf_params,
            passphrase,
        ),
{
    let c = picture(parts, fill) + album(more) + tail;
    assert(c[0] == 0xFF && c[1] == 0xD8);
    assert(is_jpeg(c));
    formats_follow_the_first_bytes(c);
    jpeg_places_to_look(parts, fill, more, tail);
    let list = JpegCarrier::regions(c)->Ok_0;
    assert forall|j: int| 0 <= j < list.len() implies (#[trigger] list[j]).len < 53 by {}
    lemma_untouched(
        c,
        CarrierFormat::Jpeg,
        tail.len() == 0 && !has_app15(parts) && !has_exif(parts),
        list,
        kdf_params,
        passphrase,
    );
}

/// A probe tells the format, the size, and whether there is a place of 53 bytes to look at.
pub proof fn probes_tell_format_size_and_room(c: Seq<u8>, info: CarrierInfo)
    requires
        c.len() <= u64::MAX,
        probed(c) == Ok::<CarrierInfo, Fault>(info),
    ensures
        sniffed(c) == Ok::<CarrierFormat, Fault>(info.format),
        info.file_size == c.len(),
        regions_of(info.format, c) matches Ok(list) && (info.has_candidate_region <==> exists|i: int|
            0 <= i < list.len() && (#[trigger] list[i]).len >= 53),
{
    lemma_some_plausible(regions_of(info.format, c)->Ok_0);
}

proof fn lemma_some_plausible(list: Seq<Region>)
    ensures
        plausible(list).len() > 0 <==> exists|i: int| 0 <= i < list.len() && (#[trigger] list[i]).len >= 53,
    decreases list.len(),
{
    if list.len() > 0 {
        let less = list.drop_last();
        lemma_some_plausible(less);
        if list.last().len >= 53 {
            assert(list[list.len() - 1].len >= 53);
        }
        if plausible(less).len() > 0 {
            let i = choose|i: int| 0 <= i < less.len() && (#[trigger] less[i]).len >= 53;
            assert(list[i].len >= 53);
        }
        if exists|i: int| 0 <= i < list.len() && (#[trigger] list[i]).len >= 53 {
            let i = choose|i: int| 0 <= i < list.len() && (#[trigger] list[i]).len >= 53;
            if i < less.len() {
                assert(less[i].len >= 53);
            }
        }
    }
}

/// What a clean reports to have removed is how much shorter the file has become.
pub proof fn cleaning_reports_the_difference(left: nat, removed: nat)
    ensures
        shed(left + removed, left) == removed,
        shed(left, left + removed) == 0,
{
}

/// A search that is to stop stops at the first place that can be an envelope. Where there is none, nothing is
/// left to stop.
pub proof fn searches_stop_at_the_first_envelope<C: Carrier>(c: Seq<u8>, regions: Seq<Region>, bytes: Seq<u8>)
    requires
        regions.len() > 0 ==> C::region_bytes(c, regions[0]) == Ok::<Seq<u8>, Fault>(bytes),
    ensures
        regions.len() == 0 ==> stopped::<C>(c, regions, 0) == Fault::WrongPassphrase,
        regions.len() > 0 && 53 <= regions[0].len <= 0x1_0000_0000 && bytes.len() >= 35 ==> stopped::<C>(
            c,
            regions,
            0,
        ) == Fault::Cancelled,
        regions.len() > 0 && regions[0].len < 53 ==> stopped::<C>(c, regions, 0) == stopped::<C>(c, regions, 1),
        regions.len() == 1 && regions[0].len < 53 ==> stopped::<C>(c, regions, 0) == Fault::WrongPassphrase,
{
    reveal_with_fuel(stopped, 3);
    if regions.len() > 0 {
        envelopes_have_a_range_of_lengths(bytes, None, regions[0].len as nat);
    }
}

/// Each of the places that are 53 bytes long is one where a file can hold something.
pub proof fn every_place_counts(
    c: Seq<u8>,
    format: CarrierFormat,
    kdf_params: Option<KdfParams>,
    passphrase: Seq<char>,
    contents: Contents,
    list: Seq<Region>,
    i: int,
)
    requires
        regions_of(format, c) == Ok::<Seq<Region>, Fault>(list),
        0 <= i < list.len(),
        list[i].len >= 53,
        opens_in(format, c, list[i], tried_costs(kdf_params), passphrase, contents),
    ensures
        holds(c, format, list[i].technique, kdf_params, passphrase, contents),
{
    lemma_stays_plausible(list, i);
}

proof fn lemma_stays_plausible(list: Seq<Region>, i: int)
    requires
        0 <= i < list.len(),
        list[i].len >= 53,
    ensures
        exists|j: int| 0 <= j < plausible(list).len() && #[trigger] plausible(list)[j] == list[i],
    decreases list.len(),
{
    let less = list.drop_last();
    let kept = plausible(list);
    if i < less.len() {
        lemma_stays_plausible(less, i);
        let j = choose|j: int| 0 <= j < plausible(less).len() && #[trigger] plausible(less)[j] == less[i];
        assert(kept[j] == list[i]);
    } else {
        assert(kept[kept.len() - 1] == list[i]);
    }
}

} // verus!
