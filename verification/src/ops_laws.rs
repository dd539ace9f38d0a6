//! What the library promises as a whole: what is hidden can be revealed, and cleaning undoes hiding.

use crate::carrier::jpeg::{shape, without, JpegCarrier};
use crate::carrier::jpeg_laws::{
    jpeg_region_reads_back, jpeg_rehiding_replaces, jpeg_strip_restores, starts_image,
};
use crate::carrier::mp3::Mp3Carrier;
use crate::carrier::mp3_laws::{
    mp3_is_tagged, mp3_region_reads_back, mp3_rehiding_replaces, mp3_strip_restores, tidy,
};
use crate::carrier::mp4::{boxes, padding_regions, starts_ftyp, Mp4Carrier};
use crate::carrier::mp4_laws::{
    mp4_embed_only_appends, mp4_region_reads_back, mp4_rehiding_replaces, mp4_strip_restores,
};
use crate::carrier::pdf::{anchor, PdfCarrier};
use crate::carrier::pdf_laws::{
    hideable, pdf_quiet_is_original, pdf_region_reads_back, pdf_rehiding_replaces,
    pdf_stays_recognised, pdf_strip_undoes_embed, settled,
};
use crate::carrier::pdf_lemmas::lemma_ascii;
use crate::carrier::{reads_back, Carrier, CarrierFormat, Region, Technique, SIZE_LIMIT};
use crate::crypto::envelope::current_header;
use crate::crypto::kdf::KdfParams;
use crate::crypto::stream::Contents;
use crate::crypto::{envelope_len, region_len_grows, MIN_REGION_LEN};
use crate::error::Fault;
use crate::ops::{
    cleaned, costs, embedded_len_of, embedded_of, found, hide_fault, hides, labelled, long_enough,
    payload_of, plan_fits, plan_for, plausible, predicted, probed, reencoded_of, regions_of,
    revealed, seals, search, sniffed, stripped_of, tried, tried_costs, verdict_of, writing_fault,
    CarrierInfo, HidePlan, Prediction, Verdict, JPEG_MAX_OUTPUT,
};
use crate::payload::bundle::{
    base_name, bundle, bundle_round_trips, created_names, files_from, parts_match, planned_item,
    unchanged_files_make_a_bundle, PayloadFile, Payloads, Unpacked,
};
use crate::payload::manifest::{
    content_len, encode_fault, encoded, items, whole_len, Entry, MAX_MANIFEST_LEN,
};
use vstd::prelude::*;

verus! {

/// The first plausible region is the first region, where that is long enough.
proof fn lemma_first_plausible(list: Seq<Region>)
    requires
        list.len() > 0,
        long_enough(list[0]),
    ensures
        plausible(list).len() > 0,
        plausible(list)[0] == list[0],
    decreases list.len(),
{
    if list.len() > 1 {
        lemma_first_plausible(list.drop_last());
    } else {
        assert(plausible(list.drop_last()).len() == 0);
    }
}

/// Where the first place to look holds a sealed envelope, the search finds what is in it.
pub proof fn first_region_is_found<C: Carrier>(
    out: Seq<u8>,
    region: Seq<u8>,
    payload: Seq<u8>,
    passphrase: Seq<char>,
    params: KdfParams,
)
    requires
        reads_back::<C>(out, region),
        seals(region, payload, passphrase, params),
    ensures
        ({
            let list = C::regions(out)->Ok_0;
            &&& plausible(list).len() > 0
            &&& plausible(list)[0] == list[0]
            &&& search::<C>(out, plausible(list), seq![params], passphrase, 0, 0) == Ok::<
                (Technique, Contents),
                Fault,
            >((list[0].technique, Contents { header: current_header(), payload, ending: None }))
        }),
{
    let list = C::regions(out)->Ok_0;
    assert(long_enough(list[0]));
    lemma_first_plausible(list);
    let costs = seq![params];
    assert(costs[0] == params);
    assert(tried::<C>(out, list[0], costs[0], passphrase) is Ok);
}


/// A photo with something hidden in it is still taken for a photo.
proof fn lemma_jpeg_sniffed(out: Seq<u8>)
    requires
        JpegCarrier::regions(out) is Ok,
    ensures
        sniffed(out) == Ok::<CarrierFormat, Fault>(CarrierFormat::Jpeg),
{
    let head = if out.len() > 16 {
        out.take(16)
    } else {
        out
    };
    assert(head[0] == out[0] && head[1] == out[1]);
}

/// A video that keeps its first twelve bytes is still taken for a video.
proof fn lemma_mp4_sniffed(c: Seq<u8>, out: Seq<u8>)
    requires
        sniffed(c) == Ok::<CarrierFormat, Fault>(CarrierFormat::Mp4),
        c.len() >= 12,
        out.len() >= 12,
        out.take(12) == c.take(12),
    ensures
        sniffed(out) == Ok::<CarrierFormat, Fault>(CarrierFormat::Mp4),
{
    let a = if c.len() > 16 {
        c.take(16)
    } else {
        c
    };
    let b = if out.len() > 16 {
        out.take(16)
    } else {
        out
    };
    assert forall|i: int| 0 <= i < 12 implies a[i] == b[i] by {
        assert(a[i] == c[i] && b[i] == out[i]);
        assert(c.take(12)[i] == c[i] && out.take(12)[i] == out[i]);
    }
    assert(a.subrange(4, 8) =~= b.subrange(4, 8));
    assert(a.subrange(8, 12) =~= b.subrange(8, 12));
}

/// A document that keeps its first bytes is still taken for a document.
proof fn lemma_pdf_sniffed(c: Seq<u8>, out: Seq<u8>)
    requires
        sniffed(c) == Ok::<CarrierFormat, Fault>(CarrierFormat::Pdf),
        out.len() >= 5,
        out.take(5) == c.take(5),
        c.len() >= 5,
    ensures
        sniffed(out) == Ok::<CarrierFormat, Fault>(CarrierFormat::Pdf),
{
    reveal_strlit("%PDF-");
    lemma_ascii("%PDF-");
    reveal_strlit("ftyp");
    lemma_ascii("ftyp");
    let a = if c.len() > 16 {
        c.take(16)
    } else {
        c
    };
    let b = if out.len() > 16 {
        out.take(16)
    } else {
        out
    };
    assert(a.take(5) =~= c.take(5));
    assert(b.take(5) =~= out.take(5));
    assert(b[0] == b.take(5)[0] && b[4] == b.take(5)[4]);
    if starts_ftyp(b) {
        assert(b.subrange(4, 8)[0] == b[4]);
    }
}

/// A song with something hidden in it is still taken for a song.
proof fn lemma_mp3_sniffed(c: Seq<u8>, region: Seq<u8>)
    requires
        Mp3Carrier::embedded_len(c, Technique::Mp3Id3, region.len()) is Ok,
        region.len() > 0,
    ensures
        sniffed(Mp3Carrier::embedded(c, Technique::Mp3Id3, region)) == Ok::<CarrierFormat, Fault>(
            CarrierFormat::Mp3,
        ),
{
    reveal_strlit("%PDF-");
    lemma_ascii("%PDF-");
    reveal_strlit("ftyp");
    lemma_ascii("ftyp");
    let out = Mp3Carrier::embedded(c, Technique::Mp3Id3, region);
    mp3_region_reads_back(c, region);
    mp3_is_tagged(c, region);
    let b = if out.len() > 16 {
        out.take(16)
    } else {
        out
    };
    assert(b[0] == 0x49 && b[1] == 0x44 && b[2] == 0x33 && b[4] == 0 && 2 <= b[3] <= 4);
    if starts_ftyp(b) {
        assert(b.subrange(4, 8)[0] == b[4]);
    }
    if b.len() >= 5 {
        assert(b.take(5)[0] == b[0]);
    }
}


/// What the law of finding asks of a carrier, beyond its format: a document's values must survive being
/// carried over, and a video with less than a whole `ftyp` box must not turn into something else.
pub open spec fn findable(c: Seq<u8>, p: HidePlan, out: Seq<u8>) -> bool {
    match p.format {
        CarrierFormat::Jpeg | CarrierFormat::Mp3 => true,
        CarrierFormat::Mp4 => Mp4Carrier::stripped(c)->Ok_0.len() >= 12 || sniffed(out) == Ok::<
            CarrierFormat,
            Fault,
        >(CarrierFormat::Mp4),
        CarrierFormat::Pdf => hideable(c, p.region_len as nat),
    }
}

// After a hide the format stays, and the first place to look holds the region.

proof fn lemma_jpeg_reads_back(c: Seq<u8>, technique: Technique, region: Seq<u8>)
    requires
        sniffed(c) == Ok::<CarrierFormat, Fault>(CarrierFormat::Jpeg),
        JpegCarrier::embedded_len(c, technique, region.len()) is Ok,
        JpegCarrier::embedded(c, technique, region).len() <= u64::MAX,
        region.len() >= MIN_REGION_LEN,
        !starts_image(region),
    ensures
        sniffed(JpegCarrier::embedded(c, technique, region)) == Ok::<CarrierFormat, Fault>(
            CarrierFormat::Jpeg,
        ),
        reads_back::<JpegCarrier>(JpegCarrier::embedded(c, technique, region), region),
        JpegCarrier::regions(JpegCarrier::embedded(c, technique, region))->Ok_0[0].technique == technique,
{
    let out = JpegCarrier::embedded(c, technique, region);
    jpeg_region_reads_back(c, technique, region);
    lemma_jpeg_sniffed(out);
}

proof fn lemma_mp4_reads_back(c: Seq<u8>, technique: Technique, region: Seq<u8>)
    requires
        sniffed(c) == Ok::<CarrierFormat, Fault>(CarrierFormat::Mp4),
        Mp4Carrier::embedded_len(c, technique, region.len()) is Ok,
        Mp4Carrier::embedded(c, technique, region).len() <= u64::MAX,
        region.len() >= MIN_REGION_LEN,
        Mp4Carrier::stripped(c)->Ok_0.len() >= 12 || sniffed(Mp4Carrier::embedded(c, technique, region))
            == Ok::<CarrierFormat, Fault>(CarrierFormat::Mp4),
    ensures
        sniffed(Mp4Carrier::embedded(c, technique, region)) == Ok::<CarrierFormat, Fault>(
            CarrierFormat::Mp4,
        ),
        reads_back::<Mp4Carrier>(Mp4Carrier::embedded(c, technique, region), region),
        Mp4Carrier::regions(Mp4Carrier::embedded(c, technique, region))->Ok_0[0].technique == technique,
{
    let out = Mp4Carrier::embedded(c, technique, region);
    mp4_region_reads_back(c, region);
    let kept = Mp4Carrier::stripped(c)->Ok_0;
    if kept.len() >= 12 {
        mp4_embed_only_appends(c, region);
        assert(out.take(12) =~= kept.take(12));
        assert(c.take(12) =~= kept.take(12));
        lemma_mp4_sniffed(c, out);
    }
}

proof fn lemma_pdf_reads_back(c: Seq<u8>, technique: Technique, region: Seq<u8>)
    requires
        sniffed(c) == Ok::<CarrierFormat, Fault>(CarrierFormat::Pdf),
        PdfCarrier::embedded_len(c, technique, region.len()) is Ok,
        PdfCarrier::embedded(c, technique, region).len() <= u64::MAX,
        region.len() >= MIN_REGION_LEN,
        hideable(c, region.len()),
    ensures
        sniffed(PdfCarrier::embedded(c, technique, region)) == Ok::<CarrierFormat, Fault>(
            CarrierFormat::Pdf,
        ),
        reads_back::<PdfCarrier>(PdfCarrier::embedded(c, technique, region), region),
        PdfCarrier::regions(PdfCarrier::embedded(c, technique, region))->Ok_0[0].technique == technique,
{
    let out = PdfCarrier::embedded(c, technique, region);
    pdf_region_reads_back(c, region);
    let head = if c.len() > 16 {
        c.take(16)
    } else {
        c
    };
    reveal_strlit("%PDF-");
    lemma_ascii("%PDF-");
    assert(head.take(5) =~= c.take(5));
    pdf_stays_recognised(c, region);
    lemma_pdf_sniffed(c, out);
}

proof fn lemma_mp3_reads_back(c: Seq<u8>, technique: Technique, region: Seq<u8>)
    requires
        sniffed(c) == Ok::<CarrierFormat, Fault>(CarrierFormat::Mp3),
        Mp3Carrier::embedded_len(c, technique, region.len()) is Ok,
        Mp3Carrier::embedded(c, technique, region).len() <= u64::MAX,
        region.len() >= MIN_REGION_LEN,
    ensures
        sniffed(Mp3Carrier::embedded(c, technique, region)) == Ok::<CarrierFormat, Fault>(
            CarrierFormat::Mp3,
        ),
        reads_back::<Mp3Carrier>(Mp3Carrier::embedded(c, technique, region), region),
        Mp3Carrier::regions(Mp3Carrier::embedded(c, technique, region))->Ok_0[0].technique == technique,
{
    let out = Mp3Carrier::embedded(c, technique, region);
    mp3_region_reads_back(c, region);
    lemma_mp3_sniffed(c, region);
}

/// What is hidden is found again: a search with the same passphrase and costs gives exactly the payload,
/// and says where it is.
pub proof fn hidden_is_found(
    c: Seq<u8>,
    p: HidePlan,
    out: Seq<u8>,
    payload: Seq<u8>,
    passphrase: Seq<char>,
    kdf_params: Option<KdfParams>,
)
    requires
        sniffed(c) == Ok::<CarrierFormat, Fault>(p.format),
        plan_fits(c, p),
        p.params == costs(kdf_params),
        hides(out, c, p, payload, passphrase),
        findable(c, p, out),
    ensures
        found(out, kdf_params, passphrase) == Ok::<(CarrierFormat, Technique, Contents), Fault>(
            (
                p.format,
                p.technique,
                Contents { header: current_header(), payload, ending: None },
            ),
        ),
        probed(out) == Ok::<CarrierInfo, Fault>(
            (CarrierInfo {
                format: p.format,
                file_size: p.expected_size,
                has_candidate_region: true,
            }),
        ),
{
    let region = choose|region: Seq<u8>|
        #[trigger] seals(region, payload, passphrase, p.params) && region.len() == p.region_len && out
            == embedded_of(p.format, c, p.technique, region) && out.len() == p.expected_size;
    assert(region.take(35)[0] == region[0] && region.take(35)[1] == region[1]);
    assert(tried_costs(kdf_params) =~= seq![p.params]);
    match p.format {
        CarrierFormat::Jpeg => {
            lemma_jpeg_reads_back(c, p.technique, region);
            first_region_is_found::<JpegCarrier>(out, region, payload, passphrase, p.params);
        },
        CarrierFormat::Mp4 => {
            lemma_mp4_reads_back(c, p.technique, region);
            first_region_is_found::<Mp4Carrier>(out, region, payload, passphrase, p.params);
        },
        CarrierFormat::Pdf => {
            lemma_pdf_reads_back(c, p.technique, region);
            first_region_is_found::<PdfCarrier>(out, region, payload, passphrase, p.params);
        },
        CarrierFormat::Mp3 => {
            lemma_mp3_reads_back(c, p.technique, region);
            first_region_is_found::<Mp3Carrier>(out, region, payload, passphrase, p.params);
        },
    }
}


/// What is hidden is revealed: every file comes back byte for byte, in order, under a name made from its
/// own.
pub proof fn hidden_files_are_revealed(
    c: Seq<u8>,
    p: HidePlan,
    out: Seq<u8>,
    parts: Seq<Seq<u8>>,
    passphrase: Seq<char>,
    kdf_params: Option<KdfParams>,
)
    requires
        sniffed(c) == Ok::<CarrierFormat, Fault>(p.format),
        plan_fits(c, p),
        p.params == costs(kdf_params),
        findable(c, p, out),
        parts_match(p.manifest.items(), parts),
        encode_fault(p.manifest.entries@) is None,
        encoded(p.manifest.items()).len() <= MAX_MANIFEST_LEN,
        created_names(p.manifest.items(), 0, Seq::empty()) is Some,
        hides(out, c, p, bundle(p.manifest.items(), parts), passphrase),
    ensures
        revealed(out, kdf_params, passphrase) matches Ok((technique, files)) && {
            let list = p.manifest.items();
            &&& technique == p.technique
            &&& files.len() == parts.len()
            &&& forall|i: int|
                0 <= i < files.len() ==> (#[trigger] files[i]).bytes == parts[i] && files[i].base
                    == base_name(list[i], i as nat) && files[i].name == created_names(
                    list,
                    0,
                    Seq::empty(),
                )->Some_0[i]
        },
{
    hidden_is_found(c, p, out, bundle(p.manifest.items(), parts), passphrase, kdf_params);
    bundle_round_trips(p.manifest, parts);
}

/// Where hiding leaves nothing of the carrier behind that a later clean would not put back.
pub open spec fn restorable(c: Seq<u8>, p: HidePlan) -> bool {
    match p.format {
        CarrierFormat::Jpeg => JpegCarrier::regions(c) == Ok::<Seq<Region>, Fault>(Seq::empty()),
        CarrierFormat::Mp4 => !boxes(c)->Ok_0.last().is_padding(),
        CarrierFormat::Mp3 => tidy(c),
        CarrierFormat::Pdf => anchor(c)->Ok_0.1 == c.len(),
    }
}

proof fn lemma_strip_restores(c: Seq<u8>, p: HidePlan, region: Seq<u8>)
    requires
        embedded_len_of(p.format, c, p.technique, region.len()) is Ok,
        embedded_of(p.format, c, p.technique, region).len() <= SIZE_LIMIT,
        region.len() >= MIN_REGION_LEN,
        region.len() <= SIZE_LIMIT,
        !starts_image(region),
        p.format == CarrierFormat::Pdf ==> hideable(c, region.len()),
        restorable(c, p),
    ensures
        stripped_of(p.format, embedded_of(p.format, c, p.technique, region)) == Ok::<Seq<u8>, Fault>(c),
{
    match p.format {
        CarrierFormat::Jpeg => {
            jpeg_strip_restores(c, p.technique, region);
        },
        CarrierFormat::Mp4 => {
            mp4_strip_restores(c, region);
        },
        CarrierFormat::Pdf => {
            pdf_strip_undoes_embed(c, region);
        },
        CarrierFormat::Mp3 => {
            mp3_strip_restores(c, region);
        },
    }
}

/// Cleaning undoes hiding: a carrier that nothing was hidden in, and that has no spare space of its own
/// where a hide would put something, is restored to the byte.
pub proof fn cleaning_undoes_hiding(
    c: Seq<u8>,
    p: HidePlan,
    out: Seq<u8>,
    payload: Seq<u8>,
    passphrase: Seq<char>,
    kdf_params: Option<KdfParams>,
)
    requires
        sniffed(c) == Ok::<CarrierFormat, Fault>(p.format),
        plan_fits(c, p),
        p.expected_size <= SIZE_LIMIT,
        p.params == costs(kdf_params),
        hides(out, c, p, payload, passphrase),
        findable(c, p, out),
        restorable(c, p),
    ensures
        cleaned(out, kdf_params, passphrase) == Ok::<(Technique, Seq<u8>), Fault>((p.technique, c)),
{
    let region = choose|region: Seq<u8>|
        #[trigger] seals(region, payload, passphrase, p.params) && region.len() == p.region_len && out
            == embedded_of(p.format, c, p.technique, region) && out.len() == p.expected_size;
    assert(region.take(35)[0] == region[0] && region.take(35)[1] == region[1]);
    hidden_is_found(c, p, out, payload, passphrase, kdf_params);
    lemma_strip_restores(c, p, region);
}

/// What is hidden is the only thing there is to find, whatever the carrier held before. A video may have
/// padding elsewhere that is looked at later.
pub proof fn hidden_is_all_there_is(
    first: Seq<u8>,
    p: HidePlan,
    out: Seq<u8>,
    payload: Seq<u8>,
    passphrase: Seq<char>,
    kdf_params: Option<KdfParams>,
)
    requires
        sniffed(first) == Ok::<CarrierFormat, Fault>(p.format),
        plan_fits(first, p),
        p.params == costs(kdf_params),
        hides(out, first, p, payload, passphrase),
        findable(first, p, out),
    ensures
        p.format != CarrierFormat::Mp4 ==> regions_of(p.format, out)->Ok_0.len() == 1,
        found(out, kdf_params, passphrase) == Ok::<(CarrierFormat, Technique, Contents), Fault>(
            (
                p.format,
                p.technique,
                Contents { header: current_header(), payload, ending: None },
            ),
        ),
{
    let region = choose|region: Seq<u8>|
        #[trigger] seals(region, payload, passphrase, p.params) && region.len() == p.region_len && out
            == embedded_of(p.format, first, p.technique, region) && out.len() == p.expected_size;
    assert(region.take(35)[0] == region[0] && region.take(35)[1] == region[1]);
    hidden_is_found(first, p, out, payload, passphrase, kdf_params);
    match p.format {
        CarrierFormat::Jpeg => {
            jpeg_region_reads_back(first, p.technique, region);
        },
        CarrierFormat::Mp4 => {},
        CarrierFormat::Pdf => {
            pdf_region_reads_back(first, region);
        },
        CarrierFormat::Mp3 => {
            mp3_region_reads_back(first, region);
        },
    }
}

/// What the law of hiding again asks of a carrier: in a photo, that the place for APP15 segments does not
/// move when a trailer is put in (see [`jpeg_rehiding_replaces`]); of a document, that its values can be
/// carried over and its own section is not mixed up with an update.
pub open spec fn replaceable(
    c: Seq<u8>,
    format: CarrierFormat,
    first: Technique,
    old_region: Seq<u8>,
    second: Technique,
) -> bool {
    match format {
        CarrierFormat::Jpeg => second == Technique::JpegApp15 && first == Technique::JpegTrailer ==> shape(
            JpegCarrier::embedded(c, first, old_region),
        )->Ok_0.insert_at == without(c, 0, shape(c)->Ok_0.insert_at, shape(c)->Ok_0.app15).len(),
        CarrierFormat::Pdf => hideable(c, old_region.len()) && settled(c),
        CarrierFormat::Mp4 | CarrierFormat::Mp3 => true,
    }
}

proof fn lemma_embedding_again(
    c: Seq<u8>,
    format: CarrierFormat,
    first: Technique,
    old_region: Seq<u8>,
    second: Technique,
    region: Seq<u8>,
)
    requires
        embedded_len_of(format, c, first, old_region.len()) is Ok,
        embedded_of(format, c, first, old_region).len() <= u64::MAX,
        old_region.len() >= MIN_REGION_LEN,
        old_region.len() <= SIZE_LIMIT,
        !starts_image(old_region),
        replaceable(c, format, first, old_region, second),
        embedded_len_of(format, embedded_of(format, c, first, old_region), second, region.len()) is Ok,
    ensures
        embedded_of(format, embedded_of(format, c, first, old_region), second, region) == embedded_of(
            format,
            c,
            second,
            region,
        ),
        embedded_len_of(format, embedded_of(format, c, first, old_region), second, region.len())
            == embedded_len_of(format, c, second, region.len()),
{
    match format {
        CarrierFormat::Jpeg => {
            jpeg_rehiding_replaces(c, first, old_region, second, region);
        },
        CarrierFormat::Mp4 => {
            mp4_rehiding_replaces(c, old_region, region);
        },
        CarrierFormat::Pdf => {
            pdf_rehiding_replaces(c, old_region, region);
        },
        CarrierFormat::Mp3 => {
            mp3_rehiding_replaces(c, old_region, region);
        },
    }
}

/// Hiding in a carrier that already holds something replaces it: what comes out is the carrier as it was
/// before the first hide, with the second payload in it, to the byte.
pub proof fn hiding_again_replaces(
    c: Seq<u8>,
    first: HidePlan,
    between: Seq<u8>,
    old_payload: Seq<u8>,
    old_passphrase: Seq<char>,
    second: HidePlan,
    out: Seq<u8>,
    payload: Seq<u8>,
    passphrase: Seq<char>,
)
    requires
        plan_fits(c, first),
        hides(between, c, first, old_payload, old_passphrase),
        plan_fits(between, second),
        second.format == first.format,
        hides(out, between, second, payload, passphrase),
        forall|old_region: Seq<u8>|
            #[trigger] seals(old_region, old_payload, old_passphrase, first.params) ==> replaceable(
                c,
                first.format,
                first.technique,
                old_region,
                second.technique,
            ),
    ensures
        hides(out, c, second, payload, passphrase),
        embedded_len_of(second.format, c, second.technique, second.region_len as nat) == Ok::<nat, Fault>(
            out.len(),
        ),
{
    let old_region = choose|region: Seq<u8>|
        #[trigger] seals(region, old_payload, old_passphrase, first.params) && region.len()
            == first.region_len && between == embedded_of(first.format, c, first.technique, region)
            && between.len() == first.expected_size;
    let region = choose|region: Seq<u8>|
        #[trigger] seals(region, payload, passphrase, second.params) && region.len() == second.region_len
            && out == embedded_of(second.format, between, second.technique, region) && out.len()
            == second.expected_size;
    assert(old_region.take(35)[0] == old_region[0] && old_region.take(35)[1] == old_region[1]);
    lemma_embedding_again(
        c,
        first.format,
        first.technique,
        old_region,
        second.technique,
        region,
    );
    assert(seals(region, payload, passphrase, second.params));
}

/// A prediction that is judged too large means that hiding will be refused: the bundle is never smaller
/// than the files in it.
pub proof fn too_large_is_refused(
    c: Seq<u8>,
    files: Seq<PayloadFile>,
    p: Prediction,
    grew_suspiciously: bool,
    grew_noticeably: bool,
)
    requires
        predicted(c, content_len(files.map_values(|f: PayloadFile| planned_item(f)))) == Ok::<
            Prediction,
            Fault,
        >(p),
        verdict_of(p.format, p.result_size, grew_suspiciously, grew_noticeably) == Verdict::TooLarge,
    ensures
        hide_fault(c, Technique::Auto, files) is Some,
{
    let list = files.map_values(|f: PayloadFile| planned_item(f));
    let technique = Technique::Auto.resolved(p.format);
    assert(p.format == CarrierFormat::Jpeg);
    assert(whole_len(list) > content_len(list));
    region_len_grows(content_len(list), whole_len(list));
    let small = embedded_len_of(p.format, c, technique, envelope_len(content_len(list)))->Ok_0;
    let big = embedded_len_of(p.format, c, technique, envelope_len(whole_len(list)))->Ok_0;
    assert(small < big);
    assert(small > JPEG_MAX_OUTPUT);
}

/// What a hide agrees to write is never judged too large.
pub proof fn accepted_is_not_too_large(
    c: Seq<u8>,
    technique: Technique,
    files: Seq<PayloadFile>,
    kdf_params: Option<KdfParams>,
    p: HidePlan,
    grew_suspiciously: bool,
    grew_noticeably: bool,
)
    requires
        hide_fault(c, technique, files) is None,
        plan_for(c, technique, files, kdf_params, p),
    ensures
        verdict_of(p.format, p.expected_size, grew_suspiciously, grew_noticeably) != Verdict::TooLarge,
{
}


/// Files that stay as they are while they are hidden come back as they were, in order and under names made
/// from their own.
pub proof fn unchanged_files_come_back<P: Payloads>(
    payloads: &P,
    labels: Seq<String>,
    c: Seq<u8>,
    p: HidePlan,
    out: Seq<u8>,
    parts: Seq<Seq<u8>>,
    passphrase: Seq<char>,
    kdf_params: Option<KdfParams>,
)
    requires
        sniffed(c) == Ok::<CarrierFormat, Fault>(p.format),
        plan_fits(c, p),
        p.params == costs(kdf_params),
        findable(c, p, out),
        parts_match(p.manifest.items(), parts),
        forall|i: int| 0 <= i < parts.len() ==> payloads.bytes(i) == #[trigger] parts[i],
        encode_fault(p.manifest.entries@) is None,
        encoded(p.manifest.items()).len() <= MAX_MANIFEST_LEN,
        created_names(p.manifest.items(), 0, Seq::empty()) is Some,
        hides(out, c, p, payload_of(payloads, p.manifest.entries@, labels).0, passphrase),
    ensures
        revealed(out, kdf_params, passphrase) matches Ok((technique, files)) && {
            let list = p.manifest.items();
            &&& technique == p.technique
            &&& files.len() == parts.len()
            &&& forall|i: int|
                0 <= i < files.len() ==> (#[trigger] files[i]).bytes == parts[i] && files[i].base
                    == base_name(list[i], i as nat) && files[i].name == created_names(
                    list,
                    0,
                    Seq::empty(),
                )->Some_0[i]
        },
{
    let entries = p.manifest.entries@;
    unchanged_files_make_a_bundle(payloads, entries, labels, parts, 0);
    assert(parts.skip(0) =~= parts);
    assert(payload_of(payloads, entries, labels).0 == bundle(p.manifest.items(), parts));
    hidden_files_are_revealed(c, p, out, parts, passphrase, kdf_params);
}

/// A file of a known format without a place that is long enough to be an envelope holds nothing, whatever
/// the passphrase.
pub proof fn nothing_is_found_where_nothing_fits(
    c: Seq<u8>,
    format: CarrierFormat,
    kdf_params: Option<KdfParams>,
    passphrase: Seq<char>,
)
    requires
        sniffed(c) == Ok::<CarrierFormat, Fault>(format),
        regions_of(format, c) is Ok,
        plausible(regions_of(format, c)->Ok_0).len() == 0,
        reencoded_of(format, c) is Ok,
    ensures
        ({
            let fault = Fault::NoHiddenData { carrier_looks_reencoded: reencoded_of(format, c)->Ok_0 };
            &&& found(c, kdf_params, passphrase) == Err::<(CarrierFormat, Technique, Contents), Fault>(fault)
            &&& revealed(c, kdf_params, passphrase) == Err::<(Technique, Seq<Unpacked>), Fault>(fault)
            &&& cleaned(c, kdf_params, passphrase) == Err::<(Technique, Seq<u8>), Fault>(fault)
        }),
{
}

/// A carrier that offers no place to look is restored by a clean. The tag of a song must besides be one
/// that rewriting does not change.
pub proof fn quiet_carriers_are_restorable(c: Seq<u8>, p: HidePlan)
    requires
        plan_fits(c, p),
        regions_of(p.format, c) == Ok::<Seq<Region>, Fault>(Seq::empty()),
        p.format == CarrierFormat::Mp3 ==> tidy(c),
    ensures
        restorable(c, p),
{
    match p.format {
        CarrierFormat::Jpeg | CarrierFormat::Mp3 => {},
        CarrierFormat::Mp4 => {
            let list = boxes(c)->Ok_0;
            if list.last().is_padding() {
                assert(padding_regions(list).len() > 0);
            }
        },
        CarrierFormat::Pdf => {
            pdf_quiet_is_original(c);
        },
    }
}

proof fn lemma_same_entries(a: Seq<Entry>, b: Seq<Entry>)
    requires
        items(a) == items(b),
    ensures
        encode_fault(a) == encode_fault(b),
        a.len() == b.len(),
        forall|i: int| 0 <= i < a.len() ==> (#[trigger] a[i]).len == b[i].len,
    decreases a.len(),
{
    assert(items(a).len() == a.len() && items(b).len() == b.len());
    assert forall|i: int| 0 <= i < a.len() implies (#[trigger] a[i]).len == b[i].len && a[i].name@
        == b[i].name@ && a[i].mime@ == b[i].mime@ by {
        assert(items(a)[i] == a[i].item());
        assert(items(b)[i] == b[i].item());
        vstd::utf8::encode_utf8_decode_utf8(a[i].name@);
        vstd::utf8::encode_utf8_decode_utf8(b[i].name@);
        vstd::utf8::encode_utf8_decode_utf8(a[i].mime@);
        vstd::utf8::encode_utf8_decode_utf8(b[i].mime@);
    }
    if a.len() > 0 {
        assert(items(a.drop_last()) =~= items(a).drop_last());
        assert(items(b.drop_last()) =~= items(b).drop_last());
        lemma_same_entries(a.drop_last(), b.drop_last());
        assert(a.last() == a[a.len() - 1] && b.last() == b[b.len() - 1]);
    }
}

proof fn lemma_same_files<P: Payloads>(
    payloads: &P,
    a: Seq<Entry>,
    b: Seq<Entry>,
    a_labels: Seq<String>,
    b_labels: Seq<String>,
    index: nat,
)
    requires
        a.len() == b.len(),
        a_labels.len() == b_labels.len(),
        a.len() == a_labels.len(),
        forall|i: int| 0 <= i < a.len() ==> (#[trigger] a[i]).len == b[i].len,
        forall|i: int| 0 <= i < a_labels.len() ==> (#[trigger] a_labels[i])@ == b_labels[i]@,
    ensures
        files_from(payloads, a, a_labels, index) == files_from(payloads, b, b_labels, index),
    decreases a.len() - index,
{
    if index < a.len() {
        lemma_same_files(payloads, a, b, a_labels, b_labels, index + 1);
        assert(a[index as int].len == b[index as int].len);
        assert(a_labels[index as int]@ == b_labels[index as int]@);
    }
}

/// A request has one plan: whatever may go wrong when it is carried out, and what is written, does not
/// depend on how its texts are held.
pub proof fn a_request_has_one_plan<P: Payloads>(
    payloads: &P,
    c: Seq<u8>,
    technique: Technique,
    files: Seq<PayloadFile>,
    kdf_params: Option<KdfParams>,
    a: HidePlan,
    b: HidePlan,
    a_labels: Seq<String>,
    b_labels: Seq<String>,
)
    requires
        plan_for(c, technique, files, kdf_params, a),
        plan_for(c, technique, files, kdf_params, b),
        labelled(a_labels, files),
        labelled(b_labels, files),
    ensures
        a.format == b.format,
        a.technique == b.technique,
        a.params == b.params,
        a.bundle_len == b.bundle_len,
        a.region_len == b.region_len,
        a.expected_size == b.expected_size,
        writing_fault(a, a_labels) == writing_fault(b, b_labels),
        payload_of(payloads, a.manifest.entries@, a_labels) == payload_of(
            payloads,
            b.manifest.entries@,
            b_labels,
        ),
{
    lemma_same_entries(a.manifest.entries@, b.manifest.entries@);
    assert(a.manifest.items().len() == files.len());
    assert forall|i: int| 0 <= i < a_labels.len() implies (#[trigger] a_labels[i])@ == b_labels[i]@ by {
        assert(b_labels[i]@ == files[i].label@);
    }
    lemma_same_files(
        payloads,
        a.manifest.entries@,
        b.manifest.entries@,
        a_labels,
        b_labels,
        0,
    );
}

} // verus!
