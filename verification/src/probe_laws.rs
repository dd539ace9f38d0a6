//! What a file is taken for, in its first bytes.

use crate::carrier::pdf_lemmas::lemma_ascii;
use crate::carrier::CarrierFormat;
use crate::error::Fault;
use crate::ops::sniffed;
use crate::probe::{description, detected};
use crate::text::utf8;
use vstd::prelude::*;

verus! {

/// `ftyp` in the bytes 4 to 7.
pub open spec fn has_ftyp(c: Seq<u8>) -> bool {
    c.len() >= 8 && c[4] == 0x66 && c[5] == 0x74 && c[6] == 0x79 && c[7] == 0x70
}

/// The bytes 8 to 11 are these.
pub open spec fn has_brand(c: Seq<u8>, a: u8, b: u8, d: u8, e: u8) -> bool {
    c.len() >= 12 && c[8] == a && c[9] == b && c[10] == d && c[11] == e
}

/// One of `heic`, `heix`, `hevc`, `heim`, `heis`, `mif1`, `msf1`.
pub open spec fn has_heif_brand(c: Seq<u8>) -> bool {
    has_brand(c, 0x68, 0x65, 0x69, 0x63) || has_brand(c, 0x68, 0x65, 0x69, 0x78) || has_brand(
        c,
        0x68,
        0x65,
        0x76,
        0x63,
    ) || has_brand(c, 0x68, 0x65, 0x69, 0x6d) || has_brand(c, 0x68, 0x65, 0x69, 0x73) || has_brand(
        c,
        0x6d,
        0x69,
        0x66,
        0x31,
    ) || has_brand(c, 0x6d, 0x73, 0x66, 0x31)
}

/// `avif` or `avis`.
pub open spec fn has_avif_brand(c: Seq<u8>) -> bool {
    has_brand(c, 0x61, 0x76, 0x69, 0x66) || has_brand(c, 0x61, 0x76, 0x69, 0x73)
}

/// `qt` and two spaces.
pub open spec fn has_quicktime_brand(c: Seq<u8>) -> bool {
    has_brand(c, 0x71, 0x74, 0x20, 0x20)
}

proof fn lemma_brand(c: Seq<u8>, text: &str, b: Seq<u8>)
    requires
        c.len() >= 12,
        utf8(text) == b,
        b.len() == 4,
    ensures
        (c.subrange(8, 12) == utf8(text)) == has_brand(c, b[0], b[1], b[2], b[3]),
{
    let s = c.subrange(8, 12);
    assert(s[0] == c[8] && s[1] == c[9] && s[2] == c[10] && s[3] == c[11]);
    if has_brand(c, b[0], b[1], b[2], b[3]) {
        assert(s =~= b);
    }
}

proof fn lemma_words()
    ensures
        utf8("heic") == seq![0x68u8, 0x65, 0x69, 0x63],
        utf8("heix") == seq![0x68u8, 0x65, 0x69, 0x78],
        utf8("hevc") == seq![0x68u8, 0x65, 0x76, 0x63],
        utf8("heim") == seq![0x68u8, 0x65, 0x69, 0x6d],
        utf8("heis") == seq![0x68u8, 0x65, 0x69, 0x73],
        utf8("mif1") == seq![0x6du8, 0x69, 0x66, 0x31],
        utf8("msf1") == seq![0x6du8, 0x73, 0x66, 0x31],
        utf8("avif") == seq![0x61u8, 0x76, 0x69, 0x66],
        utf8("avis") == seq![0x61u8, 0x76, 0x69, 0x73],
        utf8("qt  ") == seq![0x71u8, 0x74, 0x20, 0x20],
        utf8("ftyp") == seq![0x66u8, 0x74, 0x79, 0x70],
        utf8("%PDF-") == seq![0x25u8, 0x50, 0x44, 0x46, 0x2d],
{
    reveal_strlit("heic");
    lemma_ascii("heic");
    reveal_strlit("heix");
    lemma_ascii("heix");
    reveal_strlit("hevc");
    lemma_ascii("hevc");
    reveal_strlit("heim");
    lemma_ascii("heim");
    reveal_strlit("heis");
    lemma_ascii("heis");
    reveal_strlit("mif1");
    lemma_ascii("mif1");
    reveal_strlit("msf1");
    lemma_ascii("msf1");
    reveal_strlit("avif");
    lemma_ascii("avif");
    reveal_strlit("avis");
    lemma_ascii("avis");
    reveal_strlit("qt  ");
    lemma_ascii("qt  ");
    reveal_strlit("ftyp");
    lemma_ascii("ftyp");
    reveal_strlit("%PDF-");
    lemma_ascii("%PDF-");
    assert(utf8("heic") =~= seq![0x68u8, 0x65, 0x69, 0x63]);
    assert(utf8("heix") =~= seq![0x68u8, 0x65, 0x69, 0x78]);
    assert(utf8("hevc") =~= seq![0x68u8, 0x65, 0x76, 0x63]);
    assert(utf8("heim") =~= seq![0x68u8, 0x65, 0x69, 0x6d]);
    assert(utf8("heis") =~= seq![0x68u8, 0x65, 0x69, 0x73]);
    assert(utf8("mif1") =~= seq![0x6du8, 0x69, 0x66, 0x31]);
    assert(utf8("msf1") =~= seq![0x6du8, 0x73, 0x66, 0x31]);
    assert(utf8("avif") =~= seq![0x61u8, 0x76, 0x69, 0x66]);
    assert(utf8("avis") =~= seq![0x61u8, 0x76, 0x69, 0x73]);
    assert(utf8("qt  ") =~= seq![0x71u8, 0x74, 0x20, 0x20]);
    assert(utf8("ftyp") =~= seq![0x66u8, 0x74, 0x79, 0x70]);
    assert(utf8("%PDF-") =~= seq![0x25u8, 0x50, 0x44, 0x46, 0x2d]);
}

/// A JPEG begins with `FF D8`.
pub open spec fn is_jpeg(c: Seq<u8>) -> bool {
    c.len() >= 2 && c[0] == 0xFF && c[1] == 0xD8
}

/// An MP4 begins with an `ftyp` box whose brand is none of a still image or of QuickTime.
pub open spec fn is_mp4(c: Seq<u8>) -> bool {
    &&& !is_jpeg(c)
    &&& has_ftyp(c)
    &&& c.len() >= 12
    &&& !has_heif_brand(c)
    &&& !has_avif_brand(c)
    &&& !has_quicktime_brand(c)
}

/// A PDF begins with `%PDF-`.
pub open spec fn is_pdf(c: Seq<u8>) -> bool {
    &&& !is_mp4(c)
    &&& c.len() >= 5 && c[0] == 0x25 && c[1] == 0x50 && c[2] == 0x44 && c[3] == 0x46 && c[4] == 0x2d
}

/// An MP3 begins with an ID3 tag of version 2.2 to 2.4, or with the header of a Layer III frame: the second
/// byte says MPEG 1, 2 or 2.5 and Layer III, the third has neither the reserved bitrate nor the reserved
/// sample rate.
pub open spec fn is_mp3(c: Seq<u8>) -> bool {
    &&& !is_mp4(c)
    &&& {
        ||| c.len() >= 4 && c[0] == 0x49 && c[1] == 0x44 && c[2] == 0x33 && (c[3] == 2 || c[3] == 3 || c[3] == 4)
        ||| c.len() >= 3 && c[0] == 0xFF && (c[1] == 0xE2 || c[1] == 0xE3 || c[1] == 0xF2 || c[1] == 0xF3 || c[1]
            == 0xFA || c[1] == 0xFB) && c[2] < 0xF0 && c[2] % 16 < 12
    }
}

proof fn lemma_detected(h: Seq<u8>)
    ensures
        detected(h) == (if is_jpeg(h) {
            Some(CarrierFormat::Jpeg)
        } else if is_mp4(h) {
            Some(CarrierFormat::Mp4)
        } else if is_pdf(h) {
            Some(CarrierFormat::Pdf)
        } else if is_mp3(h) {
            Some(CarrierFormat::Mp3)
        } else {
            None
        }),
        description(h) == (if has_ftyp(h) {
            if has_heif_brand(h) {
                "HEIC (should be converted to JPEG first)"@
            } else if has_avif_brand(h) {
                "AVIF (should be converted to JPEG first)"@
            } else if has_quicktime_brand(h) {
                "MOV/QuickTime (should be remuxed to MP4 first)"@
            } else {
                "unrecognised ISOBMFF brand"@
            }
        } else if h.len() >= 4 && h[0] == 0x89 && h[1] == 0x50 && h[2] == 0x4e && h[3] == 0x47 {
            "PNG (not a supported carrier)"@
        } else {
            "unknown"@
        }),
{
    lemma_words();
    if h.len() >= 8 {
        let f = h.subrange(4, 8);
        assert(f[0] == h[4] && f[1] == h[5] && f[2] == h[6] && f[3] == h[7]);
        if has_ftyp(h) {
            assert(f =~= utf8("ftyp"));
        }
    }
    if h.len() >= 12 {
        lemma_brand(h, "heic", seq![0x68u8, 0x65, 0x69, 0x63]);
        lemma_brand(h, "heix", seq![0x68u8, 0x65, 0x69, 0x78]);
        lemma_brand(h, "hevc", seq![0x68u8, 0x65, 0x76, 0x63]);
        lemma_brand(h, "heim", seq![0x68u8, 0x65, 0x69, 0x6d]);
        lemma_brand(h, "heis", seq![0x68u8, 0x65, 0x69, 0x73]);
        lemma_brand(h, "mif1", seq![0x6du8, 0x69, 0x66, 0x31]);
        lemma_brand(h, "msf1", seq![0x6du8, 0x73, 0x66, 0x31]);
        lemma_brand(h, "avif", seq![0x61u8, 0x76, 0x69, 0x66]);
        lemma_brand(h, "avis", seq![0x61u8, 0x76, 0x69, 0x73]);
        lemma_brand(h, "qt  ", seq![0x71u8, 0x74, 0x20, 0x20]);
    } else {
        let none = Seq::<u8>::empty();
        assert(none.len() != 4);
    }
    if h.len() >= 5 {
        let p = h.take(5);
        assert(p[0] == h[0] && p[1] == h[1] && p[2] == h[2] && p[3] == h[3] && p[4] == h[4]);
        if h[0] == 0x25 && h[1] == 0x50 && h[2] == 0x44 && h[3] == 0x46 && h[4] == 0x2d {
            assert(p =~= utf8("%PDF-"));
        }
    }
}

/// What a file is taken for follows from its first bytes, and from nothing else.
pub proof fn formats_follow_the_first_bytes(c: Seq<u8>)
    ensures
        c.len() == 0 ==> sniffed(c) == Err::<CarrierFormat, Fault>(Fault::CarrierTooSmall),
        is_jpeg(c) <==> sniffed(c) == Ok::<CarrierFormat, Fault>(CarrierFormat::Jpeg),
        is_mp4(c) <==> sniffed(c) == Ok::<CarrierFormat, Fault>(CarrierFormat::Mp4),
        is_pdf(c) <==> sniffed(c) == Ok::<CarrierFormat, Fault>(CarrierFormat::Pdf),
        is_mp3(c) <==> sniffed(c) == Ok::<CarrierFormat, Fault>(CarrierFormat::Mp3),
        c.len() > 0 && !is_jpeg(c) && !is_mp4(c) && !is_pdf(c) && !is_mp3(c) ==> sniffed(c) == Err::<
            CarrierFormat,
            Fault,
        >(
            Fault::UnsupportedFormat {
                detected: if has_ftyp(c) {
                    if has_heif_brand(c) {
                        "HEIC (should be converted to JPEG first)"@
                    } else if has_avif_brand(c) {
                        "AVIF (should be converted to JPEG first)"@
                    } else if has_quicktime_brand(c) {
                        "MOV/QuickTime (should be remuxed to MP4 first)"@
                    } else {
                        "unrecognised ISOBMFF brand"@
                    }
                } else if c.len() >= 4 && c[0] == 0x89 && c[1] == 0x50 && c[2] == 0x4e && c[3] == 0x47 {
                    "PNG (not a supported carrier)"@
                } else {
                    "unknown"@
                },
            },
        ),
{
    let h = if c.len() > 16 {
        c.take(16)
    } else {
        c
    };
    lemma_detected(h);
    assert(forall|i: int| 0 <= i < h.len() ==> h[i] == c[i]);
}

/// What follows the first 16 bytes makes no difference.
pub proof fn formats_ignore_the_rest(c: Seq<u8>, x: Seq<u8>)
    requires
        c.len() >= 16,
    ensures
        sniffed(c + x) == sniffed(c),
{
    formats_follow_the_first_bytes(c);
    assert((c + x).take(16) =~= c.take(16));
    assert(c.len() == 16 ==> c.take(16) =~= c);
    assert(x.len() == 0 ==> c + x =~= c);
}

} // verus!
