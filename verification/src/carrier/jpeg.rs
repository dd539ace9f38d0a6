//! JPEG carrier: trailer (default) and APP15 segments (alternative).
//!
//! ## Reading without loading
//!
//! The marker walk is streaming. Segment bodies are skipped by offset, and only the image's own
//! entropy-coded scan data is read through, so a JPEG carrying a huge trailer costs the same to
//! inspect as the bare photo.
//!
//! ## Trailer
//!
//! A JPEG ends at the `FFD9` end-of-image marker. Anything appended is ignored by decoders, so the
//! region is simply "end of image" to the end of the file, with no length field to store.
//!
//! "End of image" means the end of the *last chained* image. Some cameras store extra images as
//! complete JPEGs right after the primary's end, so the walk follows `SOI … EOI` images back to
//! back. An envelope never begins `FF D8`, so a region can't be mistaken for one more image.
//!
//! ## APP15
//!
//! `FFEF` application segments read as metadata. A segment's payload is capped at 65 533 bytes, so
//! anything larger is split across several segments, each with its own 4-byte header, and has to
//! be *gathered* again before decrypting.
//!
//! The segments go straight after the leading APP0/APP1 run, ahead of everything else and in
//! particular ahead of an `APP2` that locates further images by offsets relative to itself.
//!
//! ## Hiding replaces what was there
//!
//! Both techniques drop the header's APP15 segments and any bytes after the last image before
//! writing theirs, so after a hide the carrier holds exactly one region.

use super::{
    mismatch, newly_produced, not_applicable, pump, region_len_mismatch, technique_mismatch, walked, Carrier,
    Fill, Region, Technique, SIZE_LIMIT,
};
use crate::error::{Fault, ZolalError};
use crate::io::{clip, copy_range, gathered, CountingWriter, ReadSeek, RegionReader, Write};
use crate::text::{append_decimal, decimal_text};
use vstd::prelude::*;

verus! {

/// Largest payload a single APP15 segment can hold: 65 535 minus the 2-byte length field.
pub const APP15_MAX_PAYLOAD: usize = 65533;

/// Start of image.
pub const M_SOI: u8 = 0xD8;

/// End of image.
pub const M_EOI: u8 = 0xD9;

/// Start of scan.
pub const M_SOS: u8 = 0xDA;

/// Temporary: a standalone marker.
pub const M_TEM: u8 = 0x01;

/// Where JFIF data stands.
pub const M_APP0: u8 = 0xE0;

/// Where EXIF data stands.
pub const M_APP1: u8 = 0xE1;

/// The application segment that nothing common uses.
pub const M_APP15: u8 = 0xEF;

/// Walker buffer. Scan data is read through in blocks this size.
const WALK_BUF: usize = 65536;

/// Read size after a skip, when what follows is a segment header.
const HEADER_READ: usize = 1024;

// ---------------------------------------------------------------------------------------------
// What the structure of a file is

/// A structural error in a JPEG.
pub open spec fn bad(detail: Seq<char>) -> Fault {
    Fault::MalformedContainer { format: "JPEG"@, detail }
}

/// The file ends where a segment should go on.
pub open spec fn cut_short() -> Fault {
    bad("file ends inside a segment"@)
}

/// Standalone markers: no length field follows.
pub open spec fn is_standalone(marker: u8) -> bool {
    marker == M_TEM || 0xD0 <= marker <= 0xD7
}

/// Codes that follow `FF` inside scan data without ending it.
pub open spec fn is_scan_code(code: u8) -> bool {
    code == 0 || 0xD0 <= code <= 0xD7
}

/// The first offset from `i` on whose byte is not `FF`.
pub open spec fn skip_ff(c: Seq<u8>, i: int) -> int
    decreases c.len() - i,
{
    if 0 <= i < c.len() && c[i] == 0xFF {
        skip_ff(c, i + 1)
    } else {
        i
    }
}

/// The marker that stands at `pos` and the offset just past it.
pub open spec fn marker_at(c: Seq<u8>, pos: int) -> Result<(u8, int), Fault> {
    if pos >= c.len() {
        Err(cut_short())
    } else if c[pos] != 0xFF {
        Err(bad("expected a marker at offset "@ + decimal_text(pos as nat)))
    } else {
        let j = skip_ff(c, pos + 1);
        if j >= c.len() {
            Err(cut_short())
        } else if c[j] == 0 {
            Err(bad("stuffed byte outside scan data"@))
        } else {
            Ok((c[j], j + 1))
        }
    }
}

/// The marker that ends the scan data beginning at `pos`, and the offset just past it.
pub open spec fn scan_end(c: Seq<u8>, pos: int) -> Result<(u8, int), Fault>
    decreases c.len() - pos,
{
    if pos < 0 || pos >= c.len() {
        Err(bad("scan data runs to the end of the file"@))
    } else if c[pos] != 0xFF {
        scan_end(c, pos + 1)
    } else {
        let j = skip_ff(c, pos + 1);
        proof {
            lemma_skip_ff(c, pos + 1);
        }
        if j >= c.len() {
            Err(cut_short())
        } else if is_scan_code(c[j]) {
            scan_end(c, j + 1)
        } else {
            Ok((c[j], j + 1))
        }
    }
}

/// The big-endian 16-bit number at `pos`.
pub open spec fn be16(c: Seq<u8>, pos: int) -> int {
    c[pos] * 256 + c[pos + 1]
}

/// The six bytes that open an EXIF segment.
pub open spec fn exif_id() -> Seq<u8> {
    seq![0x45, 0x78, 0x69, 0x66, 0, 0]
}

/// A marker segment with a length field: where its `FF` stands, and its length, marker included.
pub ghost struct Seg {
    pub offset: int,
    pub len: int,
}

/// What the header of an image says, as far as it has been walked.
pub ghost struct Facts {
    /// APP15 segments, in file order.
    pub app15: Seq<Seg>,
    /// The end of the leading APP0/APP1/APP15 run.
    pub insert_at: int,
    /// Whether there is an EXIF APP1.
    pub has_exif: bool,
    /// Whether the leading run is still going on.
    pub leading: bool,
    /// Whether facts are collected: up to the first scan of the primary image.
    pub open: bool,
}

/// Before the first segment of the primary image.
pub open spec fn no_facts() -> Facts {
    Facts { app15: Seq::empty(), insert_at: 2, has_exif: false, leading: true, open: true }
}

/// Nothing is collected any more.
pub open spec fn shut(f: Facts) -> Facts {
    Facts { open: false, ..f }
}

/// `f` after the segment at `offset` with `body` bytes after its length field.
pub open spec fn noted(c: Seq<u8>, f: Facts, marker: u8, offset: int, body: int) -> Facts {
    if !f.open {
        f
    } else {
        let leading = f.leading && (marker == M_APP0 || marker == M_APP1 || marker == M_APP15);
        Facts {
            app15: if marker == M_APP15 {
                f.app15.push(Seg { offset, len: body + 4 })
            } else {
                f.app15
            },
            insert_at: if leading {
                offset + 4 + body
            } else {
                f.insert_at
            },
            has_exif: f.has_exif || (marker == M_APP1 && body >= 6 && c.subrange(
                offset + 4,
                offset + 10,
            ) == exif_id()),
            leading,
            open: true,
        }
    }
}

/// The rest of an image after `marker`, which ends at `pos`: the offset just past its end marker
/// (or, with `header_only`, just past the header of its first scan) and what its header says.
pub open spec fn walk(c: Seq<u8>, marker: u8, pos: int, f: Facts, header_only: bool) -> Result<
    (int, Facts),
    Fault,
>
    decreases c.len() - pos,
{
    proof {
        lemma_marker_at(c, pos);
    }
    if marker == M_EOI {
        Ok((pos, f))
    } else if marker == M_SOI {
        Err(bad("start-of-image inside an image"@))
    } else if is_standalone(marker) {
        match marker_at(c, pos) {
            Ok((m, p)) => if pos < p <= c.len() {
                walk(c, m, p, f, header_only)
            } else {
                Err(cut_short())
            },
            Err(e) => Err(e),
        }
    } else if pos + 2 > c.len() {
        Err(cut_short())
    } else if be16(c, pos) < 2 {
        Err(bad("segment length below 2"@))
    } else {
        let body = be16(c, pos) - 2;
        let end = pos + 2 + body;
        if f.open && marker == M_APP1 && body >= 6 && pos + 8 > c.len() {
            Err(cut_short())
        } else if end > c.len() {
            Err(bad("segment runs past the end of the file"@))
        } else {
            let g = noted(c, f, marker, pos - 2, body);
            if marker == M_SOS && header_only {
                Ok((end, g))
            } else {
                let next = if marker == M_SOS {
                    scan_end(c, end)
                } else {
                    marker_at(c, end)
                };
                let h = if marker == M_SOS {
                    shut(g)
                } else {
                    g
                };
                match next {
                    Ok((m, p)) => if pos < p <= c.len() {
                        walk(c, m, p, h, header_only)
                    } else {
                        Err(cut_short())
                    },
                    Err(e) => Err(e),
                }
            }
        }
    }
}

/// The image that begins at `start`.
pub open spec fn image(c: Seq<u8>, start: int, f: Facts, header_only: bool) -> Result<
    (int, Facts),
    Fault,
> {
    if start + 2 > c.len() {
        Err(cut_short())
    } else if c[start] != 0xFF || c[start + 1] != M_SOI {
        Err(bad("missing start-of-image"@))
    } else {
        match marker_at(c, start + 2) {
            Ok((m, p)) => walk(c, m, p, f, header_only),
            Err(e) => Err(e),
        }
    }
}

/// The end of the last of the complete images that stand back to back from `end` on.
pub open spec fn chain(c: Seq<u8>, end: int) -> int
    decreases c.len() - end,
{
    if 0 <= end && end + 2 <= c.len() && c[end] == 0xFF && c[end + 1] == M_SOI {
        match image(c, end, shut(no_facts()), false) {
            Ok((e, _)) => if end < e <= c.len() {
                chain(c, e)
            } else {
                end
            },
            Err(_) => end,
        }
    } else {
        end
    }
}

/// What one pass learns about a JPEG.
pub ghost struct Shape {
    pub app15: Seq<Seg>,
    pub insert_at: int,
    pub has_exif: bool,
    /// Just past the end marker of the last chained image. Everything after it is the trailer.
    pub image_end: int,
}

/// The structure of a file.
pub open spec fn shape(c: Seq<u8>) -> Result<Shape, Fault> {
    match image(c, 0, no_facts(), false) {
        Ok((end, f)) => Ok(
            Shape {
                app15: f.app15,
                insert_at: f.insert_at,
                has_exif: f.has_exif,
                image_end: chain(c, end),
            },
        ),
        Err(e) => Err(e),
    }
}

pub proof fn lemma_skip_ff(c: Seq<u8>, i: int)
    requires
        0 <= i,
    ensures
        skip_ff(c, i) >= i,
        i <= c.len() ==> skip_ff(c, i) <= c.len(),
        skip_ff(c, i) < c.len() ==> c[skip_ff(c, i)] != 0xFF,
        forall|k: int| i <= k < skip_ff(c, i) ==> c[k] == 0xFF,
    decreases c.len() - i,
{
    if 0 <= i < c.len() && c[i] == 0xFF {
        lemma_skip_ff(c, i + 1);
    }
}

pub proof fn lemma_marker_at(c: Seq<u8>, pos: int)
    ensures
        marker_at(c, pos) matches Ok((m, p)) ==> 0 <= pos ==> pos + 2 <= p <= c.len() && c[p - 1] == m
            && c[p - 2] == 0xFF && c[pos] == 0xFF && m != 0 && m != 0xFF,
{
    if 0 <= pos {
        lemma_skip_ff(c, pos + 1);
    }
}

// ---------------------------------------------------------------------------------------------
// Streaming reader

fn malformed(detail: &str) -> (r: ZolalError)
    ensures
        r@ == bad(detail@),
        r is MalformedContainer,
{
    ZolalError::MalformedContainer { format: "JPEG", detail: detail.to_owned() }
}

/// A forward reader with its own buffer and cheap skips.
///
/// A refill after a skip is small, and only scan data is read in big blocks: otherwise an APP15
/// carrier would be read almost whole just to find the next 4-byte header.
struct Walker<'a, S: ReadSeek> {
    src: &'a S,
    buf: Vec<u8>,
    /// Unread window: `buf[start..]`, beginning at file offset `pos`.
    start: usize,
    pos: u64,
    len: u64,
}

impl<'a, S: ReadSeek> Walker<'a, S> {
    spec fn c(&self) -> Seq<u8> {
        self.src.content()
    }

    spec fn wf(&self) -> bool {
        &&& self.len == self.c().len()
        &&& self.pos <= self.len
        &&& self.start <= self.buf@.len()
        &&& self.pos + (self.buf@.len() - self.start) <= self.len
        &&& forall|i: int|
            0 <= i < self.buf@.len() - self.start ==> #[trigger] self.buf@[self.start + i]
                == self.c()[self.pos + i]
    }

    fn new(src: &'a S) -> (r: Result<Self, ZolalError>)
        ensures
            r matches Ok(w) ==> w.wf() && w.src == src && w.pos == 0,
            r matches Err(e) ==> !src.reliable() && e is Io,
    {
        match src.size() {
            Ok(len) => Ok(Walker { src, buf: Vec::new(), start: 0, pos: 0, len }),
            Err(e) => Err(ZolalError::from_io(e)),
        }
    }

    /// Refill the window with up to `want` bytes if it's empty. It stays empty only at the end.
    fn fill(&mut self, want: usize) -> (r: Result<(), ZolalError>)
        requires
            old(self).wf(),
            want > 0,
        ensures
            final(self).wf(),
            final(self).src == old(self).src,
            final(self).pos == old(self).pos,
            r is Ok ==> (final(self).start < final(self).buf@.len() || final(self).pos == final(self).len),
            r matches Err(e) ==> !old(self).src.reliable() && e is Io,
    {
        if self.start == self.buf.len() {
            match self.src.read_at(self.pos, want) {
                Ok(bytes) => {
                    self.buf = bytes;
                    self.start = 0;
                },
                Err(e) => {
                    return Err(ZolalError::from_io(e));
                },
            }
        }
        Ok(())
    }

    fn byte(&mut self) -> (r: Result<u8, ZolalError>)
        requires
            old(self).wf(),
        ensures
            final(self).wf(),
            final(self).src == old(self).src,
            walked(
                r,
                old(self).src.reliable(),
                if old(self).pos < old(self).len {
                    Ok(old(self).c()[old(self).pos as int])
                } else {
                    Err(cut_short())
                },
            ),
            r is Ok ==> final(self).pos == old(self).pos + 1,
    {
        self.fill(HEADER_READ)?;
        if self.start == self.buf.len() {
            return Err(malformed("file ends inside a segment"));
        }
        let b: u8 = self.buf[self.start];
        assert(self.buf@[self.start + 0] == self.c()[self.pos + 0]);
        let ghost before = *self;
        self.start = self.start + 1;
        self.pos = self.pos + 1;
        assert forall|i: int| 0 <= i < self.buf@.len() - self.start implies #[trigger] self.buf@[
            self.start + i] == self.c()[self.pos + i] by {
            assert(before.buf@[before.start + (i + 1)] == before.c()[before.pos + (i + 1)]);
        }
        Ok(b)
    }

    /// The next two bytes as a big-endian number.
    fn word(&mut self) -> (r: Result<u64, ZolalError>)
        requires
            old(self).wf(),
        ensures
            final(self).wf(),
            final(self).src == old(self).src,
            match r {
                Ok(n) => old(self).pos + 2 <= old(self).len && n == be16(
                    old(self).c(),
                    old(self).pos as int,
                ) && final(self).pos == old(self).pos + 2,
                Err(e) => (!old(self).src.reliable() && e is Io) || (old(self).pos + 2 > old(self).len && e@ == cut_short()),
            },
    {
        let hi: u8 = self.byte()?;
        let lo: u8 = self.byte()?;
        Ok((hi as u64) * 256 + (lo as u64))
    }

    fn skip(&mut self, n: u64) -> (r: Result<(), ZolalError>)
        requires
            old(self).wf(),
        ensures
            final(self).wf(),
            final(self).src == old(self).src,
            match r {
                Ok(()) => old(self).pos + n <= old(self).len && final(self).pos == old(self).pos + n,
                Err(e) => old(self).pos + n > old(self).len && e@ == bad(
                    "segment runs past the end of the file"@,
                ),
            },
    {
        if n > self.len - self.pos {
            return Err(malformed("segment runs past the end of the file"));
        }
        let ghost before = *self;
        if n <= (self.buf.len() - self.start) as u64 {
            self.start = self.start + n as usize;
        } else {
            self.buf = Vec::new();
            self.start = 0;
        }
        self.pos = self.pos + n;
        assert forall|i: int| 0 <= i < self.buf@.len() - self.start implies #[trigger] self.buf@[
            self.start + i] == self.c()[self.pos + i] by {
            assert(before.buf@[before.start + (i + n)] == before.c()[before.pos + (i + n)]);
        }
        Ok(())
    }

    /// The next byte after any further `FF`s.
    fn code(&mut self) -> (r: Result<u8, ZolalError>)
        requires
            old(self).wf(),
        ensures
            final(self).wf(),
            final(self).src == old(self).src,
            match r {
                Ok(code) => {
                    let j = skip_ff(old(self).c(), old(self).pos as int);
                    j < old(self).len && code == old(self).c()[j] && final(self).pos == j + 1
                        && code != 0xFF
                },
                Err(e) => (!old(self).src.reliable() && e is Io) || (skip_ff(
                    old(self).c(),
                    old(self).pos as int,
                ) >= old(self).len && e@ == cut_short()),
            },
    {
        let ghost c = self.c();
        let ghost start = self.pos as int;
        let mut code: u8 = self.byte()?;
        while code == 0xFF
            invariant
                self.wf(),
                old(self).wf(),
                self.src == old(self).src,
                c == self.c(),
                start == old(self).pos,
                0 < self.pos <= self.len,
                code == c[self.pos - 1],
                skip_ff(c, start) == skip_ff(c, self.pos - 1),
            decreases self.len - self.pos,
        {
            assert(skip_ff(c, self.pos - 1) == skip_ff(c, self.pos as int));
            code = self.byte()?;
        }
        Ok(code)
    }

    /// The next marker code. Expects to be on its `FF`; skips fill bytes.
    fn marker(&mut self) -> (r: Result<u8, ZolalError>)
        requires
            old(self).wf(),
        ensures
            final(self).wf(),
            final(self).src == old(self).src,
            match r {
                Ok(code) => marker_at(old(self).c(), old(self).pos as int) == Ok::<
                    (u8, int),
                    Fault,
                >((code, final(self).pos as int)) && final(self).pos >= old(self).pos + 2,
                Err(e) => (!old(self).src.reliable() && e is Io) || marker_at(
                    old(self).c(),
                    old(self).pos as int,
                ) == Err::<(u8, int), Fault>(e@),
            },
    {
        proof {
            lemma_marker_at(self.c(), self.pos as int);
        }
        let first: u8 = self.byte()?;
        if first != 0xFF {
            let mut text = "expected a marker at offset ".to_owned();
            append_decimal(&mut text, self.pos - 1);
            return Err(malformed(text.as_str()));
        }
        let code: u8 = self.code()?;
        if code == 0x00 {
            return Err(malformed("stuffed byte outside scan data"));
        }
        Ok(code)
    }

    /// Skip entropy-coded scan data, returning the marker that ends it.
    fn skip_scan(&mut self) -> (r: Result<u8, ZolalError>)
        requires
            old(self).wf(),
        ensures
            final(self).wf(),
            final(self).src == old(self).src,
            match r {
                Ok(code) => scan_end(old(self).c(), old(self).pos as int) == Ok::<
                    (u8, int),
                    Fault,
                >((code, final(self).pos as int)) && final(self).pos >= old(self).pos + 2,
                Err(e) => (!old(self).src.reliable() && e is Io) || (e is MalformedContainer
                    && scan_end(old(self).c(), old(self).pos as int) == Err::<(u8, int), Fault>(e@)),
            },
    {
        let ghost c = self.c();
        let ghost from = self.pos as int;
        loop
            invariant
                self.wf(),
                old(self).wf(),
                self.src == old(self).src,
                c == self.c(),
                from == old(self).pos,
                from <= self.pos,
                scan_end(c, from) == scan_end(c, self.pos as int),
            decreases self.len - self.pos,
        {
            self.fill(WALK_BUF)?;
            if self.start == self.buf.len() {
                return Err(malformed("scan data runs to the end of the file"));
            }
            let b: u8 = self.byte()?;
            if b == 0xFF {
                proof {
                    lemma_skip_ff(c, self.pos as int);
                }
                let code: u8 = self.code()?;
                if code != 0x00 && !(0xD0 <= code && code <= 0xD7) {
                    return Ok(code);
                }
            }
        }
    }
}

impl<'a, S: ReadSeek> Walker<'a, S> {
    /// Whether the next six bytes open an EXIF segment.
    fn exif(&mut self) -> (r: Result<bool, ZolalError>)
        requires
            old(self).wf(),
        ensures
            final(self).wf(),
            final(self).src == old(self).src,
            match r {
                Ok(found) => {
                    &&& old(self).pos + 6 <= old(self).len
                    &&& final(self).pos == old(self).pos + 6
                    &&& found == (old(self).c().subrange(old(self).pos as int, old(self).pos + 6)
                        == exif_id())
                },
                Err(e) => (!old(self).src.reliable() && e is Io) || (old(self).pos + 6 > old(self).len && e@ == cut_short()),
            },
    {
        let ghost c = self.c();
        let ghost from = self.pos as int;
        let a: u8 = self.byte()?;
        let b: u8 = self.byte()?;
        let d: u8 = self.byte()?;
        let e: u8 = self.byte()?;
        let f: u8 = self.byte()?;
        let g: u8 = self.byte()?;
        let found = a == 0x45 && b == 0x78 && d == 0x69 && e == 0x66 && f == 0 && g == 0;
        proof {
            let six = c.subrange(from, from + 6);
            assert(six =~= seq![a, b, d, e, f, g]);
            assert(exif_id()[0] == 0x45 && exif_id()[1] == 0x78 && exif_id()[2] == 0x69);
            assert(exif_id()[3] == 0x66 && exif_id()[4] == 0 && exif_id()[5] == 0);
            if found {
                assert(six =~= exif_id());
            } else if six == exif_id() {
                assert(six[0] == a && six[1] == b && six[2] == d);
                assert(six[3] == e && six[4] == f && six[5] == g);
            }
        }
        Ok(found)
    }
}

/// A marker segment with a length field: `FF xx`, a 2-byte length, then the body.
#[derive(Debug, Clone, Copy, PartialEq, Eq, Structural)]
pub struct Segment {
    /// Offset of the segment's `FF`.
    pub offset: u64,
    /// Whole segment, marker included.
    pub len: u64,
}

impl Segment {
    /// The segment as contracts speak of it.
    pub open spec fn seg(self) -> Seg {
        Seg { offset: self.offset as int, len: self.len as int }
    }
}

/// Segments as contracts speak of them.
pub open spec fn segs(list: Seq<Segment>) -> Seq<Seg> {
    list.map_values(|s: Segment| s.seg())
}

/// Header facts, collected while walking the primary image up to its first scan.
struct HeaderFacts {
    app15: Vec<Segment>,
    insert_at: u64,
    has_exif: bool,
    leading: bool,
    open: bool,
}

impl HeaderFacts {
    spec fn facts(&self) -> Facts {
        Facts {
            app15: segs(self.app15@),
            insert_at: self.insert_at as int,
            has_exif: self.has_exif,
            leading: self.leading,
            open: self.open,
        }
    }

    fn new(open: bool) -> (r: Self)
        ensures
            r.facts() == (Facts { open, ..no_facts() }),
    {
        let r = HeaderFacts {
            app15: Vec::new(),
            insert_at: 2,
            has_exif: false,
            leading: true,
            open,
        };
        assert(segs(r.app15@) =~= Seq::<Seg>::empty());
        r
    }
}

/// Walk one image from its start. Returns the offset just past its end marker (or, with
/// `header_only`, just past the first scan's header). `facts` collects header facts up to the
/// first scan.
fn walk_image<S: ReadSeek>(w: &mut Walker<S>, facts: &mut HeaderFacts, header_only: bool) -> (r:
    Result<u64, ZolalError>)
    requires
        old(w).wf(),
    ensures
        final(w).wf(),
        final(w).src == old(w).src,
        match r {
            Ok(end) => image(old(w).c(), old(w).pos as int, old(facts).facts(), header_only) == Ok::<
                (int, Facts),
                Fault,
            >((end as int, final(facts).facts())) && final(w).pos == end && end > old(w).pos,
            Err(e) => (!old(w).src.reliable() && e is Io) || (e is MalformedContainer && image(
                old(w).c(),
                old(w).pos as int,
                old(facts).facts(),
                header_only,
            ) == Err::<(int, Facts), Fault>(e@)),
        },
{
    let ghost c = w.c();
    let ghost start = w.pos as int;
    let ghost f0 = facts.facts();
    let first: u8 = w.byte()?;
    let second: u8 = w.byte()?;
    if first != 0xFF || second != M_SOI {
        return Err(malformed("missing start-of-image"));
    }
    let mut marker: u8 = w.marker()?;
    loop
        invariant
            w.wf(),
            old(w).wf(),
            w.src == old(w).src,
            c == w.c(),
            start == old(w).pos,
            f0 == old(facts).facts(),
            w.pos >= start + 2,
            image(c, start, f0, header_only) == walk(
                c,
                marker,
                w.pos as int,
                facts.facts(),
                header_only,
            ),
        decreases w.len - w.pos,
    {
        if marker == M_EOI {
            return Ok(w.pos);
        }
        if marker == M_SOI {
            return Err(malformed("start-of-image inside an image"));
        }
        proof {
            lemma_marker_at(c, w.pos as int);
        }
        if marker == M_TEM || (0xD0 <= marker && marker <= 0xD7) {
            marker = w.marker()?;
        } else {
            let ghost pos = w.pos as int;
            let ghost f = facts.facts();
            let offset: u64 = w.pos - 2;
            let length: u64 = w.word()?;
            if length < 2 {
                return Err(malformed("segment length below 2"));
            }
            let body: u64 = length - 2;
            let mut consumed: u64 = 0;
            let mut exif = false;
            if facts.open && marker == M_APP1 && body >= 6 {
                exif = w.exif()?;
                consumed = 6;
            }
            w.skip(body - consumed)?;
            if facts.open {
                facts.leading = facts.leading && (marker == M_APP0 || marker == M_APP1 || marker
                    == M_APP15);
                if facts.leading {
                    facts.insert_at = w.pos;
                }
                if marker == M_APP15 {
                    let ghost before = facts.app15@;
                    let seg = Segment { offset, len: body + 4 };
                    facts.app15.push(seg);
                    assert(segs(facts.app15@) =~= segs(before).push(seg.seg()));
                }
                facts.has_exif = facts.has_exif || exif;
            }
            let ghost g = noted(c, f, marker, pos - 2, body as int);
            assert(facts.facts() == g);
            proof {
                lemma_marker_at(c, w.pos as int);
            }
            if marker == M_SOS {
                if header_only {
                    return Ok(w.pos);
                }
                facts.open = false;
                assert(facts.facts() == shut(g));
                marker = w.skip_scan()?;
            } else {
                marker = w.marker()?;
            }
        }
    }
}

/// What one streaming pass learns about a JPEG.
#[derive(Debug)]
pub struct Layout {
    /// APP15 segments before the first scan, in file order.
    pub app15: Vec<Segment>,
    /// Where new APP15 segments go: the end of the leading APP0/APP1/APP15 run.
    pub insert_at: u64,
    /// Whether the header carries an EXIF APP1.
    pub has_exif: bool,
    /// Just past the end of the last chained image. Everything after it is the trailer.
    pub image_end: u64,
    /// The length of the file.
    pub file_len: u64,
}

impl Layout {
    /// The layout as contracts speak of it.
    pub open spec fn shape(&self) -> Shape {
        Shape {
            app15: segs(self.app15@),
            insert_at: self.insert_at as int,
            has_exif: self.has_exif,
            image_end: self.image_end as int,
        }
    }
}

/// Walk the whole file: the primary image, then any images chained after it.
pub fn scan<S: ReadSeek>(src: &S) -> (r: Result<Layout, ZolalError>)
    ensures
        match r {
            Ok(layout) => shape(src.content()) == Ok::<Shape, Fault>(layout.shape())
                && layout.file_len == src.content().len() && layout.image_end <= layout.file_len,
            Err(e) => (!src.reliable() && e is Io) || shape(src.content()) == Err::<Shape, Fault>(
                e@,
            ),
        },
{
    let ghost c = src.content();
    let mut w = Walker::new(src)?;
    let mut facts = HeaderFacts::new(true);
    assert(facts.facts() == no_facts());
    let mut image_end: u64 = walk_image(&mut w, &mut facts, false)?;
    let ghost first_end = image_end as int;
    while w.len - image_end >= 2
        invariant_except_break
            w.pos == image_end,
            chain(c, first_end) == chain(c, image_end as int),
        invariant
            w.wf(),
            w.src == src,
            c == src.content(),
            image(c, 0, no_facts(), false) == Ok::<(int, Facts), Fault>((first_end, facts.facts())),
            image_end <= w.len,
        ensures
            image_end <= w.len,
            chain(c, first_end) == image_end,
        decreases w.len - image_end,
    {
        let mut other = HeaderFacts::new(false);
        assert(other.facts() == shut(no_facts()));
        match walk_image(&mut w, &mut other, false) {
            Ok(end) => {
                image_end = end;
            },
            Err(e) => {
                match e {
                    // Starts like an image but isn't one, or doesn't even: trailing data.
                    ZolalError::MalformedContainer { format, detail } => {
                        break;
                    },
                    e => {
                        return Err(e);
                    },
                }
            },
        }
    }
    Ok(
        Layout {
            app15: facts.app15,
            insert_at: facts.insert_at,
            has_exif: facts.has_exif,
            image_end,
            file_len: w.len,
        },
    )
}

/// Walk only as far as the first scan. Enough to gather APP15 segments, and cheap.
fn scan_header<S: ReadSeek>(src: &S) -> (r: Result<Vec<Segment>, ZolalError>)
    ensures
        match r {
            Ok(list) => src.content().len() <= u64::MAX && (image(
                src.content(),
                0,
                no_facts(),
                true,
            ) matches Ok((_, f)) && f.app15 == segs(list@)),
            Err(e) => (!src.reliable() && e is Io) || image(src.content(), 0, no_facts(), true)
                == Err::<(int, Facts), Fault>(e@),
        },
{
    let mut w = Walker::new(src)?;
    let mut facts = HeaderFacts::new(true);
    assert(facts.facts() == no_facts());
    walk_image(&mut w, &mut facts, true)?;
    Ok(facts.app15)
}

// ---------------------------------------------------------------------------------------------
// What the header facts amount to

/// The segments stand in order and apart, between `from` and `to`.
pub open spec fn placed(list: Seq<Seg>, from: int, to: int) -> bool {
    &&& from <= to
    &&& forall|i: int|
        0 <= i < list.len() ==> from <= (#[trigger] list[i]).offset && list[i].len >= 4
            && list[i].offset + list[i].len <= to
    &&& forall|i: int, j: int|
        0 <= i < j < list.len() ==> (#[trigger] list[i]).offset + list[i].len <= (#[trigger] list[j]).offset
}

/// No segment straddles `at`.
pub open spec fn parted(list: Seq<Seg>, at: int) -> bool {
    forall|i: int|
        0 <= i < list.len() ==> (#[trigger] list[i]).offset + list[i].len <= at || list[i].offset
            >= at
}

/// All lengths together.
pub open spec fn seg_sum(list: Seq<Seg>) -> int
    decreases list.len(),
{
    if list.len() == 0 {
        0
    } else {
        list[0].len + seg_sum(list.drop_first())
    }
}

/// What holds of facts collected up to `end`.
pub open spec fn facts_ok(f: Facts, end: int) -> bool {
    &&& placed(f.app15, 2, end)
    &&& 2 <= f.insert_at <= end
    &&& parted(f.app15, f.insert_at)
    &&& f.leading ==> forall|i: int|
        0 <= i < f.app15.len() ==> (#[trigger] f.app15[i]).offset + f.app15[i].len <= f.insert_at
}

pub proof fn lemma_scan_end(c: Seq<u8>, pos: int)
    requires
        0 <= pos,
    ensures
        scan_end(c, pos) matches Ok((m, p)) ==> pos + 2 <= p <= c.len() && c[p - 1] == m && c[p - 2]
            == 0xFF && m != 0 && m != 0xFF,
    decreases c.len() - pos,
{
    if pos < c.len() {
        if c[pos] != 0xFF {
            lemma_scan_end(c, pos + 1);
        } else {
            lemma_skip_ff(c, pos + 1);
            let j = skip_ff(c, pos + 1);
            if j < c.len() && is_scan_code(c[j]) {
                lemma_scan_end(c, j + 1);
            }
        }
    }
}

pub proof fn lemma_walk_facts(c: Seq<u8>, marker: u8, pos: int, f: Facts, header_only: bool)
    requires
        2 <= pos <= c.len(),
        facts_ok(f, pos - 2),
    ensures
        walk(c, marker, pos, f, header_only) matches Ok((end, g)) ==> pos <= end <= c.len() && facts_ok(
            g,
            end,
        ),
    decreases c.len() - pos,
{
    lemma_marker_at(c, pos);
    if marker == M_EOI || marker == M_SOI {
    } else if is_standalone(marker) {
        if let Ok((m, p)) = marker_at(c, pos) {
            lemma_walk_facts(c, m, p, f, header_only);
        }
    } else if pos + 2 <= c.len() && be16(c, pos) >= 2 {
        let body = be16(c, pos) - 2;
        let end = pos + 2 + body;
        if end <= c.len() {
            let g = noted(c, f, marker, pos - 2, body);
            assert(facts_ok(g, end)) by {
                if f.open && marker == M_APP15 {
                    let n = f.app15.len() as int;
                    assert(g.app15[n] == (Seg { offset: pos - 2, len: body + 4 }));
                    assert(forall|i: int| 0 <= i < n ==> g.app15[i] == f.app15[i]);
                }
            }
            lemma_marker_at(c, end);
            lemma_scan_end(c, end);
            if marker == M_SOS {
                if !header_only {
                    if let Ok((m, p)) = scan_end(c, end) {
                        lemma_walk_facts(c, m, p, shut(g), header_only);
                    }
                }
            } else {
                if let Ok((m, p)) = marker_at(c, end) {
                    lemma_walk_facts(c, m, p, g, header_only);
                }
            }
        }
    }
}

pub proof fn lemma_image_facts(c: Seq<u8>, start: int, f: Facts, header_only: bool)
    requires
        0 <= start,
        facts_ok(f, start + 2),
    ensures
        image(c, start, f, header_only) matches Ok((end, g)) ==> start < end <= c.len() && facts_ok(
            g,
            end,
        ),
{
    if start + 2 <= c.len() {
        lemma_marker_at(c, start + 2);
        if let Ok((m, p)) = marker_at(c, start + 2) {
            lemma_walk_facts(c, m, p, f, header_only);
        }
    }
}

pub proof fn lemma_chain(c: Seq<u8>, end: int)
    requires
        0 <= end <= c.len(),
    ensures
        end <= chain(c, end) <= c.len(),
    decreases c.len() - end,
{
    if end + 2 <= c.len() && c[end] == 0xFF && c[end + 1] == M_SOI {
        if let Ok((e, _)) = image(c, end, shut(no_facts()), false) {
            if end < e <= c.len() {
                lemma_chain(c, e);
            }
        }
    }
}

/// What the structure of a file amounts to.
pub proof fn lemma_shape(c: Seq<u8>)
    ensures
        shape(c) matches Ok(s) ==> {
            &&& placed(s.app15, 2, s.image_end)
            &&& parted(s.app15, s.insert_at)
            &&& 2 <= s.insert_at <= s.image_end <= c.len()
        },
{
    lemma_image_facts(c, 0, no_facts(), false);
    if let Ok((end, f)) = image(c, 0, no_facts(), false) {
        lemma_chain(c, end);
    }
}

/// `[from, to)` of the file without those of the segments that fall inside it.
pub open spec fn without(c: Seq<u8>, from: int, to: int, list: Seq<Seg>) -> Seq<u8>
    decreases list.len(),
{
    if list.len() == 0 {
        clip(c, from, to)
    } else {
        let s = list[0];
        if s.offset >= from && s.offset + s.len <= to {
            clip(c, from, s.offset) + without(c, s.offset + s.len, to, list.drop_first())
        } else {
            without(c, from, to, list.drop_first())
        }
    }
}

/// Those of the segments that `without` leaves out between `from` and `to` add up.
pub proof fn lemma_without_len(c: Seq<u8>, from: int, to: int, list: Seq<Seg>)
    requires
        placed(list, from, to),
        0 <= from,
        to <= c.len(),
    ensures
        without(c, from, to, list).len() == to - from - seg_sum(list),
    decreases list.len(),
{
    if list.len() > 0 {
        let s = list[0];
        let rest = list.drop_first();
        assert(forall|i: int| 0 <= i < rest.len() ==> rest[i] == list[i + 1]);
        lemma_without_len(c, s.offset + s.len, to, rest);
    }
}

/// Where no segment straddles `at`, leaving them out before and after it is leaving them out.
pub proof fn lemma_without_split(c: Seq<u8>, from: int, at: int, to: int, list: Seq<Seg>)
    requires
        placed(list, from, to),
        parted(list, at),
        0 <= from <= at <= to <= c.len(),
    ensures
        without(c, from, to, list) == without(c, from, at, list) + without(c, at, to, list),
    decreases list.len(),
{
    if list.len() == 0 {
        assert(clip(c, from, to) =~= clip(c, from, at) + clip(c, at, to));
    } else {
        let s = list[0];
        let rest = list.drop_first();
        assert(forall|i: int| 0 <= i < rest.len() ==> rest[i] == list[i + 1]);
        if s.offset + s.len <= at {
            lemma_without_split(c, s.offset + s.len, at, to, rest);
            assert(without(c, from, to, list) =~= without(c, from, at, list) + without(
                c,
                at,
                to,
                list,
            ));
        } else {
            lemma_without_later(c, from, at, rest);
            assert(without(c, from, at, list) == clip(c, from, at));
            assert(without(c, from, to, list) =~= clip(c, from, at) + without(c, at, to, list));
        }
    }
}

pub proof fn lemma_without_later(c: Seq<u8>, from: int, at: int, list: Seq<Seg>)
    requires
        forall|i: int| 0 <= i < list.len() ==> (#[trigger] list[i]).offset >= at && list[i].len >= 4,
    ensures
        without(c, from, at, list) == clip(c, from, at),
    decreases list.len(),
{
    if list.len() > 0 {
        assert(forall|i: int| 0 <= i < list.drop_first().len() ==> list.drop_first()[i] == list[i + 1]);
        lemma_without_later(c, from, at, list.drop_first());
    }
}

pub proof fn lemma_without_bound(c: Seq<u8>, from: int, to: int, list: Seq<Seg>)
    requires
        0 <= from,
        forall|i: int| 0 <= i < list.len() ==> (#[trigger] list[i]).len >= 4,
    ensures
        without(c, from, to, list).len() <= clip(c, from, to).len(),
    decreases list.len(),
{
    if list.len() > 0 {
        let s = list[0];
        let rest = list.drop_first();
        assert(forall|i: int| 0 <= i < rest.len() ==> rest[i] == list[i + 1]);
        if s.offset >= from && s.offset + s.len <= to {
            lemma_without_bound(c, s.offset + s.len, to, rest);
        } else {
            lemma_without_bound(c, from, to, rest);
        }
    }
}

// ---------------------------------------------------------------------------------------------
// Writing

/// Copy `[from, to)` of `src` to `dst`, leaving out the `skip` segments that fall inside it.
fn copy_without<S: ReadSeek, W: Write>(
    src: &S,
    dst: &mut CountingWriter<W>,
    from: u64,
    to: u64,
    skip: &Vec<Segment>,
) -> (r: Result<(), ZolalError>)
    requires
        old(dst).wf(),
        placed(segs(skip@), 0, u64::MAX as int),
        from <= to <= src.content().len(),
        old(dst).written().len() + (to - from) <= u64::MAX,
    ensures
        *final(final(dst).inner) == *final(old(dst).inner),
        final(dst).reliable() == old(dst).reliable(),
        r is Ok ==> final(dst).wf() && final(dst).extends(
            *old(dst),
            without(src.content(), from as int, to as int, segs(skip@)),
        ),
        r is Err ==> !(src.reliable() && old(dst).reliable()),
{
    let ghost c = src.content();
    let ghost list = segs(skip@);
    let ghost whole = without(c, from as int, to as int, list);
    let mut pos: u64 = from;
    let mut i: usize = 0;
    let ghost mut done: Seq<u8> = Seq::empty();
    proof {
        assert(list.skip(0) =~= list);
        assert(done + whole =~= whole);
        assert(dst.written() =~= old(dst).written() + done);
    }
    while i < skip.len()
        invariant
            c == src.content(),
            list == segs(skip@),
            placed(list, 0, u64::MAX as int),
            whole == without(c, from as int, to as int, list),
            i <= skip@.len(),
            from <= pos <= to <= c.len(),
            done.len() <= pos - from,
            done + without(c, pos as int, to as int, list.skip(i as int)) == whole,
            old(dst).written().len() + (to - from) <= u64::MAX,
            *final(dst.inner) == *final(old(dst).inner),
            dst.reliable() == old(dst).reliable(),
            dst.wf(),
            dst.extends(*old(dst), done),
        decreases skip@.len() - i,
    {
        let seg = skip[i];
        let ghost rest = list.skip(i as int);
        proof {
            assert(list[i as int] == seg.seg());
            assert(rest[0] == seg.seg());
            assert(rest.drop_first() =~= list.skip(i + 1));
        }
        let end: u64 = seg.offset + seg.len;
        if seg.offset >= pos && end <= to {
            copy_range(
                src,
                dst,
                pos,
                seg.offset,
                malformed("carrier changed while it was being read"),
            )?;
            proof {
                let part = clip(c, pos as int, seg.offset as int);
                assert(dst.written() =~= old(dst).written() + (done + part));
                assert(done + part + without(c, end as int, to as int, list.skip(i + 1)) =~= whole);
                done = done + part;
            }
            pos = end;
        }
        i = i + 1;
    }
    assert(list.skip(i as int) =~= Seq::<Seg>::empty());
    copy_range(src, dst, pos, to, malformed("carrier changed while it was being read"))?;
    assert(dst.written() =~= old(dst).written() + whole);
    Ok(())
}

/// `payload` as one APP15 segment.
pub open spec fn app15_segment(payload: Seq<u8>) -> Seq<u8> {
    seq![
        0xFFu8,
        M_APP15,
        ((payload.len() + 2) / 256) as u8,
        ((payload.len() + 2) % 256) as u8,
    ] + payload
}

/// `data` as consecutive APP15 segments, all but the last of them full.
pub open spec fn framed(data: Seq<u8>) -> Seq<u8>
    decreases data.len(),
{
    if data.len() == 0 {
        Seq::empty()
    } else if data.len() <= APP15_MAX_PAYLOAD {
        app15_segment(data)
    } else {
        app15_segment(data.take(APP15_MAX_PAYLOAD as int)) + framed(
            data.skip(APP15_MAX_PAYLOAD as int),
        )
    }
}

/// The bytes that framing `n` bytes adds: four per segment.
pub open spec fn framing(n: nat) -> nat {
    (4 * ((n + APP15_MAX_PAYLOAD - 1) / (APP15_MAX_PAYLOAD as int))) as nat
}

pub proof fn lemma_framed_len(data: Seq<u8>)
    ensures
        framed(data).len() == data.len() + framing(data.len()),
        framing(data.len()) <= data.len() / 2 + 4,
    decreases data.len(),
{
    if data.len() > APP15_MAX_PAYLOAD {
        lemma_framed_len(data.skip(APP15_MAX_PAYLOAD as int));
    }
}

/// Full segments first: framing them and framing the rest is framing everything.
pub proof fn lemma_framed_concat(full: Seq<u8>, rest: Seq<u8>)
    requires
        full.len() % (APP15_MAX_PAYLOAD as nat) == 0,
    ensures
        framed(full + rest) == framed(full) + framed(rest),
    decreases full.len(),
{
    let m = APP15_MAX_PAYLOAD as int;
    if full.len() == 0 {
        assert(full + rest =~= rest);
        assert(framed(full) + framed(rest) =~= framed(rest));
    } else {
        assert(full.len() >= m);
        assert(full.skip(m).len() % (APP15_MAX_PAYLOAD as nat) == 0);
        lemma_framed_concat(full.skip(m), rest);
        assert((full + rest).take(m) =~= full.take(m));
        assert((full + rest).skip(m) =~= full.skip(m) + rest);
        if full.len() == m {
            assert(full.take(m) =~= full);
            assert(full.skip(m) =~= Seq::<u8>::empty());
            assert(full.skip(m) + rest =~= rest);
            if rest.len() == 0 {
                assert(full + rest =~= full);
                assert(framed(full) + framed(rest) =~= framed(full));
            }
        } else {
            assert(framed(full + rest) =~= framed(full) + framed(rest));
        }
    }
}

/// Bytes of overhead APP15 framing adds for a payload of `n` bytes.
pub fn app15_overhead(n: u64) -> (r: u64)
    ensures
        r == framing(n as nat),
{
    let full: u64 = n / (APP15_MAX_PAYLOAD as u64);
    let segments: u64 = if n % (APP15_MAX_PAYLOAD as u64) == 0 { full } else { full + 1 };
    segments * 4
}

/// Frames everything written to it as consecutive full APP15 segments.
struct App15Writer {
    buf: Vec<u8>,
    written: u64,
    /// Everything handed in so far.
    seen: Ghost<Seq<u8>>,
}

impl App15Writer {
    spec fn wf(&self) -> bool {
        &&& self.written % (APP15_MAX_PAYLOAD as u64) == 0
        &&& self.seen@.len() == self.written + self.buf@.len()
        &&& self.buf@ == self.seen@.skip(self.written as int)
        &&& self.buf@.len() < APP15_MAX_PAYLOAD
    }

    /// What has been framed already.
    spec fn emitted(&self) -> Seq<u8> {
        self.seen@.take(self.written as int)
    }

    fn new() -> (r: Self)
        ensures
            r.wf(),
            r.seen@ == Seq::<u8>::empty(),
            r.emitted() == Seq::<u8>::empty(),
    {
        let r = App15Writer { buf: Vec::new(), written: 0, seen: Ghost(Seq::empty()) };
        assert(r.buf@ =~= r.seen@.skip(0));
        assert(r.emitted() =~= Seq::<u8>::empty());
        r
    }

    /// Write out the pending bytes as one segment.
    fn emit<W: Write>(&mut self, out: &mut CountingWriter<W>) -> (r: Result<(), ZolalError>)
        requires
            old(out).wf(),
            old(self).buf@.len() <= APP15_MAX_PAYLOAD,
            old(self).written + old(self).buf@.len() <= u64::MAX,
            old(out).written().len() + old(self).buf@.len() + 4 <= u64::MAX,
        ensures
            *final(final(out).inner) == *final(old(out).inner),
            final(out).reliable() == old(out).reliable(),
            r is Err ==> !old(out).reliable(),
            r is Ok ==> {
                &&& final(out).wf()
                &&& final(out).extends(
                    *old(out),
                    if old(self).buf@.len() == 0 {
                        Seq::empty()
                    } else {
                        app15_segment(old(self).buf@)
                    },
                )
                &&& final(self).seen@ == old(self).seen@
                &&& final(self).buf@ == Seq::<u8>::empty()
                &&& final(self).written == old(self).written + old(self).buf@.len()
            },
    {
        if self.buf.len() == 0 {
            assert(self.buf@ =~= Seq::<u8>::empty());
            assert(out.written() =~= old(out).written() + Seq::<u8>::empty());
            return Ok(());
        }
        let len: usize = self.buf.len() + 2;
        let mut bytes: Vec<u8> = vec![0xFFu8, M_APP15, (len / 256) as u8, (len % 256) as u8];
        let ghost payload = self.buf@;
        bytes.append(&mut self.buf);
        assert(bytes@ =~= app15_segment(payload));
        match out.write_all(bytes.as_slice()) {
            Ok(()) => {},
            Err(e) => {
                return Err(ZolalError::from_io(e));
            },
        }
        self.written = self.written + (len - 2) as u64;
        self.buf = Vec::new();
        assert(self.buf@ =~= Seq::<u8>::empty());
        Ok(())
    }

    fn write<W: Write>(
        &mut self,
        out: &mut CountingWriter<W>,
        data: &Vec<u8>,
        Ghost(base): Ghost<Seq<u8>>,
        Ghost(count): Ghost<int>,
    ) -> (r: Result<(), ZolalError>)
        requires
            old(out).wf(),
            old(self).wf(),
            old(out).written() == base + framed(old(self).emitted()),
            old(out).count == count + framed(old(self).emitted()).len(),
            base.len() + (old(self).seen@.len() + data@.len()) * 3 / 2 + 8 <= u64::MAX,
        ensures
            *final(final(out).inner) == *final(old(out).inner),
            final(out).reliable() == old(out).reliable(),
            r is Err ==> !old(out).reliable(),
            r is Ok ==> {
                &&& final(out).wf()
                &&& final(self).wf()
                &&& final(self).seen@ == old(self).seen@ + data@
                &&& final(out).written() == base + framed(final(self).emitted())
                &&& final(out).count == count + framed(final(self).emitted()).len()
            },
    {
        let mut i: usize = 0;
        assert(old(self).seen@ + data@.take(0) =~= old(self).seen@);
        while i < data.len()
            invariant
                i <= data@.len(),
                *final(out.inner) == *final(old(out).inner),
                out.reliable() == old(out).reliable(),
                out.wf(),
                self.wf(),
                self.seen@ == old(self).seen@ + data@.take(i as int),
                out.written() == base + framed(self.emitted()),
                out.count == count + framed(self.emitted()).len(),
                base.len() + (old(self).seen@.len() + data@.len()) * 3 / 2 + 8 <= u64::MAX,
            decreases data@.len() - i,
        {
            let room: usize = APP15_MAX_PAYLOAD - self.buf.len();
            let n: usize = if data.len() - i < room { data.len() - i } else { room };
            let ghost before = *self;
            let part = vstd::slice::slice_subrange(data.as_slice(), i, i + n);
            self.buf.extend_from_slice(part);
            proof {
                self.seen@ = self.seen@ + part@;
                assert(self.buf@ =~= before.buf@ + part@);
                assert(self.buf@ =~= self.seen@.skip(self.written as int));
                assert(data@.take(i as int) + part@ =~= data@.take(i + n));
                assert(self.seen@ =~= old(self).seen@ + data@.take(i + n));
                assert(self.emitted() =~= before.emitted());
            }
            i = i + n;
            if self.buf.len() == APP15_MAX_PAYLOAD {
                let ghost full = self.emitted();
                let ghost pending = self.buf@;
                proof {
                    lemma_framed_concat(full, pending);
                    assert(full + pending =~= self.seen@);
                    lemma_framed_len(self.seen@);
                    assert(framed(pending) == app15_segment(pending));
                    assert(framed(self.seen@).len() == framed(full).len() + pending.len() + 4);
                }
                let ghost out_before = out.written();
                self.emit(out)?;
                proof {
                    assert(self.emitted() =~= full + pending);
                    assert(self.buf@ =~= self.seen@.skip(self.written as int));
                    assert(out.written() =~= base + (framed(full) + framed(pending)));
                    assert((before.written + 65533) % 65533 == 0) by (nonlinear_arith)
                        requires
                            before.written % 65533 == 0,
                    ;
                }
            }
        }
        assert(data@.take(i as int) =~= data@);
        Ok(())
    }

    /// Emit the final (possibly short) segment; returns the payload bytes framed.
    fn finish<W: Write>(
        &mut self,
        out: &mut CountingWriter<W>,
        Ghost(base): Ghost<Seq<u8>>,
        Ghost(count): Ghost<int>,
    ) -> (r: Result<u64, ZolalError>)
        requires
            old(out).wf(),
            old(self).wf(),
            old(out).written() == base + framed(old(self).emitted()),
            old(out).count == count + framed(old(self).emitted()).len(),
            base.len() + old(self).seen@.len() * 3 / 2 + 8 <= u64::MAX,
        ensures
            *final(final(out).inner) == *final(old(out).inner),
            final(out).reliable() == old(out).reliable(),
            r is Err ==> !old(out).reliable(),
            r matches Ok(n) ==> {
                &&& final(out).wf()
                &&& n == old(self).seen@.len()
                &&& final(out).written() == base + framed(old(self).seen@)
                &&& final(out).count == count + framed(old(self).seen@).len()
            },
    {
        let ghost full = self.emitted();
        let ghost pending = self.buf@;
        proof {
            lemma_framed_concat(full, pending);
            assert(full + pending =~= self.seen@);
            lemma_framed_len(self.seen@);
        }
        self.emit(out)?;
        assert(out.written() =~= base + (framed(full) + framed(pending)));
        Ok(self.written)
    }
}

// ---------------------------------------------------------------------------------------------
// The carrier

/// `(offset, length)` of each segment's payload.
pub open spec fn payload_parts(list: Seq<Seg>) -> Seq<(u64, u64)> {
    list.map_values(|s: Seg| ((s.offset + 4) as u64, (s.len - 4) as u64))
}

/// Where the regions of a file of this shape are.
pub open spec fn shape_regions(s: Shape, file_len: int) -> Seq<Region> {
    let trailer = if file_len > s.image_end {
        seq![
            Region {
                offset: s.image_end as u64,
                len: (file_len - s.image_end) as u64,
                technique: Technique::JpegTrailer,
                fragmented: false,
            },
        ]
    } else {
        Seq::empty()
    };
    let app15 = if s.app15.len() > 0 {
        seq![
            Region {
                offset: (s.app15[0].offset + 4) as u64,
                len: (seg_sum(s.app15) - 4 * s.app15.len()) as u64,
                technique: Technique::JpegApp15,
                fragmented: true,
            },
        ]
    } else {
        Seq::empty()
    };
    trailer + app15
}

/// All lengths together.
fn sum_segments(list: &Vec<Segment>) -> (r: u64)
    requires
        placed(segs(list@), 0, u64::MAX as int),
    ensures
        r == seg_sum(segs(list@)),
        4 * list@.len() <= r,
{
    let ghost all = segs(list@);
    let mut i: usize = 0;
    let mut sum: u64 = 0;
    assert(all.skip(0) =~= all);
    while i < list.len()
        invariant
            all == segs(list@),
            placed(all, 0, u64::MAX as int),
            i <= list@.len(),
            sum + seg_sum(all.skip(i as int)) == seg_sum(all),
            4 * i <= sum,
            i == 0 ==> sum == 0,
            i > 0 ==> sum <= all[i - 1].offset + all[i - 1].len,
        decreases list@.len() - i,
    {
        proof {
            assert(all[i as int] == list@[i as int].seg());
            assert(all.skip(i as int)[0] == all[i as int]);
            assert(all.skip(i as int).drop_first() =~= all.skip(i + 1));
        }
        sum = sum + list[i].len;
        i = i + 1;
    }
    assert(all.skip(i as int) =~= Seq::<Seg>::empty());
    sum
}

/// What [`Carrier::embed`] leaves of the file, before and after an APP15 region.
pub open spec fn kept(c: Seq<u8>, s: Shape) -> Seq<u8> {
    without(c, 0, s.image_end, s.app15)
}

pub proof fn lemma_kept(c: Seq<u8>)
    ensures
        shape(c) matches Ok(s) ==> {
            &&& kept(c, s).len() == s.image_end - seg_sum(s.app15)
            &&& kept(c, s) == without(c, 0, s.insert_at, s.app15) + without(
                c,
                s.insert_at,
                s.image_end,
                s.app15,
            )
            &&& without(c, 0, s.insert_at, s.app15).len() <= s.insert_at
            &&& kept(c, s).len() <= s.image_end
            &&& 2 <= s.insert_at <= s.image_end <= c.len()
            &&& placed(s.app15, 0, s.image_end)
            &&& c.len() <= u64::MAX ==> placed(s.app15, 0, u64::MAX as int)
        },
{
    lemma_shape(c);
    if let Ok(s) = shape(c) {
        lemma_without_len(c, 0, s.image_end, s.app15);
        lemma_without_split(c, 0, s.insert_at, s.image_end, s.app15);
        lemma_without_bound(c, 0, s.insert_at, s.app15);
        lemma_without_bound(c, 0, s.image_end, s.app15);
    }
}

/// Write everything that `fill` produces, framed as APP15 segments. It has to come to `region_len`
/// bytes before framing.
fn pump_framed<W: Write, F: Fill>(out: &mut CountingWriter<W>, fill: &mut F, region_len: u64) -> (r:
    Result<(), ZolalError>)
    requires
        old(out).wf(),
        old(fill).wf(),
        old(out).written().len() + old(fill).left() <= SIZE_LIMIT,
    ensures
        *final(final(out).inner) == *final(old(out).inner),
        final(out).reliable() == old(out).reliable(),
        final(fill).wf(),
        final(fill).origin() == old(fill).origin(),
        r is Ok ==> {
            let region = newly_produced(*old(fill), *final(fill));
            &&& final(out).wf()
            &&& final(out).extends(*old(out), framed(region))
            &&& region.len() == region_len
            &&& old(fill).left() == region_len
            &&& final(fill).left() == 0
            &&& old(fill).ending() is None
            &&& final(fill).ending() is None
            &&& final(fill).produced() == old(fill).produced() + region
        },
        r matches Err(e) ==> old(out).reliable() && old(fill).reliable() ==> match old(fill).ending() {
            Some(fault) => e@ == fault,
            None => old(fill).left() != region_len && e@ == mismatch(
                region_len as nat,
                old(fill).left(),
            ),
        },
{
    let ghost base = out.written();
    let ghost count = out.count as int;
    let mut segments = App15Writer::new();
    proof {
        assert(framed(segments.emitted()) =~= Seq::<u8>::empty());
        assert(base + framed(segments.emitted()) =~= base);
        assert(fill.produced() =~= old(fill).produced() + segments.seen@);
    }
    loop
        invariant
            base.len() + old(fill).left() <= SIZE_LIMIT,
            *final(out.inner) == *final(old(out).inner),
            out.reliable() == old(out).reliable(),
            old(fill).reliable() ==> fill.reliable(),
            fill.wf(),
            fill.origin() == old(fill).origin(),
            fill.ending() == old(fill).ending(),
            out.wf(),
            segments.wf(),
            out.written() == base + framed(segments.emitted()),
            out.count == count + framed(segments.emitted()).len(),
            segments.seen@.len() + fill.left() == old(fill).left(),
            fill.produced() == old(fill).produced() + segments.seen@,
        ensures
            fill.left() == 0,
            old(fill).ending() is None,
        decreases fill.left(),
    {
        let block = fill.next_block()?;
        if block.len() == 0 {
            assert(fill.produced() =~= old(fill).produced() + segments.seen@);
            break;
        }
        let ghost seen = segments.seen@;
        segments.write(out, &block, Ghost(base), Ghost(count))?;
        assert(fill.produced() =~= old(fill).produced() + segments.seen@);
    }
    let ghost region = segments.seen@;
    let got: u64 = segments.finish(out, Ghost(base), Ghost(count))?;
    assert(newly_produced(*old(fill), *fill) =~= region);
    if got != region_len {
        return Err(region_len_mismatch(region_len, got));
    }
    Ok(())
}

/// JPEG carrier implementation.
pub struct JpegCarrier;

impl Carrier for JpegCarrier {
    open spec fn recognised(head: Seq<u8>) -> bool {
        head.len() >= 2 && head[0] == 0xFF && head[1] == M_SOI
    }

    open spec fn regions(content: Seq<u8>) -> Result<Seq<Region>, Fault> {
        match shape(content) {
            Ok(s) => Ok(shape_regions(s, content.len() as int)),
            Err(e) => Err(e),
        }
    }

    open spec fn region_bytes(content: Seq<u8>, region: Region) -> Result<Seq<u8>, Fault> {
        if !region.fragmented {
            Ok(gathered(content, seq![(region.offset, region.len)]))
        } else {
            match image(content, 0, no_facts(), true) {
                Ok((_, f)) => Ok(gathered(content, payload_parts(f.app15))),
                Err(e) => Err(e),
            }
        }
    }

    open spec fn embedded(content: Seq<u8>, technique: Technique, region: Seq<u8>) -> Seq<u8> {
        match shape(content) {
            Ok(s) => if technique == Technique::JpegApp15 {
                without(content, 0, s.insert_at, s.app15) + framed(region) + without(
                    content,
                    s.insert_at,
                    s.image_end,
                    s.app15,
                )
            } else {
                kept(content, s) + region
            },
            Err(_) => Seq::empty(),
        }
    }

    open spec fn embedded_len(content: Seq<u8>, technique: Technique, region_len: nat) -> Result<
        nat,
        Fault,
    > {
        match shape(content) {
            Ok(s) => if technique == Technique::JpegTrailer {
                Ok(kept(content, s).len() + region_len)
            } else if technique == Technique::JpegApp15 {
                Ok(kept(content, s).len() + region_len + framing(region_len))
            } else {
                Err(not_applicable(technique, " does not apply to a JPEG carrier"@))
            },
            Err(e) => Err(e),
        }
    }

    open spec fn stripped(content: Seq<u8>) -> Result<Seq<u8>, Fault> {
        match shape(content) {
            Ok(s) => Ok(kept(content, s)),
            Err(e) => Err(e),
        }
    }

    open spec fn reencoded(content: Seq<u8>) -> Result<bool, Fault> {
        match shape(content) {
            Ok(s) => Ok(content.len() == s.image_end && s.app15.len() == 0 && !s.has_exif),
            Err(e) => Err(e),
        }
    }

    fn probe(head: &[u8]) -> (r: bool) {
        head.len() >= 2 && head[0] == 0xFF && head[1] == M_SOI
    }

    fn candidate_regions<S: ReadSeek>(&self, src: &S) -> (r: Result<Vec<Region>, ZolalError>) {
        let layout = scan(src)?;
        proof {
            lemma_kept(src.content());
        }
        let mut regions: Vec<Region> = Vec::new();
        let trailer: u64 = layout.file_len - layout.image_end;
        if trailer > 0 {
            regions.push(
                Region {
                    offset: layout.image_end,
                    len: trailer,
                    technique: Technique::JpegTrailer,
                    fragmented: false,
                },
            );
        }
        if layout.app15.len() > 0 {
            let sum: u64 = sum_segments(&layout.app15);
            proof {
                assert(segs(layout.app15@)[0] == layout.app15@[0].seg());
            }
            regions.push(
                Region {
                    offset: layout.app15[0].offset + 4,
                    len: sum - 4 * (layout.app15.len() as u64),
                    technique: Technique::JpegApp15,
                    fragmented: true,
                },
            );
        }
        assert(regions@ =~= shape_regions(layout.shape(), layout.file_len as int));
        Ok(regions)
    }

    fn open_region<'a, S: ReadSeek>(&self, src: &'a S, region: &Region) -> (r: Result<
        RegionReader<'a, S>,
        ZolalError,
    >) {
        let mut parts: Vec<(u64, u64)> = Vec::new();
        if !region.fragmented {
            parts.push((region.offset, region.len));
            assert(parts@ =~= seq![(region.offset, region.len)]);
            return Ok(RegionReader::new(src, parts));
        }
        let list = scan_header(src)?;
        let ghost all = segs(list@);
        proof {
            lemma_image_facts(src.content(), 0, no_facts(), true);
        }
        let mut i: usize = 0;
        while i < list.len()
            invariant
                all == segs(list@),
                src.content().len() <= u64::MAX,
                forall|k: int| 0 <= k < all.len() ==> (#[trigger] all[k]).len >= 4 && all[k].offset
                    + all[k].len <= src.content().len(),
                i <= list@.len(),
                parts@ == payload_parts(all).take(i as int),
            decreases list@.len() - i,
        {
            let seg = list[i];
            proof {
                assert(all[i as int] == seg.seg());
            }
            parts.push((seg.offset + 4, seg.len - 4));
            proof {
                assert(payload_parts(all)[i as int] == ((seg.offset + 4) as u64, (seg.len - 4) as u64));
                assert(parts@ =~= payload_parts(all).take(i + 1));
            }
            i = i + 1;
        }
        assert(parts@ =~= payload_parts(all));
        Ok(RegionReader::new(src, parts))
    }

    fn embed<S: ReadSeek, W: Write, F: Fill>(
        &self,
        src: &S,
        dst: &mut W,
        technique: Technique,
        region_len: u64,
        fill: &mut F,
    ) -> (r: Result<u64, ZolalError>) {
        let layout = scan(src)?;
        let ghost c = src.content();
        let ghost s = layout.shape();
        proof {
            lemma_kept(c);
        }
        let mut out = CountingWriter::new(dst);
        match technique {
            Technique::JpegTrailer => {
                copy_without(src, &mut out, 0, layout.image_end, &layout.app15)?;
                pump(&mut out, fill, region_len)?;
                proof {
                    let region = newly_produced(*old(fill), *fill);
                    assert(out.written() =~= old(dst).written() + Self::embedded(c, technique, region));
                }
            },
            Technique::JpegApp15 => {
                copy_without(src, &mut out, 0, layout.insert_at, &layout.app15)?;
                pump_framed(&mut out, fill, region_len)?;
                let ghost region = newly_produced(*old(fill), *fill);
                proof {
                    lemma_framed_len(region);
                }
                copy_without(src, &mut out, layout.insert_at, layout.image_end, &layout.app15)?;
                proof {
                    assert(out.written() =~= old(dst).written() + Self::embedded(c, technique, region));
                }
            },
            other => {
                return Err(technique_mismatch(other, " does not apply to a JPEG carrier"));
            },
        }
        Ok(out.count())
    }

    fn output_len<S: ReadSeek>(&self, src: &S, technique: Technique, region_len: u64) -> (r: Result<
        u64,
        ZolalError,
    >) {
        let layout = scan(src)?;
        proof {
            lemma_kept(src.content());
        }
        let sum: u64 = sum_segments(&layout.app15);
        let kept_len: u64 = layout.image_end - sum;
        match technique {
            Technique::JpegTrailer => Ok(kept_len + region_len),
            Technique::JpegApp15 => {
                proof {
                    lemma_framed_len(Seq::new(region_len as nat, |i: int| 0u8));
                }
                Ok(kept_len + region_len + app15_overhead(region_len))
            },
            other => Err(technique_mismatch(other, " does not apply to a JPEG carrier")),
        }
    }

    fn strip<S: ReadSeek, W: Write>(&self, src: &S, dst: &mut W) -> (r: Result<u64, ZolalError>) {
        let layout = scan(src)?;
        proof {
            lemma_kept(src.content());
        }
        let mut out = CountingWriter::new(dst);
        copy_without(src, &mut out, 0, layout.image_end, &layout.app15)?;
        Ok(out.count())
    }

    fn looks_reencoded<S: ReadSeek>(&self, src: &S) -> (r: Result<bool, ZolalError>) {
        looks_reencoded(src)
    }
}

/// Heuristic: does this JPEG look like a chat app re-encoded it?
///
/// Deliberately a *hint*, never a claim: a plain camera JPEG can legitimately match. Signature: no
/// trailing bytes after the last image, no APP15 segments, and EXIF stripped.
pub fn looks_reencoded<S: ReadSeek>(src: &S) -> (r: Result<bool, ZolalError>)
    ensures
        walked(r, src.reliable(), JpegCarrier::reencoded(src.content())),
{
    let layout = scan(src)?;
    Ok(layout.file_len == layout.image_end && layout.app15.len() == 0 && !layout.has_exif)
}

} // verus!
