//! MP4 / ISOBMFF carrier: a top-level `free` box.
//!
//! An ISOBMFF file is a flat sequence of boxes, each a 4-byte big-endian `size` and a 4-byte `type`
//! followed by a body. `free` and `skip` are defined as ignorable padding, so appending one after
//! the existing boxes changes nothing a player depends on: nothing already in the file moves.
//!
//! The walk reads only the 8- or 16-byte header of each top-level box and skips the body, so a
//! video carrying a huge hidden payload costs the same to inspect as the bare video.
//!
//! ## Two box-size forms
//!
//! `size` is normally the whole box length. `size == 1` means that the real length is a 64-bit
//! `largesize` right after the type, so the header is 16 bytes. `size == 0` means that the box runs
//! to the end of the file. Such a file can be *read*, but bytes appended after an open-ended box
//! would be swallowed into it, so hiding in one is refused. Stripping one is not: nothing is appended.
//!
//! ## Hiding replaces what was there
//!
//! Any trailing run of `free`/`skip` boxes is dropped before a new one is appended. Interior padding
//! boxes are left untouched. On reveal every `free`/`skip` body is a candidate, last in the file
//! first, and the authentication tag decides.

use super::{
    newly_produced, not_applicable, pump, technique_mismatch, Carrier, Fill, Region, Technique,
};
use crate::bytes::{be_bytes, be_number, be_value, push_be};
use crate::error::{Fault, ZolalError};
use crate::io::{
    clip, copy_range, gathered, read_header, CountingWriter, Read, ReadSeek, RegionReader, Write,
};
use crate::text::{is_text, utf8};
use vstd::prelude::*;

verus! {

/// Header size of a 32-bit box: `size` and `type`.
pub const BOX_HEADER_LEN: u64 = 8;

/// Header size of a 64-bit box: `size`, `type` and `largesize`.
pub const BOX_HEADER_LEN_64: u64 = 16;

/// Above this, the 32-bit `size` field can't express the box.
pub const LARGE_BOX_THRESHOLD: u64 = 0xffff_ffff;

// ---------------------------------------------------------------------------------------------
// What the structure of a file is

/// A structural error in an MP4.
pub open spec fn bad(detail: Seq<char>) -> Fault {
    Fault::MalformedContainer { format: "MP4"@, detail }
}

/// `free`.
pub open spec fn free_kind() -> Seq<u8> {
    seq![0x66, 0x72, 0x65, 0x65]
}

/// `skip`.
pub open spec fn skip_kind() -> Seq<u8> {
    seq![0x73, 0x6b, 0x69, 0x70]
}

/// One top-level box.
pub ghost struct BoxAt {
    pub offset: int,
    pub header_len: int,
    /// Whole box length including the header.
    pub total: int,
    pub kind: Seq<u8>,
    /// Whether the box declared that it runs to the end of the file.
    pub open_ended: bool,
}

impl BoxAt {
    /// Ignorable padding.
    pub open spec fn is_padding(self) -> bool {
        self.kind == free_kind() || self.kind == skip_kind()
    }

    /// The offset just past the box.
    pub open spec fn end(self) -> int {
        self.offset + self.total
    }

    /// Its body as a place to look.
    pub open spec fn region(self) -> Region {
        Region {
            offset: (self.offset + self.header_len) as u64,
            len: (self.total - self.header_len) as u64,
            technique: Technique::Mp4FreeBox,
            fragmented: false,
        }
    }
}

/// The box that begins at `pos`.
pub open spec fn box_at(c: Seq<u8>, pos: int) -> Result<BoxAt, Fault> {
    if pos + 8 > c.len() {
        Err(bad("file ends inside a box header"@))
    } else {
        let size = be_number(c.subrange(pos, pos + 4)) as int;
        if size == 1 && pos + 16 > c.len() {
            Err(bad("file ends inside a box header"@))
        } else {
            let header_len: int = if size == 1 {
                16
            } else {
                8
            };
            let total: int = if size == 0 {
                c.len() - pos
            } else if size == 1 {
                be_number(c.subrange(pos + 8, pos + 16)) as int
            } else {
                size
            };
            if total < header_len {
                Err(bad("box smaller than its own header"@))
            } else if total > c.len() - pos {
                Err(bad("box runs past the end of the file"@))
            } else {
                Ok(
                    BoxAt {
                        offset: pos,
                        header_len,
                        total,
                        kind: c.subrange(pos + 4, pos + 8),
                        open_ended: size == 0,
                    },
                )
            }
        }
    }
}

/// `done` and then `rest`.
pub open spec fn followed_by(done: Seq<BoxAt>, rest: Result<Seq<BoxAt>, Fault>) -> Result<
    Seq<BoxAt>,
    Fault,
> {
    match rest {
        Ok(more) => Ok(done + more),
        Err(e) => Err(e),
    }
}

/// The boxes from `pos` to the end of the file.
pub open spec fn boxes_from(c: Seq<u8>, pos: int) -> Result<Seq<BoxAt>, Fault>
    decreases c.len() - pos,
{
    if pos >= c.len() {
        Ok(Seq::empty())
    } else {
        match box_at(c, pos) {
            Ok(b) => if b.total > 0 {
                followed_by(seq![b], boxes_from(c, pos + b.total))
            } else {
                Err(bad("box smaller than its own header"@))
            },
            Err(e) => Err(e),
        }
    }
}

/// The top-level boxes of a file, of which there has to be one.
pub open spec fn boxes(c: Seq<u8>) -> Result<Seq<BoxAt>, Fault> {
    match boxes_from(c, 0) {
        Ok(list) => if list.len() == 0 {
            Err(bad("no boxes"@))
        } else {
            Ok(list)
        },
        Err(e) => Err(e),
    }
}

/// The boxes without the padding at the end.
pub open spec fn substance(list: Seq<BoxAt>) -> Seq<BoxAt>
    decreases list.len(),
{
    if list.len() > 0 && list.last().is_padding() {
        substance(list.drop_last())
    } else {
        list
    }
}

/// The offset just past the last of the boxes.
pub open spec fn end_of(list: Seq<BoxAt>) -> int {
    if list.len() == 0 {
        0
    } else {
        list.last().end()
    }
}

/// Where new boxes go: behind the last one that is not padding.
pub open spec fn kept_end(list: Seq<BoxAt>) -> Result<int, Fault> {
    let kept = substance(list);
    if kept.len() > 0 && kept.last().open_ended {
        Err(bad("file ends in an open-ended box (size 0); re-mux it before hiding"@))
    } else {
        Ok(end_of(kept))
    }
}

/// What a file is without the padding at its end.
pub open spec fn substance_bytes(c: Seq<u8>) -> Result<Seq<u8>, Fault> {
    match boxes(c) {
        Ok(list) => Ok(clip(c, 0, end_of(substance(list)))),
        Err(e) => Err(e),
    }
}

/// What is kept of a file that something is hidden in: the same, unless a new box would be swallowed.
pub open spec fn kept_bytes(c: Seq<u8>) -> Result<Seq<u8>, Fault> {
    match boxes(c) {
        Ok(list) => match kept_end(list) {
            Ok(end) => Ok(clip(c, 0, end)),
            Err(e) => Err(e),
        },
        Err(e) => Err(e),
    }
}

/// The padding boxes as places to look, last in the file first.
pub open spec fn padding_regions(list: Seq<BoxAt>) -> Seq<Region>
    decreases list.len(),
{
    if list.len() == 0 {
        Seq::empty()
    } else {
        let rest = padding_regions(list.drop_last());
        if list.last().is_padding() {
            seq![list.last().region()] + rest
        } else {
            rest
        }
    }
}

/// Header bytes of a `free` box with a body of `n` bytes.
pub open spec fn overhead(n: nat) -> nat {
    if n + 8 > 0xffff_ffff {
        16
    } else {
        8
    }
}

/// The header of a `free` box with a body of `n` bytes.
pub open spec fn free_header(n: nat) -> Seq<u8> {
    if overhead(n) == 16 {
        be_bytes(1, 4) + free_kind() + be_bytes(n + 16, 8)
    } else {
        be_bytes(n + 8, 4) + free_kind()
    }
}

/// Boxes that stand back to back from `from` to `to`.
pub open spec fn back_to_back(list: Seq<BoxAt>, from: int, to: int) -> bool
    decreases list.len(),
{
    if list.len() == 0 {
        from == to
    } else {
        let last = list.last();
        &&& last.end() == to
        &&& last.header_len >= 8
        &&& last.total >= last.header_len
        &&& last.offset >= from
        &&& back_to_back(list.drop_last(), from, last.offset)
    }
}

pub proof fn lemma_box_at(c: Seq<u8>, pos: int)
    requires
        0 <= pos,
    ensures
        box_at(c, pos) matches Ok(b) ==> b.offset == pos && 8 <= b.header_len <= b.total && pos
            + b.total <= c.len(),
{
}

proof fn lemma_prepend(b: BoxAt, list: Seq<BoxAt>, to: int)
    requires
        back_to_back(list, b.end(), to),
        8 <= b.header_len <= b.total,
    ensures
        back_to_back(seq![b] + list, b.offset, to),
    decreases list.len(),
{
    let all = seq![b] + list;
    if list.len() == 0 {
        assert(all.drop_last() =~= Seq::<BoxAt>::empty());
        assert(all.last() == b);
        assert(back_to_back(all.drop_last(), b.offset, b.offset));
    } else {
        assert(all.last() == list.last());
        assert(all.drop_last() =~= seq![b] + list.drop_last());
        lemma_prepend(b, list.drop_last(), list.last().offset);
        lemma_back_to_back(list, b.end(), to);
    }
}

pub proof fn lemma_back_to_back(list: Seq<BoxAt>, from: int, to: int)
    requires
        back_to_back(list, from, to),
    ensures
        from <= to,
        8 * list.len() <= to - from,
        forall|i: int|
            0 <= i < list.len() ==> from <= (#[trigger] list[i]).offset && 8 <= list[i].header_len
                <= list[i].total && list[i].end() <= to,
    decreases list.len(),
{
    if list.len() > 0 {
        lemma_back_to_back(list.drop_last(), from, list.last().offset);
        assert forall|i: int| 0 <= i < list.len() implies from <= (#[trigger] list[i]).offset && 8
            <= list[i].header_len <= list[i].total && list[i].end() <= to by {
            if i < list.len() - 1 {
                assert(list.drop_last()[i] == list[i]);
            }
        }
    }
}

pub proof fn lemma_boxes_from(c: Seq<u8>, pos: int)
    requires
        0 <= pos <= c.len(),
    ensures
        boxes_from(c, pos) matches Ok(list) ==> back_to_back(list, pos, c.len() as int),
    decreases c.len() - pos,
{
    if pos < c.len() {
        if let Ok(b) = box_at(c, pos) {
            lemma_boxes_from(c, pos + b.total);
            if let Ok(rest) = boxes_from(c, pos + b.total) {
                lemma_prepend(b, rest, c.len() as int);
            }
        }
    }
}

pub proof fn lemma_substance(list: Seq<BoxAt>, from: int, to: int)
    requires
        back_to_back(list, from, to),
    ensures
        back_to_back(substance(list), from, if substance(list).len() == 0 { from } else { end_of(substance(list)) }),
        end_of(substance(list)) <= to || substance(list).len() == 0,
        substance(list).len() <= list.len(),
        substance(list) == list.take(substance(list).len() as int),
    decreases list.len(),
{
    if list.len() > 0 && list.last().is_padding() {
        let rest = list.drop_last();
        lemma_substance(rest, from, list.last().offset);
        assert(rest.take(substance(rest).len() as int) =~= list.take(substance(rest).len() as int));
    } else {
        assert(list.take(list.len() as int) =~= list);
    }
}

// ---------------------------------------------------------------------------------------------
// Walking

fn malformed(detail: &str) -> (r: ZolalError)
    ensures
        r@ == bad(detail@),
{
    ZolalError::MalformedContainer { format: "MP4", detail: detail.to_owned() }
}

/// One top-level box header.
#[derive(Debug, Clone, Copy)]
pub struct BoxHeader {
    /// Where the box begins.
    pub offset: u64,
    /// How long its header is.
    pub header_len: u64,
    /// Whole box length including the header.
    pub total: u64,
    /// The box type.
    pub kind: [u8; 4],
    /// True when the box declared `size == 0` (runs to the end). Nothing can follow it.
    pub open_ended: bool,
}

impl BoxHeader {
    /// The box as contracts speak of it.
    pub open spec fn at(&self) -> BoxAt {
        BoxAt {
            offset: self.offset as int,
            header_len: self.header_len as int,
            total: self.total as int,
            kind: self.kind@,
            open_ended: self.open_ended,
        }
    }

    /// Whether the box is ignorable padding.
    pub fn is_padding(&self) -> (r: bool)
        ensures
            r == self.at().is_padding(),
    {
        let k = self.kind;
        let free = k[0] == 0x66 && k[1] == 0x72 && k[2] == 0x65 && k[3] == 0x65;
        let skip = k[0] == 0x73 && k[1] == 0x6b && k[2] == 0x69 && k[3] == 0x70;
        proof {
            let f = free_kind();
            let s = skip_kind();
            assert(f[0] == 0x66 && f[1] == 0x72 && f[2] == 0x65 && f[3] == 0x65);
            assert(s[0] == 0x73 && s[1] == 0x6b && s[2] == 0x69 && s[3] == 0x70);
            if free {
                assert(k@ =~= f);
            }
            if skip {
                assert(k@ =~= s);
            }
        }
        free || skip
    }
}

/// Box headers as contracts speak of them.
pub open spec fn ats(list: Seq<BoxHeader>) -> Seq<BoxAt> {
    list.map_values(|b: BoxHeader| b.at())
}

/// Parse one box header at `pos`.
fn parse_box<S: ReadSeek>(src: &S, pos: u64, file_len: u64) -> (r: Result<BoxHeader, ZolalError>)
    requires
        file_len == src.content().len(),
        pos < file_len,
    ensures
        match r {
            Ok(b) => box_at(src.content(), pos as int) == Ok::<BoxAt, Fault>(b.at()),
            Err(e) => (!src.reliable() && (e is Io || e is MalformedContainer)) || box_at(src.content(), pos as int) == Err::<
                BoxAt,
                Fault,
            >(e@),
        },
{
    let ghost c = src.content();
    let head = read_header(src, pos, 8, malformed("file ends inside a box header"))?;
    let size: u64 = be_value(head.as_slice(), 0, 4);
    assert(head@.subrange(0, 4) =~= c.subrange(pos as int, pos + 4));
    let kind: [u8; 4] = [head[4], head[5], head[6], head[7]];
    assert(kind@ =~= c.subrange(pos + 4, pos + 8));
    let mut header_len: u64 = BOX_HEADER_LEN;
    let mut total: u64 = size;
    if size == 0 {
        total = file_len - pos;
    } else if size == 1 {
        let big = read_header(src, pos + 8, 8, malformed("file ends inside a box header"))?;
        total = be_value(big.as_slice(), 0, 8);
        assert(big@.subrange(0, 8) =~= c.subrange(pos + 8, pos + 16));
        header_len = BOX_HEADER_LEN_64;
    }
    if total < header_len {
        return Err(malformed("box smaller than its own header"));
    }
    if total > file_len - pos {
        return Err(malformed("box runs past the end of the file"));
    }
    Ok(BoxHeader { offset: pos, header_len, total, kind, open_ended: size == 0 })
}

/// What one streaming pass over the top-level boxes learns.
#[derive(Debug)]
pub struct Layout {
    /// The boxes, in file order.
    pub boxes: Vec<BoxHeader>,
    /// The length of the file.
    pub file_len: u64,
}

impl Layout {
    /// The boxes stand back to back and fill the file.
    pub open spec fn wf(&self) -> bool {
        back_to_back(ats(self.boxes@), 0, self.file_len as int)
    }

    /// How many boxes there are before the trailing run of `free`/`skip` boxes.
    fn kept_count(&self) -> (r: usize)
        requires
            self.wf(),
        ensures
            r <= self.boxes@.len(),
            substance(ats(self.boxes@)) == ats(self.boxes@).take(r as int),
    {
        let ghost all = ats(self.boxes@);
        let mut n: usize = self.boxes.len();
        assert(all.take(n as int) =~= all);
        while n > 0 && self.boxes[n - 1].is_padding()
            invariant
                n <= self.boxes@.len(),
                all == ats(self.boxes@),
                substance(all) == substance(all.take(n as int)),
            decreases n,
        {
            proof {
                assert(all.take(n as int).last() == self.boxes@[n - 1].at());
                assert(all.take(n as int).drop_last() =~= all.take(n - 1));
            }
            n = n - 1;
        }
        proof {
            if n > 0 {
                assert(all.take(n as int).last() == self.boxes@[n - 1].at());
            }
        }
        n
    }

    /// Byte offset of the end of the file, minus any trailing run of `free`/`skip` boxes.
    pub fn substance_end(&self) -> (r: u64)
        requires
            self.wf(),
        ensures
            r == end_of(substance(ats(self.boxes@))),
            r <= self.file_len,
    {
        let ghost all = ats(self.boxes@);
        let n: usize = self.kept_count();
        if n == 0 {
            return 0;
        }
        proof {
            lemma_back_to_back(all, 0, self.file_len as int);
            assert(all[n - 1] == self.boxes@[n - 1].at());
        }
        self.boxes[n - 1].offset + self.boxes[n - 1].total
    }

    /// Byte offset a new box is appended at: [`Layout::substance_end`]. Refuses a file that ends in an
    /// open-ended box, which would swallow the new one.
    pub fn kept_end(&self) -> (r: Result<u64, ZolalError>)
        requires
            self.wf(),
        ensures
            match r {
                Ok(end) => kept_end(ats(self.boxes@)) == Ok::<int, Fault>(end as int) && end
                    <= self.file_len,
                Err(e) => kept_end(ats(self.boxes@)) == Err::<int, Fault>(e@),
            },
    {
        let ghost all = ats(self.boxes@);
        let n: usize = self.kept_count();
        if n > 0 {
            assert(all.take(n as int).last() == self.boxes@[n - 1].at());
            if self.boxes[n - 1].open_ended {
                return Err(
                    malformed("file ends in an open-ended box (size 0); re-mux it before hiding"),
                );
            }
        }
        Ok(self.substance_end())
    }
}

/// Walk the top-level boxes, reading only their headers.
pub fn scan<S: ReadSeek>(src: &S) -> (r: Result<Layout, ZolalError>)
    ensures
        match r {
            Ok(layout) => boxes(src.content()) == Ok::<Seq<BoxAt>, Fault>(ats(layout.boxes@))
                && layout.file_len == src.content().len() && layout.wf(),
            Err(e) => (!src.reliable() && (e is Io || e is MalformedContainer)) || boxes(src.content()) == Err::<
                Seq<BoxAt>,
                Fault,
            >(e@),
        },
{
    let ghost c = src.content();
    let file_len: u64 = match src.size() {
        Ok(n) => n,
        Err(e) => {
            return Err(ZolalError::from_io(e));
        },
    };
    let mut list: Vec<BoxHeader> = Vec::new();
    let mut pos: u64 = 0;
    proof {
        assert(ats(list@) =~= Seq::<BoxAt>::empty());
        if let Ok(all) = boxes_from(c, 0) {
            assert(ats(list@) + all =~= all);
        }
    }
    while pos < file_len
        invariant
            c == src.content(),
            file_len == c.len(),
            pos <= file_len,
            boxes_from(c, 0) == followed_by(ats(list@), boxes_from(c, pos as int)),
        decreases file_len - pos,
    {
        let b = parse_box(src, pos, file_len)?;
        let ghost before = ats(list@);
        proof {
            lemma_box_at(c, pos as int);
        }
        list.push(b);
        proof {
            assert(ats(list@) =~= before.push(b.at()));
            if let Ok(rest) = boxes_from(c, pos + b.total) {
                assert(before + (seq![b.at()] + rest) =~= ats(list@) + rest);
            }
        }
        pos = b.offset + b.total;
    }
    proof {
        assert(ats(list@) + Seq::<BoxAt>::empty() =~= ats(list@));
        lemma_boxes_from(c, 0);
    }
    if list.len() == 0 {
        return Err(malformed("no boxes"));
    }
    Ok(Layout { boxes: list, file_len })
}

// ---------------------------------------------------------------------------------------------
// Writing

/// Header bytes a `free` box adds for a body of `n` bytes.
pub fn free_box_overhead(n: u64) -> (r: u64)
    requires
        n + 8 <= u64::MAX,
    ensures
        r == overhead(n as nat),
{
    if n + BOX_HEADER_LEN > LARGE_BOX_THRESHOLD {
        BOX_HEADER_LEN_64
    } else {
        BOX_HEADER_LEN
    }
}

/// Append a `free` box header for a body of `region_len` bytes, using `largesize` when the 32-bit
/// `size` field can't hold the total.
pub fn write_free_header(dst: &mut Vec<u8>, region_len: u64)
    requires
        region_len + 16 <= u64::MAX,
    ensures
        final(dst)@ == old(dst)@ + free_header(region_len as nat),
{
    let over: u64 = free_box_overhead(region_len);
    let total: u64 = over + region_len;
    if over == BOX_HEADER_LEN_64 {
        push_be(dst, 1, 4);
    } else {
        push_be(dst, total, 4);
    }
    dst.push(0x66);
    dst.push(0x72);
    dst.push(0x65);
    dst.push(0x65);
    if over == BOX_HEADER_LEN_64 {
        push_be(dst, total, 8);
    }
    assert(dst@ =~= old(dst)@ + free_header(region_len as nat));
}

// ---------------------------------------------------------------------------------------------
// Brands

/// Still-image brands of the HEIF family: ISOBMFF too, but never a carrier.
pub open spec fn heif_brand(brand: Seq<u8>) -> bool {
    brand == utf8("heic") || brand == utf8("heix") || brand == utf8("hevc") || brand == utf8("heim")
        || brand == utf8("heis") || brand == utf8("mif1") || brand == utf8("msf1")
}

/// AVIF brands. Also ISOBMFF, also an image.
pub open spec fn avif_brand(brand: Seq<u8>) -> bool {
    brand == utf8("avif") || brand == utf8("avis")
}

/// QuickTime's brand.
pub open spec fn quicktime_brand(brand: Seq<u8>) -> bool {
    brand == utf8("qt  ")
}

/// Whether `brand` is of the HEIF family.
pub fn is_heif_brand(brand: &[u8]) -> (r: bool)
    ensures
        r == heif_brand(brand@),
{
    is_text(brand, "heic") || is_text(brand, "heix") || is_text(brand, "hevc") || is_text(
        brand,
        "heim",
    ) || is_text(brand, "heis") || is_text(brand, "mif1") || is_text(brand, "msf1")
}

/// Whether `brand` is AVIF.
pub fn is_avif_brand(brand: &[u8]) -> (r: bool)
    ensures
        r == avif_brand(brand@),
{
    is_text(brand, "avif") || is_text(brand, "avis")
}

/// Whether `brand` is QuickTime.
pub fn is_quicktime_brand(brand: &[u8]) -> (r: bool)
    ensures
        r == quicktime_brand(brand@),
{
    is_text(brand, "qt  ")
}

/// Whether `head` begins with an `ftyp` box.
pub open spec fn starts_ftyp(head: Seq<u8>) -> bool {
    head.len() >= 8 && head.subrange(4, 8) == utf8("ftyp")
}

/// Whether `head` begins with an `ftyp` box.
pub fn begins_ftyp(head: &[u8]) -> (r: bool)
    ensures
        r == starts_ftyp(head@),
{
    head.len() >= 8 && is_text(vstd::slice::slice_subrange(head, 4, 8), "ftyp")
}

// ---------------------------------------------------------------------------------------------
// The carrier

/// MP4 carrier implementation.
pub struct Mp4Carrier;

impl Carrier for Mp4Carrier {
    open spec fn recognised(head: Seq<u8>) -> bool {
        &&& starts_ftyp(head)
        &&& head.len() >= 12
        &&& !heif_brand(head.subrange(8, 12))
        &&& !avif_brand(head.subrange(8, 12))
        &&& !quicktime_brand(head.subrange(8, 12))
    }

    open spec fn regions(content: Seq<u8>) -> Result<Seq<Region>, Fault> {
        match boxes(content) {
            Ok(list) => Ok(padding_regions(list)),
            Err(e) => Err(e),
        }
    }

    open spec fn region_bytes(content: Seq<u8>, region: Region) -> Result<Seq<u8>, Fault> {
        Ok(gathered(content, seq![(region.offset, region.len)]))
    }

    open spec fn embedded(content: Seq<u8>, technique: Technique, region: Seq<u8>) -> Seq<u8> {
        match kept_bytes(content) {
            Ok(kept) => kept + free_header(region.len()) + region,
            Err(_) => Seq::empty(),
        }
    }

    open spec fn embedded_len(content: Seq<u8>, technique: Technique, region_len: nat) -> Result<
        nat,
        Fault,
    > {
        if technique != Technique::Mp4FreeBox {
            Err(not_applicable(technique, " does not apply to an MP4 carrier"@))
        } else {
            match kept_bytes(content) {
                Ok(kept) => Ok(kept.len() + overhead(region_len) + region_len),
                Err(e) => Err(e),
            }
        }
    }

    open spec fn stripped(content: Seq<u8>) -> Result<Seq<u8>, Fault> {
        substance_bytes(content)
    }

    open spec fn reencoded(content: Seq<u8>) -> Result<bool, Fault> {
        Ok(false)
    }

    fn probe(head: &[u8]) -> (r: bool) {
        if !begins_ftyp(head) || head.len() < 12 {
            return false;
        }
        let brand = vstd::slice::slice_subrange(head, 8, 12);
        !is_heif_brand(brand) && !is_avif_brand(brand) && !is_quicktime_brand(brand)
    }

    fn candidate_regions<S: ReadSeek>(&self, src: &S) -> (r: Result<Vec<Region>, ZolalError>) {
        let layout = scan(src)?;
        let ghost all = ats(layout.boxes@);
        let mut regions: Vec<Region> = Vec::new();
        let mut n: usize = layout.boxes.len();
        proof {
            lemma_back_to_back(all, 0, layout.file_len as int);
            assert(all.take(n as int) =~= all);
            assert(regions@ + padding_regions(all) =~= padding_regions(all));
        }
        while n > 0
            invariant
                all == ats(layout.boxes@),
                n <= layout.boxes@.len(),
                forall|i: int|
                    0 <= i < all.len() ==> 0 <= (#[trigger] all[i]).offset && 8 <= all[i].header_len
                        <= all[i].total && all[i].end() <= layout.file_len,
                regions@ + padding_regions(all.take(n as int)) == padding_regions(all),
            decreases n,
        {
            let ghost here = all.take(n as int);
            n = n - 1;
            let b = layout.boxes[n];
            assert(all[n as int] == b.at());
            assert(here.last() == b.at());
            assert(here.drop_last() =~= all.take(n as int));
            if b.is_padding() {
                let ghost before = regions@;
                regions.push(
                    Region {
                        offset: b.offset + b.header_len,
                        len: b.total - b.header_len,
                        technique: Technique::Mp4FreeBox,
                        fragmented: false,
                    },
                );
                assert(regions@ =~= before + seq![b.at().region()]);
                assert(regions@ + padding_regions(all.take(n as int)) =~= before + padding_regions(
                    here,
                ));
            }
        }
        assert(all.take(0) =~= Seq::<BoxAt>::empty());
        assert(regions@ + padding_regions(all.take(0)) =~= regions@);
        Ok(regions)
    }

    fn open_region<'a, S: ReadSeek>(&self, src: &'a S, region: &Region) -> (r: Result<
        RegionReader<'a, S>,
        ZolalError,
    >) {
        let mut parts: Vec<(u64, u64)> = Vec::new();
        parts.push((region.offset, region.len));
        assert(parts@ =~= seq![(region.offset, region.len)]);
        Ok(RegionReader::new(src, parts))
    }

    fn embed<S: ReadSeek, W: Write, F: Fill>(
        &self,
        src: &S,
        dst: &mut W,
        technique: Technique,
        region_len: u64,
        fill: &mut F,
    ) -> (r: Result<u64, ZolalError>) {
        if technique != Technique::Mp4FreeBox {
            return Err(technique_mismatch(technique, " does not apply to an MP4 carrier"));
        }
        let layout = scan(src)?;
        let end: u64 = layout.kept_end()?;
        let ghost c = src.content();
        let mut out = CountingWriter::new(dst);
        copy_range(src, &mut out, 0, end, malformed("carrier changed while it was being read"))?;
        let mut head: Vec<u8> = Vec::new();
        write_free_header(&mut head, region_len);
        proof {
            crate::bytes::lemma_be_bytes_len(1, 4);
            crate::bytes::lemma_be_bytes_len((region_len + 16) as nat, 8);
            crate::bytes::lemma_be_bytes_len((region_len + 8) as nat, 4);
            assert(head@ =~= free_header(region_len as nat));
            assert(head@.len() == overhead(region_len as nat));
        }
        match out.write_all(head.as_slice()) {
            Ok(()) => {},
            Err(e) => {
                return Err(ZolalError::from_io(e));
            },
        }
        pump(&mut out, fill, region_len)?;
        proof {
            let region = newly_produced(*old(fill), *fill);
            assert(out.written() =~= old(dst).written() + Self::embedded(c, technique, region));
        }
        Ok(out.count())
    }

    fn output_len<S: ReadSeek>(&self, src: &S, technique: Technique, region_len: u64) -> (r: Result<
        u64,
        ZolalError,
    >) {
        if technique != Technique::Mp4FreeBox {
            return Err(technique_mismatch(technique, " does not apply to an MP4 carrier"));
        }
        let layout = scan(src)?;
        let end: u64 = layout.kept_end()?;
        Ok(end + free_box_overhead(region_len) + region_len)
    }

    fn strip<S: ReadSeek, W: Write>(&self, src: &S, dst: &mut W) -> (r: Result<u64, ZolalError>) {
        let layout = scan(src)?;
        let end: u64 = layout.substance_end();
        let mut out = CountingWriter::new(dst);
        copy_range(src, &mut out, 0, end, malformed("carrier changed while it was being read"))?;
        Ok(out.count())
    }

    fn looks_reencoded<S: ReadSeek>(&self, src: &S) -> (r: Result<bool, ZolalError>) {
        Ok(false)
    }
}

} // verus!
