//! MP3 carrier: a `PRIV` frame in the leading ID3v2 tag.
//!
//! An MP3 file is a run of self-synchronising audio frames, usually preceded by an ID3v2 tag.
//! Players read the tag's size from its 10-byte header and skip the whole tag before looking for
//! audio, so data inside the tag is never played. Encrypted bytes after the last audio frame would
//! be: they contain the frame-sync pattern every few hundred bytes.
//!
//! ## What is written
//!
//! One frame of type `PRIV` (private data) with an **empty owner identifier**, then the envelope:
//!
//! ```text
//! "PRIV" | size | flags=0 | 0x00 (empty owner) | envelope...
//! ```
//!
//! An empty owner keeps the format markerless. On reveal every `PRIV` frame with an empty owner is a
//! candidate, newest first, and the authentication tag decides.
//!
//! ## Keeping the song's own tags
//!
//! The existing frames are copied byte for byte into the new tag. Its padding is dropped, and so is
//! any earlier `PRIV` frame of the same shape, which makes re-hiding replace the payload. A file with
//! no tag gets a new ID3v2.3 tag. Only v2.3 and v2.4 tags without unsynchronisation, an extended
//! header or a footer are rewritten. The audio after the tag is never touched.
//!
//! ID3v2 stores the tag size in 28 bits, so the whole tag must stay under 256 MiB.

use super::{
    newly_produced, not_applicable, pump, technique_mismatch, Carrier, CarrierFormat, Fill, Region,
    Technique, OUTPUT_LIMIT,
};
use crate::bytes::{be_bytes, be_number, be_value, push_be};
use crate::error::{Fault, ZolalError};
use crate::io::{
    clip, copy_range, gathered, read_header, CountingWriter, Read, ReadSeek, RegionReader, Write,
};
use vstd::prelude::*;

verus! {

/// ID3v2 tag header: `"ID3"`, version, flags, synchsafe size.
pub const TAG_HEADER_LEN: u64 = 10;

/// ID3v2.3/2.4 frame header: id, size, flags.
pub const FRAME_HEADER_LEN: u64 = 10;

/// Largest value a 28-bit synchsafe size can hold.
pub const MAX_TAG_BODY: u64 = 0xfff_ffff;

// ---------------------------------------------------------------------------------------------
// What the structure of a file is

/// A structural error in an MP3.
pub open spec fn bad(detail: Seq<char>) -> Fault {
    Fault::MalformedContainer { format: "MP3"@, detail }
}

/// The number that synchsafe bytes spell, seven bits each.
pub open spec fn synchsafe_value(b: Seq<u8>) -> nat
    decreases b.len(),
{
    if b.len() == 0 {
        0
    } else {
        synchsafe_value(b.drop_last()) * 128 + b.last() as nat
    }
}

/// The number that synchsafe bytes spell, unless one of them has its high bit set.
pub open spec fn from_synchsafe(b: Seq<u8>) -> Option<nat> {
    if forall|i: int| 0 <= i < b.len() ==> b[i] < 0x80 {
        Some(synchsafe_value(b))
    } else {
        None
    }
}

/// `n` as four synchsafe bytes.
pub open spec fn synchsafe_bytes(n: nat) -> Seq<u8> {
    seq![
        (n / 0x20_0000 % 128) as u8,
        (n / 0x4000 % 128) as u8,
        (n / 128 % 128) as u8,
        (n % 128) as u8,
    ]
}

/// Whether `b1` and `b2` go on an MPEG audio Layer III frame header that begins with `FF`: sync bits,
/// a version that is not reserved, Layer III, a valid bitrate and sample rate.
pub open spec fn layer3_header(b1: u8, b2: u8) -> bool {
    &&& b1 / 32 == 7
    &&& b1 / 8 % 4 != 1
    &&& b1 / 2 % 4 == 1
    &&& b2 / 16 != 15
    &&& b2 / 4 % 4 != 3
}

/// A capital letter or a digit.
pub open spec fn id_byte(b: u8) -> bool {
    0x41 <= b <= 0x5A || 0x30 <= b <= 0x39
}

/// `PRIV`.
pub open spec fn priv_id() -> Seq<u8> {
    seq![0x50, 0x52, 0x49, 0x56]
}

/// One frame of a tag.
pub ghost struct FrameAt {
    pub offset: int,
    /// Whole frame length including its header.
    pub total: int,
    /// A `PRIV` frame with an empty owner, flags 0 and something in it.
    pub ours: bool,
}

impl FrameAt {
    /// The offset just past the frame.
    pub open spec fn end(self) -> int {
        self.offset + self.total
    }

    /// What follows the owner, as a place to look.
    pub open spec fn region(self) -> Region {
        Region {
            offset: (self.offset + 11) as u64,
            len: (self.total - 11) as u64,
            technique: Technique::Mp3Id3,
            fragmented: false,
        }
    }
}

/// The size that a frame header declares for the body.
pub open spec fn frame_size(c: Seq<u8>, major: u8, pos: int) -> Option<nat> {
    let field = c.subrange(pos + 4, pos + 8);
    if major == 4 {
        from_synchsafe(field)
    } else {
        Some(be_number(field))
    }
}

/// The frame at `pos` of a tag whose body ends at `end`, or `None` where the frames are over.
pub open spec fn frame_at(c: Seq<u8>, major: u8, pos: int, end: int) -> Result<
    Option<FrameAt>,
    Fault,
> {
    if pos + 10 > end {
        Ok(None)
    } else if !(id_byte(c[pos]) && id_byte(c[pos + 1]) && id_byte(c[pos + 2]) && id_byte(c[pos + 3])) {
        Ok(None)
    } else {
        match frame_size(c, major, pos) {
            None => Err(bad("ID3 frame size is not synchsafe"@)),
            Some(size) => if pos + 10 + size > end {
                Err(bad("ID3 frame runs past the end of the tag"@))
            } else {
                Ok(
                    Some(
                        FrameAt {
                            offset: pos,
                            total: 10 + size as int,
                            ours: c.subrange(pos, pos + 4) == priv_id() && c[pos + 8] == 0 && c[pos + 9]
                                == 0 && size > 1 && c[pos + 10] == 0,
                        },
                    ),
                )
            },
        }
    }
}

/// `done` and then `rest`.
pub open spec fn followed_by(done: Seq<FrameAt>, rest: Result<Seq<FrameAt>, Fault>) -> Result<
    Seq<FrameAt>,
    Fault,
> {
    match rest {
        Ok(more) => Ok(done + more),
        Err(e) => Err(e),
    }
}

/// The frames from `pos` on of a tag whose body ends at `end`.
pub open spec fn frames_from(c: Seq<u8>, major: u8, pos: int, end: int) -> Result<
    Seq<FrameAt>,
    Fault,
>
    decreases end - pos,
{
    match frame_at(c, major, pos, end) {
        Ok(Some(f)) => if f.total > 0 {
            followed_by(seq![f], frames_from(c, major, pos + f.total, end))
        } else {
            Ok(Seq::empty())
        },
        Ok(None) => Ok(Seq::empty()),
        Err(e) => Err(e),
    }
}

/// The leading tag of a file.
pub ghost enum TagAt {
    /// There is none.
    Absent,
    /// A v2.3/v2.4 tag that can be rewritten.
    Supported { major: u8, frames: Seq<FrameAt> },
    /// A tag that is left alone, and why.
    Unsupported(Seq<char>),
}

/// The structure of a file.
pub ghost struct Shape {
    pub tag: TagAt,
    /// Where the audio (everything after the leading tag) starts.
    pub audio_start: int,
}

/// Whether a file begins with an ID3v2 tag.
pub open spec fn tagged(c: Seq<u8>) -> bool {
    c.len() >= 10 && c[0] == 0x49 && c[1] == 0x44 && c[2] == 0x33
}

/// Whether bit `bit` (a power of two) of `flags` is set.
pub open spec fn flag(flags: u8, bit: int) -> bool {
    flags as int / bit % 2 == 1
}

/// The structure of a file.
pub open spec fn shape(c: Seq<u8>) -> Result<Shape, Fault> {
    if !tagged(c) {
        Ok(Shape { tag: TagAt::Absent, audio_start: 0 })
    } else {
        let major = c[3];
        let flags = c[5];
        match from_synchsafe(c.subrange(6, 10)) {
            None => Err(bad("ID3 tag size is not synchsafe"@)),
            Some(size) => {
                let footer: int = if major == 4 && flag(flags, 16) {
                    10
                } else {
                    0
                };
                let end = 10 + size + footer;
                if end > c.len() {
                    Err(bad("ID3 tag runs past the end of the file"@))
                } else if major != 3 && major != 4 {
                    Ok(
                        Shape {
                            tag: TagAt::Unsupported("is ID3v2.2 or older"@),
                            audio_start: end,
                        },
                    )
                } else if flag(flags, 128) || flag(flags, 64) || flag(flags, 16) {
                    Ok(
                        Shape {
                            tag: TagAt::Unsupported(
                                "uses unsynchronisation, an extended header or a footer"@,
                            ),
                            audio_start: end,
                        },
                    )
                } else {
                    match frames_from(c, major, 10, 10 + size as int) {
                        Ok(frames) => Ok(
                            Shape { tag: TagAt::Supported { major, frames }, audio_start: end },
                        ),
                        Err(e) => Err(e),
                    }
                }
            },
        }
    }
}

/// The frames that are not ours.
pub open spec fn kept(list: Seq<FrameAt>) -> Seq<FrameAt>
    decreases list.len(),
{
    if list.len() == 0 {
        list
    } else if list.last().ours {
        kept(list.drop_last())
    } else {
        kept(list.drop_last()).push(list.last())
    }
}

/// All lengths together.
pub open spec fn total(list: Seq<FrameAt>) -> int
    decreases list.len(),
{
    if list.len() == 0 {
        0
    } else {
        total(list.drop_last()) + list.last().total
    }
}

/// The bytes of the frames, back to back.
pub open spec fn frame_bytes(c: Seq<u8>, list: Seq<FrameAt>) -> Seq<u8>
    decreases list.len(),
{
    if list.len() == 0 {
        Seq::empty()
    } else {
        frame_bytes(c, list.drop_last()) + clip(c, list.last().offset, list.last().end())
    }
}

/// Our frames as places to look, last in the tag first.
pub open spec fn our_regions(list: Seq<FrameAt>) -> Seq<Region>
    decreases list.len(),
{
    if list.len() == 0 {
        Seq::empty()
    } else {
        let rest = our_regions(list.drop_last());
        if list.last().ours {
            seq![list.last().region()] + rest
        } else {
            rest
        }
    }
}

/// The frames of the tag, if it can be rewritten.
pub open spec fn frames_of(s: Shape) -> Seq<FrameAt> {
    match s.tag {
        TagAt::Supported { major, frames } => frames,
        _ => Seq::empty(),
    }
}

/// The ID3v2 major version to write: the existing tag's, or 3 for a new tag.
pub open spec fn version_of(s: Shape) -> u8 {
    match s.tag {
        TagAt::Supported { major, frames } => major,
        _ => 3,
    }
}

/// Everything after the tag.
pub open spec fn audio(c: Seq<u8>, s: Shape) -> Seq<u8> {
    clip(c, s.audio_start, c.len() as int)
}

/// A tag header.
pub open spec fn tag_header(major: u8, body: nat) -> Seq<u8> {
    seq![0x49u8, 0x44, 0x33, major, 0, 0] + synchsafe_bytes(body)
}

/// The header of a private frame and its empty owner.
pub open spec fn priv_header(major: u8, body: nat) -> Seq<u8> {
    priv_id() + (if major == 4 {
        synchsafe_bytes(body)
    } else {
        be_bytes(body, 4)
    }) + seq![0u8, 0, 0]
}

/// The length of the tag body that holds a region of `n` bytes beside the kept frames.
pub open spec fn new_body(s: Shape, n: nat) -> nat {
    (total(kept(frames_of(s))) + 11 + n) as nat
}

/// The song with a tag of its own frames alone; without any, there is no tag.
pub open spec fn retagged(c: Seq<u8>, s: Shape) -> Seq<u8> {
    let mine = kept(frames_of(s));
    if mine.len() == 0 {
        audio(c, s)
    } else {
        tag_header(version_of(s), total(mine) as nat) + frame_bytes(c, mine) + audio(c, s)
    }
}

/// Whether any of the frames is ours.
pub open spec fn any_ours(list: Seq<FrameAt>) -> bool {
    exists|i: int| 0 <= i < list.len() && (#[trigger] list[i]).ours
}

pub proof fn lemma_synchsafe_bound(b: Seq<u8>)
    requires
        b.len() == 4,
        forall|i: int| 0 <= i < b.len() ==> b[i] < 0x80,
    ensures
        synchsafe_value(b) == b[0] * 0x20_0000 + b[1] * 0x4000 + b[2] * 128 + b[3],
        synchsafe_value(b) <= MAX_TAG_BODY,
{
    reveal_with_fuel(synchsafe_value, 5);
    assert(b.drop_last().drop_last().drop_last().drop_last().len() == 0);
}

/// Every value of 28 bits survives being written as synchsafe bytes and read back.
pub proof fn synchsafe_round_trips(n: nat)
    requires
        n <= MAX_TAG_BODY,
    ensures
        from_synchsafe(synchsafe_bytes(n)) == Some(n),
{
    let b = synchsafe_bytes(n);
    assert(forall|i: int| 0 <= i < 4 ==> b[i] < 0x80);
    lemma_synchsafe_bound(b);
    assert(n / 0x20_0000 < 128);
    assert(n / 0x4000 == n / 0x20_0000 * 128 + n / 0x4000 % 128);
    assert(n / 128 == n / 0x4000 * 128 + n / 128 % 128);
}

/// Frames within `[from, to)`, each with at least a header.
pub open spec fn within(list: Seq<FrameAt>, from: int, to: int) -> bool {
    forall|i: int|
        0 <= i < list.len() ==> from <= (#[trigger] list[i]).offset && 10 <= list[i].total
            && list[i].end() <= to && (list[i].ours ==> list[i].total >= 12)
}

pub proof fn lemma_total_concat(a: Seq<FrameAt>, b: Seq<FrameAt>)
    ensures
        total(a + b) == total(a) + total(b),
    decreases b.len(),
{
    if b.len() == 0 {
        assert(a + b =~= a);
    } else {
        assert((a + b).drop_last() =~= a + b.drop_last());
        lemma_total_concat(a, b.drop_last());
    }
}

/// What the frames of a tag amount to.
pub proof fn lemma_frames(c: Seq<u8>, major: u8, pos: int, end: int)
    requires
        0 <= pos <= end,
    ensures
        frames_from(c, major, pos, end) matches Ok(list) ==> {
            &&& within(list, pos, end)
            &&& total(list) <= end - pos
            &&& forall|i: int|
                0 <= i < list.len() ==> frame_at(c, major, (#[trigger] list[i]).offset, end) == Ok::<
                    Option<FrameAt>,
                    Fault,
                >(Some(list[i]))
        },
    decreases end - pos,
{
    if let Ok(Some(f)) = frame_at(c, major, pos, end) {
        lemma_frames(c, major, pos + f.total, end);
        if let Ok(rest) = frames_from(c, major, pos + f.total, end) {
            let list = seq![f] + rest;
            assert(frames_from(c, major, pos, end) == Ok::<Seq<FrameAt>, Fault>(list));
            lemma_total_concat(seq![f], rest);
            assert(seq![f].drop_last() =~= Seq::<FrameAt>::empty());
            assert(total(seq![f]) == f.total) by {
                reveal_with_fuel(total, 2);
            }
            assert(list[0] == f);
            assert(forall|i: int| 1 <= i < list.len() ==> list[i] == rest[i - 1]);
        }
    }
}

pub proof fn lemma_kept(list: Seq<FrameAt>, from: int, to: int)
    requires
        within(list, from, to),
    ensures
        within(kept(list), from, to),
        0 <= total(kept(list)) <= total(list),
        kept(list).len() <= list.len(),
        forall|i: int| 0 <= i < kept(list).len() ==> list.contains(#[trigger] kept(list)[i]),
        forall|i: int| 0 <= i < kept(list).len() ==> !(#[trigger] kept(list)[i]).ours,
    decreases list.len(),
{
    if list.len() > 0 {
        let rest = list.drop_last();
        assert(forall|i: int| 0 <= i < rest.len() ==> rest[i] == list[i]);
        lemma_kept(rest, from, to);
        if !list.last().ours {
            assert(kept(list).drop_last() =~= kept(rest));
        }
        assert forall|i: int| 0 <= i < kept(list).len() implies list.contains(#[trigger] kept(list)[i]) by {
            if i < kept(rest).len() {
                assert(kept(list)[i] == kept(rest)[i]);
                let j = choose|j: int| 0 <= j < rest.len() && rest[j] == kept(rest)[i];
                assert(list[j] == kept(list)[i]);
            } else {
                assert(kept(list)[i] == list[list.len() - 1]);
            }
        }
    }
}

/// What the structure of a file amounts to.
pub proof fn lemma_shape(c: Seq<u8>)
    ensures
        shape(c) matches Ok(s) ==> {
            &&& 0 <= s.audio_start <= c.len()
            &&& within(frames_of(s), 10, s.audio_start)
            &&& 0 <= total(kept(frames_of(s))) <= c.len()
            &&& total(kept(frames_of(s))) <= MAX_TAG_BODY
        },
{
    if tagged(c) {
        let b = c.subrange(6, 10);
        if from_synchsafe(b) is Some {
            lemma_synchsafe_bound(b);
            let size = from_synchsafe(b)->Some_0;
            lemma_frames(c, c[3], 10, 10 + size as int);
        }
    }
    if let Ok(s) = shape(c) {
        lemma_kept(frames_of(s), 10, s.audio_start);
    }
}

pub proof fn lemma_frame_bytes_len(c: Seq<u8>, list: Seq<FrameAt>, to: int)
    requires
        within(list, 0, to),
        to <= c.len(),
    ensures
        frame_bytes(c, list).len() == total(list),
    decreases list.len(),
{
    if list.len() > 0 {
        assert(forall|i: int| 0 <= i < list.drop_last().len() ==> list.drop_last()[i] == list[i]);
        lemma_frame_bytes_len(c, list.drop_last(), to);
    }
}

// ---------------------------------------------------------------------------------------------
// Walking

fn malformed(detail: &str) -> (r: ZolalError)
    ensures
        r@ == bad(detail@),
{
    ZolalError::MalformedContainer { format: "MP3", detail: detail.to_owned() }
}

/// Decode a 4-byte synchsafe integer, or `None` if a high bit is set.
pub fn synchsafe(b: &[u8]) -> (r: Option<u64>)
    requires
        b@.len() == 4,
    ensures
        match r {
            Some(n) => from_synchsafe(b@) == Some(n as nat) && n <= MAX_TAG_BODY,
            None => from_synchsafe(b@) is None,
        },
{
    if b[0] >= 0x80 || b[1] >= 0x80 || b[2] >= 0x80 || b[3] >= 0x80 {
        return None;
    }
    proof {
        lemma_synchsafe_bound(b@);
    }
    Some(
        (b[0] as u64) * 0x20_0000 + (b[1] as u64) * 0x4000 + (b[2] as u64) * 128 + (b[3] as u64),
    )
}

/// `n` as four synchsafe bytes.
pub fn to_synchsafe(n: u64) -> (r: [u8; 4])
    requires
        n <= MAX_TAG_BODY,
    ensures
        r@ == synchsafe_bytes(n as nat),
        from_synchsafe(r@) == Some(n as nat),
{
    let r: [u8; 4] = [
        (n / 0x20_0000 % 128) as u8,
        (n / 0x4000 % 128) as u8,
        (n / 128 % 128) as u8,
        (n % 128) as u8,
    ];
    proof {
        assert(r@ =~= synchsafe_bytes(n as nat));
        synchsafe_round_trips(n as nat);
    }
    r
}

/// True for the second and third bytes of an MPEG audio Layer III frame header.
pub fn is_layer3_frame_header(b1: u8, b2: u8) -> (r: bool)
    ensures
        r == layer3_header(b1, b2),
{
    let sync = b1 / 32 == 7;
    let version: u8 = b1 / 8 % 4;
    let layer: u8 = b1 / 2 % 4;
    let bitrate: u8 = b2 / 16;
    let sample_rate: u8 = b2 / 4 % 4;
    sync && version != 1 && layer == 1 && bitrate != 15 && sample_rate != 3
}

/// One frame inside the tag.
#[derive(Debug, Clone, Copy, PartialEq, Eq, Structural)]
pub struct Frame {
    /// Where the frame begins.
    pub offset: u64,
    /// Whole frame length including its header.
    pub total: u64,
    /// A `PRIV` frame with an empty owner and flags 0.
    pub ours: bool,
}

impl Frame {
    /// The frame as contracts speak of it.
    pub open spec fn at(self) -> FrameAt {
        FrameAt { offset: self.offset as int, total: self.total as int, ours: self.ours }
    }
}

/// Frames as contracts speak of them.
pub open spec fn ats(list: Seq<Frame>) -> Seq<FrameAt> {
    list.map_values(|f: Frame| f.at())
}

/// The leading tag of a file.
#[derive(Debug)]
pub enum Tag {
    /// No leading ID3v2 tag.
    Absent,
    /// A v2.3/v2.4 tag that can be rewritten.
    Supported {
        /// Its major version.
        major: u8,
        /// Its frames, in order.
        frames: Vec<Frame>,
    },
    /// A tag that is left alone, and why.
    Unsupported(&'static str),
}

impl Tag {
    /// The tag as contracts speak of it.
    pub open spec fn at(&self) -> TagAt {
        match self {
            Tag::Absent => TagAt::Absent,
            Tag::Supported { major, frames } => TagAt::Supported {
                major: *major,
                frames: ats(frames@),
            },
            Tag::Unsupported(why) => TagAt::Unsupported(why@),
        }
    }
}

/// What one pass over the tag learns.
#[derive(Debug)]
pub struct Layout {
    /// The tag.
    pub tag: Tag,
    /// Where the audio starts.
    pub audio_start: u64,
    /// The length of the file.
    pub file_len: u64,
}

/// Walk the frames in `[10, body_end)`, stopping at padding.
fn scan_frames<S: ReadSeek>(src: &S, major: u8, body_end: u64) -> (r: Result<
    Vec<Frame>,
    ZolalError,
>)
    requires
        10 <= body_end <= src.content().len(),
        body_end <= 0x1000_0100,
    ensures
        match r {
            Ok(list) => frames_from(src.content(), major, 10, body_end as int) == Ok::<
                Seq<FrameAt>,
                Fault,
            >(ats(list@)),
            Err(e) => (!src.reliable() && (e is Io || e is MalformedContainer)) || frames_from(
                src.content(),
                major,
                10,
                body_end as int,
            ) == Err::<Seq<FrameAt>, Fault>(e@),
        },
{
    let ghost c = src.content();
    let ghost end = body_end as int;
    let mut list: Vec<Frame> = Vec::new();
    let mut pos: u64 = TAG_HEADER_LEN;
    proof {
        assert(ats(list@) =~= Seq::<FrameAt>::empty());
        if let Ok(all) = frames_from(c, major, 10, end) {
            assert(ats(list@) + all =~= all);
        }
    }
    while pos + FRAME_HEADER_LEN <= body_end
        invariant_except_break
            frames_from(c, major, 10, end) == followed_by(
                ats(list@),
                frames_from(c, major, pos as int, end),
            ),
        invariant
            c == src.content(),
            end == body_end,
            10 <= pos <= body_end <= c.len(),
            body_end <= 0x1000_0100,
        ensures
            frames_from(c, major, 10, end) == Ok::<Seq<FrameAt>, Fault>(ats(list@)),
        decreases body_end - pos,
    {
        let head = read_header(src, pos, 10, malformed("file ends inside the ID3 tag"))?;
        assert(forall|k: int| 0 <= k < 10 ==> head@[k] == c[pos + k]);
        if !(is_id_byte(head[0]) && is_id_byte(head[1]) && is_id_byte(head[2]) && is_id_byte(head[3])) {
            assert(ats(list@) + Seq::<FrameAt>::empty() =~= ats(list@));
            break;
        }
        let field = vstd::slice::slice_subrange(head.as_slice(), 4, 8);
        assert(field@ =~= c.subrange(pos + 4, pos + 8));
        let size: u64 = if major == 4 {
            match synchsafe(field) {
                Some(size) => size,
                None => {
                    return Err(malformed("ID3 frame size is not synchsafe"));
                },
            }
        } else {
            assert(field@.subrange(0, 4) =~= field@);
            be_value(field, 0, 4)
        };
        if size > body_end - pos - FRAME_HEADER_LEN {
            return Err(malformed("ID3 frame runs past the end of the tag"));
        }
        let total: u64 = FRAME_HEADER_LEN + size;
        let is_priv = head[0] == 0x50 && head[1] == 0x52 && head[2] == 0x49 && head[3] == 0x56;
        proof {
            let id = c.subrange(pos as int, pos + 4);
            assert(id[0] == head@[0] && id[1] == head@[1] && id[2] == head@[2] && id[3] == head@[3]);
            assert(priv_id()[0] == 0x50 && priv_id()[1] == 0x52 && priv_id()[2] == 0x49 && priv_id()[3]
                == 0x56);
            if is_priv {
                assert(id =~= priv_id());
            }
        }
        let mut ours = false;
        if is_priv && head[8] == 0 && head[9] == 0 && size > 1 {
            let owner = read_header(
                src,
                pos + FRAME_HEADER_LEN,
                1,
                malformed("file ends inside the ID3 tag"),
            )?;
            ours = owner[0] == 0;
        }
        let ghost before = ats(list@);
        let frame = Frame { offset: pos, total, ours };
        assert(frame_at(c, major, pos as int, end) == Ok::<Option<FrameAt>, Fault>(
            Some(frame.at()),
        ));
        list.push(frame);
        proof {
            assert(ats(list@) =~= before.push(frame.at()));
            if let Ok(rest) = frames_from(c, major, pos + total, end) {
                assert(before + (seq![frame.at()] + rest) =~= ats(list@) + rest);
            }
        }
        pos = pos + total;
        if !(pos + FRAME_HEADER_LEN <= body_end) {
            assert(ats(list@) + Seq::<FrameAt>::empty() =~= ats(list@));
        }
    }
    Ok(list)
}

fn is_id_byte(b: u8) -> (r: bool)
    ensures
        r == id_byte(b),
{
    (0x41 <= b && b <= 0x5A) || (0x30 <= b && b <= 0x39)
}

/// Read the leading tag's header and frame headers. Never reads frame bodies or audio, except the
/// first byte of each `PRIV` frame (its owner).
pub fn scan<S: ReadSeek>(src: &S) -> (r: Result<Layout, ZolalError>)
    ensures
        match r {
            Ok(layout) => shape(src.content()) == Ok::<Shape, Fault>(layout.shape())
                && layout.file_len == src.content().len(),
            Err(e) => (!src.reliable() && (e is Io || e is MalformedContainer)) || shape(src.content()) == Err::<Shape, Fault>(
                e@,
            ),
        },
{
    let ghost c = src.content();
    let file_len: u64 = match src.size() {
        Ok(n) => n,
        Err(e) => {
            return Err(ZolalError::from_io(e));
        },
    };
    if file_len < TAG_HEADER_LEN {
        return Ok(Layout { tag: Tag::Absent, audio_start: 0, file_len });
    }
    let head = read_header(src, 0, 10, malformed("file ends inside the ID3 tag"))?;
    assert(forall|k: int| 0 <= k < 10 ==> head@[k] == c[0 + k]);
    if !(head[0] == 0x49 && head[1] == 0x44 && head[2] == 0x33) {
        return Ok(Layout { tag: Tag::Absent, audio_start: 0, file_len });
    }
    let major: u8 = head[3];
    let flags: u8 = head[5];
    let field = vstd::slice::slice_subrange(head.as_slice(), 6, 10);
    assert(field@ =~= c.subrange(6, 10));
    let size: u64 = match synchsafe(field) {
        Some(size) => size,
        None => {
            return Err(malformed("ID3 tag size is not synchsafe"));
        },
    };
    let footer: u64 = if major == 4 && flags / 16 % 2 == 1 { 10 } else { 0 };
    let tag_end: u64 = TAG_HEADER_LEN + size + footer;
    if tag_end > file_len {
        return Err(malformed("ID3 tag runs past the end of the file"));
    }
    let tag = if major != 3 && major != 4 {
        Tag::Unsupported("is ID3v2.2 or older")
    } else if flags / 128 % 2 == 1 || flags / 64 % 2 == 1 || flags / 16 % 2 == 1 {
        Tag::Unsupported("uses unsynchronisation, an extended header or a footer")
    } else {
        let frames = scan_frames(src, major, TAG_HEADER_LEN + size)?;
        Tag::Supported { major, frames }
    };
    Ok(Layout { tag, audio_start: tag_end, file_len })
}

/// The error for a tag that is left alone.
pub open spec fn not_rewritten(why: Seq<char>) -> Fault {
    bad(
        "its ID3 tag "@ + why
            + ", which Zolal doesn't rewrite; re-save the song's tags with a tag editor (as ID3v2.3) and try again"@,
    )
}

/// Why a region of `n` bytes cannot go into a file of this structure, if it cannot.
pub open spec fn refusal(c: Seq<u8>, s: Shape, n: nat) -> Option<Fault> {
    match s.tag {
        TagAt::Unsupported(why) => Some(not_rewritten(why)),
        _ => if new_body(s, n) > MAX_TAG_BODY {
            Some(
                Fault::PayloadTooLarge {
                    output_size: 10 + new_body(s, n) + audio(c, s).len(),
                    limit: MAX_TAG_BODY as nat,
                    suggestion: CarrierFormat::Mp4,
                },
            )
        } else {
            None
        },
    }
}

/// What an embedding will write, worked out before writing anything.
pub struct Plan {
    /// The song's own frames.
    pub kept: Vec<Frame>,
    /// Tag body length: the kept frames plus the new frame.
    pub tag_body: u64,
}

/// The frames that are not ours, and their length together.
fn keep(list: &Vec<Frame>, Ghost(to): Ghost<int>) -> (r: (Vec<Frame>, u64))
    requires
        within(ats(list@), 0, to),
        total(ats(list@)) <= u64::MAX,
    ensures
        ats(r.0@) == kept(ats(list@)),
        r.1 == total(kept(ats(list@))),
{
    let ghost all = ats(list@);
    let mut mine: Vec<Frame> = Vec::new();
    let mut sum: u64 = 0;
    let mut i: usize = 0;
    assert(all.take(0) =~= Seq::<FrameAt>::empty());
    assert(ats(mine@) =~= Seq::<FrameAt>::empty());
    while i < list.len()
        invariant
            all == ats(list@),
            within(all, 0, to),
            total(all) <= u64::MAX,
            i <= list@.len(),
            ats(mine@) == kept(all.take(i as int)),
            sum == total(kept(all.take(i as int))),
        decreases list@.len() - i,
    {
        let f = list[i];
        let ghost here = all.take(i + 1);
        proof {
            assert(all[i as int] == f.at());
            assert(here.drop_last() =~= all.take(i as int));
            assert(here.last() == f.at());
            assert(forall|k: int| 0 <= k < here.len() ==> here[k] == all[k]);
            lemma_kept(here, 0, to);
            assert(all =~= here + all.skip(i + 1));
            lemma_total_concat(here, all.skip(i + 1));
            let rest = all.skip(i + 1);
            assert(forall|k: int| 0 <= k < rest.len() ==> rest[k] == all[i + 1 + k]);
            lemma_kept(rest, 0, to);
        }
        if !f.ours {
            let ghost before = ats(mine@);
            mine.push(f);
            assert(ats(mine@) =~= before.push(f.at()));
            proof {
                assert(kept(here).drop_last() =~= kept(all.take(i as int)));
            }
            sum = sum + f.total;
        }
        i = i + 1;
    }
    assert(all.take(i as int) =~= all);
    (mine, sum)
}

impl Layout {
    /// The layout as contracts speak of it.
    pub open spec fn shape(&self) -> Shape {
        Shape { tag: self.tag.at(), audio_start: self.audio_start as int }
    }

    /// ID3v2 major version to write: the existing tag's, or 3 for a new tag.
    pub fn version(&self) -> (r: u8)
        ensures
            r == version_of(self.shape()),
    {
        match &self.tag {
            Tag::Supported { major, .. } => *major,
            _ => 3,
        }
    }

    fn plan<S: ReadSeek>(&self, src: &S, region_len: u64) -> (r: Result<Plan, ZolalError>)
        requires
            shape(src.content()) == Ok::<Shape, Fault>(self.shape()),
            self.file_len == src.content().len(),
            src.content().len() + region_len <= OUTPUT_LIMIT,
        ensures
            match r {
                Ok(plan) => {
                    &&& refusal(src.content(), self.shape(), region_len as nat) is None
                    &&& ats(plan.kept@) == kept(frames_of(self.shape()))
                    &&& plan.tag_body == new_body(self.shape(), region_len as nat)
                },
                Err(e) => refusal(src.content(), self.shape(), region_len as nat) == Some(e@),
            },
    {
        let ghost c = src.content();
        proof {
            lemma_shape(c);
            lemma_frames_total(c);
        }
        let mut mine: Vec<Frame> = Vec::new();
        let mut sum: u64 = 0;
        match &self.tag {
            Tag::Absent => {
                assert(ats(mine@) =~= Seq::<FrameAt>::empty());
            },
            Tag::Supported { major, frames } => {
                let (list, n) = keep(frames, Ghost(self.audio_start as int));
                mine = list;
                sum = n;
            },
            Tag::Unsupported(why) => {
                let mut text = "its ID3 tag ".to_owned();
                text.append(why);
                text.append(
                    ", which Zolal doesn't rewrite; re-save the song's tags with a tag editor (as ID3v2.3) and try again",
                );
                return Err(malformed(text.as_str()));
            },
        }
        let tag_body: u64 = sum + (FRAME_HEADER_LEN + 1 + region_len);
        if tag_body > MAX_TAG_BODY {
            return Err(
                ZolalError::PayloadTooLarge {
                    output_size: TAG_HEADER_LEN + tag_body + (self.file_len - self.audio_start),
                    limit: MAX_TAG_BODY,
                    suggestion: CarrierFormat::Mp4,
                },
            );
        }
        Ok(Plan { kept: mine, tag_body })
    }
}

pub proof fn lemma_frames_total(c: Seq<u8>)
    ensures
        shape(c) matches Ok(s) ==> total(frames_of(s)) <= c.len(),
{
    if tagged(c) {
        let b = c.subrange(6, 10);
        if from_synchsafe(b) is Some {
            lemma_synchsafe_bound(b);
            let size = from_synchsafe(b)->Some_0;
            lemma_frames(c, c[3], 10, 10 + size as int);
        }
    }
}

// ---------------------------------------------------------------------------------------------
// Writing

/// Append a tag header.
fn push_tag_header(out: &mut Vec<u8>, major: u8, body: u64)
    requires
        body <= MAX_TAG_BODY,
    ensures
        final(out)@ == old(out)@ + tag_header(major, body as nat),
{
    out.push(0x49);
    out.push(0x44);
    out.push(0x33);
    out.push(major);
    out.push(0);
    out.push(0);
    let size = to_synchsafe(body);
    out.extend_from_slice(size.as_slice());
    assert(out@ =~= old(out)@ + tag_header(major, body as nat));
}

/// Append the header of a private frame with `body` bytes, the first of which is its empty owner.
fn push_priv_header(out: &mut Vec<u8>, major: u8, body: u64)
    requires
        body <= MAX_TAG_BODY,
    ensures
        final(out)@ == old(out)@ + priv_header(major, body as nat),
{
    out.push(0x50);
    out.push(0x52);
    out.push(0x49);
    out.push(0x56);
    if major == 4 {
        let size = to_synchsafe(body);
        out.extend_from_slice(size.as_slice());
    } else {
        push_be(out, body, 4);
    }
    out.push(0);
    out.push(0);
    out.push(0);
    assert(out@ =~= old(out)@ + priv_header(major, body as nat));
}

/// Copy frames back to back.
fn copy_frames<S: ReadSeek, W: Write>(src: &S, dst: &mut CountingWriter<W>, list: &Vec<Frame>) -> (r:
    Result<(), ZolalError>)
    requires
        old(dst).wf(),
        within(ats(list@), 0, src.content().len() as int),
        src.content().len() <= u64::MAX,
        old(dst).written().len() + total(ats(list@)) <= u64::MAX,
    ensures
        *final(final(dst).inner) == *final(old(dst).inner),
        final(dst).reliable() == old(dst).reliable(),
        r is Ok ==> final(dst).wf() && final(dst).extends(
            *old(dst),
            frame_bytes(src.content(), ats(list@)),
        ),
        r is Err ==> !(src.reliable() && old(dst).reliable()),
{
    let ghost c = src.content();
    let ghost all = ats(list@);
    let mut i: usize = 0;
    proof {
        assert(all.take(0) =~= Seq::<FrameAt>::empty());
        assert(dst.written() =~= old(dst).written() + frame_bytes(c, all.take(0)));
    }
    while i < list.len()
        invariant
            c == src.content(),
            c.len() <= u64::MAX,
            all == ats(list@),
            within(all, 0, c.len() as int),
            i <= list@.len(),
            old(dst).written().len() + total(all) <= u64::MAX,
            *final(dst.inner) == *final(old(dst).inner),
            dst.reliable() == old(dst).reliable(),
            dst.wf(),
            dst.extends(*old(dst), frame_bytes(c, all.take(i as int))),
        decreases list@.len() - i,
    {
        let f = list[i];
        let ghost done = frame_bytes(c, all.take(i as int));
        proof {
            let here = all.take(i + 1);
            assert(all[i as int] == f.at());
            assert(here.drop_last() =~= all.take(i as int));
            assert(here.last() == f.at());
            assert(forall|k: int| 0 <= k < here.len() ==> here[k] == all[k]);
            lemma_frame_bytes_len(c, here, c.len() as int);
            assert(all =~= here + all.skip(i + 1));
            lemma_total_concat(here, all.skip(i + 1));
            let rest = all.skip(i + 1);
            assert(forall|k: int| 0 <= k < rest.len() ==> rest[k] == all[i + 1 + k]);
            lemma_frame_bytes_len(c, rest, c.len() as int);
        }
        copy_range(
            src,
            dst,
            f.offset,
            f.offset + f.total,
            malformed("carrier changed while it was being read"),
        )?;
        proof {
            let here = all.take(i + 1);
            assert(here.drop_last() =~= all.take(i as int));
            assert(here.last() == f.at());
            assert(dst.written() =~= old(dst).written() + frame_bytes(c, here));
        }
        i = i + 1;
    }
    assert(all.take(i as int) =~= all);
    Ok(())
}

fn put<W: Write>(dst: &mut CountingWriter<W>, bytes: &Vec<u8>) -> (r: Result<(), ZolalError>)
    requires
        old(dst).wf(),
        old(dst).written().len() + bytes@.len() <= u64::MAX,
    ensures
        *final(final(dst).inner) == *final(old(dst).inner),
        final(dst).reliable() == old(dst).reliable(),
        r is Ok ==> final(dst).wf() && final(dst).extends(*old(dst), bytes@),
        r is Err ==> !old(dst).reliable(),
{
    match dst.write_all(bytes.as_slice()) {
        Ok(()) => Ok(()),
        Err(e) => Err(ZolalError::from_io(e)),
    }
}

// ---------------------------------------------------------------------------------------------
// The carrier

/// MP3 carrier implementation.
pub struct Mp3Carrier;

impl Carrier for Mp3Carrier {
    open spec fn recognised(head: Seq<u8>) -> bool {
        if head.len() >= 4 && head[0] == 0x49 && head[1] == 0x44 && head[2] == 0x33 {
            2 <= head[3] <= 4
        } else {
            head.len() >= 3 && head[0] == 0xFF && layer3_header(head[1], head[2])
        }
    }

    open spec fn regions(content: Seq<u8>) -> Result<Seq<Region>, Fault> {
        match shape(content) {
            Ok(s) => Ok(our_regions(frames_of(s))),
            Err(e) => Err(e),
        }
    }

    open spec fn region_bytes(content: Seq<u8>, region: Region) -> Result<Seq<u8>, Fault> {
        Ok(gathered(content, seq![(region.offset, region.len)]))
    }

    open spec fn embedded(content: Seq<u8>, technique: Technique, region: Seq<u8>) -> Seq<u8> {
        match shape(content) {
            Ok(s) => {
                let major = version_of(s);
                tag_header(major, new_body(s, region.len())) + frame_bytes(
                    content,
                    kept(frames_of(s)),
                ) + priv_header(major, region.len() + 1) + region + audio(content, s)
            },
            Err(_) => Seq::empty(),
        }
    }

    open spec fn embedded_len(content: Seq<u8>, technique: Technique, region_len: nat) -> Result<
        nat,
        Fault,
    > {
        if technique != Technique::Mp3Id3 {
            Err(not_applicable(technique, " does not apply to an MP3 carrier"@))
        } else {
            match shape(content) {
                Ok(s) => match refusal(content, s, region_len) {
                    Some(e) => Err(e),
                    None => Ok(10 + new_body(s, region_len) + audio(content, s).len()),
                },
                Err(e) => Err(e),
            }
        }
    }

    open spec fn stripped(content: Seq<u8>) -> Result<Seq<u8>, Fault> {
        match shape(content) {
            Ok(s) => Ok(
                if any_ours(frames_of(s)) {
                    retagged(content, s)
                } else {
                    content
                },
            ),
            Err(e) => Err(e),
        }
    }

    open spec fn reencoded(content: Seq<u8>) -> Result<bool, Fault> {
        Ok(false)
    }

    fn probe(head: &[u8]) -> (r: bool) {
        if head.len() >= 4 && head[0] == 0x49 && head[1] == 0x44 && head[2] == 0x33 {
            2 <= head[3] && head[3] <= 4
        } else {
            head.len() >= 3 && head[0] == 0xFF && is_layer3_frame_header(head[1], head[2])
        }
    }

    fn candidate_regions<S: ReadSeek>(&self, src: &S) -> (r: Result<Vec<Region>, ZolalError>) {
        let layout = scan(src)?;
        proof {
            lemma_shape(src.content());
        }
        let mut regions: Vec<Region> = Vec::new();
        match &layout.tag {
            Tag::Supported { major, frames } => {
                let ghost all = ats(frames@);
                let mut n: usize = frames.len();
                proof {
                    assert(all.take(n as int) =~= all);
                    assert(regions@ + our_regions(all) =~= our_regions(all));
                }
                while n > 0
                    invariant
                        all == ats(frames@),
                        n <= frames@.len(),
                        within(all, 10, layout.audio_start as int),
                        regions@ + our_regions(all.take(n as int)) == our_regions(all),
                    decreases n,
                {
                    let ghost here = all.take(n as int);
                    n = n - 1;
                    let f = frames[n];
                    assert(all[n as int] == f.at());
                    assert(here.last() == f.at());
                    assert(here.drop_last() =~= all.take(n as int));
                    if f.ours {
                        let ghost before = regions@;
                        regions.push(
                            Region {
                                offset: f.offset + FRAME_HEADER_LEN + 1,
                                len: f.total - FRAME_HEADER_LEN - 1,
                                technique: Technique::Mp3Id3,
                                fragmented: false,
                            },
                        );
                        assert(regions@ =~= before + seq![f.at().region()]);
                        assert(regions@ + our_regions(all.take(n as int)) =~= before + our_regions(
                            here,
                        ));
                    }
                }
                assert(all.take(0) =~= Seq::<FrameAt>::empty());
                assert(regions@ + our_regions(all.take(0)) =~= regions@);
            },
            _ => {
                assert(regions@ =~= our_regions(frames_of(layout.shape())));
            },
        }
        Ok(regions)
    }

    fn open_region<'a, S: ReadSeek>(&self, src: &'a S, region: &Region) -> (r: Result<
        RegionReader<'a, S>,
        ZolalError,
    >) {
        let mut parts: Vec<(u64, u64)> = Vec::new();
        parts.push((region.offset, region.len));
        assert(parts@ =~= seq![(region.offset, region.len)]);
        Ok(RegionReader::new(src, parts))
    }

    fn embed<S: ReadSeek, W: Write, F: Fill>(
        &self,
        src: &S,
        dst: &mut W,
        technique: Technique,
        region_len: u64,
        fill: &mut F,
    ) -> (r: Result<u64, ZolalError>) {
        if technique != Technique::Mp3Id3 {
            return Err(technique_mismatch(technique, " does not apply to an MP3 carrier"));
        }
        let layout = scan(src)?;
        let plan = layout.plan(src, region_len)?;
        let ghost c = src.content();
        let ghost s = layout.shape();
        proof {
            lemma_shape(c);
            lemma_kept(frames_of(s), 10, s.audio_start);
            assert(within(ats(plan.kept@), 0, c.len() as int));
            lemma_frame_bytes_len(c, ats(plan.kept@), c.len() as int);
            crate::bytes::lemma_be_bytes_len((region_len + 1) as nat, 4);
        }
        let mut out = CountingWriter::new(dst);
        let mut head: Vec<u8> = Vec::new();
        push_tag_header(&mut head, layout.version(), plan.tag_body);
        assert(head@ =~= tag_header(version_of(s), plan.tag_body as nat));
        put(&mut out, &head)?;
        copy_frames(src, &mut out, &plan.kept)?;
        let mut frame: Vec<u8> = Vec::new();
        push_priv_header(&mut frame, layout.version(), 1 + region_len);
        assert(frame@ =~= priv_header(version_of(s), (region_len + 1) as nat));
        put(&mut out, &frame)?;
        pump(&mut out, fill, region_len)?;
        copy_range(
            src,
            &mut out,
            layout.audio_start,
            layout.file_len,
            malformed("carrier changed while it was being read"),
        )?;
        proof {
            let region = newly_produced(*old(fill), *fill);
            assert(out.written() =~= old(dst).written() + Self::embedded(c, technique, region));
        }
        Ok(out.count())
    }

    fn output_len<S: ReadSeek>(&self, src: &S, technique: Technique, region_len: u64) -> (r: Result<
        u64,
        ZolalError,
    >) {
        if technique != Technique::Mp3Id3 {
            return Err(technique_mismatch(technique, " does not apply to an MP3 carrier"));
        }
        let layout = scan(src)?;
        let plan = layout.plan(src, region_len)?;
        proof {
            lemma_shape(src.content());
        }
        Ok(TAG_HEADER_LEN + plan.tag_body + (layout.file_len - layout.audio_start))
    }

    fn strip<S: ReadSeek, W: Write>(&self, src: &S, dst: &mut W) -> (r: Result<u64, ZolalError>) {
        let layout = scan(src)?;
        let ghost c = src.content();
        let ghost s = layout.shape();
        proof {
            lemma_shape(c);
            lemma_frames_total(c);
            lemma_kept(frames_of(s), 10, s.audio_start);
        }
        let mut out = CountingWriter::new(dst);
        match &layout.tag {
            Tag::Supported { major, frames } => {
                let (mine, body) = keep(frames, Ghost(layout.audio_start as int));
                if mine.len() < frames.len() {
                    proof {
                        lemma_any_ours(ats(frames@));
                        lemma_stripped_len(c);
                        assert(within(ats(mine@), 0, c.len() as int));
                        lemma_frame_bytes_len(c, ats(mine@), c.len() as int);
                    }
                    if mine.len() > 0 {
                        let mut head: Vec<u8> = Vec::new();
                        push_tag_header(&mut head, *major, body);
                        assert(head@ =~= tag_header(*major, body as nat));
                        put(&mut out, &head)?;
                        copy_frames(src, &mut out, &mine)?;
                    }
                    copy_range(
                        src,
                        &mut out,
                        layout.audio_start,
                        layout.file_len,
                        malformed("carrier changed while it was being read"),
                    )?;
                    assert(out.written() =~= old(dst).written() + retagged(c, s));
                } else {
                    proof {
                        lemma_any_ours(ats(frames@));
                    }
                    copy_range(
                        src,
                        &mut out,
                        0,
                        layout.file_len,
                        malformed("carrier changed while it was being read"),
                    )?;
                    assert(clip(c, 0, c.len() as int) =~= c);
                }
            },
            _ => {
                copy_range(
                    src,
                    &mut out,
                    0,
                    layout.file_len,
                    malformed("carrier changed while it was being read"),
                )?;
                assert(clip(c, 0, c.len() as int) =~= c);
            },
        }
        Ok(out.count())
    }

    fn looks_reencoded<S: ReadSeek>(&self, src: &S) -> (r: Result<bool, ZolalError>) {
        Ok(false)
    }
}

/// Fewer frames are kept exactly where one of them is ours.
pub proof fn lemma_any_ours(list: Seq<FrameAt>)
    ensures
        kept(list).len() <= list.len(),
        any_ours(list) <==> kept(list).len() < list.len(),
        !any_ours(list) ==> kept(list) == list,
    decreases list.len(),
{
    if list.len() > 0 {
        let rest = list.drop_last();
        lemma_any_ours(rest);
        assert(forall|i: int| 0 <= i < rest.len() ==> rest[i] == list[i]);
        if any_ours(rest) {
            let i = choose|i: int| 0 <= i < rest.len() && (#[trigger] rest[i]).ours;
            assert(list[i].ours);
        }
        if list.last().ours {
            assert(list[list.len() - 1].ours);
        } else if any_ours(list) {
            let i = choose|i: int| 0 <= i < list.len() && (#[trigger] list[i]).ours;
            assert(rest[i].ours);
        }
        if !any_ours(list) {
            assert(kept(list) =~= list);
        }
    }
}

/// Stripping never makes a file longer.
pub proof fn lemma_stripped_len(c: Seq<u8>)
    ensures
        shape(c) matches Ok(s) ==> any_ours(frames_of(s)) ==> retagged(c, s).len() <= c.len(),
{
    if let Ok(s) = shape(c) {
        if any_ours(frames_of(s)) {
            let list = frames_of(s);
            lemma_shape(c);
            let size = from_synchsafe(c.subrange(6, 10))->Some_0;
            lemma_frames(c, c[3], 10, 10 + size as int);
            lemma_kept(list, 10, s.audio_start);
            lemma_frame_bytes_len(c, kept(list), c.len() as int);
        }
    }
}

} // verus!
