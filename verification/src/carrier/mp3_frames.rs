//! What hiding in an MP3 does to a song given frame by frame: its own frames stay, byte for byte, and the
//! private frames that hold something are where to look.

use super::mp3::{
    any_ours, audio, followed_by, frame_at, frame_bytes, frame_size, frames_from, from_synchsafe,
    kept, lemma_any_ours, lemma_synchsafe_bound, our_regions, priv_header, shape, synchsafe_bytes,
    total, FrameAt, Mp3Carrier, Shape, TagAt,
};
use super::{Carrier, Region, Technique};
use crate::bytes::{be_number, lemma_be_canonical};
use crate::error::Fault;
use crate::io::{clip, lemma_gather_one};
use vstd::prelude::*;

verus! {

/// A frame as it stands in a tag.
pub ghost struct TagFrame {
    /// Four capital letters or digits.
    pub id: Seq<u8>,
    /// The four bytes of its length.
    pub size: Seq<u8>,
    /// The two bytes of its flags.
    pub flags: Seq<u8>,
    pub body: Seq<u8>,
}

impl TagFrame {
    pub open spec fn bytes(self) -> Seq<u8> {
        self.id + self.size + self.flags + self.body
    }

    /// Whether it is a frame of an ID3v2.3 tag, whose lengths have eight bits to a byte, or of an ID3v2.4
    /// tag, whose lengths have seven.
    pub open spec fn valid(self, major: u8) -> bool {
        &&& self.id.len() == 4
        &&& self.size.len() == 4
        &&& self.flags.len() == 2
        &&& forall|i: int|
            0 <= i < 4 ==> 0x41 <= #[trigger] self.id[i] <= 0x5a || 0x30 <= self.id[i] <= 0x39
        &&& if major == 4 {
            spells(self.size, self.body.len())
        } else {
            self.size[0] * 0x100_0000 + self.size[1] * 0x1_0000 + self.size[2] * 0x100 + self.size[3]
                == self.body.len()
        }
    }

    /// Whether it is a private frame (`PRIV`) with no flags, an empty owner and something behind that.
    pub open spec fn hidden(self) -> bool {
        self.id == seq![0x50u8, 0x52, 0x49, 0x56] && self.flags == seq![0u8, 0] && self.body.len() > 1
            && self.body[0] == 0
    }
}

/// `b` is `n` in four bytes of seven bits.
pub open spec fn spells(b: Seq<u8>, n: nat) -> bool {
    &&& b.len() == 4
    &&& b[0] < 0x80 && b[1] < 0x80 && b[2] < 0x80 && b[3] < 0x80
    &&& b[0] * 0x20_0000 + b[1] * 0x4000 + b[2] * 0x80 + b[3] == n
}

/// Frames back to back.
pub open spec fn tag_of(frames: Seq<TagFrame>) -> Seq<u8>
    decreases frames.len(),
{
    if frames.len() == 0 {
        Seq::empty()
    } else {
        tag_of(frames.drop_last()) + frames.last().bytes()
    }
}

/// The frames that hold nothing hidden, in order.
pub open spec fn own_frames(frames: Seq<TagFrame>) -> Seq<TagFrame>
    decreases frames.len(),
{
    if frames.len() == 0 {
        Seq::empty()
    } else if frames.last().hidden() {
        own_frames(frames.drop_last())
    } else {
        own_frames(frames.drop_last()).push(frames.last())
    }
}

/// A song: a tag header, frames, padding, and what follows the tag.
pub open spec fn song(
    major: u8,
    revision: u8,
    flags: u8,
    size: Seq<u8>,
    frames: Seq<TagFrame>,
    padding: Seq<u8>,
    rest: Seq<u8>,
) -> Seq<u8> {
    seq![0x49u8, 0x44, 0x33, major, revision, flags] + size + tag_of(frames) + padding + rest
}

/// What a song needs to be one: its frames are frames, its size field covers them and the padding, the
/// padding does not begin like a frame, and none of the flags is set that change what a tag looks like.
pub open spec fn song_valid(
    major: u8,
    flags: u8,
    size: Seq<u8>,
    frames: Seq<TagFrame>,
    padding: Seq<u8>,
) -> bool {
    &&& major == 3 || major == 4
    &&& flags < 0x40 && flags / 16 % 2 == 0
    &&& spells(size, tag_of(frames).len() + padding.len())
    &&& forall|i: int| 0 <= i < frames.len() ==> (#[trigger] frames[i]).valid(major)
    &&& padding.len() > 0 ==> padding[0] == 0
}

spec fn frame_of(f: TagFrame, offset: int) -> FrameAt {
    FrameAt { offset, total: f.bytes().len() as int, ours: f.hidden() }
}

spec fn frames_at(frames: Seq<TagFrame>, start: int) -> Seq<FrameAt>
    decreases frames.len(),
{
    if frames.len() == 0 {
        Seq::empty()
    } else {
        frames_at(frames.drop_last(), start).push(
            frame_of(frames.last(), start + tag_of(frames.drop_last()).len()),
        )
    }
}

/// The digits of a number in base 128.
proof fn lemma_digits(a: int, b: int, c: int, d: int, n: int)
    requires
        0 <= a < 128 && 0 <= b < 128 && 0 <= c < 128 && 0 <= d < 128,
        n == a * 0x20_0000 + b * 0x4000 + c * 0x80 + d,
    ensures
        n / 0x20_0000 == a,
        n / 0x20_0000 % 128 == a,
        n / 0x4000 % 128 == b,
        n / 128 % 128 == c,
        n % 128 == d,
{
    assert(n / 128 == a * 0x4000 + b * 0x80 + c);
    assert(n / 0x4000 == a * 0x80 + b);
}

proof fn lemma_spells(b: Seq<u8>, n: nat)
    requires
        spells(b, n),
    ensures
        from_synchsafe(b) == Some(n),
        n <= 0xfff_ffff,
        synchsafe_bytes(n) == b,
{
    lemma_digits(b[0] as int, b[1] as int, b[2] as int, b[3] as int, n as int);
    assert(synchsafe_bytes(n) =~= b);
    lemma_synchsafe_bound(b);
    assert(forall|i: int| 0 <= i < 4 ==> b[i] < 0x80);
}

proof fn lemma_four(b: Seq<u8>)
    requires
        b.len() == 4,
    ensures
        be_number(b) == b[0] * 0x100_0000 + b[1] * 0x1_0000 + b[2] * 0x100 + b[3],
{
    reveal_with_fuel(be_number, 5);
    let b3 = b.drop_last();
    let b2 = b3.drop_last();
    let b1 = b2.drop_last();
    assert(b3.last() == b[2] && b2.last() == b[1] && b1.last() == b[0]);
}

/// A frame is read as what it is made of.
proof fn lemma_frame_parses(before: Seq<u8>, f: TagFrame, after: Seq<u8>, major: u8, end: int)
    requires
        f.valid(major),
        before.len() + f.bytes().len() <= end <= before.len() + f.bytes().len() + after.len(),
    ensures
        frame_at(before + f.bytes() + after, major, before.len() as int, end) == Ok::<Option<FrameAt>, Fault>(
            Some(frame_of(f, before.len() as int)),
        ),
        f.bytes().len() >= 10,
{
    let c = before + f.bytes() + after;
    let at = before.len() as int;
    assert(c[at] == f.id[0] && c[at + 1] == f.id[1] && c[at + 2] == f.id[2] && c[at + 3] == f.id[3]);
    assert(c.subrange(at, at + 4) =~= f.id);
    assert(c.subrange(at + 4, at + 8) =~= f.size);
    if major == 4 {
        lemma_spells(f.size, f.body.len());
    } else {
        lemma_four(f.size);
    }
    assert(frame_size(c, major, at) == Some(f.body.len()));
    assert(c[at + 8] == f.flags[0] && c[at + 9] == f.flags[1]);
    assert((f.flags == seq![0u8, 0]) == (f.flags[0] == 0 && f.flags[1] == 0)) by {
        if f.flags[0] == 0 && f.flags[1] == 0 {
            assert(f.flags =~= seq![0u8, 0]);
        }
    }
    if f.body.len() > 0 {
        assert(c[at + 10] == f.body[0]);
    }
}

proof fn lemma_frames_walk(before: Seq<u8>, frames: Seq<TagFrame>, after: Seq<u8>, major: u8, end: int)
    requires
        forall|i: int| 0 <= i < frames.len() ==> (#[trigger] frames[i]).valid(major),
        before.len() + tag_of(frames).len() <= end <= before.len() + tag_of(frames).len() + after.len(),
    ensures
        frames_from(before + tag_of(frames) + after, major, before.len() as int, end) == followed_by(
            frames_at(frames, before.len() as int),
            frames_from(
                before + tag_of(frames) + after,
                major,
                (before.len() + tag_of(frames).len()) as int,
                end,
            ),
        ),
    decreases frames.len(),
{
    let c = before + tag_of(frames) + after;
    let start = before.len() as int;
    if frames.len() == 0 {
        if let Ok(rest) = frames_from(c, major, start, end) {
            assert(frames_at(frames, start) + rest =~= rest);
        }
    } else {
        let less = frames.drop_last();
        let f = frames[frames.len() - 1];
        assert(forall|i: int| 0 <= i < less.len() ==> less[i] == frames[i]);
        assert(c =~= before + tag_of(less) + (f.bytes() + after));
        assert(c =~= (before + tag_of(less)) + f.bytes() + after);
        lemma_frames_walk(before, less, f.bytes() + after, major, end);
        lemma_frame_parses(before + tag_of(less), f, after, major, end);
        let at = start + tag_of(less).len();
        let g = frame_of(f, at);
        if let Ok(rest) = frames_from(c, major, at + g.total, end) {
            assert(frames_at(less, start) + (seq![g] + rest) =~= frames_at(frames, start) + rest);
        }
    }
}

/// A song is read as what it is made of.
proof fn lemma_song_shape(
    major: u8,
    revision: u8,
    flags: u8,
    size: Seq<u8>,
    frames: Seq<TagFrame>,
    padding: Seq<u8>,
    rest: Seq<u8>,
)
    requires
        song_valid(major, flags, size, frames, padding),
    ensures
        shape(song(major, revision, flags, size, frames, padding, rest)) == Ok::<Shape, Fault>(
            Shape {
                tag: TagAt::Supported { major, frames: frames_at(frames, 10) },
                audio_start: 10 + tag_of(frames).len() as int + padding.len(),
            },
        ),
        audio(
            song(major, revision, flags, size, frames, padding, rest),
            shape(song(major, revision, flags, size, frames, padding, rest))->Ok_0,
        ) == rest,
{
    let head = seq![0x49u8, 0x44, 0x33, major, revision, flags] + size;
    let c = song(major, revision, flags, size, frames, padding, rest);
    let n = tag_of(frames).len() + padding.len();
    let end = 10 + n as int;
    assert(c =~= head + tag_of(frames) + (padding + rest));
    assert(c[0] == 0x49 && c[1] == 0x44 && c[2] == 0x33 && c[3] == major && c[5] == flags);
    assert(c.subrange(6, 10) =~= size);
    lemma_spells(size, n);
    lemma_frames_walk(head, frames, padding + rest, major, end);
    let p = 10 + tag_of(frames).len() as int;
    if padding.len() > 0 {
        assert(c[p] == padding[0]);
    }
    assert(frames_from(c, major, p, end) == Ok::<Seq<FrameAt>, Fault>(Seq::empty()));
    assert(frames_at(frames, 10) + Seq::<FrameAt>::empty() =~= frames_at(frames, 10));
    assert(flags as int / 128 % 2 == 0 && flags as int / 64 % 2 == 0 && flags as int / 16 % 2 == 0);
    assert(clip(c, end, c.len() as int) =~= rest);
}

/// The frames that are kept are those that hold nothing hidden.
proof fn lemma_kept_frames(before: Seq<u8>, frames: Seq<TagFrame>, after: Seq<u8>)
    ensures
        ({
            let c = before + tag_of(frames) + after;
            let mine = kept(frames_at(frames, before.len() as int));
            &&& frame_bytes(c, mine) == tag_of(own_frames(frames))
            &&& total(mine) == tag_of(own_frames(frames)).len()
            &&& mine.len() == own_frames(frames).len()
        }),
    decreases frames.len(),
{
    let c = before + tag_of(frames) + after;
    let start = before.len() as int;
    let all = frames_at(frames, start);
    if frames.len() == 0 {
        assert(frame_bytes(c, kept(all)) =~= tag_of(own_frames(frames)));
    } else {
        let less = frames.drop_last();
        let f = frames.last();
        assert(c =~= before + tag_of(less) + (f.bytes() + after));
        lemma_kept_frames(before, less, f.bytes() + after);
        assert(all.drop_last() =~= frames_at(less, start));
        if !f.hidden() {
            let own = own_frames(frames);
            assert(own.drop_last() =~= own_frames(less));
            let mine = kept(all);
            assert(mine.drop_last() =~= kept(frames_at(less, start)));
            let g = mine.last();
            assert(clip(c, g.offset, g.end()) =~= f.bytes());
        }
    }
}

proof fn lemma_frames_at(frames: Seq<TagFrame>, start: int)
    ensures
        frames_at(frames, start).len() == frames.len(),
        forall|i: int|
            0 <= i < frames.len() ==> #[trigger] frames_at(frames, start)[i] == frame_of(
                frames[i],
                start + tag_of(frames.take(i)).len(),
            ),
    decreases frames.len(),
{
    if frames.len() > 0 {
        let less = frames.drop_last();
        lemma_frames_at(less, start);
        assert forall|i: int| 0 <= i < frames.len() implies #[trigger] frames_at(frames, start)[i] == frame_of(
            frames[i],
            start + tag_of(frames.take(i)).len(),
        ) by {
            if i < less.len() {
                assert(frames_at(frames, start)[i] == frames_at(less, start)[i]);
                assert(less.take(i) =~= frames.take(i));
            } else {
                assert(frames.take(i) =~= less);
            }
        }
    }
}

/// Hiding keeps every frame that holds nothing hidden, byte for byte and in order, puts one `PRIV` frame
/// with an empty owner behind them, and leaves what follows the tag as it is. Padding and what was hidden
/// before are dropped. The tag keeps its major version.
pub proof fn mp3_frames_stay(
    major: u8,
    revision: u8,
    flags: u8,
    size: Seq<u8>,
    frames: Seq<TagFrame>,
    padding: Seq<u8>,
    rest: Seq<u8>,
    region: Seq<u8>,
    new: TagFrame,
    new_size: Seq<u8>,
)
    requires
        song_valid(major, flags, size, frames, padding),
        new.valid(major),
        new.id == seq![0x50u8, 0x52, 0x49, 0x56],
        new.flags == seq![0u8, 0],
        new.body == seq![0u8] + region,
        spells(new_size, tag_of(own_frames(frames)).len() + new.bytes().len()),
    ensures
        ({
            let c = song(major, revision, flags, size, frames, padding, rest);
            let out = seq![0x49u8, 0x44, 0x33, major, 0, 0] + new_size + tag_of(own_frames(frames))
                + new.bytes() + rest;
            &&& Mp3Carrier::embedded(c, Technique::Mp3Id3, region) == out
            &&& Mp3Carrier::embedded_len(c, Technique::Mp3Id3, region.len()) == Ok::<nat, Fault>(out.len())
        }),
{
    let c = song(major, revision, flags, size, frames, padding, rest);
    let head = seq![0x49u8, 0x44, 0x33, major, revision, flags] + size;
    let n = tag_of(own_frames(frames)).len() + new.bytes().len();
    lemma_song_shape(major, revision, flags, size, frames, padding, rest);
    lemma_kept_frames(head, frames, padding + rest);
    assert(c =~= head + tag_of(frames) + (padding + rest));
    lemma_spells(new_size, n);
    let k = region.len() + 1;
    if major == 4 {
        lemma_spells(new.size, k);
    } else {
        lemma_four(new.size);
        lemma_be_canonical(new.size);
    }
    assert(priv_header(major, k) + region =~= new.bytes());
    let out = seq![0x49u8, 0x44, 0x33, major, 0, 0] + new_size + tag_of(own_frames(frames)) + new.bytes() + rest;
    assert(Mp3Carrier::embedded(c, Technique::Mp3Id3, region) =~= out);
}

/// Where the tag has no `PRIV` frame, all of its frames stay.
pub proof fn mp3_other_frames_stay(frames: Seq<TagFrame>)
    requires
        forall|i: int| 0 <= i < frames.len() ==> (#[trigger] frames[i]).id != seq![0x50u8, 0x52, 0x49, 0x56],
    ensures
        own_frames(frames) == frames,
    decreases frames.len(),
{
    if frames.len() > 0 {
        let less = frames.drop_last();
        assert(frames[frames.len() - 1].id != seq![0x50u8, 0x52, 0x49, 0x56]);
        assert(forall|i: int| 0 <= i < less.len() ==> less[i] == frames[i]);
        mp3_other_frames_stay(less);
        assert(less.push(frames.last()) =~= frames);
    } else {
        assert(own_frames(frames) =~= frames);
    }
}

/// A song without a tag gets one of version 2.3 with nothing in it but the region, and is otherwise left
/// as it is. It offers no place to look, and stripping changes nothing.
pub proof fn mp3_untagged_song_stays(c: Seq<u8>, region: Seq<u8>, new: TagFrame, new_size: Seq<u8>)
    requires
        c.len() < 10 || c[0] != 0x49 || c[1] != 0x44 || c[2] != 0x33,
        new.valid(3),
        new.id == seq![0x50u8, 0x52, 0x49, 0x56],
        new.flags == seq![0u8, 0],
        new.body == seq![0u8] + region,
        spells(new_size, new.bytes().len()),
    ensures
        Mp3Carrier::embedded(c, Technique::Mp3Id3, region) == seq![0x49u8, 0x44, 0x33, 3, 0, 0] + new_size
            + new.bytes() + c,
        Mp3Carrier::embedded_len(c, Technique::Mp3Id3, region.len()) is Ok,
        Mp3Carrier::regions(c) == Ok::<Seq<Region>, Fault>(Seq::empty()),
        Mp3Carrier::stripped(c) == Ok::<Seq<u8>, Fault>(c),
{
    lemma_spells(new_size, new.bytes().len());
    lemma_four(new.size);
    lemma_be_canonical(new.size);
    assert(priv_header(3, region.len() + 1) + region =~= new.bytes());
    assert(clip(c, 0, c.len() as int) =~= c);
    let none = Seq::<FrameAt>::empty();
    assert(kept(none) == none);
    assert(frame_bytes(c, none) =~= Seq::<u8>::empty());
    assert(!any_ours(none));
    assert(Mp3Carrier::embedded(c, Technique::Mp3Id3, region) =~= seq![0x49u8, 0x44, 0x33, 3, 0, 0] + new_size
        + new.bytes() + c);
}

/// Where to look in a song: behind the owner of every frame that can hold something hidden, and nowhere
/// else, the last in the tag first.
pub proof fn mp3_places_to_look(
    major: u8,
    revision: u8,
    flags: u8,
    size: Seq<u8>,
    frames: Seq<TagFrame>,
    padding: Seq<u8>,
    rest: Seq<u8>,
)
    requires
        song_valid(major, flags, size, frames, padding),
    ensures
        Mp3Carrier::regions(song(major, revision, flags, size, frames, padding, rest)) matches Ok(list) && {
            let c = song(major, revision, flags, size, frames, padding, rest);
            &&& forall|j: int| 0 <= j < list.len() ==> looks_into_some(#[trigger] list[j], c, frames)
            &&& forall|i: int|
                0 <= i < frames.len() && (#[trigger] frames[i]).hidden() ==> some_looks_into(list, c, frames, i)
            &&& forall|j: int, k: int|
                0 <= j < k < list.len() ==> (#[trigger] list[j]).offset > (#[trigger] list[k]).offset
        },
{
    let c = song(major, revision, flags, size, frames, padding, rest);
    let head = seq![0x49u8, 0x44, 0x33, major, revision, flags] + size;
    lemma_song_shape(major, revision, flags, size, frames, padding, rest);
    lemma_spells(size, tag_of(frames).len() + padding.len());
    assert(c =~= head + tag_of(frames) + (padding + rest));
    let at = frames_at(frames, 10);
    let list = our_regions(at);
    lemma_our_list(at);
    lemma_our_order(frames, major, 10);
    lemma_frames_at(frames, 10);
    assert forall|i: int| 0 <= i < frames.len() && (#[trigger] frames[i]).hidden() implies looks_into(
        at[i].region(),
        c,
        frames,
        i,
    ) by {
        lemma_place(head, frames, padding + rest, i);
        assert(at[i] == frame_of(frames[i], 10int + tag_of(frames.take(i)).len()));
    }
    assert forall|j: int| 0 <= j < list.len() implies looks_into_some(#[trigger] list[j], c, frames) by {
        assert(comes_from(list[j], at));
        let i = choose|i: int| 0 <= i < at.len() && (#[trigger] at[i]).ours && at[i].region() == list[j];
        assert(frames[i].hidden());
        assert(looks_into(list[j], c, frames, i));
    }
    assert forall|i: int| 0 <= i < frames.len() && (#[trigger] frames[i]).hidden() implies some_looks_into(
        list,
        c,
        frames,
        i,
    ) by {
        assert(at[i].ours);
        let j = choose|j: int| 0 <= j < list.len() && list[j] == at[i].region();
        assert(looks_into(list[j], c, frames, i));
    }
}

proof fn lemma_place(head: Seq<u8>, frames: Seq<TagFrame>, after: Seq<u8>, i: int)
    requires
        head.len() == 10,
        0 <= i < frames.len(),
        frames[i].hidden(),
        frames[i].id.len() + frames[i].size.len() + frames[i].flags.len() == 10,
        10 + tag_of(frames).len() <= u64::MAX,
    ensures
        looks_into(
            frame_of(frames[i], 10int + tag_of(frames.take(i)).len()).region(),
            head + tag_of(frames) + after,
            frames,
            i,
        ),
{
    let c = head + tag_of(frames) + after;
    lemma_tag_grows(frames, i);
    let f = frames[i];
    let before = head + tag_of(frames.take(i));
    assert(c =~= before + f.bytes() + (tag_of(frames.skip(i + 1)) + after));
    let r = frame_of(f, 10int + tag_of(frames.take(i)).len()).region();
    assert(r.offset == before.len() + 11 && r.len == f.body.len() - 1);
    lemma_gather_one(c, r.offset, r.len);
    assert(clip(c, r.offset as int, r.offset + r.len) =~= f.body.skip(1));
}

/// `r` is what follows the owner in the `i`th frame of `c`, which can hold something hidden.
pub open spec fn looks_into(r: Region, c: Seq<u8>, frames: Seq<TagFrame>, i: int) -> bool {
    &&& frames[i].hidden()
    &&& r.offset == 10 + tag_of(frames.take(i)).len() + 11
    &&& r.technique == Technique::Mp3Id3
    &&& r.len == frames[i].body.len() - 1
    &&& Mp3Carrier::region_bytes(c, r) == Ok::<Seq<u8>, Fault>(frames[i].body.skip(1))
}

/// `r` is what follows the owner in one of the frames that can hold something hidden.
pub open spec fn looks_into_some(r: Region, c: Seq<u8>, frames: Seq<TagFrame>) -> bool {
    exists|i: int| 0 <= i < frames.len() && #[trigger] looks_into(r, c, frames, i)
}

/// One of the places is in the `i`th frame.
pub open spec fn some_looks_into(list: Seq<Region>, c: Seq<u8>, frames: Seq<TagFrame>, i: int) -> bool {
    exists|j: int| 0 <= j < list.len() && looks_into(#[trigger] list[j], c, frames, i)
}

proof fn lemma_tag_concat(a: Seq<TagFrame>, b: Seq<TagFrame>)
    ensures
        tag_of(a + b) == tag_of(a) + tag_of(b),
    decreases b.len(),
{
    if b.len() == 0 {
        assert(a + b =~= a);
        assert(tag_of(a) + tag_of(b) =~= tag_of(a));
    } else {
        let less = b.drop_last();
        assert((a + b).drop_last() =~= a + less);
        assert((a + b).last() == b.last());
        lemma_tag_concat(a, less);
        assert(tag_of(a + b) =~= tag_of(a) + tag_of(b));
    }
}

proof fn lemma_tag_grows(frames: Seq<TagFrame>, i: int)
    requires
        0 <= i < frames.len(),
    ensures
        tag_of(frames) == tag_of(frames.take(i)) + frames[i].bytes() + tag_of(frames.skip(i + 1)),
{
    assert(frames =~= frames.take(i) + frames.skip(i));
    lemma_tag_concat(frames.take(i), frames.skip(i));
    let one = seq![frames[i]];
    assert(frames.skip(i) =~= one + frames.skip(i + 1));
    lemma_tag_concat(one, frames.skip(i + 1));
    assert(one.drop_last() =~= Seq::<TagFrame>::empty());
    assert(one.last() == frames[i]);
    reveal_with_fuel(tag_of, 2);
    assert(tag_of(one) =~= frames[i].bytes());
    assert(tag_of(frames) =~= tag_of(frames.take(i)) + frames[i].bytes() + tag_of(frames.skip(i + 1)));
}

/// `r` is the region of one of ours.
spec fn comes_from(r: Region, list: Seq<FrameAt>) -> bool {
    exists|i: int| 0 <= i < list.len() && (#[trigger] list[i]).ours && list[i].region() == r
}

proof fn lemma_our_list(list: Seq<FrameAt>)
    ensures
        ({
            let out = our_regions(list);
            &&& forall|j: int| 0 <= j < out.len() ==> comes_from(#[trigger] out[j], list)
            &&& forall|i: int|
                0 <= i < list.len() && (#[trigger] list[i]).ours ==> out.contains(list[i].region())
        }),
    decreases list.len(),
{
    if list.len() > 0 {
        let less = list.drop_last();
        let b = list.last();
        let out = our_regions(list);
        let rest = our_regions(less);
        lemma_our_list(less);
        assert forall|r: Region| #[trigger] comes_from(r, less) implies comes_from(r, list) by {
            let i = choose|i: int| 0 <= i < less.len() && (#[trigger] less[i]).ours && less[i].region() == r;
            assert(list[i] == less[i]);
        }
        let d: int = if b.ours {
            1
        } else {
            0
        };
        assert(forall|j: int| 0 <= j < rest.len() ==> out[j + d] == rest[j]);
        assert forall|j: int| 0 <= j < out.len() implies comes_from(#[trigger] out[j], list) by {
            if j < d {
                assert(list[list.len() - 1].ours && list[list.len() - 1].region() == out[j]);
            } else {
                assert(out[j] == rest[j - d]);
                assert(comes_from(rest[j - d], less));
            }
        }
        assert forall|i: int| 0 <= i < list.len() && (#[trigger] list[i]).ours implies out.contains(
            list[i].region(),
        ) by {
            if i < less.len() {
                assert(less[i] == list[i]);
                let j = choose|j: int| 0 <= j < rest.len() && rest[j] == list[i].region();
                assert(out[j + d] == list[i].region());
            } else {
                assert(out[0] == b.region());
            }
        }
    }
}

proof fn lemma_our_order(frames: Seq<TagFrame>, major: u8, start: int)
    requires
        forall|i: int| 0 <= i < frames.len() ==> (#[trigger] frames[i]).valid(major),
        start >= 0,
        start + tag_of(frames).len() <= u64::MAX,
    ensures
        ({
            let out = our_regions(frames_at(frames, start));
            &&& forall|j: int| 0 <= j < out.len() ==> (#[trigger] out[j]).offset <= start + tag_of(frames).len()
            &&& forall|j: int, k: int|
                0 <= j < k < out.len() ==> (#[trigger] out[j]).offset > (#[trigger] out[k]).offset
        }),
    decreases frames.len(),
{
    if frames.len() > 0 {
        let less = frames.drop_last();
        let f = frames[frames.len() - 1];
        let out = our_regions(frames_at(frames, start));
        let rest = our_regions(frames_at(less, start));
        assert(forall|i: int| 0 <= i < less.len() ==> less[i] == frames[i]);
        lemma_our_order(less, major, start);
        assert(frames_at(frames, start).drop_last() =~= frames_at(less, start));
        let b = frames_at(frames, start).last();
        let d: int = if b.ours {
            1
        } else {
            0
        };
        assert(b.ours ==> out =~= seq![b.region()] + rest);
        assert(forall|j: int| 0 <= j < rest.len() ==> out[j + d] == rest[j]);
        assert(f.valid(major));
        assert(b.ours ==> f.bytes().len() >= 12);
        assert forall|j: int, k: int| 0 <= j < k < out.len() implies (#[trigger] out[j]).offset > (
        #[trigger] out[k]).offset by {
            assert(out[k] == rest[k - d]);
            if j >= d {
                assert(out[j] == rest[j - d]);
            }
        }
        assert forall|j: int| 0 <= j < out.len() implies (#[trigger] out[j]).offset <= start + tag_of(
            frames,
        ).len() by {
            if j >= d {
                assert(out[j] == rest[j - d]);
            }
        }
    }
}

/// Stripping drops what can hold something hidden and the padding with it. What stays is a tag of the
/// song's own frames, or no tag where there are none; and a song without such a frame is left as it is.
pub proof fn mp3_strip_keeps_frames(
    major: u8,
    revision: u8,
    flags: u8,
    size: Seq<u8>,
    frames: Seq<TagFrame>,
    padding: Seq<u8>,
    rest: Seq<u8>,
    new_size: Seq<u8>,
)
    requires
        song_valid(major, flags, size, frames, padding),
        spells(new_size, tag_of(own_frames(frames)).len()),
    ensures
        ({
            let c = song(major, revision, flags, size, frames, padding, rest);
            let own = own_frames(frames);
            Mp3Carrier::stripped(c) == Ok::<Seq<u8>, Fault>(
                if own == frames {
                    c
                } else if own.len() == 0 {
                    rest
                } else {
                    seq![0x49u8, 0x44, 0x33, major, 0, 0] + new_size + tag_of(own) + rest
                },
            )
        }),
{
    let c = song(major, revision, flags, size, frames, padding, rest);
    let head = seq![0x49u8, 0x44, 0x33, major, revision, flags] + size;
    lemma_song_shape(major, revision, flags, size, frames, padding, rest);
    lemma_kept_frames(head, frames, padding + rest);
    assert(c =~= head + tag_of(frames) + (padding + rest));
    lemma_spells(new_size, tag_of(own_frames(frames)).len());
    let at = frames_at(frames, 10);
    lemma_any_ours(at);
    lemma_frames_at(frames, 10);
    lemma_own_len(frames);
}

proof fn lemma_own_len(frames: Seq<TagFrame>)
    ensures
        own_frames(frames).len() <= frames.len(),
        own_frames(frames).len() == frames.len() ==> own_frames(frames) == frames,
    decreases frames.len(),
{
    if frames.len() > 0 {
        let less = frames.drop_last();
        lemma_own_len(less);
        assert(less.push(frames.last()) =~= frames);
    } else {
        assert(own_frames(frames) =~= frames);
    }
}

/// A tag of another version than 2.3 and 2.4, or with unsynchronisation, an extended header or a footer, is
/// never rewritten: hiding is refused, there is no place to look, and stripping changes nothing.
pub proof fn mp3_strange_tags_are_left_alone(c: Seq<u8>, n: nat)
    requires
        c.len() >= 10,
        c[0] == 0x49 && c[1] == 0x44 && c[2] == 0x33,
        c[3] != 3 && c[3] != 4 || c[5] >= 0x40 || c[5] / 16 % 2 == 1,
    ensures
        Mp3Carrier::embedded_len(c, Technique::Mp3Id3, n) is Err,
        Mp3Carrier::regions(c) matches Ok(list) ==> list.len() == 0,
        Mp3Carrier::stripped(c) matches Ok(out) ==> out == c,
{
    let flags = c[5];
    assert(flags >= 0x40 ==> flags as int / 128 % 2 == 1 || flags as int / 64 % 2 == 1);
    assert(!any_ours(Seq::empty()));
}

} // verus!
