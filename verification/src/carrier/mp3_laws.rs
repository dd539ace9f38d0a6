//! What hiding in an MP3 promises: the region can be found and read again, the song and its own
//! tag frames stay, and a later hide or strip undoes an earlier one.

use super::mp3::{
    any_ours, audio, followed_by, frame_at, frame_bytes, frame_size, frames_from, frames_of,
    from_synchsafe, kept, lemma_any_ours, lemma_frame_bytes_len, lemma_frames, lemma_kept,
    lemma_shape, new_body, our_regions, priv_header, priv_id, retagged, shape, synchsafe_bytes,
    synchsafe_round_trips, tag_header, tagged, total, version_of, within, FrameAt, Mp3Carrier,
    Shape, TagAt, MAX_TAG_BODY,
};
use super::{reads_back, Carrier, Region, Technique};
use crate::bytes::{be_bytes, lemma_be_bytes_len, lemma_be_round_trip, lemma_pow256};
use crate::error::Fault;
use crate::io::{clip, lemma_gather_one};
use vstd::prelude::*;

verus! {

/// Each of the frames is one that the file holds.
spec fn genuine(c: Seq<u8>, major: u8, end: int, list: Seq<FrameAt>) -> bool {
    &&& within(list, 0, c.len() as int)
    &&& forall|i: int|
        0 <= i < list.len() ==> frame_at(c, major, (#[trigger] list[i]).offset, end) == Ok::<
            Option<FrameAt>,
            Fault,
        >(Some(list[i]))
}

/// The frames back to back from `at` on.
spec fn moved(list: Seq<FrameAt>, at: int) -> Seq<FrameAt>
    decreases list.len(),
{
    if list.len() == 0 {
        Seq::empty()
    } else {
        let rest = list.drop_last();
        moved(rest, at).push(FrameAt { offset: at + total(rest), ..list.last() })
    }
}

/// A frame is what its bytes are, wherever it stands.
proof fn lemma_frame_moves(c: Seq<u8>, major: u8, end: int, f: FrameAt, out: Seq<u8>, at: int, to: int)
    requires
        frame_at(c, major, f.offset, end) == Ok::<Option<FrameAt>, Fault>(Some(f)),
        0 <= f.offset,
        f.total >= 10,
        f.end() <= c.len(),
        0 <= at,
        at + f.total <= to <= out.len(),
        out.subrange(at, at + f.total) == clip(c, f.offset, f.end()),
    ensures
        frame_at(out, major, at, to) == Ok::<Option<FrameAt>, Fault>(
            Some(FrameAt { offset: at, ..f }),
        ),
{
    let p = f.offset;
    let bytes = clip(c, p, f.end());
    assert forall|k: int| 0 <= k < f.total implies #[trigger] out[at + k] == c[p + k] by {
        assert(out.subrange(at, at + f.total)[k] == bytes[k]);
    }
    assert(out[at + 0] == c[p + 0] && out[at + 1] == c[p + 1]);
    assert(out[at + 2] == c[p + 2] && out[at + 3] == c[p + 3]);
    assert(out.subrange(at, at + 4) =~= c.subrange(p, p + 4));
    let theirs = out.subrange(at + 4, at + 8);
    let ours = c.subrange(p + 4, p + 8);
    assert forall|k: int| 0 <= k < 4 implies theirs[k] == ours[k] by {
        assert(out[at + (4 + k)] == c[p + (4 + k)]);
    }
    assert(theirs =~= ours);
    assert(out[at + 8] == c[p + 8] && out[at + 9] == c[p + 9]);
    if f.total > 10 {
        assert(out[at + 10] == c[p + 10]);
    }
}

proof fn lemma_moved_frames(
    c: Seq<u8>,
    major: u8,
    end: int,
    list: Seq<FrameAt>,
    out: Seq<u8>,
    at: int,
    to: int,
)
    requires
        genuine(c, major, end, list),
        0 <= at,
        at + total(list) <= to <= out.len(),
        out.subrange(at, at + total(list)) == frame_bytes(c, list),
    ensures
        frames_from(out, major, at, to) == followed_by(
            moved(list, at),
            frames_from(out, major, at + total(list), to),
        ),
    decreases list.len(),
{
    if list.len() == 0 {
        if let Ok(rest) = frames_from(out, major, at, to) {
            assert(moved(list, at) + rest =~= rest);
        }
    } else {
        let init = list.drop_last();
        let f = list.last();
        assert(f == list[list.len() - 1]);
        assert(forall|i: int| 0 <= i < init.len() ==> init[i] == list[i]);
        lemma_frame_bytes_len(c, init, c.len() as int);
        lemma_frame_bytes_len(c, list, c.len() as int);
        let p = at + total(init);
        let here = clip(c, f.offset, f.end());
        assert(out.subrange(at, p) =~= frame_bytes(c, init)) by {
            assert(out.subrange(at, p) =~= out.subrange(at, at + total(list)).take(total(init)));
            assert(frame_bytes(c, list).take(total(init)) =~= frame_bytes(c, init));
        }
        assert(out.subrange(p, p + f.total) =~= here) by {
            assert(out.subrange(p, p + f.total) =~= out.subrange(at, at + total(list)).skip(total(init)));
            assert(frame_bytes(c, list).skip(total(init)) =~= here);
        }
        lemma_moved_frames(c, major, end, init, out, at, to);
        lemma_frame_moves(c, major, end, f, out, p, to);
        let g = FrameAt { offset: p, ..f };
        if let Ok(rest) = frames_from(out, major, p + f.total, to) {
            assert(moved(init, at) + (seq![g] + rest) =~= moved(list, at) + rest);
        }
    }
}

/// Moving frames changes nothing but where they are.
proof fn lemma_moved(list: Seq<FrameAt>, at: int)
    requires
        forall|i: int| 0 <= i < list.len() ==> !(#[trigger] list[i]).ours,
    ensures
        moved(list, at).len() == list.len(),
        kept(moved(list, at)) == moved(list, at),
        total(moved(list, at)) == total(list),
        our_regions(moved(list, at)) == Seq::<Region>::empty(),
        !any_ours(moved(list, at)),
    decreases list.len(),
{
    if list.len() > 0 {
        let init = list.drop_last();
        assert(forall|i: int| 0 <= i < init.len() ==> init[i] == list[i]);
        lemma_moved(init, at);
        assert(moved(list, at).drop_last() =~= moved(init, at));
        assert(!list[list.len() - 1].ours);
        assert(kept(moved(list, at)) =~= moved(list, at));
        lemma_any_ours(moved(list, at));
    }
}

/// The bytes of the moved frames are those of the frames.
proof fn lemma_moved_bytes(c: Seq<u8>, list: Seq<FrameAt>, out: Seq<u8>, at: int)
    requires
        within(list, 0, c.len() as int),
        0 <= at,
        at + total(list) <= out.len(),
        out.subrange(at, at + total(list)) == frame_bytes(c, list),
    ensures
        frame_bytes(out, moved(list, at)) == frame_bytes(c, list),
    decreases list.len(),
{
    if list.len() > 0 {
        let init = list.drop_last();
        let f = list.last();
        assert(f == list[list.len() - 1]);
        assert(forall|i: int| 0 <= i < init.len() ==> init[i] == list[i]);
        lemma_frame_bytes_len(c, init, c.len() as int);
        lemma_frame_bytes_len(c, list, c.len() as int);
        let p = at + total(init);
        let here = clip(c, f.offset, f.end());
        assert(out.subrange(at, p) =~= frame_bytes(c, init)) by {
            assert(out.subrange(at, p) =~= out.subrange(at, at + total(list)).take(total(init)));
            assert(frame_bytes(c, list).take(total(init)) =~= frame_bytes(c, init));
        }
        assert(clip(out, p, p + f.total) =~= here) by {
            assert(clip(out, p, p + f.total) =~= out.subrange(at, at + total(list)).skip(total(init)));
            assert(frame_bytes(c, list).skip(total(init)) =~= here);
        }
        lemma_moved_bytes(c, init, out, at);
        assert(moved(list, at).drop_last() =~= moved(init, at));
    }
}

/// A tag header reads back as the tag it describes.
proof fn lemma_tag_parses(major: u8, body: nat, rest: Seq<u8>)
    requires
        major == 3 || major == 4,
        body <= MAX_TAG_BODY,
        body <= rest.len(),
    ensures
        ({
            let out = tag_header(major, body) + rest;
            &&& tag_header(major, body).len() == 10
            &&& frames_from(out, major, 10, 10 + body as int) matches Ok(frames) ==> shape(out) == Ok::<
                Shape,
                Fault,
            >(Shape { tag: TagAt::Supported { major, frames }, audio_start: 10 + body as int })
            &&& out.skip(10) == rest
        }),
{
    let head = tag_header(major, body);
    let out = head + rest;
    assert(out[0] == 0x49 && out[1] == 0x44 && out[2] == 0x33 && out[3] == major && out[5] == 0);
    assert(out.subrange(6, 10) =~= synchsafe_bytes(body));
    synchsafe_round_trips(body);
    assert(out.skip(10) =~= rest);
}

/// The frames of a file's tag are genuine, and so are those that are kept.
proof fn lemma_genuine(c: Seq<u8>)
    requires
        shape(c) is Ok,
    ensures
        ({
            let s = shape(c)->Ok_0;
            &&& version_of(s) == 3 || version_of(s) == 4
            &&& 0 <= s.audio_start <= c.len()
            &&& total(kept(frames_of(s))) >= 0
            &&& total(kept(frames_of(s))) <= MAX_TAG_BODY
            &&& frame_bytes(c, kept(frames_of(s))).len() == total(kept(frames_of(s)))
            &&& exists|end: int| #[trigger] genuine(c, version_of(s), end, kept(frames_of(s)))
            &&& forall|i: int|
                0 <= i < kept(frames_of(s)).len() ==> !(#[trigger] kept(frames_of(s))[i]).ours
        }),
{
    let s = shape(c)->Ok_0;
    let list = frames_of(s);
    let mine = kept(list);
    lemma_shape(c);
    lemma_kept(list, 10, s.audio_start);
    lemma_frame_bytes_len(c, mine, c.len() as int);
    let end: int = if tagged(c) {
        10 + from_synchsafe(c.subrange(6, 10))->Some_0 as int
    } else {
        10
    };
    if s.tag is Supported {
        lemma_frames(c, version_of(s), 10, end);
        assert forall|i: int| 0 <= i < mine.len() implies frame_at(
            c,
            version_of(s),
            (#[trigger] mine[i]).offset,
            end,
        ) == Ok::<Option<FrameAt>, Fault>(Some(mine[i])) by {
            let j = choose|j: int| 0 <= j < list.len() && list[j] == mine[i];
            assert(list[j] == mine[i]);
        }
    }
    assert(genuine(c, version_of(s), end, mine));
}

/// The structure of a song after a hide.
proof fn lemma_embedded_shape(c: Seq<u8>, region: Seq<u8>)
    requires
        Mp3Carrier::embedded_len(c, Technique::Mp3Id3, region.len()) is Ok,
        region.len() > 0,
    ensures
        ({
            let s = shape(c)->Ok_0;
            let mine = kept(frames_of(s));
            let body = new_body(s, region.len());
            let out = Mp3Carrier::embedded(c, Technique::Mp3Id3, region);
            let ours = FrameAt { offset: 10 + total(mine), total: 11 + region.len() as int, ours: true };
            &&& shape(out) is Ok
            &&& version_of(shape(out)->Ok_0) == version_of(s)
            &&& frames_of(shape(out)->Ok_0) == moved(mine, 10).push(ours)
            &&& shape(out)->Ok_0.audio_start == 10 + body
            &&& out.len() == 10 + body + audio(c, s).len()
            &&& out.subrange(10, 10 + total(mine)) == frame_bytes(c, mine)
            &&& audio(out, shape(out)->Ok_0) == audio(c, s)
            &&& clip(out, ours.offset + 11, ours.end()) == region
        }),
{
    let s = shape(c)->Ok_0;
    let major = version_of(s);
    let mine = kept(frames_of(s));
    let n = region.len();
    let body = new_body(s, n);
    let out = Mp3Carrier::embedded(c, Technique::Mp3Id3, region);
    let song = audio(c, s);
    lemma_genuine(c);
    let end = choose|end: int| #[trigger] genuine(c, major, end, mine);
    lemma_assembled(c, major, end, mine, region, song);
}

/// A tag of some genuine frames and a private one, with audio behind it.
#[verifier::rlimit(40)]
proof fn lemma_assembled(
    c: Seq<u8>,
    major: u8,
    end: int,
    mine: Seq<FrameAt>,
    region: Seq<u8>,
    song: Seq<u8>,
)
    requires
        major == 3 || major == 4,
        genuine(c, major, end, mine),
        total(mine) >= 0,
        frame_bytes(c, mine).len() == total(mine),
        region.len() > 0,
        total(mine) + 11 + region.len() <= MAX_TAG_BODY,
    ensures
        ({
            let n = region.len();
            let body = (total(mine) + 11 + n) as nat;
            let to = 10 + body as int;
            let out = tag_header(major, body) + frame_bytes(c, mine) + priv_header(major, n + 1)
                + region + song;
            let ours = FrameAt { offset: 10 + total(mine), total: 11 + n as int, ours: true };
            &&& shape(out) == Ok::<Shape, Fault>(
                Shape {
                    tag: TagAt::Supported { major, frames: moved(mine, 10).push(ours) },
                    audio_start: to,
                },
            )
            &&& out.len() == to + song.len()
            &&& out.subrange(10, 10 + total(mine)) == frame_bytes(c, mine)
            &&& clip(out, to, out.len() as int) == song
            &&& clip(out, ours.offset + 11, ours.end()) == region
        }),
{
    let n = region.len();
    let body = (total(mine) + 11 + n) as nat;
    let fb = frame_bytes(c, mine);
    let ph = priv_header(major, n + 1);
    let rest = fb + ph + region + song;
    let head = tag_header(major, body);
    let out = head + fb + ph + region + song;
    let at = 10 + total(mine);
    let to = 10 + body as int;
    let ours = FrameAt { offset: at, total: 11 + n as int, ours: true };
    lemma_priv_parses(head + fb, major, region, song);
    lemma_tag_parses(major, body, rest);
    lemma_five(head, fb, ph, region, song);
    assert(out.subrange(10, at) == fb);
    assert(frames_from(out, major, at, to) == Ok::<Seq<FrameAt>, Fault>(seq![ours]));
    lemma_moved_frames(c, major, end, mine, out, 10, to);
    assert(moved(mine, 10) + seq![ours] =~= moved(mine, 10).push(ours));
}

/// Five pieces in a row.
proof fn lemma_five(a: Seq<u8>, b: Seq<u8>, p: Seq<u8>, r: Seq<u8>, s: Seq<u8>)
    ensures
        ({
            let out = a + b + p + r + s;
            let x = (a.len() + b.len() + p.len() + r.len()) as int;
            &&& out == a + (b + p + r + s)
            &&& out.len() == x + s.len()
            &&& out.subrange(a.len() as int, (a.len() + b.len()) as int) == b
            &&& clip(out, x, out.len() as int) == s
        }),
{
    let out = a + b + p + r + s;
    let x = (a.len() + b.len() + p.len() + r.len()) as int;
    assert(out =~= a + (b + p + r + s));
    assert(out.subrange(a.len() as int, (a.len() + b.len()) as int) =~= b);
    assert(clip(out, x, out.len() as int) =~= s);
}

/// A private frame reads back as what it holds.
proof fn lemma_priv_parses(before: Seq<u8>, major: u8, region: Seq<u8>, after: Seq<u8>)
    requires
        0 < region.len() < MAX_TAG_BODY,
    ensures
        ({
            let n = region.len();
            let at = before.len() as int;
            let to = at + 11 + n;
            let out = before + priv_header(major, n + 1) + region + after;
            let ours = FrameAt { offset: at, total: 11 + n as int, ours: true };
            &&& priv_header(major, n + 1).len() == 11
            &&& frames_from(out, major, at, to) == Ok::<Seq<FrameAt>, Fault>(seq![ours])
            &&& clip(out, at + 11, to) == region
        }),
{
    let n = region.len();
    let at = before.len() as int;
    let to = at + 11 + n;
    let ph = priv_header(major, n + 1);
    let out = before + ph + region + after;
    let ours = FrameAt { offset: at, total: 11 + n as int, ours: true };
    lemma_be_bytes_len(n + 1, 4);
    lemma_pow256();
    assert(ph.len() == 11);
    assert(ph[0] == 0x50 && ph[1] == 0x52 && ph[2] == 0x49 && ph[3] == 0x56);
    assert(ph[8] == 0 && ph[9] == 0 && ph[10] == 0);
    assert(out[at + 0] == ph[0] && out[at + 1] == ph[1] && out[at + 2] == ph[2] && out[at + 3] == ph[3]);
    assert(out[at + 8] == 0 && out[at + 9] == 0 && out[at + 10] == 0);
    assert(out.subrange(at, at + 4) =~= priv_id());
    if major == 4 {
        assert(out.subrange(at + 4, at + 8) =~= synchsafe_bytes(n + 1));
        synchsafe_round_trips(n + 1);
    } else {
        assert(out.subrange(at + 4, at + 8) =~= be_bytes(n + 1, 4));
        lemma_be_round_trip(n + 1, 4);
    }
    assert(frame_size(out, major, at) == Some(n + 1));
    assert(frame_at(out, major, at, to) == Ok::<Option<FrameAt>, Fault>(Some(ours)));
    assert(frames_from(out, major, to, to) == Ok::<Seq<FrameAt>, Fault>(Seq::empty()));
    assert(seq![ours] + Seq::<FrameAt>::empty() =~= seq![ours]);
    assert(clip(out, at + 11, to) =~= region);
}

/// After a hide, the song holds exactly one region, and that is the one that was hidden.
pub proof fn mp3_region_reads_back(c: Seq<u8>, region: Seq<u8>)
    requires
        Mp3Carrier::embedded_len(c, Technique::Mp3Id3, region.len()) is Ok,
        region.len() > 0,
    ensures
        reads_back::<Mp3Carrier>(Mp3Carrier::embedded(c, Technique::Mp3Id3, region), region),
        Mp3Carrier::regions(Mp3Carrier::embedded(c, Technique::Mp3Id3, region))->Ok_0.len() == 1,
        Mp3Carrier::regions(Mp3Carrier::embedded(c, Technique::Mp3Id3, region))->Ok_0[0].technique
            == Technique::Mp3Id3,
{
    let s = shape(c)->Ok_0;
    let out = Mp3Carrier::embedded(c, Technique::Mp3Id3, region);
    let mine = kept(frames_of(s));
    lemma_embedded_shape(c, region);
    lemma_genuine(c);
    let ours = FrameAt { offset: 10 + total(mine), total: 11 + region.len() as int, ours: true };
    lemma_one_region(mine, ours);
    lemma_gather_one(out, ours.region().offset, ours.region().len);
}

proof fn lemma_one_region(mine: Seq<FrameAt>, ours: FrameAt)
    requires
        forall|i: int| 0 <= i < mine.len() ==> !(#[trigger] mine[i]).ours,
        ours.ours,
    ensures
        our_regions(moved(mine, 10).push(ours)) == seq![ours.region()],
{
    lemma_moved(mine, 10);
    let list = moved(mine, 10).push(ours);
    assert(list.drop_last() =~= moved(mine, 10));
    assert(our_regions(list) =~= seq![ours.region()]);
}

/// The audio is never touched: it stands behind the new tag, byte for byte.
pub proof fn mp3_audio_stays(c: Seq<u8>, region: Seq<u8>)
    requires
        Mp3Carrier::embedded_len(c, Technique::Mp3Id3, region.len()) is Ok,
        region.len() > 0,
    ensures
        ({
            let out = Mp3Carrier::embedded(c, Technique::Mp3Id3, region);
            audio(out, shape(out)->Ok_0) == audio(c, shape(c)->Ok_0)
        }),
{
    lemma_embedded_shape(c, region);
}

/// Stripping a song that something was hidden in leaves the song with a tag of its own frames, or
/// with no tag where it had none of its own. That is what stripping it before gives, too, if it held
/// something already.
pub proof fn mp3_strip_undoes_embed(c: Seq<u8>, region: Seq<u8>)
    requires
        Mp3Carrier::embedded_len(c, Technique::Mp3Id3, region.len()) is Ok,
        region.len() > 0,
    ensures
        Mp3Carrier::stripped(Mp3Carrier::embedded(c, Technique::Mp3Id3, region)) == Ok::<
            Seq<u8>,
            Fault,
        >(retagged(c, shape(c)->Ok_0)),
        any_ours(frames_of(shape(c)->Ok_0)) ==> Mp3Carrier::stripped(
            Mp3Carrier::embedded(c, Technique::Mp3Id3, region),
        ) == Mp3Carrier::stripped(c),
{
    let s = shape(c)->Ok_0;
    let out = Mp3Carrier::embedded(c, Technique::Mp3Id3, region);
    lemma_embedded_shape(c, region);
    lemma_rewritten(c, region);
    let list = frames_of(shape(out)->Ok_0);
    assert(list[list.len() - 1].ours);
    assert(any_ours(list));
}

/// The song's own frames survive a hide.
proof fn lemma_rewritten(c: Seq<u8>, region: Seq<u8>)
    requires
        Mp3Carrier::embedded_len(c, Technique::Mp3Id3, region.len()) is Ok,
        region.len() > 0,
    ensures
        ({
            let s = shape(c)->Ok_0;
            let mine = kept(frames_of(s));
            let out = Mp3Carrier::embedded(c, Technique::Mp3Id3, region);
            let mine2 = kept(frames_of(shape(out)->Ok_0));
            &&& mine2.len() == mine.len()
            &&& total(mine2) == total(mine)
            &&& frame_bytes(out, mine2) == frame_bytes(c, mine)
            &&& retagged(out, shape(out)->Ok_0) == retagged(c, s)
        }),
{
    let s = shape(c)->Ok_0;
    let out = Mp3Carrier::embedded(c, Technique::Mp3Id3, region);
    let mine = kept(frames_of(s));
    lemma_embedded_shape(c, region);
    lemma_genuine(c);
    lemma_moved(mine, 10);
    lemma_moved_bytes(c, mine, out, 10);
    let list = frames_of(shape(out)->Ok_0);
    assert(list.drop_last() =~= moved(mine, 10));
    assert(kept(list) == moved(mine, 10));
}

/// A song without a tag, or whose tag is exactly its frames under a plain header.
pub open spec fn tidy(c: Seq<u8>) -> bool {
    let s = shape(c)->Ok_0;
    let frames = frames_of(s);
    s.tag is Absent || (!any_ours(frames) && frames.len() > 0 && c.take(s.audio_start) == tag_header(
        version_of(s),
        total(frames) as nat,
    ) + frame_bytes(c, frames))
}

/// A song without a tag is restored to the byte, and so is one whose tag is exactly its frames under
/// a plain header.
pub proof fn mp3_strip_restores(c: Seq<u8>, region: Seq<u8>)
    requires
        Mp3Carrier::embedded_len(c, Technique::Mp3Id3, region.len()) is Ok,
        region.len() > 0,
        tidy(c),
    ensures
        Mp3Carrier::stripped(Mp3Carrier::embedded(c, Technique::Mp3Id3, region)) == Ok::<
            Seq<u8>,
            Fault,
        >(c),
{
    mp3_strip_undoes_embed(c, region);
    lemma_already_tidy(c);
}

proof fn lemma_already_tidy(c: Seq<u8>)
    requires
        shape(c) is Ok,
        tidy(c),
    ensures
        retagged(c, shape(c)->Ok_0) == c,
{
    let s = shape(c)->Ok_0;
    let start = s.audio_start;
    lemma_any_ours(frames_of(s));
    lemma_shape(c);
    assert(c.take(start) + clip(c, start, c.len() as int) =~= c);
    if s.tag is Absent {
        assert(kept(frames_of(s)).len() == 0);
        assert(start == 0) by {
            if tagged(c) {
                assert(false);
            }
        }
        assert(clip(c, 0, c.len() as int) =~= c);
    }
}

/// Hiding into a song that already holds something replaces it: the result is what hiding into the
/// original would have given.
pub proof fn mp3_rehiding_replaces(c: Seq<u8>, old_region: Seq<u8>, region: Seq<u8>)
    requires
        Mp3Carrier::embedded_len(c, Technique::Mp3Id3, old_region.len()) is Ok,
        old_region.len() > 0,
    ensures
        Mp3Carrier::embedded(
            Mp3Carrier::embedded(c, Technique::Mp3Id3, old_region),
            Technique::Mp3Id3,
            region,
        ) == Mp3Carrier::embedded(c, Technique::Mp3Id3, region),
        Mp3Carrier::embedded_len(
            Mp3Carrier::embedded(c, Technique::Mp3Id3, old_region),
            Technique::Mp3Id3,
            region.len(),
        ) == Mp3Carrier::embedded_len(c, Technique::Mp3Id3, region.len()),
{
    lemma_embedded_shape(c, old_region);
    lemma_rewritten(c, old_region);
}

/// A stripped song offers no place to look, unless all that its tag held was hidden data and a second
/// tag stood behind it.
pub proof fn mp3_stripped_is_clean(c: Seq<u8>)
    requires
        Mp3Carrier::stripped(c) is Ok,
        kept(frames_of(shape(c)->Ok_0)).len() > 0 || !tagged(audio(c, shape(c)->Ok_0)) || !any_ours(
            frames_of(shape(c)->Ok_0),
        ),
    ensures
        Mp3Carrier::regions(Mp3Carrier::stripped(c)->Ok_0) == Ok::<Seq<Region>, Fault>(Seq::empty()),
{
    let s = shape(c)->Ok_0;
    let list = frames_of(s);
    let out = Mp3Carrier::stripped(c)->Ok_0;
    lemma_any_ours(list);
    if !any_ours(list) {
        lemma_no_regions(list);
    } else {
        let mine = kept(list);
        lemma_genuine(c);
        if mine.len() > 0 {
            let major = version_of(s);
            let end = choose|end: int| #[trigger] genuine(c, major, end, mine);
            let fb = frame_bytes(c, mine);
            let rest = fb + audio(c, s);
            let to = 10 + total(mine);
            assert(out =~= tag_header(major, total(mine) as nat) + rest);
            lemma_tag_parses(major, total(mine) as nat, rest);
            assert(out.subrange(10, to) =~= fb);
            lemma_moved_frames(c, major, end, mine, out, 10, to);
            assert(frames_from(out, major, to, to) == Ok::<Seq<FrameAt>, Fault>(Seq::empty()));
            assert(moved(mine, 10) + Seq::<FrameAt>::empty() =~= moved(mine, 10));
            lemma_moved(mine, 10);
        } else {
            assert(out == audio(c, s));
        }
    }
}

proof fn lemma_no_regions(list: Seq<FrameAt>)
    requires
        !any_ours(list),
    ensures
        our_regions(list) == Seq::<Region>::empty(),
    decreases list.len(),
{
    if list.len() > 0 {
        let init = list.drop_last();
        assert(!list[list.len() - 1].ours);
        assert(forall|i: int| 0 <= i < init.len() ==> init[i] == list[i]);
        assert(!any_ours(init));
        lemma_no_regions(init);
    }
}


/// A song with something hidden in it begins with a tag of a supported version.
pub proof fn mp3_is_tagged(c: Seq<u8>, region: Seq<u8>)
    requires
        Mp3Carrier::embedded_len(c, Technique::Mp3Id3, region.len()) is Ok,
        region.len() > 0,
    ensures
        ({
            let out = Mp3Carrier::embedded(c, Technique::Mp3Id3, region);
            &&& out.len() >= 10
            &&& out[0] == 0x49 && out[1] == 0x44 && out[2] == 0x33
            &&& 2 <= out[3] <= 4
            &&& out[4] == 0
        }),
{
    lemma_shape(c);
}

} // verus!
