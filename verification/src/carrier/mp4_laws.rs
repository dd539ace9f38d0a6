//! What hiding in an MP4 promises: the region can be found and read again, the video stays, and a
//! later hide or strip undoes an earlier one.

use super::mp4::{
    box_at, boxes, boxes_from, end_of, followed_by, free_header, free_kind, kept_bytes,
    lemma_back_to_back, lemma_box_at, lemma_boxes_from, lemma_substance, overhead, padding_regions,
    substance, BoxAt, Mp4Carrier,
};
use super::{reads_back, Carrier, Region, Technique};
use crate::bytes::{be_bytes, be_number, lemma_be_bytes_len, lemma_be_round_trip, lemma_pow256};
use crate::error::Fault;
use crate::io::{clip, lemma_gather_one};
use vstd::prelude::*;

verus! {

/// A box that is not open-ended is the same in every file that agrees up to its end.
proof fn lemma_box_stays(c: Seq<u8>, pos: int, out: Seq<u8>, k: int)
    requires
        0 <= pos,
        box_at(c, pos) is Ok,
        !box_at(c, pos)->Ok_0.open_ended,
        box_at(c, pos)->Ok_0.end() <= k,
        k <= c.len(),
        k <= out.len(),
        out.take(k) == c.take(k),
    ensures
        box_at(out, pos) == box_at(c, pos),
{
    let b = box_at(c, pos)->Ok_0;
    assert forall|i: int, j: int| 0 <= i <= j <= k implies #[trigger] out.subrange(i, j)
        == c.subrange(i, j) by {
        assert(out.subrange(i, j) =~= out.take(k).subrange(i, j));
        assert(c.subrange(i, j) =~= c.take(k).subrange(i, j));
    }
    assert(out.subrange(pos, pos + 4) == c.subrange(pos, pos + 4));
    assert(out.subrange(pos + 4, pos + 8) == c.subrange(pos + 4, pos + 8));
    if b.header_len == 16 {
        assert(out.subrange(pos + 8, pos + 16) == c.subrange(pos + 8, pos + 16));
    }
}

/// The first `n` boxes of `c`, then whatever `out` holds behind them.
proof fn lemma_prefix_boxes(c: Seq<u8>, pos: int, n: nat, out: Seq<u8>, k: int)
    requires
        0 <= pos <= c.len(),
        boxes_from(c, pos) is Ok,
        n <= boxes_from(c, pos)->Ok_0.len(),
        k == (if n == 0 { pos } else { boxes_from(c, pos)->Ok_0[n - 1].end() }),
        forall|i: int| 0 <= i < n ==> !(#[trigger] boxes_from(c, pos)->Ok_0[i]).open_ended,
        k <= c.len(),
        k <= out.len(),
        out.take(k) == c.take(k),
    ensures
        pos <= k,
        boxes_from(out, pos) == followed_by(
            boxes_from(c, pos)->Ok_0.take(n as int),
            boxes_from(out, k),
        ),
    decreases n,
{
    let all = boxes_from(c, pos)->Ok_0;
    if n == 0 {
        assert(all.take(0) =~= Seq::<BoxAt>::empty());
        if let Ok(rest) = boxes_from(out, k) {
            assert(all.take(0) + rest =~= rest);
        }
    } else {
        assert(pos < c.len());
        let b = box_at(c, pos)->Ok_0;
        let rest = boxes_from(c, pos + b.total)->Ok_0;
        lemma_box_at(c, pos);
        assert(all =~= seq![b] + rest);
        assert(all[0] == b);
        assert(forall|i: int| 0 <= i < rest.len() ==> rest[i] == all[i + 1]);
        lemma_boxes_from(c, pos);
        lemma_back_to_back(all, pos, c.len() as int);
        lemma_prefix_boxes(c, pos + b.total, (n - 1) as nat, out, k);
        lemma_box_stays(c, pos, out, k);
        assert(all.take(n as int) =~= seq![b] + rest.take(n - 1));
        if let Ok(more) = boxes_from(out, k) {
            assert(seq![b] + (rest.take(n - 1) + more) =~= all.take(n as int) + more);
        }
    }
}

/// Only the last box can be open-ended.
proof fn lemma_open_is_last(c: Seq<u8>, pos: int, i: int)
    requires
        0 <= pos <= c.len(),
        boxes_from(c, pos) is Ok,
        0 <= i < boxes_from(c, pos)->Ok_0.len() - 1,
    ensures
        !boxes_from(c, pos)->Ok_0[i].open_ended,
    decreases c.len() - pos,
{
    let all = boxes_from(c, pos)->Ok_0;
    let b = box_at(c, pos)->Ok_0;
    let rest = boxes_from(c, pos + b.total)->Ok_0;
    lemma_box_at(c, pos);
    assert(all =~= seq![b] + rest);
    if i == 0 {
        assert(rest.len() > 0);
    } else {
        lemma_open_is_last(c, pos + b.total, i - 1);
        assert(all[i] == rest[i - 1]);
    }
}

/// The box that a hide appends.
spec fn new_box(at: int, n: nat) -> BoxAt {
    BoxAt {
        offset: at,
        header_len: overhead(n) as int,
        total: (overhead(n) + n) as int,
        kind: free_kind(),
        open_ended: false,
    }
}

/// A `free` header reads back as the box it describes.
proof fn lemma_header_parses(kept: Seq<u8>, region: Seq<u8>)
    requires
        region.len() + 16 <= u64::MAX,
    ensures
        ({
            let out = kept + free_header(region.len()) + region;
            let at = kept.len() as int;
            &&& free_header(region.len()).len() == overhead(region.len())
            &&& box_at(out, at) == Ok::<BoxAt, Fault>(new_box(at, region.len()))
            &&& boxes_from(out, at) == Ok::<Seq<BoxAt>, Fault>(seq![new_box(at, region.len())])
        }),
{
    let n = region.len();
    let head = free_header(n);
    let out = kept + head + region;
    let at = kept.len() as int;
    lemma_pow256();
    lemma_be_bytes_len(1, 4);
    lemma_be_bytes_len(n + 16, 8);
    lemma_be_bytes_len(n + 8, 4);
    if overhead(n) == 16 {
        lemma_be_round_trip(1, 4);
        lemma_be_round_trip(n + 16, 8);
        assert(out.subrange(at, at + 4) =~= be_bytes(1, 4));
        assert(out.subrange(at + 4, at + 8) =~= free_kind());
        assert(out.subrange(at + 8, at + 16) =~= be_bytes(n + 16, 8));
    } else {
        lemma_be_round_trip(n + 8, 4);
        assert(out.subrange(at, at + 4) =~= be_bytes(n + 8, 4));
        assert(out.subrange(at + 4, at + 8) =~= free_kind());
    }
    let b = new_box(at, n);
    assert(box_at(out, at) == Ok::<BoxAt, Fault>(b));
    assert(boxes_from(out, out.len() as int) == Ok::<Seq<BoxAt>, Fault>(Seq::empty()));
    assert(seq![b] + Seq::<BoxAt>::empty() =~= seq![b]);
}

/// A `free` box header of either form is read back as a box of exactly the body it was written for.
pub proof fn free_header_reads_back(before: Seq<u8>, body: Seq<u8>)
    requires
        body.len() + 16 <= u64::MAX,
    ensures
        box_at(before + free_header(body.len()) + body, before.len() as int) matches Ok(b) && b.is_padding()
            && !b.open_ended && b.total - b.header_len == body.len() && b.header_len == overhead(
            body.len(),
        ),
{
    lemma_header_parses(before, body);
}

proof fn lemma_substance_idem(list: Seq<BoxAt>)
    ensures
        substance(substance(list)) == substance(list),
        substance(list).len() > 0 ==> !substance(list).last().is_padding(),
    decreases list.len(),
{
    if list.len() > 0 && list.last().is_padding() {
        lemma_substance_idem(list.drop_last());
    }
}

/// The boxes of a file after a hide.
proof fn lemma_embedded_boxes(c: Seq<u8>, region: Seq<u8>)
    requires
        kept_bytes(c) is Ok,
        region.len() + 16 <= u64::MAX,
    ensures
        ({
            let list = substance(boxes(c)->Ok_0);
            let end = end_of(list);
            let out = Mp4Carrier::embedded(c, Technique::Mp4FreeBox, region);
            &&& 0 <= end <= c.len()
            &&& kept_bytes(c)->Ok_0 == c.take(end)
            &&& boxes(out) == Ok::<Seq<BoxAt>, Fault>(list.push(new_box(end, region.len())))
            &&& out.take(end) == c.take(end)
            &&& out.len() == end + overhead(region.len()) + region.len()
            &&& substance(boxes(out)->Ok_0) == list
        }),
{
    let all = boxes(c)->Ok_0;
    let list = substance(all);
    let end = end_of(list);
    let out = Mp4Carrier::embedded(c, Technique::Mp4FreeBox, region);
    lemma_boxes_from(c, 0);
    lemma_substance(all, 0, c.len() as int);
    lemma_back_to_back(all, 0, c.len() as int);
    let n = list.len();
    assert(list == all.take(n as int));
    if n > 0 {
        assert(list.last() == all[n - 1]);
    }
    let kept = kept_bytes(c)->Ok_0;
    assert(kept =~= c.take(end));
    assert(out.take(end) =~= c.take(end));
    lemma_header_parses(kept, region);
    assert forall|i: int| 0 <= i < n implies !(#[trigger] all[i]).open_ended by {
        if i < all.len() - 1 {
            lemma_open_is_last(c, 0, i);
        } else {
            assert(list.last() == all[i]);
        }
    }
    lemma_prefix_boxes(c, 0, n, out, end);
    let b = new_box(end, region.len());
    assert(list + seq![b] =~= list.push(b));
    assert(list.push(b).drop_last() =~= list);
    lemma_substance_idem(all);
    assert(b.is_padding());
}

/// After a hide, the first place to look holds exactly what was hidden.
pub proof fn mp4_region_reads_back(c: Seq<u8>, region: Seq<u8>)
    requires
        Mp4Carrier::embedded_len(c, Technique::Mp4FreeBox, region.len()) is Ok,
        Mp4Carrier::embedded(c, Technique::Mp4FreeBox, region).len() <= u64::MAX,
    ensures
        reads_back::<Mp4Carrier>(
            Mp4Carrier::embedded(c, Technique::Mp4FreeBox, region),
            region,
        ),
        Mp4Carrier::regions(Mp4Carrier::embedded(c, Technique::Mp4FreeBox, region))->Ok_0[0].technique
            == Technique::Mp4FreeBox,
{
    let out = Mp4Carrier::embedded(c, Technique::Mp4FreeBox, region);
    lemma_pow256();
    lemma_be_bytes_len(1, 4);
    lemma_be_bytes_len(region.len() + 16, 8);
    lemma_be_bytes_len(region.len() + 8, 4);
    if region.len() + 16 > u64::MAX {
        assert(out.len() >= region.len() + free_header(region.len()).len());
        assert(false);
    }
    lemma_embedded_boxes(c, region);
    let list = boxes(out)->Ok_0;
    let b = list.last();
    let r = padding_regions(list)[0];
    assert(r == b.region());
    lemma_gather_one(out, r.offset, r.len);
    assert(clip(out, b.offset + b.header_len, out.len() as int) =~= region);
}

/// Everything before the appended box is the carrier's own bytes, unmoved.
pub proof fn mp4_embed_only_appends(c: Seq<u8>, region: Seq<u8>)
    requires
        Mp4Carrier::embedded_len(c, Technique::Mp4FreeBox, region.len()) is Ok,
        region.len() + 16 <= u64::MAX,
    ensures
        ({
            let kept = Mp4Carrier::stripped(c)->Ok_0;
            let out = Mp4Carrier::embedded(c, Technique::Mp4FreeBox, region);
            &&& kept.len() <= c.len()
            &&& kept == c.take(kept.len() as int)
            &&& out.take(kept.len() as int) == kept
        }),
{
    lemma_embedded_boxes(c, region);
}

/// Stripping a video that something was hidden in gives what stripping it before would have given.
pub proof fn mp4_strip_undoes_embed(c: Seq<u8>, region: Seq<u8>)
    requires
        Mp4Carrier::embedded_len(c, Technique::Mp4FreeBox, region.len()) is Ok,
        region.len() + 16 <= u64::MAX,
    ensures
        Mp4Carrier::stripped(Mp4Carrier::embedded(c, Technique::Mp4FreeBox, region))
            == Mp4Carrier::stripped(c),
{
    let out = Mp4Carrier::embedded(c, Technique::Mp4FreeBox, region);
    lemma_embedded_boxes(c, region);
    let end = end_of(substance(boxes(c)->Ok_0));
    assert(clip(out, 0, end) =~= out.take(end));
}

/// A video that does not end in padding is restored to the byte.
pub proof fn mp4_strip_restores(c: Seq<u8>, region: Seq<u8>)
    requires
        Mp4Carrier::embedded_len(c, Technique::Mp4FreeBox, region.len()) is Ok,
        !boxes(c)->Ok_0.last().is_padding(),
        region.len() + 16 <= u64::MAX,
    ensures
        Mp4Carrier::stripped(Mp4Carrier::embedded(c, Technique::Mp4FreeBox, region)) == Ok::<
            Seq<u8>,
            Fault,
        >(c),
{
    mp4_strip_undoes_embed(c, region);
    lemma_boxes_from(c, 0);
    assert(kept_bytes(c)->Ok_0 =~= c);
}

/// Hiding into a video that already holds something replaces it: the result is what hiding into
/// the original would have given, so the file never grows from one hide to the next.
pub proof fn mp4_rehiding_replaces(c: Seq<u8>, old_region: Seq<u8>, region: Seq<u8>)
    requires
        Mp4Carrier::embedded_len(c, Technique::Mp4FreeBox, old_region.len()) is Ok,
        old_region.len() + 16 <= u64::MAX,
    ensures
        Mp4Carrier::embedded(
            Mp4Carrier::embedded(c, Technique::Mp4FreeBox, old_region),
            Technique::Mp4FreeBox,
            region,
        ) == Mp4Carrier::embedded(c, Technique::Mp4FreeBox, region),
        Mp4Carrier::embedded_len(
            Mp4Carrier::embedded(c, Technique::Mp4FreeBox, old_region),
            Technique::Mp4FreeBox,
            region.len(),
        ) == Mp4Carrier::embedded_len(c, Technique::Mp4FreeBox, region.len()),
{
    let held = Mp4Carrier::embedded(c, Technique::Mp4FreeBox, old_region);
    mp4_strip_undoes_embed(c, old_region);
    lemma_embedded_boxes(c, old_region);
    assert(kept_bytes(held) == kept_bytes(c));
}

/// A stripped video ends in no padding, so stripping it again changes nothing. One that held
/// nothing but padding is left empty, which is no video.
pub proof fn mp4_stripped_is_clean(c: Seq<u8>)
    requires
        Mp4Carrier::stripped(c) is Ok,
        Mp4Carrier::stripped(c)->Ok_0.len() > 0,
    ensures
        ({
            let out = Mp4Carrier::stripped(c)->Ok_0;
            &&& Mp4Carrier::stripped(out) == Ok::<Seq<u8>, Fault>(out)
            &&& !boxes(out)->Ok_0.last().is_padding()
        }),
{
    let all = boxes(c)->Ok_0;
    let list = substance(all);
    let n = list.len();
    let end = end_of(list);
    let out = Mp4Carrier::stripped(c)->Ok_0;
    lemma_boxes_from(c, 0);
    lemma_substance(all, 0, c.len() as int);
    lemma_back_to_back(all, 0, c.len() as int);
    assert(n > 0);
    assert(list.last() == all[n - 1]);
    assert(out =~= c.take(end));
    assert(out.take(end) =~= c.take(end));
    if list.last().open_ended {
        if n < all.len() {
            lemma_open_is_last(c, 0, n - 1);
        }
        assert(list =~= all);
        assert(out =~= c);
    } else {
        assert forall|i: int| 0 <= i < n implies !(#[trigger] all[i]).open_ended by {
            if i < all.len() - 1 {
                lemma_open_is_last(c, 0, i);
            } else {
                assert(list.last() == all[i]);
            }
        }
        lemma_prefix_boxes(c, 0, n, out, end);
        assert(boxes_from(out, end) == Ok::<Seq<BoxAt>, Fault>(Seq::empty()));
        assert(list + Seq::<BoxAt>::empty() =~= list);
    }
    lemma_substance_idem(all);
    assert(clip(out, 0, end) =~= out);
}

/// Stripping is never refused on account of how a video ends: one that does not end in padding is
/// copied as it is.
pub proof fn mp4_strip_copies(c: Seq<u8>)
    requires
        boxes(c) is Ok,
        !boxes(c)->Ok_0.last().is_padding(),
    ensures
        Mp4Carrier::stripped(c) == Ok::<Seq<u8>, Fault>(c),
{
    lemma_boxes_from(c, 0);
    assert(clip(c, 0, c.len() as int) =~= c);
}

// ---------------------------------------------------------------------------------------------
// Files given box by box

/// A box as it stands in a file.
pub ghost struct Piece {
    /// The four bytes of its 32-bit length.
    pub size: Seq<u8>,
    /// The four bytes of its type.
    pub kind: Seq<u8>,
    /// The eight bytes of its 64-bit length, or none.
    pub large: Seq<u8>,
    pub body: Seq<u8>,
}

impl Piece {
    pub open spec fn bytes(self) -> Seq<u8> {
        self.size + self.kind + self.large + self.body
    }

    /// Its length is written in four bytes.
    pub open spec fn short(self) -> bool {
        &&& self.size.len() == 4
        &&& self.kind.len() == 4
        &&& self.large.len() == 0
        &&& self.size[0] * 0x100_0000 + self.size[1] * 0x1_0000 + self.size[2] * 0x100 + self.size[3] == 8
            + self.body.len()
    }

    /// Its length is written in eight bytes behind the type, and the four are `0 0 0 1`.
    pub open spec fn wide(self) -> bool {
        &&& self.size == seq![0u8, 0, 0, 1]
        &&& self.kind.len() == 4
        &&& self.large.len() == 8
        &&& self.large[0] * 0x100_0000_0000_0000 + self.large[1] * 0x1_0000_0000_0000 + self.large[2]
            * 0x100_0000_0000 + self.large[3] * 0x1_0000_0000 + self.large[4] * 0x100_0000 + self.large[5]
            * 0x1_0000 + self.large[6] * 0x100 + self.large[7] == 16 + self.body.len()
    }

    /// Its length is not written: the four bytes are zero, and it runs to the end of the file.
    pub open spec fn unbounded(self) -> bool {
        &&& self.size == seq![0u8, 0, 0, 0]
        &&& self.kind.len() == 4
        &&& self.large.len() == 0
    }

    pub open spec fn valid(self) -> bool {
        self.short() || self.wide()
    }
}

/// Boxes back to back.
pub open spec fn file_of(pieces: Seq<Piece>) -> Seq<u8>
    decreases pieces.len(),
{
    if pieces.len() == 0 {
        Seq::empty()
    } else {
        file_of(pieces.drop_last()) + pieces.last().bytes()
    }
}

proof fn lemma_be4(b: Seq<u8>)
    requires
        b.len() == 4,
    ensures
        be_number(b) == b[0] * 0x100_0000 + b[1] * 0x1_0000 + b[2] * 0x100 + b[3],
{
    reveal_with_fuel(be_number, 5);
    let b3 = b.drop_last();
    let b2 = b3.drop_last();
    let b1 = b2.drop_last();
    assert(b3.last() == b[2] && b2.last() == b[1] && b1.last() == b[0]);
}

proof fn lemma_be8(b: Seq<u8>)
    requires
        b.len() == 8,
    ensures
        be_number(b) == b[0] * 0x100_0000_0000_0000 + b[1] * 0x1_0000_0000_0000 + b[2] * 0x100_0000_0000 + b[3]
            * 0x1_0000_0000 + b[4] * 0x100_0000 + b[5] * 0x1_0000 + b[6] * 0x100 + b[7],
{
    reveal_with_fuel(be_number, 9);
    let b7 = b.drop_last();
    let b6 = b7.drop_last();
    let b5 = b6.drop_last();
    let b4 = b5.drop_last();
    let b3 = b4.drop_last();
    let b2 = b3.drop_last();
    let b1 = b2.drop_last();
    assert(b7.last() == b[6] && b6.last() == b[5] && b5.last() == b[4] && b4.last() == b[3] && b3.last()
        == b[2] && b2.last() == b[1] && b1.last() == b[0]);
}

spec fn at_of(p: Piece, offset: int) -> BoxAt {
    BoxAt {
        offset,
        header_len: 8 + p.large.len() as int,
        total: p.bytes().len() as int,
        kind: p.kind,
        open_ended: p.unbounded(),
    }
}

/// A box is read as what it is made of.
proof fn lemma_piece_parses(before: Seq<u8>, p: Piece, after: Seq<u8>)
    requires
        p.valid() || (p.unbounded() && after.len() == 0),
    ensures
        box_at(before + p.bytes() + after, before.len() as int) == Ok::<BoxAt, Fault>(
            at_of(p, before.len() as int),
        ),
        p.valid() ==> !p.unbounded(),
{
    let c = before + p.bytes() + after;
    let at = before.len() as int;
    assert(c.subrange(at, at + 4) =~= p.size);
    assert(c.subrange(at + 4, at + 8) =~= p.kind);
    lemma_be4(p.size);
    if p.wide() {
        assert(c.subrange(at + 8, at + 16) =~= p.large);
        lemma_be8(p.large);
        assert(p.size[3] == 1);
    } else if p.unbounded() {
        assert(p.size[3] == 0);
    }
}

spec fn ats_of(pieces: Seq<Piece>) -> Seq<BoxAt>
    decreases pieces.len(),
{
    if pieces.len() == 0 {
        Seq::empty()
    } else {
        ats_of(pieces.drop_last()).push(
            at_of(pieces.last(), file_of(pieces.drop_last()).len() as int),
        )
    }
}

proof fn lemma_ats(pieces: Seq<Piece>)
    ensures
        ats_of(pieces).len() == pieces.len(),
        forall|i: int|
            0 <= i < pieces.len() ==> #[trigger] ats_of(pieces)[i] == at_of(
                pieces[i],
                file_of(pieces.take(i)).len() as int,
            ),
    decreases pieces.len(),
{
    if pieces.len() > 0 {
        let less = pieces.drop_last();
        lemma_ats(less);
        assert forall|i: int| 0 <= i < pieces.len() implies #[trigger] ats_of(pieces)[i] == at_of(
            pieces[i],
            file_of(pieces.take(i)).len() as int,
        ) by {
            if i < less.len() {
                assert(ats_of(pieces)[i] == ats_of(less)[i]);
                assert(less.take(i) =~= pieces.take(i));
            } else {
                assert(pieces.take(i) =~= less);
            }
        }
    }
}

/// Walking over given boxes finds them, and then whatever follows.
proof fn lemma_walk(pieces: Seq<Piece>, after: Seq<u8>)
    requires
        forall|i: int| 0 <= i < pieces.len() ==> (#[trigger] pieces[i]).valid(),
    ensures
        boxes_from(file_of(pieces) + after, 0) == followed_by(
            ats_of(pieces),
            boxes_from(file_of(pieces) + after, file_of(pieces).len() as int),
        ),
    decreases pieces.len(),
{
    let c = file_of(pieces) + after;
    if pieces.len() == 0 {
        if let Ok(rest) = boxes_from(c, 0) {
            assert(ats_of(pieces) + rest =~= rest);
        }
    } else {
        let less = pieces.drop_last();
        let p = pieces[pieces.len() - 1];
        assert(forall|i: int| 0 <= i < less.len() ==> less[i] == pieces[i]);
        assert(c =~= file_of(less) + (p.bytes() + after));
        assert(c =~= file_of(less) + p.bytes() + after);
        lemma_walk(less, p.bytes() + after);
        lemma_piece_parses(file_of(less), p, after);
        let at = file_of(less).len() as int;
        let b = at_of(p, at);
        assert(p.bytes().len() >= 8);
        if let Ok(rest) = boxes_from(c, at + b.total) {
            assert(ats_of(less) + (seq![b] + rest) =~= ats_of(pieces) + rest);
        }
    }
}

proof fn lemma_walk_all(pieces: Seq<Piece>)
    requires
        pieces.len() > 0,
        forall|i: int| 0 <= i < pieces.len() - 1 ==> (#[trigger] pieces[i]).valid(),
        pieces.last().valid() || pieces.last().unbounded(),
    ensures
        boxes(file_of(pieces)) == Ok::<Seq<BoxAt>, Fault>(ats_of(pieces)),
{
    let less = pieces.drop_last();
    let p = pieces.last();
    let c = file_of(pieces);
    let none = Seq::<u8>::empty();
    assert(forall|i: int| 0 <= i < less.len() ==> less[i] == pieces[i]);
    lemma_walk(less, p.bytes());
    lemma_piece_parses(file_of(less), p, none);
    assert(c =~= file_of(less) + p.bytes() + none);
    let at = file_of(less).len() as int;
    let b = at_of(p, at);
    assert(p.bytes().len() >= 8);
    assert(boxes_from(c, at + b.total) == Ok::<Seq<BoxAt>, Fault>(Seq::empty()));
    assert(seq![b] + Seq::<BoxAt>::empty() =~= seq![b]);
    assert(ats_of(less) + seq![b] =~= ats_of(pieces));
    lemma_ats(pieces);
}

/// A type is padding if it is `free` or `skip`, and only then.
proof fn lemma_padding_kinds(p: Piece, offset: int)
    ensures
        at_of(p, offset).is_padding() == (p.kind == seq![0x66u8, 0x72, 0x65, 0x65] || p.kind == seq![
            0x73u8,
            0x6b,
            0x69,
            0x70,
        ]),
{
}

proof fn lemma_substance_of(kept: Seq<Piece>, pads: Seq<Piece>)
    requires
        forall|i: int|
            0 <= i < pads.len() ==> (#[trigger] pads[i]).kind == seq![0x66u8, 0x72, 0x65, 0x65] || pads[i].kind
                == seq![0x73u8, 0x6b, 0x69, 0x70],
        kept.len() > 0 ==> kept.last().kind != seq![0x66u8, 0x72, 0x65, 0x65] && kept.last().kind != seq![
            0x73u8,
            0x6b,
            0x69,
            0x70,
        ],
    ensures
        substance(ats_of(kept + pads)) == ats_of(kept),
    decreases pads.len(),
{
    let all = kept + pads;
    if pads.len() == 0 {
        assert(all =~= kept);
        if kept.len() > 0 {
            lemma_padding_kinds(kept.last(), file_of(kept.drop_last()).len() as int);
        }
    } else {
        let less = pads.drop_last();
        assert(all.drop_last() =~= kept + less);
        assert(all.last() == pads[pads.len() - 1]);
        assert(forall|i: int| 0 <= i < less.len() ==> less[i] == pads[i]);
        lemma_padding_kinds(all.last(), file_of(kept + less).len() as int);
        assert(ats_of(all).drop_last() =~= ats_of(kept + less));
        lemma_substance_of(kept, less);
    }
}

proof fn lemma_file_concat(a: Seq<Piece>, b: Seq<Piece>)
    ensures
        file_of(a + b) == file_of(a) + file_of(b),
    decreases b.len(),
{
    if b.len() == 0 {
        assert(a + b =~= a);
        assert(file_of(a) + file_of(b) =~= file_of(a));
    } else {
        let less = b.drop_last();
        assert((a + b).drop_last() =~= a + less);
        assert((a + b).last() == b.last());
        lemma_file_concat(a, less);
        assert(file_of(a + b) =~= file_of(a) + file_of(b));
    }
}

proof fn lemma_end_of(kept: Seq<Piece>)
    ensures
        end_of(ats_of(kept)) == file_of(kept).len(),
{
    lemma_ats(kept);
    if kept.len() > 0 {
        let last = ats_of(kept).last();
        assert(last == at_of(kept.last(), file_of(kept.drop_last()).len() as int));
    }
}

/// Hiding keeps every box up to the last one that is neither `free` nor `skip`, to the byte, and puts one
/// `free` box with the region behind them. Its length is written in four bytes if it fits there, and in
/// eight otherwise.
pub proof fn mp4_boxes_stay(kept: Seq<Piece>, pads: Seq<Piece>, new: Piece)
    requires
        kept.len() + pads.len() > 0,
        forall|i: int| 0 <= i < kept.len() ==> (#[trigger] kept[i]).valid(),
        forall|i: int|
            0 <= i < pads.len() ==> (#[trigger] pads[i]).kind == seq![0x66u8, 0x72, 0x65, 0x65] || pads[i].kind
                == seq![0x73u8, 0x6b, 0x69, 0x70],
        forall|i: int|
            0 <= i < pads.len() ==> (#[trigger] pads[i]).valid() || (pads[i].unbounded() && i == pads.len() - 1),
        kept.len() > 0 ==> kept.last().kind != seq![0x66u8, 0x72, 0x65, 0x65] && kept.last().kind != seq![
            0x73u8,
            0x6b,
            0x69,
            0x70,
        ],
        new.kind == seq![0x66u8, 0x72, 0x65, 0x65],
        if new.body.len() + 8 < 0x1_0000_0000 {
            new.short()
        } else {
            new.wide()
        },
    ensures
        Mp4Carrier::embedded(file_of(kept) + file_of(pads), Technique::Mp4FreeBox, new.body) == file_of(kept)
            + new.bytes(),
        Mp4Carrier::embedded_len(file_of(kept) + file_of(pads), Technique::Mp4FreeBox, new.body.len()) == Ok::<
            nat,
            Fault,
        >((file_of(kept) + new.bytes()).len()),
        Mp4Carrier::stripped(file_of(kept) + file_of(pads)) == Ok::<Seq<u8>, Fault>(file_of(kept)),
{
    let all = kept + pads;
    let c = file_of(kept) + file_of(pads);
    lemma_file_concat(kept, pads);
    assert forall|i: int| 0 <= i < all.len() - 1 implies (#[trigger] all[i]).valid() by {
        if i < kept.len() {
            assert(all[i] == kept[i]);
        } else {
            assert(all[i] == pads[i - kept.len()]);
        }
    }
    if pads.len() > 0 {
        assert(all.last() == pads[pads.len() - 1]);
    } else {
        assert(all.last() == kept[kept.len() - 1]);
    }
    lemma_walk_all(all);
    lemma_substance_of(kept, pads);
    lemma_end_of(kept);
    lemma_ats(kept);
    if kept.len() > 0 {
        assert(kept[kept.len() - 1].valid());
        lemma_piece_parses(Seq::empty(), kept.last(), Seq::empty());
        assert(!ats_of(kept).last().open_ended);
    }
    let end = file_of(kept).len() as int;
    assert(clip(c, 0, end) =~= file_of(kept));
    lemma_new_header(new);
}

proof fn lemma_new_header(new: Piece)
    requires
        new.kind == seq![0x66u8, 0x72, 0x65, 0x65],
        if new.body.len() + 8 < 0x1_0000_0000 {
            new.short()
        } else {
            new.wide()
        },
    ensures
        free_header(new.body.len()) == new.size + new.kind + new.large,
        overhead(new.body.len()) == 8 + new.large.len(),
        forall|kept: Seq<u8>|
            kept + free_header(new.body.len()) + new.body == #[trigger] (kept + new.bytes()),
{
    let n = new.body.len();
    lemma_be4(new.size);
    crate::bytes::lemma_be_canonical(new.size);
    if n + 8 >= 0x1_0000_0000 {
        lemma_be8(new.large);
        crate::bytes::lemma_be_canonical(new.large);
        assert(new.size[3] == 1);
    }
    assert(free_header(n) =~= new.size + new.kind + new.large);
    assert forall|kept: Seq<u8>| kept + free_header(n) + new.body == #[trigger] (kept + new.bytes()) by {
        assert(kept + free_header(n) + new.body =~= kept + new.bytes());
    }
}

/// A video whose last box is neither `free` nor `skip` is the beginning of what hiding makes of it, whole,
/// and stripping it changes nothing.
pub proof fn mp4_video_stays_whole(pieces: Seq<Piece>, new: Piece)
    requires
        pieces.len() > 0,
        forall|i: int| 0 <= i < pieces.len() ==> (#[trigger] pieces[i]).valid(),
        pieces.last().kind != seq![0x66u8, 0x72, 0x65, 0x65],
        pieces.last().kind != seq![0x73u8, 0x6b, 0x69, 0x70],
        new.kind == seq![0x66u8, 0x72, 0x65, 0x65],
        if new.body.len() + 8 < 0x1_0000_0000 {
            new.short()
        } else {
            new.wide()
        },
    ensures
        Mp4Carrier::embedded(file_of(pieces), Technique::Mp4FreeBox, new.body) == file_of(pieces) + new.bytes(),
        Mp4Carrier::stripped(file_of(pieces)) == Ok::<Seq<u8>, Fault>(file_of(pieces)),
{
    let none = Seq::<Piece>::empty();
    mp4_boxes_stay(pieces, none, new);
    assert(file_of(pieces) + file_of(none) =~= file_of(pieces));
}

/// A video that ends in a box without a length is not hidden in, for it would swallow the new box.
/// Stripping leaves it as it is, unless that box is padding.
pub proof fn mp4_open_end_is_refused(kept: Seq<Piece>, last: Piece, n: nat)
    requires
        forall|i: int| 0 <= i < kept.len() ==> (#[trigger] kept[i]).valid(),
        last.unbounded(),
        last.kind != seq![0x66u8, 0x72, 0x65, 0x65],
        last.kind != seq![0x73u8, 0x6b, 0x69, 0x70],
    ensures
        Mp4Carrier::embedded_len(file_of(kept) + last.bytes(), Technique::Mp4FreeBox, n) == Err::<nat, Fault>(
            Fault::MalformedContainer {
                format: "MP4"@,
                detail: "file ends in an open-ended box (size 0); re-mux it before hiding"@,
            },
        ),
        Mp4Carrier::stripped(file_of(kept) + last.bytes()) == Ok::<Seq<u8>, Fault>(
            file_of(kept) + last.bytes(),
        ),
{
    let all = kept.push(last);
    assert(all.drop_last() =~= kept);
    assert(all + Seq::<Piece>::empty() =~= all);
    lemma_walk_all(all);
    lemma_substance_of(all, Seq::empty());
    lemma_end_of(all);
    lemma_ats(all);
    let c = file_of(all);
    assert(clip(c, 0, c.len() as int) =~= c);
}

/// Where to look in a video: in the body of every `free` or `skip` box and nowhere else, the last in the
/// file first.
pub proof fn mp4_places_to_look(pieces: Seq<Piece>)
    requires
        pieces.len() > 0,
        forall|i: int| 0 <= i < pieces.len() ==> (#[trigger] pieces[i]).valid(),
        file_of(pieces).len() <= u64::MAX,
    ensures
        Mp4Carrier::regions(file_of(pieces)) matches Ok(list) && {
            &&& forall|j: int| 0 <= j < list.len() ==> looks_into_some(#[trigger] list[j], pieces)
            &&& forall|i: int|
                0 <= i < pieces.len() && ((#[trigger] pieces[i]).kind == seq![0x66u8, 0x72, 0x65, 0x65]
                    || pieces[i].kind == seq![0x73u8, 0x6b, 0x69, 0x70]) ==> some_looks_into(list, pieces, i)
            &&& forall|j: int, k: int|
                0 <= j < k < list.len() ==> (#[trigger] list[j]).offset > (#[trigger] list[k]).offset
            &&& forall|j: int|
                0 <= j < list.len() ==> (#[trigger] list[j]).technique == Technique::Mp4FreeBox
        },
{
    lemma_walk_all(pieces);
    lemma_padding_order(pieces);
    let at = ats_of(pieces);
    lemma_padding_list(at);
    lemma_ats(pieces);
    let list = padding_regions(at);
    assert forall|j: int| 0 <= j < list.len() implies looks_into_some(#[trigger] list[j], pieces)
        && list[j].technique == Technique::Mp4FreeBox by {
        assert(comes_from(list[j], at));
        let i = choose|i: int| 0 <= i < at.len() && (#[trigger] at[i]).is_padding() && at[i].region() == list[j];
        lemma_padding_kinds(pieces[i], at[i].offset);
        lemma_looks_into(pieces, i);
        assert(looks_into(list[j], pieces, i));
    }
    assert forall|i: int|
        0 <= i < pieces.len() && ((#[trigger] pieces[i]).kind == seq![0x66u8, 0x72, 0x65, 0x65]
            || pieces[i].kind == seq![0x73u8, 0x6b, 0x69, 0x70]) implies some_looks_into(list, pieces, i) by {
        lemma_padding_kinds(pieces[i], at[i].offset);
        lemma_looks_into(pieces, i);
        assert(at[i].is_padding());
        let j = choose|j: int| 0 <= j < list.len() && list[j] == at[i].region();
        assert(looks_into(list[j], pieces, i));
    }
}

/// `r` is the body of the `i`th box, which is `free` or `skip`.
pub open spec fn looks_into(r: Region, pieces: Seq<Piece>, i: int) -> bool {
    &&& pieces[i].kind == seq![0x66u8, 0x72, 0x65, 0x65] || pieces[i].kind == seq![0x73u8, 0x6b, 0x69, 0x70]
    &&& r.offset == file_of(pieces.take(i)).len() + 8 + pieces[i].large.len()
    &&& r.len == pieces[i].body.len()
    &&& Mp4Carrier::region_bytes(file_of(pieces), r) == Ok::<Seq<u8>, Fault>(pieces[i].body)
}

/// `r` is the body of one of the boxes that are `free` or `skip`.
pub open spec fn looks_into_some(r: Region, pieces: Seq<Piece>) -> bool {
    exists|i: int| 0 <= i < pieces.len() && #[trigger] looks_into(r, pieces, i)
}

/// One of the places is the body of the `i`th box.
pub open spec fn some_looks_into(list: Seq<Region>, pieces: Seq<Piece>, i: int) -> bool {
    exists|j: int| 0 <= j < list.len() && looks_into(#[trigger] list[j], pieces, i)
}

proof fn lemma_file_grows(pieces: Seq<Piece>, i: int)
    requires
        0 <= i < pieces.len(),
    ensures
        file_of(pieces) == file_of(pieces.take(i)) + pieces[i].bytes() + file_of(pieces.skip(i + 1)),
{
    assert(pieces =~= pieces.take(i) + pieces.skip(i));
    lemma_file_concat(pieces.take(i), pieces.skip(i));
    let one = seq![pieces[i]];
    assert(pieces.skip(i) =~= one + pieces.skip(i + 1));
    lemma_file_concat(one, pieces.skip(i + 1));
    assert(one.drop_last() =~= Seq::<Piece>::empty());
    assert(one.last() == pieces[i]);
    reveal_with_fuel(file_of, 2);
    assert(file_of(one) =~= pieces[i].bytes());
    assert(file_of(pieces) =~= file_of(pieces.take(i)) + pieces[i].bytes() + file_of(pieces.skip(i + 1)));
}

proof fn lemma_looks_into(pieces: Seq<Piece>, i: int)
    requires
        0 <= i < pieces.len(),
        pieces[i].valid(),
        file_of(pieces).len() <= u64::MAX,
        pieces[i].kind == seq![0x66u8, 0x72, 0x65, 0x65] || pieces[i].kind == seq![0x73u8, 0x6b, 0x69, 0x70],
    ensures
        looks_into(ats_of(pieces)[i].region(), pieces, i),
{
    let c = file_of(pieces);
    let p = pieces[i];
    let before = file_of(pieces.take(i));
    lemma_ats(pieces);
    lemma_file_grows(pieces, i);
    let r = ats_of(pieces)[i].region();
    assert(r.offset == before.len() + 8 + p.large.len());
    assert(r.len == p.body.len());
    lemma_gather_one(c, r.offset, r.len);
    assert(clip(c, r.offset as int, r.offset + r.len) =~= p.body);
}

/// What the places to look are, of any boxes.
proof fn lemma_padding_list(list: Seq<BoxAt>)
    ensures
        ({
            let out = padding_regions(list);
            &&& forall|j: int| 0 <= j < out.len() ==> comes_from(#[trigger] out[j], list)
            &&& forall|i: int|
                0 <= i < list.len() && (#[trigger] list[i]).is_padding() ==> out.contains(list[i].region())
        }),
    decreases list.len(),
{
    if list.len() > 0 {
        let less = list.drop_last();
        let b = list.last();
        let out = padding_regions(list);
        let rest = padding_regions(less);
        lemma_padding_list(less);
        assert forall|r: Region| #[trigger] comes_from(r, less) implies comes_from(r, list) by {
            let i = choose|i: int| 0 <= i < less.len() && (#[trigger] less[i]).is_padding() && less[i].region() == r;
            assert(list[i] == less[i]);
        }
        let d: int = if b.is_padding() {
            1
        } else {
            0
        };
        assert(forall|j: int| 0 <= j < rest.len() ==> out[j + d] == rest[j]);
        assert forall|j: int| 0 <= j < out.len() implies comes_from(#[trigger] out[j], list) by {
            if j < d {
                assert(list[list.len() - 1].is_padding() && list[list.len() - 1].region() == out[j]);
            } else {
                assert(out[j] == rest[j - d]);
                assert(comes_from(rest[j - d], less));
            }
        }
        assert forall|i: int| 0 <= i < list.len() && (#[trigger] list[i]).is_padding() implies out.contains(
            list[i].region(),
        ) by {
            if i < less.len() {
                assert(less[i] == list[i]);
                let j = choose|j: int| 0 <= j < rest.len() && rest[j] == list[i].region();
                assert(out[j + d] == list[i].region());
            } else {
                assert(out[0] == b.region());
            }
        }
    }
}

/// `r` is the body of a padding box.
spec fn comes_from(r: Region, list: Seq<BoxAt>) -> bool {
    exists|i: int| 0 <= i < list.len() && (#[trigger] list[i]).is_padding() && list[i].region() == r
}

/// The places to look go down from the end of the boxes.
proof fn lemma_padding_order(pieces: Seq<Piece>)
    requires
        forall|i: int| 0 <= i < pieces.len() ==> (#[trigger] pieces[i]).valid(),
        file_of(pieces).len() <= u64::MAX,
    ensures
        ({
            let out = padding_regions(ats_of(pieces));
            &&& forall|j: int| 0 <= j < out.len() ==> (#[trigger] out[j]).offset <= file_of(pieces).len()
            &&& forall|j: int, k: int|
                0 <= j < k < out.len() ==> (#[trigger] out[j]).offset > (#[trigger] out[k]).offset
        }),
    decreases pieces.len(),
{
    if pieces.len() > 0 {
        let less = pieces.drop_last();
        let p = pieces[pieces.len() - 1];
        let out = padding_regions(ats_of(pieces));
        let rest = padding_regions(ats_of(less));
        assert(forall|i: int| 0 <= i < less.len() ==> less[i] == pieces[i]);
        lemma_padding_order(less);
        assert(ats_of(pieces).drop_last() =~= ats_of(less));
        let b = ats_of(pieces).last();
        let d: int = if b.is_padding() {
            1
        } else {
            0
        };
        assert(b.is_padding() ==> out =~= seq![b.region()] + rest);
        assert(forall|j: int| 0 <= j < rest.len() ==> out[j + d] == rest[j]);
        assert(b.region().offset == file_of(less).len() + 8 + p.large.len());
        assert forall|j: int, k: int| 0 <= j < k < out.len() implies (#[trigger] out[j]).offset > (
        #[trigger] out[k]).offset by {
            assert(out[k] == rest[k - d]);
            if j >= d {
                assert(out[j] == rest[j - d]);
            }
        }
        assert forall|j: int| 0 <= j < out.len() implies (#[trigger] out[j]).offset <= file_of(pieces).len() by {
            if j >= d {
                assert(out[j] == rest[j - d]);
            }
        }
    }
}

} // verus!
