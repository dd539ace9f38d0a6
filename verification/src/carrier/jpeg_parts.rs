//! JPEGs given part by part: what hiding, stripping and looking do to pictures made of markers, segments
//! and scans, and to pictures that stand back to back.

use super::jpeg::{
    app15_segment, be16, chain, framed, image, kept, lemma_kept, lemma_marker_at, lemma_scan_end,
    lemma_skip_ff, marker_at, no_facts, noted, payload_parts, scan_end, seg_sum, shape,
    shape_regions, shut, skip_ff, walk, without, Facts, JpegCarrier, Seg, M_SOS,
};
use super::jpeg_laws::{
    copied, lemma_header_only, lemma_marker_shift, lemma_scan_shift, lemma_walk_end, lemma_walk_shift,
    lemma_without_tail,
};
use super::{Carrier, Region, Technique};
use crate::error::Fault;
use crate::io::{clip, gathered, lemma_gather_one};
use vstd::prelude::*;

verus! {

// ---------------------------------------------------------------------------------------------
// Images back to back

/// What is collected of a header does not decide what is an image.
proof fn lemma_walk_same(c: Seq<u8>, m: u8, p: int, f: Facts, g: Facts)
    requires
        2 <= p <= c.len(),
    ensures
        walk(c, m, p, f, false) is Ok == walk(c, m, p, g, false) is Ok,
        walk(c, m, p, f, false) is Ok ==> walk(c, m, p, f, false)->Ok_0.0 == walk(c, m, p, g, false)->Ok_0.0,
    decreases c.len() - p,
{
    lemma_marker_at(c, p);
    if m == 0xD9 || m == 0xD8 {
    } else if m == 0x01 || 0xD0 <= m <= 0xD7 {
        if let Ok((m2, p2)) = marker_at(c, p) {
            lemma_walk_same(c, m2, p2, f, g);
        }
    } else if p + 2 <= c.len() && be16(c, p) >= 2 {
        let body = be16(c, p) - 2;
        let end = p + 2 + body;
        if end <= c.len() {
            let f2 = noted(c, f, m, p - 2, body);
            let g2 = noted(c, g, m, p - 2, body);
            lemma_marker_at(c, end);
            lemma_scan_end(c, end);
            if m == M_SOS {
                if let Ok((m2, p2)) = scan_end(c, end) {
                    lemma_walk_same(c, m2, p2, shut(f2), shut(g2));
                }
            } else if let Ok((m2, p2)) = marker_at(c, end) {
                lemma_walk_same(c, m2, p2, f2, g2);
            }
        }
    }
}

/// Whether header facts are collected, and what they are, does not decide what is an image or where it
/// ends.
pub proof fn jpeg_images_are_images(c: Seq<u8>, start: int, f: Facts, g: Facts)
    requires
        0 <= start,
    ensures
        image(c, start, f, false) is Ok == image(c, start, g, false) is Ok,
        image(c, start, f, false) is Ok ==> image(c, start, f, false)->Ok_0.0 == image(
            c,
            start,
            g,
            false,
        )->Ok_0.0,
{
    lemma_marker_at(c, start + 2);
    if let Ok((m, p)) = marker_at(c, start + 2) {
        lemma_walk_same(c, m, p, f, g);
    }
}

/// What stands behind an image makes no difference to it.
proof fn lemma_walk_more(c: Seq<u8>, m: u8, p: int, f: Facts, x: Seq<u8>)
    requires
        2 <= p <= c.len(),
        walk(c, m, p, f, false) is Ok,
    ensures
        walk(c + x, m, p, f, false) == walk(c, m, p, f, false),
    decreases c.len() - p,
{
    let a = c + x;
    lemma_marker_at(c, p);
    if m == 0xD9 {
    } else if m == 0x01 || 0xD0 <= m <= 0xD7 {
        let (m2, p2) = marker_at(c, p)->Ok_0;
        lemma_marker_shift(c, p, a, p);
        lemma_walk_more(c, m2, p2, f, x);
    } else {
        let body = be16(c, p) - 2;
        let end = p + 2 + body;
        let g = noted(c, f, m, p - 2, body);
        assert(be16(a, p) == be16(c, p));
        if body >= 6 {
            assert(a.subrange(p - 2 + 4, p - 2 + 10) =~= c.subrange(p - 2 + 4, p - 2 + 10));
        }
        assert(noted(a, f, m, p - 2, body) == g);
        lemma_marker_at(c, end);
        lemma_scan_end(c, end);
        if m == M_SOS {
            let (m2, p2) = scan_end(c, end)->Ok_0;
            lemma_scan_shift(c, end, a, end);
            lemma_walk_more(c, m2, p2, shut(g), x);
        } else {
            let (m2, p2) = marker_at(c, end)->Ok_0;
            lemma_marker_shift(c, end, a, end);
            lemma_walk_more(c, m2, p2, g, x);
        }
    }
}

proof fn lemma_image_more(c: Seq<u8>, f: Facts, x: Seq<u8>)
    requires
        image(c, 0, f, false) is Ok,
    ensures
        image(c + x, 0, f, false) == image(c, 0, f, false),
{
    lemma_marker_at(c, 2);
    let (m, p) = marker_at(c, 2)->Ok_0;
    lemma_marker_shift(c, 2, c + x, 2);
    lemma_walk_more(c, m, p, f, x);
}

proof fn lemma_copied_inside(before: Seq<u8>, s: Seq<u8>, after: Seq<u8>, from: int, to: int)
    requires
        0 <= from <= to <= s.len(),
    ensures
        copied(s, from, to, before + s + after, before.len() + from),
{
}

/// An image is one wherever it stands.
proof fn lemma_image_moved(before: Seq<u8>, s: Seq<u8>, after: Seq<u8>)
    requires
        image(s, 0, no_facts(), false) is Ok,
    ensures
        image(before + s + after, before.len() as int, shut(no_facts()), false) is Ok,
        image(before + s + after, before.len() as int, shut(no_facts()), false)->Ok_0.0 == before.len() + image(
            s,
            0,
            no_facts(),
            false,
        )->Ok_0.0,
{
    let c = before + s + after;
    let at = before.len() as int;
    let f = shut(no_facts());
    jpeg_images_are_images(s, 0, no_facts(), f);
    lemma_marker_at(s, 2);
    let (m, p) = marker_at(s, 2)->Ok_0;
    lemma_walk_end(s, m, p, f);
    assert(c[at] == s[0] && c[at + 1] == s[1]);
    lemma_copied_inside(before, s, after, 2, p);
    lemma_marker_shift(s, 2, c, at + 2);
    lemma_copied_inside(before, s, after, p, walk(s, m, p, f, false)->Ok_0.0);
    lemma_walk_shift(s, m, p, f, c, at + p, f);
}

/// Two whole pictures back to back, such as a photo and its gain map, are one picture to hide behind: both
/// stay, to the byte, and neither is a place to look.
pub proof fn jpeg_second_image_stays(p: Seq<u8>, s: Seq<u8>, region: Seq<u8>)
    requires
        image(p, 0, no_facts(), false) is Ok,
        image(p, 0, no_facts(), false)->Ok_0.0 == p.len(),
        image(s, 0, no_facts(), false) is Ok,
        image(s, 0, no_facts(), false)->Ok_0.0 == s.len(),
    ensures
        shape(p + s) is Ok,
        shape(p + s)->Ok_0.image_end == p.len() + s.len(),
        shape(p + s)->Ok_0.app15 == shape(p)->Ok_0.app15,
        shape(p)->Ok_0.app15.len() == 0 ==> {
            &&& JpegCarrier::embedded(p + s, Technique::JpegTrailer, region) == p + s + region
            &&& JpegCarrier::stripped(p + s) == Ok::<Seq<u8>, Fault>(p + s)
            &&& JpegCarrier::regions(p + s) == Ok::<Seq<Region>, Fault>(Seq::empty())
        },
{
    let c = p + s;
    lemma_image_more(p, no_facts(), s);
    lemma_image_moved(p, s, Seq::empty());
    assert(p + s + Seq::<u8>::empty() =~= c);
    assert(c[p.len() as int] == s[0] && c[p.len() as int + 1] == s[1]);
    assert(chain(c, c.len() as int) == c.len());
    let e = image(c, p.len() as int, shut(no_facts()), false)->Ok_0.0;
    assert(e == c.len());
    assert(s.len() >= 2);
    assert(chain(c, p.len() as int) == c.len());
    assert(clip(c, 0, c.len() as int) =~= c);
    assert(shape_regions(shape(c)->Ok_0, c.len() as int) =~= Seq::<Region>::empty() || shape(
        p,
    )->Ok_0.app15.len() > 0);
}

// ---------------------------------------------------------------------------------------------
// Pictures given part by part

/// One part of a picture: a marker, a segment behind it unless it stands alone, and scan data behind that
/// if it begins a scan.
pub ghost struct Part {
    /// How many further `FF` stand before the marker.
    pub fill: nat,
    pub marker: u8,
    /// The two bytes of the segment's length, or none.
    pub len: Seq<u8>,
    pub body: Seq<u8>,
    pub scan: Seq<u8>,
}

impl Part {
    /// No segment follows.
    pub open spec fn alone(self) -> bool {
        self.marker == 0x01 || 0xD0 <= self.marker <= 0xD7
    }

    pub open spec fn bytes(self) -> Seq<u8> {
        Seq::new(self.fill, |i: int| 0xFFu8) + seq![0xFFu8, self.marker] + self.len + self.body + self.scan
    }

    pub open spec fn valid(self) -> bool {
        &&& self.marker != 0 && self.marker != 0xFF && self.marker != 0xD8 && self.marker != 0xD9
        &&& if self.alone() {
            self.len.len() == 0 && self.body.len() == 0
        } else {
            self.len.len() == 2 && self.len[0] * 0x100 + self.len[1] == 2 + self.body.len()
        }
        &&& if self.marker == 0xDA {
            forall|i: int| 0 <= i < self.scan.len() ==> #[trigger] goes_on(self.scan, i)
        } else {
            self.scan.len() == 0
        }
    }
}

/// Scan data is not over at `i`: an `FF` is followed by a zero, by a restart marker or by another `FF`.
pub open spec fn goes_on(scan: Seq<u8>, i: int) -> bool {
    scan[i] == 0xFF ==> i + 1 < scan.len() && (scan[i + 1] == 0 || 0xD0 <= scan[i + 1] <= 0xD7 || scan[i + 1]
        == 0xFF)
}

/// Each part is one, and no restart marker follows a scan, where it would belong to the scan.
pub open spec fn parts_valid(parts: Seq<Part>) -> bool {
    &&& forall|i: int| 0 <= i < parts.len() ==> (#[trigger] parts[i]).valid()
    &&& forall|i: int| 0 <= i < parts.len() ==> #[trigger] apart(parts, i)
}

pub open spec fn apart(parts: Seq<Part>, i: int) -> bool {
    parts[i].marker == 0xDA && i + 1 < parts.len() ==> !(0xD0 <= parts[i + 1].marker <= 0xD7)
}

pub open spec fn parts_bytes(parts: Seq<Part>) -> Seq<u8>
    decreases parts.len(),
{
    if parts.len() == 0 {
        Seq::empty()
    } else {
        parts_bytes(parts.drop_last()) + parts.last().bytes()
    }
}

/// A picture: the start-of-image marker, its parts, and the end-of-image marker.
pub open spec fn picture(parts: Seq<Part>, fill: nat) -> Seq<u8> {
    seq![0xFFu8, 0xD8] + parts_bytes(parts) + Seq::new(fill, |i: int| 0xFFu8) + seq![0xFFu8, 0xD9]
}

/// No scan has begun.
pub open spec fn in_header(parts: Seq<Part>) -> bool {
    forall|i: int| 0 <= i < parts.len() ==> (#[trigger] parts[i]).marker != 0xDA
}

/// The parts without the APP15 segments of the header.
pub open spec fn own_parts(parts: Seq<Part>) -> Seq<Part>
    decreases parts.len(),
{
    if parts.len() == 0 {
        parts
    } else if parts.last().marker == 0xEF && in_header(parts.drop_last()) {
        own_parts(parts.drop_last())
    } else {
        own_parts(parts.drop_last()).push(parts.last())
    }
}

/// What the APP15 segments of the header hold, back to back.
pub open spec fn app15_bytes(parts: Seq<Part>) -> Seq<u8>
    decreases parts.len(),
{
    if parts.len() == 0 {
        Seq::empty()
    } else if parts.last().marker == 0xEF && in_header(parts.drop_last()) {
        app15_bytes(parts.drop_last()) + parts.last().body
    } else {
        app15_bytes(parts.drop_last())
    }
}

/// Whether the header has an APP15 segment.
pub open spec fn has_app15(parts: Seq<Part>) -> bool {
    exists|i: int| 0 <= i < parts.len() && (#[trigger] parts[i]).marker == 0xEF && in_header(parts.take(i))
}

/// Whether the header has an APP1 segment that begins with `Exif` and two zeros.
pub open spec fn has_exif(parts: Seq<Part>) -> bool {
    exists|i: int|
        0 <= i < parts.len() && (#[trigger] parts[i]).marker == 0xE1 && in_header(parts.take(i))
            && parts[i].body.len() >= 6 && parts[i].body.take(6) == seq![0x45u8, 0x78, 0x69, 0x66, 0, 0]
}

proof fn lemma_run(c: Seq<u8>, i: int, k: int)
    requires
        0 <= i,
        0 <= k,
        i + k < c.len(),
        forall|j: int| i <= j < i + k ==> c[j] == 0xFF,
        c[i + k] != 0xFF,
    ensures
        skip_ff(c, i) == i + k,
    decreases k,
{
    if k > 0 {
        lemma_run(c, i + 1, k - 1);
    }
}

/// A marker with `fill` further bytes before it.
proof fn lemma_marker_here(c: Seq<u8>, q: int, fill: nat, m: u8)
    requires
        0 <= q,
        q + fill + 2 <= c.len(),
        forall|j: int| q <= j <= q + fill ==> c[j] == 0xFF,
        c[q + fill + 1] == m,
        m != 0,
        m != 0xFF,
    ensures
        marker_at(c, q) == Ok::<(u8, int), Fault>((m, q + fill + 2)),
{
    assert(c[q] == 0xFF);
    lemma_run(c, q + 1, fill as int);
}

/// Scan data up to the marker behind it.
proof fn lemma_scan_here(c: Seq<u8>, pos: int, scan: Seq<u8>, m: u8, p: int)
    requires
        0 <= pos,
        pos + scan.len() <= c.len(),
        c.subrange(pos, pos + scan.len()) == scan,
        forall|i: int| 0 <= i < scan.len() ==> #[trigger] goes_on(scan, i),
        marker_at(c, pos + scan.len()) == Ok::<(u8, int), Fault>((m, p)),
        !(0xD0 <= m <= 0xD7),
    ensures
        scan_end(c, pos) == Ok::<(u8, int), Fault>((m, p)),
    decreases scan.len(),
{
    lemma_marker_at(c, pos + scan.len());
    if scan.len() > 0 {
        let rest = scan.skip(1);
        assert(c[pos] == scan[0]);
        assert(goes_on(scan, 0));
        assert(c.subrange(pos + 1, pos + 1 + rest.len()) =~= c.subrange(pos, pos + scan.len()).skip(1));
        assert forall|i: int| 0 <= i < rest.len() implies #[trigger] goes_on(rest, i) by {
            assert(goes_on(scan, i + 1));
        }
        if scan[0] != 0xFF {
            lemma_scan_here(c, pos + 1, rest, m, p);
        } else {
            assert(c[pos + 1] == scan[1]) by {
                assert(c.subrange(pos, pos + scan.len())[1] == scan[1]);
            }
            if scan[1] == 0xFF {
                lemma_scan_here(c, pos + 1, rest, m, p);
                lemma_skip_ff(c, pos + 2);
            } else {
                let less = rest.skip(1);
                assert(c.subrange(pos + 2, pos + 2 + less.len()) =~= c.subrange(pos, pos + scan.len()).skip(1).skip(
                    1,
                ));
                assert forall|i: int| 0 <= i < less.len() implies #[trigger] goes_on(less, i) by {
                    assert(goes_on(scan, i + 2));
                }
                lemma_scan_here(c, pos + 2, less, m, p);
                assert(skip_ff(c, pos + 1) == pos + 1);
            }
        }
    } else {
        lemma_skip_ff(c, pos + 1);
    }
}

/// The rest of an image from a marker on.
spec fn onwards(c: Seq<u8>, q: int, f: Facts) -> Result<(int, Facts), Fault> {
    match marker_at(c, q) {
        Ok((m, p)) => walk(c, m, p, f, false),
        Err(e) => Err(e),
    }
}

/// What is known of a header after the part at `q`.
spec fn after_part(c: Seq<u8>, f: Facts, e: Part, q: int) -> Facts {
    if e.alone() {
        f
    } else {
        let g = noted(c, f, e.marker, q + e.fill, e.body.len() as int);
        if e.marker == 0xDA {
            shut(g)
        } else {
            g
        }
    }
}

proof fn lemma_part(c: Seq<u8>, q: int, e: Part, f: Facts)
    requires
        e.valid(),
        2 <= q,
        q + e.bytes().len() < c.len(),
        c.subrange(q, q + e.bytes().len()) == e.bytes(),
        marker_at(c, q + e.bytes().len()) is Ok,
        e.marker == 0xDA ==> !(0xD0 <= marker_at(c, q + e.bytes().len())->Ok_0.0 <= 0xD7),
    ensures
        onwards(c, q, f) == onwards(c, q + e.bytes().len(), after_part(c, f, e, q)),
        marker_at(c, q) == Ok::<(u8, int), Fault>((e.marker, q + e.fill + 2)),
{
    let b = e.bytes();
    let k = e.fill as int;
    let here = c.subrange(q, q + b.len());
    assert forall|j: int| 0 <= j < b.len() implies c[q + j] == #[trigger] b[j] by {
        assert(here[j] == b[j]);
    }
    assert(b[k] == 0xFF && b[k + 1] == e.marker);
    assert(c[q + k] == b[k] && c[q + (k + 1)] == b[k + 1]);
    assert forall|j: int| q <= j <= q + k implies c[j] == 0xFF by {
        assert(b[j - q] == 0xFF);
        assert(c[q + (j - q)] == b[j - q]);
    }
    lemma_marker_here(c, q, e.fill, e.marker);
    let p = q + k + 2;
    let next = q + b.len();
    lemma_marker_at(c, next);
    let (m2, p2) = marker_at(c, next)->Ok_0;
    if e.alone() {
        assert(next == p);
    } else {
        assert(b[k + 2] == e.len[0] && b[k + 3] == e.len[1]);
        assert(c[q + (k + 2)] == b[k + 2] && c[q + (k + 3)] == b[k + 3]);
        assert(be16(c, p) == 2 + e.body.len());
        let end = p + 2 + e.body.len();
        if e.marker == 0xDA {
            assert(c.subrange(end, end + e.scan.len()) =~= e.scan) by {
                assert forall|i: int| 0 <= i < e.scan.len() implies c[end + i] == e.scan[i] by {
                    let j = k + 4 + e.body.len() + i;
                    assert(b[j] == e.scan[i]);
                    assert(c[q + j] == b[j]);
                }
            }
            lemma_scan_here(c, end, e.scan, m2, p2);
        } else {
            assert(end == next);
        }
    }
}

spec fn at(parts: Seq<Part>, k: int) -> int {
    2 + parts_bytes(parts.take(k)).len() as int
}

/// What is known of a header after the first `k` parts.
spec fn facts_to(c: Seq<u8>, parts: Seq<Part>, k: nat) -> Facts
    decreases k,
{
    if k == 0 {
        no_facts()
    } else {
        after_part(
            c,
            facts_to(c, parts, (k - 1) as nat),
            parts[k - 1],
            at(parts, k - 1),
        )
    }
}

proof fn lemma_parts_concat(a: Seq<Part>, b: Seq<Part>)
    ensures
        parts_bytes(a + b) == parts_bytes(a) + parts_bytes(b),
    decreases b.len(),
{
    if b.len() == 0 {
        assert(a + b =~= a);
        assert(parts_bytes(a) + parts_bytes(b) =~= parts_bytes(a));
    } else {
        let less = b.drop_last();
        assert((a + b).drop_last() =~= a + less);
        assert((a + b).last() == b.last());
        lemma_parts_concat(a, less);
        assert(parts_bytes(a + b) =~= parts_bytes(a) + parts_bytes(b));
    }
}

/// Where the `k`th part stands.
proof fn lemma_part_at(parts: Seq<Part>, fill: nat, k: int)
    requires
        0 <= k < parts.len(),
    ensures
        ({
            let c = picture(parts, fill);
            let b = parts[k].bytes();
            &&& at(parts, k) + b.len() == at(parts, k + 1)
            &&& at(parts, k + 1) + fill + 2 <= c.len()
            &&& c.subrange(at(parts, k), at(parts, k) + b.len()) == b
        }),
{
    let one = seq![parts[k]];
    assert(parts.take(k + 1) =~= parts.take(k).push(parts[k]));
    assert(parts.take(k + 1).drop_last() =~= parts.take(k));
    assert(parts.take(k + 1).last() == parts[k]);
    assert(parts =~= parts.take(k + 1) + parts.skip(k + 1));
    lemma_parts_concat(parts.take(k + 1), parts.skip(k + 1));
    let c = picture(parts, fill);
    let before = seq![0xFFu8, 0xD8] + parts_bytes(parts.take(k));
    let after = parts_bytes(parts.skip(k + 1)) + Seq::new(fill, |i: int| 0xFFu8) + seq![0xFFu8, 0xD9];
    assert(c =~= before + parts[k].bytes() + after);
    assert(c.subrange(at(parts, k), at(parts, k) + parts[k].bytes().len()) =~= parts[k].bytes());
}

/// The marker behind the first `k` parts.
proof fn lemma_next_marker(parts: Seq<Part>, fill: nat, k: int)
    requires
        parts_valid(parts),
        0 <= k <= parts.len(),
    ensures
        ({
            let c = picture(parts, fill);
            let q = at(parts, k);
            if k < parts.len() {
                marker_at(c, q) == Ok::<(u8, int), Fault>((parts[k].marker, q + parts[k].fill + 2))
            } else {
                marker_at(c, q) == Ok::<(u8, int), Fault>((0xD9, c.len() as int)) && q + fill + 2 == c.len()
            }
        }),
{
    let c = picture(parts, fill);
    let q = at(parts, k);
    if k < parts.len() {
        let e = parts[k];
        let b = e.bytes();
        let n = e.fill as int;
        lemma_part_at(parts, fill, k);
        let here = c.subrange(q, q + b.len());
        assert forall|j: int| q <= j <= q + n implies c[j] == 0xFF by {
            assert(here[j - q] == b[j - q]);
            assert(b[j - q] == 0xFF);
        }
        assert(here[n + 1] == b[n + 1]);
        assert(c[q + n + 1] == e.marker);
        lemma_marker_here(c, q, e.fill, e.marker);
    } else {
        assert(parts.take(k) =~= parts);
        let n = fill as int;
        assert forall|j: int| q <= j <= q + n implies c[j] == 0xFF by {}
        assert(c[q + n + 1] == 0xD9);
        lemma_marker_here(c, q, fill, 0xD9);
    }
}

/// Walking over the first `k` parts.
proof fn lemma_walk_parts(parts: Seq<Part>, fill: nat, k: nat)
    requires
        parts_valid(parts),
        k <= parts.len(),
    ensures
        ({
            let c = picture(parts, fill);
            onwards(c, 2, no_facts()) == onwards(c, at(parts, k as int), facts_to(c, parts, k))
        }),
    decreases k,
{
    let c = picture(parts, fill);
    if k == 0 {
        assert(parts.take(0) =~= Seq::<Part>::empty());
        assert(at(parts, 0) == 2);
    } else {
        let i = k - 1;
        let e = parts[i];
        lemma_walk_parts(parts, fill, i as nat);
        lemma_part_at(parts, fill, i);
        lemma_next_marker(parts, fill, k as int);
        assert(apart(parts, i));
        lemma_part(c, at(parts, i), e, facts_to(c, parts, i as nat));
    }
}

/// A picture is read as what it is made of.
proof fn lemma_picture(parts: Seq<Part>, fill: nat)
    requires
        parts_valid(parts),
    ensures
        ({
            let c = picture(parts, fill);
            image(c, 0, no_facts(), false) == Ok::<(int, Facts), Fault>(
                (c.len() as int, facts_to(c, parts, parts.len())),
            )
        }),
{
    let c = picture(parts, fill);
    lemma_walk_parts(parts, fill, parts.len());
    lemma_next_marker(parts, fill, parts.len() as int);
    assert(c[0] == 0xFF && c[1] == 0xD8);
}

proof fn lemma_header_push(parts: Seq<Part>)
    requires
        parts.len() > 0,
    ensures
        in_header(parts) == (in_header(parts.drop_last()) && parts.last().marker != 0xDA),
        has_app15(parts) == (has_app15(parts.drop_last()) || (parts.last().marker == 0xEF && in_header(
            parts.drop_last(),
        ))),
        has_exif(parts) == (has_exif(parts.drop_last()) || (parts.last().marker == 0xE1 && in_header(
            parts.drop_last(),
        ) && parts.last().body.len() >= 6 && parts.last().body.take(6) == seq![0x45u8, 0x78, 0x69, 0x66, 0, 0])),
{
    let less = parts.drop_last();
    let n = less.len() as int;
    assert(parts[n] == parts.last());
    assert(parts.take(n) =~= less);
    assert(forall|i: int| 0 <= i < n ==> less[i] == parts[i]);
    assert forall|i: int| 0 <= i < n implies less.take(i) == #[trigger] parts.take(i) by {
        assert(less.take(i) =~= parts.take(i));
    }
    if in_header(less) && parts.last().marker != 0xDA {
        assert forall|i: int| 0 <= i < parts.len() implies (#[trigger] parts[i]).marker != 0xDA by {
            if i < n {
                assert(less[i].marker != 0xDA);
            }
        }
    }
    if has_app15(less) {
        let i = choose|i: int| 0 <= i < n && (#[trigger] less[i]).marker == 0xEF && in_header(less.take(i));
        assert(parts[i].marker == 0xEF && in_header(parts.take(i)));
    }
    if has_app15(parts) {
        let i = choose|i: int|
            0 <= i < parts.len() && (#[trigger] parts[i]).marker == 0xEF && in_header(parts.take(i));
        if i < n {
            assert(less[i].marker == 0xEF && in_header(less.take(i)));
        }
    }
    let exif = seq![0x45u8, 0x78, 0x69, 0x66, 0, 0];
    if has_exif(less) {
        let i = choose|i: int|
            0 <= i < n && (#[trigger] less[i]).marker == 0xE1 && in_header(less.take(i)) && less[i].body.len() >= 6
                && less[i].body.take(6) == exif;
        assert(parts[i].marker == 0xE1 && in_header(parts.take(i)));
    }
    if has_exif(parts) {
        let i = choose|i: int|
            0 <= i < parts.len() && (#[trigger] parts[i]).marker == 0xE1 && in_header(parts.take(i))
                && parts[i].body.len() >= 6 && parts[i].body.take(6) == exif;
        if i < n {
            assert(less[i].marker == 0xE1 && in_header(less.take(i)));
        }
    }
}

proof fn lemma_without_push(c: Seq<u8>, from: int, mid: int, to: int, list: Seq<Seg>)
    requires
        0 <= from <= mid,
        mid + 4 <= to <= c.len(),
        forall|i: int|
            0 <= i < list.len() ==> (#[trigger] list[i]).offset + list[i].len <= mid && list[i].len >= 4,
    ensures
        without(c, from, to, list.push(Seg { offset: mid, len: to - mid })) == without(c, from, mid, list),
    decreases list.len(),
{
    let s = Seg { offset: mid, len: to - mid };
    let all = list.push(s);
    if list.len() == 0 {
        let none = Seq::<Seg>::empty();
        assert(all.drop_first() =~= none);
        assert(all[0] == s);
        assert(without(c, to, to, none) == clip(c, to, to));
        assert(clip(c, from, mid) + clip(c, to, to) =~= clip(c, from, mid));
    } else {
        let rest = list.drop_first();
        assert(all.drop_first() =~= rest.push(s));
        assert(all[0] == list[0]);
        assert(forall|i: int| 0 <= i < rest.len() ==> rest[i] == list[i + 1]);
        if list[0].offset >= from {
            lemma_without_push(c, list[0].offset + list[0].len, mid, to, rest);
        } else {
            lemma_without_push(c, from, mid, to, rest);
        }
    }
}

proof fn lemma_gather_push(c: Seq<u8>, list: Seq<(u64, u64)>, x: (u64, u64))
    ensures
        gathered(c, list.push(x)) == gathered(c, list) + clip(c, x.0 as int, x.0 + x.1),
    decreases list.len(),
{
    let all = list.push(x);
    if list.len() == 0 {
        assert(all =~= seq![x]);
        lemma_gather_one(c, x.0, x.1);
        assert(gathered(c, list) + clip(c, x.0 as int, x.0 + x.1) =~= clip(c, x.0 as int, x.0 + x.1));
    } else {
        let rest = list.drop_first();
        assert(all.drop_first() =~= rest.push(x));
        assert(all[0] == list[0]);
        lemma_gather_push(c, rest, x);
        assert(gathered(c, all) =~= gathered(c, list) + clip(c, x.0 as int, x.0 + x.1));
    }
}

proof fn lemma_sum_push(list: Seq<Seg>, s: Seg)
    ensures
        seg_sum(list.push(s)) == seg_sum(list) + s.len,
    decreases list.len(),
{
    let all = list.push(s);
    if list.len() == 0 {
        assert(all.drop_first() =~= list);
    } else {
        let rest = list.drop_first();
        assert(all.drop_first() =~= rest.push(s));
        assert(all[0] == list[0]);
        lemma_sum_push(rest, s);
    }
}

/// APP15 segments have no fill bytes before them. Those would stay where a segment is dropped.
pub open spec fn tight(parts: Seq<Part>) -> bool {
    forall|i: int| 0 <= i < parts.len() ==> (#[trigger] parts[i]).marker == 0xEF ==> parts[i].fill == 0
}

/// What is known of a header after the first `k` parts is what those parts are.
#[verifier::rlimit(30)]
proof fn lemma_facts(parts: Seq<Part>, fill: nat, k: nat)
    requires
        parts_valid(parts),
        tight(parts),
        k <= parts.len(),
        picture(parts, fill).len() <= u64::MAX,
    ensures
        ({
            let c = picture(parts, fill);
            let g = facts_to(c, parts, k);
            let done = parts.take(k as int);
            &&& 2 <= at(parts, k as int) <= c.len()
            &&& g.open == in_header(done)
            &&& forall|i: int|
                0 <= i < g.app15.len() ==> 2 <= (#[trigger] g.app15[i]).offset && g.app15[i].len >= 4
                    && g.app15[i].offset + g.app15[i].len <= at(parts, k as int)
            &&& without(c, 0, at(parts, k as int), g.app15) == seq![0xFFu8, 0xD8] + parts_bytes(own_parts(done))
            &&& gathered(c, payload_parts(g.app15)) == app15_bytes(done)
            &&& seg_sum(g.app15) - 4 * g.app15.len() == app15_bytes(done).len()
            &&& (g.app15.len() > 0) == has_app15(done)
            &&& g.has_exif == has_exif(done)
        }),
    decreases k,
{
    let c = picture(parts, fill);
    let done = parts.take(k as int);
    let q = at(parts, k as int);
    if k == 0 {
        assert(done =~= Seq::<Part>::empty());
        assert(clip(c, 0, 2) =~= seq![0xFFu8, 0xD8] + parts_bytes(own_parts(done)));
        let none = Seq::<Seg>::empty();
        assert(payload_parts(none) =~= Seq::<(u64, u64)>::empty());
        assert(gathered(c, payload_parts(none)) =~= app15_bytes(done));
        assert(!has_app15(done) && !has_exif(done));
    } else {
        let i = k - 1;
        let e = parts[i];
        let less = parts.take(i);
        let p = at(parts, i);
        let f = facts_to(c, parts, i as nat);
        let g = facts_to(c, parts, k);
        let b = e.bytes();
        lemma_facts(parts, fill, i as nat);
        lemma_part_at(parts, fill, i);
        assert(done.drop_last() =~= less);
        assert(done.last() == e);
        lemma_header_push(done);
        assert(e.valid());
        assert(clip(c, p, q) =~= b);
        let own = own_parts(done);
        if e.marker == 0xEF && f.open {
            let s = Seg { offset: p, len: q - p };
            assert(g.app15 == f.app15.push(s));
            assert(b.len() == 4 + e.body.len());
            lemma_without_push(c, 0, p, q, f.app15);
            let x = ((p + 4) as u64, (q - p - 4) as u64);
            assert(payload_parts(g.app15) =~= payload_parts(f.app15).push(x));
            lemma_gather_push(c, payload_parts(f.app15), x);
            assert(clip(c, p + 4, q) =~= e.body) by {
                assert(clip(c, p + 4, q) =~= clip(c, p, q).skip(4));
                assert(b.skip(4) =~= e.body);
            }
            lemma_sum_push(f.app15, s);
        } else {
            assert(g.app15 == f.app15);
            lemma_without_tail(c, 0, p, q, f.app15);
            assert(own.drop_last() =~= own_parts(less));
            assert(own.last() == e);
            assert(seq![0xFFu8, 0xD8] + parts_bytes(own) =~= seq![0xFFu8, 0xD8] + parts_bytes(own_parts(less)) + b);
        }
        if e.marker == 0xE1 && f.open && e.body.len() >= 6 {
            let o = p + e.fill;
            assert(c.subrange(o + 4, o + 10) =~= e.body.take(6)) by {
                assert(c.subrange(o + 4, o + 10) =~= clip(c, p, q).subrange(e.fill as int + 4, e.fill as int + 10));
                assert(b.subrange(e.fill as int + 4, e.fill as int + 10) =~= e.body.take(6));
            }
        }
    }
}

/// Pictures back to back.
pub open spec fn album(list: Seq<(Seq<Part>, nat)>) -> Seq<u8>
    decreases list.len(),
{
    if list.len() == 0 {
        Seq::empty()
    } else {
        picture(list[0].0, list[0].1) + album(list.drop_first())
    }
}

/// All of the pictures are chained.
proof fn lemma_album(before: Seq<u8>, list: Seq<(Seq<Part>, nat)>, tail: Seq<u8>)
    requires
        forall|i: int| 0 <= i < list.len() ==> parts_valid((#[trigger] list[i]).0),
        tail.len() < 2 || tail[0] != 0xFF || tail[1] != 0xD8,
    ensures
        chain(before + album(list) + tail, before.len() as int) == before.len() + album(list).len(),
    decreases list.len(),
{
    let c = before + album(list) + tail;
    let e = before.len() as int;
    if list.len() == 0 {
        assert(c =~= before + tail);
        if tail.len() >= 2 {
            assert(c[e] == tail[0] && c[e + 1] == tail[1]);
        }
    } else {
        let first = picture(list[0].0, list[0].1);
        let rest = list.drop_first();
        assert(forall|i: int| 0 <= i < rest.len() ==> rest[i] == list[i + 1]);
        assert(parts_valid(list[0].0));
        lemma_picture(list[0].0, list[0].1);
        lemma_image_moved(before, first, album(rest) + tail);
        assert(c =~= before + first + (album(rest) + tail));
        assert(c =~= (before + first) + album(rest) + tail);
        lemma_album(before + first, rest, tail);
        assert(c[e] == first[0] && c[e + 1] == first[1]);
        assert(first.len() >= 4);
    }
}

proof fn lemma_photo_end(parts: Seq<Part>, fill: nat, more: Seq<u8>, tail: Seq<u8>)
    ensures
        ({
            let p = picture(parts, fill);
            let c = p + more + tail;
            let q = at(parts, parts.len() as int);
            let own = own_parts(parts);
            seq![0xFFu8, 0xD8] + parts_bytes(own) + clip(c, q, (p + more).len() as int) == picture(own, fill) + more
        }),
{
    let p = picture(parts, fill);
    let c = p + more + tail;
    let q = at(parts, parts.len() as int);
    let own = own_parts(parts);
    let ff = Seq::new(fill, |i: int| 0xFFu8) + seq![0xFFu8, 0xD9];
    assert(parts.take(parts.len() as int) =~= parts);
    assert(p =~= seq![0xFFu8, 0xD8] + parts_bytes(parts) + ff);
    assert(p.skip(q) =~= ff);
    assert(clip(c, q, (p + more).len() as int) =~= p.skip(q) + more);
    assert(picture(own, fill) =~= seq![0xFFu8, 0xD8] + parts_bytes(own) + ff);
    assert(seq![0xFFu8, 0xD8] + parts_bytes(own) + (ff + more) =~= picture(own, fill) + more);
}

/// The structure of a photo that is given part by part.
#[verifier::rlimit(60)]
proof fn lemma_photo(parts: Seq<Part>, fill: nat, more: Seq<(Seq<Part>, nat)>, tail: Seq<u8>)
    requires
        parts_valid(parts),
        tight(parts),
        forall|i: int| 0 <= i < more.len() ==> parts_valid((#[trigger] more[i]).0),
        tail.len() < 2 || tail[0] != 0xFF || tail[1] != 0xD8,
        (picture(parts, fill) + album(more) + tail).len() <= u64::MAX,
    ensures
        ({
            let c = picture(parts, fill) + album(more) + tail;
            let end = (picture(parts, fill) + album(more)).len() as int;
            &&& shape(c) matches Ok(s) && s.image_end == end && s.has_exif == has_exif(parts) && (s.app15.len()
                > 0) == has_app15(parts) && kept(c, s) == picture(own_parts(parts), fill) + album(more)
                && seg_sum(s.app15) - 4 * s.app15.len() == app15_bytes(parts).len() && gathered(
                c,
                payload_parts(s.app15),
            ) == app15_bytes(parts) && image(c, 0, no_facts(), false) is Ok && image(
                c,
                0,
                no_facts(),
                false,
            )->Ok_0.1.app15 == s.app15 && s.insert_at == facts_to(
                picture(parts, fill),
                parts,
                parts.len(),
            ).insert_at && s.app15 == facts_to(picture(parts, fill), parts, parts.len()).app15
        }),
{
    let p = picture(parts, fill);
    let c = p + album(more) + tail;
    let end = (p + album(more)).len() as int;
    let n = parts.len();
    let q = at(parts, n as int);
    lemma_picture(parts, fill);
    lemma_facts(parts, fill, n);
    assert(parts.take(n as int) =~= parts);
    assert(c =~= p + (album(more) + tail));
    lemma_image_more(p, no_facts(), album(more) + tail);
    lemma_album(p, more, tail);
    let g = facts_to(p, parts, n);
    let s = shape(c)->Ok_0;
    assert(s.app15 == g.app15);
    assert(c.take(p.len() as int) =~= p);
    lemma_without_tail(c, 0, q, end, g.app15);
    lemma_without_same(p, c, 0, q, g.app15);
    lemma_photo_end(parts, fill, album(more), tail);
    lemma_gathered_same(p, c, g.app15);
}

proof fn lemma_without_same(a: Seq<u8>, b: Seq<u8>, from: int, to: int, list: Seq<Seg>)
    requires
        0 <= from,
        to <= a.len() <= b.len(),
        b.take(a.len() as int) == a,
        forall|i: int| 0 <= i < list.len() ==> (#[trigger] list[i]).offset >= 0 && list[i].len >= 4,
    ensures
        without(a, from, to, list) == without(b, from, to, list),
    decreases list.len(),
{
    assert forall|x: int, y: int| 0 <= x && y <= a.len() implies #[trigger] clip(a, x, y) == clip(b, x, y) by {
        assert(clip(a, x, y) =~= clip(b.take(a.len() as int), x, y));
        assert(clip(b.take(a.len() as int), x, y) =~= clip(b, x, y));
    }
    if list.len() > 0 {
        let rest = list.drop_first();
        assert(forall|i: int| 0 <= i < rest.len() ==> rest[i] == list[i + 1]);
        if list[0].offset >= from && list[0].offset + list[0].len <= to {
            lemma_without_same(a, b, list[0].offset + list[0].len, to, rest);
        } else {
            lemma_without_same(a, b, from, to, rest);
        }
    }
}

proof fn lemma_gathered_same(a: Seq<u8>, b: Seq<u8>, list: Seq<Seg>)
    requires
        a.len() <= b.len(),
        a.len() <= u64::MAX,
        b.take(a.len() as int) == a,
        forall|i: int|
            0 <= i < list.len() ==> (#[trigger] list[i]).offset >= 0 && list[i].len >= 4 && list[i].offset
                + list[i].len <= a.len(),
    ensures
        gathered(a, payload_parts(list)) == gathered(b, payload_parts(list)),
    decreases list.len(),
{
    if list.len() > 0 {
        let rest = list.drop_first();
        assert(forall|i: int| 0 <= i < rest.len() ==> rest[i] == list[i + 1]);
        lemma_gathered_same(a, b, rest);
        let parts = payload_parts(list);
        assert(parts.drop_first() =~= payload_parts(rest));
        let x = list[0].offset + 4;
        let y = list[0].offset + list[0].len;
        assert(parts[0].0 == x && parts[0].0 + parts[0].1 == y);
        assert(clip(a, x, y) =~= clip(b.take(a.len() as int), x, y));
        assert(clip(b.take(a.len() as int), x, y) =~= clip(b, x, y));
    }
}

/// Hiding behind a photo keeps every part of it and every further picture behind it, to the byte, but for
/// the APP15 segments of the header and what stood behind the last picture. The region follows.
pub proof fn jpeg_parts_stay(
    parts: Seq<Part>,
    fill: nat,
    more: Seq<(Seq<Part>, nat)>,
    tail: Seq<u8>,
    region: Seq<u8>,
)
    requires
        parts_valid(parts),
        tight(parts),
        forall|i: int| 0 <= i < more.len() ==> parts_valid((#[trigger] more[i]).0),
        tail.len() < 2 || tail[0] != 0xFF || tail[1] != 0xD8,
        (picture(parts, fill) + album(more) + tail).len() <= u64::MAX,
    ensures
        ({
            let c = picture(parts, fill) + album(more) + tail;
            let kept = picture(own_parts(parts), fill) + album(more);
            &&& JpegCarrier::embedded(c, Technique::JpegTrailer, region) == kept + region
            &&& JpegCarrier::embedded_len(c, Technique::JpegTrailer, region.len()) == Ok::<nat, Fault>(
                kept.len() + region.len(),
            )
            &&& JpegCarrier::stripped(c) == Ok::<Seq<u8>, Fault>(kept)
        }),
{
    lemma_photo(parts, fill, more, tail);
}

/// A photo whose header has no APP15 segment keeps all of its parts.
pub proof fn jpeg_other_parts_stay(parts: Seq<Part>)
    requires
        forall|i: int| 0 <= i < parts.len() ==> (#[trigger] parts[i]).marker == 0xEF ==> !in_header(parts.take(i)),
    ensures
        own_parts(parts) == parts,
        app15_bytes(parts) == Seq::<u8>::empty(),
        !has_app15(parts),
    decreases parts.len(),
{
    if parts.len() > 0 {
        let less = parts.drop_last();
        let n = less.len() as int;
        assert(parts.take(n) =~= less);
        assert(parts[n] == parts.last());
        assert forall|i: int| 0 <= i < less.len() && (#[trigger] less[i]).marker == 0xEF implies !in_header(
            less.take(i),
        ) by {
            assert(less[i] == parts[i]);
            assert(less.take(i) =~= parts.take(i));
        }
        jpeg_other_parts_stay(less);
        lemma_header_push(parts);
        assert(less.push(parts.last()) =~= parts);
    }
}

/// Where to look in a photo: behind its last picture, if anything stands there, and then in the APP15
/// segments of its header, if it has any; nowhere else. The segments are read back to back.
pub proof fn jpeg_places_to_look(parts: Seq<Part>, fill: nat, more: Seq<(Seq<Part>, nat)>, tail: Seq<u8>)
    requires
        parts_valid(parts),
        tight(parts),
        forall|i: int| 0 <= i < more.len() ==> parts_valid((#[trigger] more[i]).0),
        tail.len() < 2 || tail[0] != 0xFF || tail[1] != 0xD8,
        (picture(parts, fill) + album(more) + tail).len() <= u64::MAX,
    ensures
        ({
            let c = picture(parts, fill) + album(more) + tail;
            let t: int = if tail.len() > 0 {
                1
            } else {
                0
            };
            let s: int = if has_app15(parts) {
                1
            } else {
                0
            };
            &&& JpegCarrier::regions(c) matches Ok(list) && list.len() == t + s && (t == 1 ==> {
                &&& list[0].technique == Technique::JpegTrailer
                &&& list[0].len == tail.len()
                &&& JpegCarrier::region_bytes(c, list[0]) == Ok::<Seq<u8>, Fault>(tail)
            }) && (s == 1 ==> {
                &&& list[t].technique == Technique::JpegApp15
                &&& list[t].len == app15_bytes(parts).len()
                &&& JpegCarrier::region_bytes(c, list[t]) == Ok::<Seq<u8>, Fault>(app15_bytes(parts))
            })
            &&& JpegCarrier::reencoded(c) == Ok::<bool, Fault>(
                tail.len() == 0 && !has_app15(parts) && !has_exif(parts),
            )
        }),
{
    let c = picture(parts, fill) + album(more) + tail;
    let end = (picture(parts, fill) + album(more)).len() as int;
    lemma_photo(parts, fill, more, tail);
    let s = shape(c)->Ok_0;
    let list = shape_regions(s, c.len() as int);
    lemma_kept(c);
    lemma_gather_one(c, end as u64, tail.len() as u64);
    assert(clip(c, end, c.len() as int) =~= tail);
    if has_app15(parts) {
        let t: int = if tail.len() > 0 {
            1
        } else {
            0
        };
        assert(list.len() == t + 1);
        assert(list[t].fragmented && list[t].technique == Technique::JpegApp15);
        assert(list[t].len == app15_bytes(parts).len());
    }
    lemma_marker_at(c, 2);
    let (m, p) = marker_at(c, 2)->Ok_0;
    lemma_header_only(c, m, p, no_facts());
}

/// The first `k` parts make the leading run: APP0, APP1 and APP15 segments.
pub open spec fn leads(parts: Seq<Part>, k: int) -> bool {
    &&& 0 <= k <= parts.len()
    &&& forall|i: int|
        0 <= i < k ==> (#[trigger] parts[i]).marker == 0xE0 || parts[i].marker == 0xE1 || parts[i].marker == 0xEF
    &&& k < parts.len() ==> parts[k].marker != 0xE0 && parts[k].marker != 0xE1 && parts[k].marker != 0xEF
        && !parts[k].alone()
}

proof fn lemma_leading(parts: Seq<Part>, fill: nat, k: int, j: nat)
    requires
        parts_valid(parts),
        leads(parts, k),
        j <= parts.len(),
    ensures
        ({
            let c = picture(parts, fill);
            let f = facts_to(c, parts, j);
            let g = facts_to(c, parts, k as nat);
            &&& j <= k ==> f.open && f.leading && f.insert_at == at(parts, j as int)
            &&& j > k ==> !f.leading && f.insert_at == at(parts, k)
            &&& j >= k ==> exists|more: Seq<Seg>|
                f.app15 == #[trigger] (g.app15 + more) && forall|i: int|
                    0 <= i < more.len() ==> (#[trigger] more[i]).offset >= at(parts, k) && more[i].len >= 4
        }),
    decreases j,
{
    let c = picture(parts, fill);
    let g = facts_to(c, parts, k as nat);
    if j == 0 {
        assert(parts.take(0) =~= Seq::<Part>::empty());
        if k == 0 {
            assert(g.app15 + Seq::<Seg>::empty() =~= g.app15);
        }
    } else {
        let i = j - 1;
        let e = parts[i];
        lemma_leading(parts, fill, k, i as nat);
        lemma_part_at(parts, fill, i);
        assert(e.valid());
        let f = facts_to(c, parts, i as nat);
        let h = facts_to(c, parts, j);
        if i < k {
            assert(e.bytes().len() == e.fill + 4 + e.body.len());
            if j == k {
                assert(g.app15 + Seq::<Seg>::empty() =~= g.app15);
            }
        } else {
            let more = choose|more: Seq<Seg>|
                f.app15 == #[trigger] (g.app15 + more) && forall|n: int|
                    0 <= n < more.len() ==> (#[trigger] more[n]).offset >= at(parts, k) && more[n].len >= 4;
            lemma_at_grows(parts, k, i);
            if h.app15 != f.app15 {
                let s = Seg { offset: at(parts, i) + e.fill, len: e.body.len() as int + 4 };
                let longer = more.push(s);
                assert(h.app15 =~= g.app15 + longer);
                assert(h.app15 == g.app15 + longer);
            } else {
                assert(h.app15 == g.app15 + more);
            }
        }
    }
}

proof fn lemma_at_grows(parts: Seq<Part>, k: int, i: int)
    requires
        0 <= k <= i <= parts.len(),
    ensures
        at(parts, k) <= at(parts, i),
{
    assert(parts.take(i) =~= parts.take(k) + parts.subrange(k, i));
    lemma_parts_concat(parts.take(k), parts.subrange(k, i));
}

proof fn lemma_without_prefix(c: Seq<u8>, from: int, mid: int, a: Seq<Seg>, b: Seq<Seg>)
    requires
        forall|i: int| 0 <= i < b.len() ==> (#[trigger] b[i]).offset >= mid && b[i].len >= 4,
    ensures
        without(c, from, mid, a + b) == without(c, from, mid, a),
    decreases a.len(),
{
    if a.len() == 0 {
        assert(a + b =~= b);
        super::jpeg::lemma_without_later(c, from, mid, b);
    } else {
        let rest = a.drop_first();
        assert((a + b).drop_first() =~= rest + b);
        assert((a + b)[0] == a[0]);
        if a[0].offset >= from && a[0].offset + a[0].len <= mid {
            lemma_without_prefix(c, a[0].offset + a[0].len, mid, rest, b);
        } else {
            lemma_without_prefix(c, from, mid, rest, b);
        }
    }
}

/// `chunks` are APP15 segments that hold `region`, all but the last of them full.
pub open spec fn segments_of(chunks: Seq<Part>, region: Seq<u8>) -> bool
    decreases chunks.len(),
{
    if chunks.len() == 0 {
        region.len() == 0
    } else {
        let e = chunks[0];
        let n = e.body.len() as int;
        &&& e.valid() && e.marker == 0xEF && e.fill == 0
        &&& 0 < n <= region.len()
        &&& e.body == region.take(n)
        &&& chunks.len() > 1 ==> n == 65533
        &&& segments_of(chunks.drop_first(), region.skip(n))
    }
}

proof fn lemma_segments(chunks: Seq<Part>, region: Seq<u8>)
    requires
        segments_of(chunks, region),
    ensures
        framed(region) == parts_bytes(chunks),
    decreases chunks.len(),
{
    if chunks.len() == 0 {
        assert(framed(region) =~= parts_bytes(chunks));
    } else {
        let e = chunks[0];
        let n = e.body.len() as int;
        let rest = chunks.drop_first();
        let one = seq![e];
        lemma_segments(rest, region.skip(n));
        assert(chunks =~= one + rest);
        lemma_parts_concat(one, rest);
        assert(one.drop_last() =~= Seq::<Part>::empty());
        assert(one.last() == e);
        reveal_with_fuel(parts_bytes, 2);
        assert(parts_bytes(one) =~= e.bytes());
        assert(n + 2 <= 65535) by {
            assert(e.len[0] * 0x100 + e.len[1] <= 255 * 0x100 + 255);
        }
        assert((n + 2) / 256 == e.len[0] && (n + 2) % 256 == e.len[1]);
        assert(app15_segment(e.body) =~= e.bytes());
        if chunks.len() == 1 {
            assert(rest.len() == 0);
            assert(region.skip(n).len() == 0);
            assert(region.take(n) =~= region);
            assert(framed(region) =~= parts_bytes(chunks));
        } else {
            assert(rest.len() > 0);
            assert(region.skip(n).len() > 0);
            assert(framed(region) =~= parts_bytes(chunks));
        }
    }
}

/// Hiding in the header puts the region into APP15 segments, all but the last of them full, right behind
/// the leading run of APP0, APP1 and APP15 segments. Otherwise every part and every further picture stays,
/// to the byte, but for earlier APP15 segments of the header and what stood behind the last picture.
pub proof fn jpeg_segments_go_behind_the_lead(
    parts: Seq<Part>,
    k: int,
    fill: nat,
    more: Seq<(Seq<Part>, nat)>,
    tail: Seq<u8>,
    region: Seq<u8>,
    chunks: Seq<Part>,
)
    requires
        parts_valid(parts),
        tight(parts),
        leads(parts, k),
        forall|i: int| 0 <= i < more.len() ==> parts_valid((#[trigger] more[i]).0),
        tail.len() < 2 || tail[0] != 0xFF || tail[1] != 0xD8,
        (picture(parts, fill) + album(more) + tail).len() <= u64::MAX,
        segments_of(chunks, region),
    ensures
        ({
            let c = picture(parts, fill) + album(more) + tail;
            let own = own_parts(parts);
            let lead = own_parts(parts.take(k));
            &&& lead.len() <= own.len()
            &&& own.take(lead.len() as int) == lead
            &&& JpegCarrier::embedded(c, Technique::JpegApp15, region) == picture(
                lead + chunks + own.skip(lead.len() as int),
                fill,
            ) + album(more)
        }),
{
    let p = picture(parts, fill);
    let c = p + album(more) + tail;
    let n = parts.len();
    let own = own_parts(parts);
    let lead = own_parts(parts.take(k));
    let rest = own.skip(lead.len() as int);
    lemma_photo(parts, fill, more, tail);
    lemma_own_prefix(parts, k, n as int);
    lemma_facts(parts, fill, k as nat);
    lemma_leading(parts, fill, k, n);
    assert(parts.take(n as int) =~= parts);
    lemma_leading(parts, fill, k, k as nat);
    let g = facts_to(p, parts, k as nat);
    let f = facts_to(p, parts, n);
    let s = shape(c)->Ok_0;
    assert(s.insert_at == at(parts, k));
    let later = choose|x: Seq<Seg>|
        f.app15 == #[trigger] (g.app15 + x) && forall|i: int|
            0 <= i < x.len() ==> (#[trigger] x[i]).offset >= at(parts, k) && x[i].len >= 4;
    assert(c.take(p.len() as int) =~= p);
    lemma_without_prefix(c, 0, at(parts, k), g.app15, later);
    lemma_without_same(p, c, 0, at(parts, k), g.app15);
    lemma_kept(c);
    lemma_segments(chunks, region);
    lemma_header_split(own, lead, rest, chunks, fill, album(more), without(c, s.insert_at, s.image_end, s.app15));
}

proof fn lemma_own_prefix(parts: Seq<Part>, k: int, n: int)
    requires
        0 <= k <= n <= parts.len(),
    ensures
        own_parts(parts.take(k)).len() <= own_parts(parts.take(n)).len(),
        own_parts(parts.take(n)).take(own_parts(parts.take(k)).len() as int) == own_parts(parts.take(k)),
    decreases n,
{
    let own = own_parts(parts.take(n));
    let lead = own_parts(parts.take(k));
    if k == n {
        assert(own.take(lead.len() as int) =~= lead);
    } else {
        lemma_own_prefix(parts, k, n - 1);
        let less = own_parts(parts.take(n - 1));
        assert(parts.take(n).drop_last() =~= parts.take(n - 1));
        assert(own.take(lead.len() as int) =~= less.take(lead.len() as int));
    }
}

proof fn lemma_header_split(
    own: Seq<Part>,
    lead: Seq<Part>,
    rest: Seq<Part>,
    chunks: Seq<Part>,
    fill: nat,
    more: Seq<u8>,
    behind: Seq<u8>,
)
    requires
        lead.len() <= own.len(),
        own.take(lead.len() as int) == lead,
        rest == own.skip(lead.len() as int),
        picture(own, fill) + more == seq![0xFFu8, 0xD8] + parts_bytes(lead) + behind,
    ensures
        seq![0xFFu8, 0xD8] + parts_bytes(lead) + parts_bytes(chunks) + behind == picture(
            lead + chunks + rest,
            fill,
        ) + more,
{
    let ff = Seq::new(fill, |i: int| 0xFFu8) + seq![0xFFu8, 0xD9];
    let head = seq![0xFFu8, 0xD8] + parts_bytes(lead);
    assert(own =~= lead + rest);
    lemma_parts_concat(lead, rest);
    let all = picture(own, fill) + more;
    assert(all =~= head + (parts_bytes(rest) + ff + more));
    assert(behind =~= all.skip(head.len() as int));
    assert(all.skip(head.len() as int) =~= parts_bytes(rest) + ff + more);
    lemma_parts_concat(lead, chunks);
    lemma_parts_concat(lead + chunks, rest);
    assert(head + parts_bytes(chunks) + behind =~= picture(lead + chunks + rest, fill) + more);
}

} // verus!
