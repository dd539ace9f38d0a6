//! What hiding in a JPEG promises: the region can be found and read again, the picture stays, and
//! a later hide or strip undoes an earlier one.

use super::jpeg::{
    app15_segment, be16, chain, framed, image, is_scan_code, is_standalone, kept, lemma_chain,
    lemma_framed_len, lemma_image_facts, lemma_marker_at, lemma_scan_end, lemma_shape,
    lemma_skip_ff, lemma_without_later, lemma_kept, marker_at, no_facts, noted, payload_parts,
    placed, scan_end, seg_sum, shape, shape_regions, shut, skip_ff, walk, without, Facts,
    JpegCarrier, Seg, Shape, APP15_MAX_PAYLOAD, M_APP0, M_APP1, M_APP15, M_EOI, M_SOI, M_SOS,
};
use super::{reads_back, Carrier, Region, Technique};
use crate::error::Fault;
use crate::io::{clip, gathered, lemma_gather_one};
use vstd::prelude::*;

verus! {

/// `out` holds `[from, to)` of `c` at `at`.
pub open spec fn copied(c: Seq<u8>, from: int, to: int, out: Seq<u8>, at: int) -> bool {
    &&& 0 <= from <= to <= c.len()
    &&& 0 <= at
    &&& at + (to - from) <= out.len()
    &&& forall|k: int| from <= k < to ==> #[trigger] c[k] == out[at + (k - from)]
}

/// `out` holds `bytes` at `at`.
spec fn holds(out: Seq<u8>, at: int, bytes: Seq<u8>) -> bool {
    &&& 0 <= at
    &&& at + bytes.len() <= out.len()
    &&& forall|k: int| 0 <= k < bytes.len() ==> #[trigger] bytes[k] == out[at + k]
}

proof fn lemma_holds_split(out: Seq<u8>, at: int, a: Seq<u8>, b: Seq<u8>)
    requires
        holds(out, at, a + b),
    ensures
        holds(out, at, a),
        holds(out, at + a.len(), b),
{
    assert forall|k: int| 0 <= k < a.len() implies #[trigger] a[k] == out[at + k] by {
        assert((a + b)[k] == a[k]);
    }
    assert forall|k: int| 0 <= k < b.len() implies #[trigger] b[k] == out[at + a.len() + k] by {
        assert((a + b)[a.len() + k] == b[k]);
    }
}

proof fn lemma_holds_clip(out: Seq<u8>, at: int, c: Seq<u8>, from: int, to: int)
    requires
        0 <= from <= to <= c.len(),
        holds(out, at, clip(c, from, to)),
    ensures
        copied(c, from, to, out, at),
{
    assert forall|k: int| from <= k < to implies #[trigger] c[k] == out[at + (k - from)] by {
        assert(clip(c, from, to)[k - from] == c[k]);
    }
}

proof fn lemma_skip_ff_shift(c: Seq<u8>, i: int, p: int, out: Seq<u8>, at: int)
    requires
        copied(c, i, p, out, at),
        skip_ff(c, i) < p,
    ensures
        skip_ff(out, at) == at + (skip_ff(c, i) - i),
    decreases p - i,
{
    lemma_skip_ff(c, i);
    assert(c[i] == out[at + (i - i)]);
    if c[i] == 0xFF {
        assert forall|k: int| i + 1 <= k < p implies #[trigger] c[k] == out[at + 1 + (k - (i + 1))] by {
            assert(c[k] == out[at + (k - i)]);
        }
        lemma_skip_ff_shift(c, i + 1, p, out, at + 1);
    }
}

proof fn lemma_copied_tail(c: Seq<u8>, from: int, mid: int, to: int, out: Seq<u8>, at: int)
    requires
        copied(c, from, to, out, at),
        from <= mid <= to,
    ensures
        copied(c, from, mid, out, at),
        copied(c, mid, to, out, at + (mid - from)),
{
    assert forall|k: int| mid <= k < to implies #[trigger] c[k] == out[at + (mid - from) + (k - mid)] by {
        assert(c[k] == out[at + (k - from)]);
    }
}

pub proof fn lemma_marker_shift(c: Seq<u8>, q: int, out: Seq<u8>, at: int)
    requires
        marker_at(c, q) is Ok,
        0 <= q,
        copied(c, q, marker_at(c, q)->Ok_0.1, out, at),
    ensures
        marker_at(out, at) == Ok::<(u8, int), Fault>(
            (marker_at(c, q)->Ok_0.0, at + (marker_at(c, q)->Ok_0.1 - q)),
        ),
{
    let p = marker_at(c, q)->Ok_0.1;
    lemma_marker_at(c, q);
    lemma_skip_ff(c, q + 1);
    lemma_copied_tail(c, q, q + 1, p, out, at);
    lemma_skip_ff_shift(c, q + 1, p, out, at + 1);
    assert(c[q] == out[at + (q - q)]);
    assert(c[p - 1] == out[at + (p - 1 - q)]);
}

pub proof fn lemma_scan_shift(c: Seq<u8>, q: int, out: Seq<u8>, at: int)
    requires
        scan_end(c, q) is Ok,
        0 <= q,
        copied(c, q, scan_end(c, q)->Ok_0.1, out, at),
    ensures
        scan_end(out, at) == Ok::<(u8, int), Fault>(
            (scan_end(c, q)->Ok_0.0, at + (scan_end(c, q)->Ok_0.1 - q)),
        ),
    decreases c.len() - q,
{
    let p = scan_end(c, q)->Ok_0.1;
    lemma_scan_end(c, q);
    assert(c[q] == out[at + (q - q)]);
    if c[q] != 0xFF {
        lemma_scan_end(c, q + 1);
        lemma_copied_tail(c, q, q + 1, p, out, at);
        lemma_scan_shift(c, q + 1, out, at + 1);
    } else {
        let j = skip_ff(c, q + 1);
        lemma_skip_ff(c, q + 1);
        if is_scan_code(c[j]) {
            lemma_scan_end(c, j + 1);
        }
        lemma_copied_tail(c, q, q + 1, p, out, at);
        lemma_skip_ff_shift(c, q + 1, p, out, at + 1);
        assert(c[j] == out[at + (j - q)]);
        if is_scan_code(c[j]) {
            lemma_copied_tail(c, q, j + 1, p, out, at);
            lemma_scan_shift(c, j + 1, out, at + (j + 1 - q));
        }
    }
}

/// Once facts are no longer collected, a walk depends on the bytes it walks over and on nothing
/// else.
pub proof fn lemma_walk_shift(c: Seq<u8>, m: u8, p: int, f: Facts, out: Seq<u8>, at: int, f2: Facts)
    requires
        !f.open,
        !f2.open,
        2 <= p <= c.len(),
        walk(c, m, p, f, false) is Ok,
        copied(c, p, walk(c, m, p, f, false)->Ok_0.0, out, at),
    ensures
        walk(c, m, p, f, false)->Ok_0.1 == f,
        walk(out, m, at, f2, false) == Ok::<(int, Facts), Fault>(
            (at + (walk(c, m, p, f, false)->Ok_0.0 - p), f2),
        ),
    decreases c.len() - p,
{
    let e = walk(c, m, p, f, false)->Ok_0.0;
    lemma_marker_at(c, p);
    if m == M_EOI {
    } else if is_standalone(m) {
        let (m2, p2) = marker_at(c, p)->Ok_0;
        lemma_walk_end(c, m2, p2, f);
        lemma_copied_tail(c, p, p2, e, out, at);
        lemma_marker_shift(c, p, out, at);
        lemma_walk_shift(c, m2, p2, f, out, at + (p2 - p), f2);
    } else {
        let body = be16(c, p) - 2;
        let end = p + 2 + body;
        lemma_marker_at(c, end);
        lemma_scan_end(c, end);
        let next = if m == M_SOS {
            scan_end(c, end)
        } else {
            marker_at(c, end)
        };
        let (m2, p2) = next->Ok_0;
        let g = if m == M_SOS {
            shut(f)
        } else {
            f
        };
        assert(g == f);
        lemma_walk_end(c, m2, p2, f);
        assert(c[p] == out[at + (p - p)]);
        assert(c[p + 1] == out[at + (p + 1 - p)]);
        assert(be16(out, at) == be16(c, p));
        lemma_copied_tail(c, p, end, e, out, at);
        lemma_copied_tail(c, end, p2, e, out, at + (end - p));
        if m == M_SOS {
            lemma_scan_shift(c, end, out, at + (end - p));
        } else {
            lemma_marker_shift(c, end, out, at + (end - p));
        }
        assert(shut(f2) == f2);
        lemma_walk_shift(c, m2, p2, f, out, at + (p2 - p), f2);
    }
}

/// A walk ends no earlier than it begins and within the file.
pub proof fn lemma_walk_end(c: Seq<u8>, m: u8, p: int, f: Facts)
    requires
        2 <= p <= c.len(),
    ensures
        walk(c, m, p, f, false) matches Ok((e, _)) ==> p <= e <= c.len(),
    decreases c.len() - p,
{
    lemma_marker_at(c, p);
    if m == M_EOI || m == M_SOI {
    } else if is_standalone(m) {
        if let Ok((m2, p2)) = marker_at(c, p) {
            lemma_walk_end(c, m2, p2, f);
        }
    } else if p + 2 <= c.len() && be16(c, p) >= 2 {
        let body = be16(c, p) - 2;
        let end = p + 2 + body;
        if end <= c.len() {
            let g = noted(c, f, m, p - 2, body);
            lemma_marker_at(c, end);
            lemma_scan_end(c, end);
            if m == M_SOS {
                if let Ok((m2, p2)) = scan_end(c, end) {
                    lemma_walk_end(c, m2, p2, shut(g));
                }
            } else if let Ok((m2, p2)) = marker_at(c, end) {
                lemma_walk_end(c, m2, p2, g);
            }
        }
    }
}

/// A walk only adds to the facts.
proof fn lemma_walk_appends(c: Seq<u8>, m: u8, p: int, f: Facts)
    requires
        2 <= p <= c.len(),
    ensures
        walk(c, m, p, f, false) matches Ok((e, g)) ==> {
            let n = f.app15.len() as int;
            &&& p <= e <= c.len()
            &&& n <= g.app15.len()
            &&& g.app15.take(n) == f.app15
            &&& placed(g.app15.skip(n), p - 2, e)
            &&& g.insert_at == f.insert_at || (f.open && f.leading && g.insert_at >= p + 2
                && g.insert_at <= e)
            &&& !f.open ==> g == f
        },
    decreases c.len() - p,
{
    lemma_marker_at(c, p);
    let n = f.app15.len() as int;
    assert(f.app15.take(n) =~= f.app15);
    assert(f.app15.skip(n) =~= Seq::<Seg>::empty());
    if m == M_EOI || m == M_SOI {
    } else if is_standalone(m) {
        if let Ok((m2, p2)) = marker_at(c, p) {
            lemma_walk_appends(c, m2, p2, f);
        }
    } else if p + 2 <= c.len() && be16(c, p) >= 2 {
        let body = be16(c, p) - 2;
        let end = p + 2 + body;
        if end <= c.len() {
            let g1 = noted(c, f, m, p - 2, body);
            lemma_marker_at(c, end);
            lemma_scan_end(c, end);
            if m == M_SOS {
                if let Ok((m2, p2)) = scan_end(c, end) {
                    lemma_walk_appends(c, m2, p2, shut(g1));
                }
            } else if let Ok((m2, p2)) = marker_at(c, end) {
                lemma_walk_appends(c, m2, p2, g1);
                if let Ok((e, g)) = walk(c, m2, p2, g1, false) {
                    if f.open && m == M_APP15 {
                        let s = Seg { offset: p - 2, len: body + 4 };
                        assert(g.app15.take(n + 1) == g1.app15);
                        assert(g.app15.take(n) =~= g.app15.take(n + 1).take(n));
                        assert(g1.app15.take(n) =~= f.app15);
                        assert(g.app15[n] == g.app15.take(n + 1)[n]);
                        assert(g.app15[n] == s);
                        let a = g.app15.skip(n);
                        let b = g.app15.skip(n + 1);
                        assert(forall|i: int| 1 <= i < a.len() ==> a[i] == b[i - 1]);
                        assert(a[0] == s);
                    }
                }
            }
        }
    }
}

/// The rest of an image from the start of a marker on.
spec fn rest_of(c: Seq<u8>, q: int, f: Facts) -> Result<(int, Facts), Fault> {
    match marker_at(c, q) {
        Ok((m, p)) => walk(c, m, p, f, false),
        Err(e) => Err(e),
    }
}

/// The APP15 segments that a walk from `f` to `g` finds.
spec fn found(f: Facts, g: Facts) -> Seq<Seg> {
    g.app15.skip(f.app15.len() as int)
}

/// Up to the first segment that is left out, everything stays.
proof fn lemma_without_head(c: Seq<u8>, from: int, mid: int, to: int, list: Seq<Seg>)
    requires
        forall|i: int| 0 <= i < list.len() ==> (#[trigger] list[i]).offset >= mid && list[i].len >= 4,
        0 <= from <= mid <= to <= c.len(),
    ensures
        without(c, from, to, list) == clip(c, from, mid) + without(c, mid, to, list),
    decreases list.len(),
{
    if list.len() == 0 {
        assert(clip(c, from, to) =~= clip(c, from, mid) + clip(c, mid, to));
    } else {
        let s = list[0];
        assert(forall|i: int| 0 <= i < list.drop_first().len() ==> list.drop_first()[i] == list[i + 1]);
        if s.offset + s.len <= to {
            assert(clip(c, from, s.offset) =~= clip(c, from, mid) + clip(c, mid, s.offset));
            assert(without(c, from, to, list) =~= clip(c, from, mid) + without(c, mid, to, list));
        } else {
            lemma_without_head(c, from, mid, to, list.drop_first());
        }
    }
}

/// Behind the last segment that is left out, everything stays.
pub proof fn lemma_without_tail(c: Seq<u8>, from: int, mid: int, to: int, list: Seq<Seg>)
    requires
        forall|i: int|
            0 <= i < list.len() ==> (#[trigger] list[i]).offset + list[i].len <= mid && list[i].len >= 4,
        0 <= from <= mid <= to <= c.len(),
    ensures
        without(c, from, to, list) == without(c, from, mid, list) + clip(c, mid, to),
    decreases list.len(),
{
    if list.len() == 0 {
        assert(clip(c, from, to) =~= clip(c, from, mid) + clip(c, mid, to));
    } else {
        let s = list[0];
        let rest = list.drop_first();
        assert(forall|i: int| 0 <= i < rest.len() ==> rest[i] == list[i + 1]);
        if s.offset >= from {
            lemma_without_tail(c, s.offset + s.len, mid, to, rest);
            assert(without(c, from, to, list) =~= without(c, from, mid, list) + clip(c, mid, to));
        } else {
            lemma_without_tail(c, from, mid, to, rest);
        }
    }
}

/// Fill bytes before a marker make no difference.
proof fn lemma_fill_bytes(out: Seq<u8>, at: int, at2: int, f: Facts)
    requires
        0 <= at <= at2 < out.len(),
        forall|k: int| at <= k <= at2 ==> out[k] == 0xFF,
    ensures
        rest_of(out, at, f) == rest_of(out, at2, f),
        at < at2 ==> skip_ff(out, at + 1) == skip_ff(out, at2 + 1),
    decreases at2 - at,
{
    if at < at2 {
        lemma_fill_bytes(out, at + 1, at2, f);
        assert(skip_ff(out, at + 1) == skip_ff(out, at + 2));
    }
}

/// One segment that is kept: the walk goes on behind it, and the facts change as they did.
proof fn lemma_segment_step(c: Seq<u8>, m: u8, p: int, f: Facts, out: Seq<u8>, at: int, f2: Facts)
    requires
        !is_standalone(m) && m != M_EOI && m != M_SOI && m != M_SOS,
        2 <= p,
        2 <= at,
        p + 2 <= c.len(),
        be16(c, p) >= 2,
        copied(c, p, p + be16(c, p), out, at),
        f.open,
        f2.open,
        f2.has_exif == f.has_exif,
    ensures
        ({
            let body = be16(c, p) - 2;
            let h = noted(out, f2, m, at - 2, body);
            &&& walk(out, m, at, f2, false) == rest_of(out, at + be16(c, p), h)
            &&& h.has_exif == noted(c, f, m, p - 2, body).has_exif
        }),
{
    let body = be16(c, p) - 2;
    assert(c[p] == out[at + (p - p)]);
    assert(c[p + 1] == out[at + (p + 1 - p)]);
    assert(be16(out, at) == be16(c, p));
    if body >= 6 {
        let theirs = out.subrange(at + 2, at + 8);
        let ours = c.subrange(p + 2, p + 8);
        assert forall|k: int| 0 <= k < 6 implies theirs[k] == ours[k] by {
            assert(c[p + 2 + k] == out[at + (p + 2 + k - p)]);
        }
        assert(theirs =~= ours);
    }
    lemma_marker_at(out, at + be16(c, p));
}

/// The first scan and everything behind it.
proof fn lemma_scan_step(c: Seq<u8>, p: int, f: Facts, out: Seq<u8>, at: int, f2: Facts)
    requires
        2 <= p <= c.len(),
        2 <= at,
        f.open,
        f2.open,
        f2.has_exif == f.has_exif,
        walk(c, M_SOS, p, f, false) is Ok,
        copied(c, p, walk(c, M_SOS, p, f, false)->Ok_0.0, out, at),
    ensures
        ({
            let (e, g) = walk(c, M_SOS, p, f, false)->Ok_0;
            let g2 = Facts { leading: false, open: false, ..f2 };
            &&& g == (Facts { leading: false, open: false, ..f })
            &&& walk(out, M_SOS, at, f2, false) == Ok::<(int, Facts), Fault>((at + (e - p), g2))
        }),
{
    let (e, g) = walk(c, M_SOS, p, f, false)->Ok_0;
    let body = be16(c, p) - 2;
    let end = p + 2 + body;
    let g1 = noted(c, f, M_SOS, p - 2, body);
    lemma_scan_end(c, end);
    let (m2, p2) = scan_end(c, end)->Ok_0;
    lemma_walk_appends(c, m2, p2, shut(g1));
    lemma_copied_tail(c, p, end, e, out, at);
    assert(c[p] == out[at + (p - p)]);
    assert(c[p + 1] == out[at + (p + 1 - p)]);
    assert(be16(out, at) == be16(c, p));
    let at_end = at + (end - p);
    lemma_copied_tail(c, end, p2, e, out, at_end);
    lemma_scan_shift(c, end, out, at_end);
    let h1 = noted(out, f2, M_SOS, at - 2, body);
    lemma_walk_shift(c, m2, p2, shut(g1), out, at_end + (p2 - end), shut(h1));
}

/// From where new segments go on: the same walk, with the remaining APP15 segments left out.
#[verifier::rlimit(40)]
proof fn lemma_after(c: Seq<u8>, q: int, f: Facts, out: Seq<u8>, at: int, f2: Facts) -> (g2: Facts)
    requires
        0 <= q,
        f.open,
        f2.open,
        f2.leading == f.leading,
        f2.has_exif == f.has_exif,
        f.insert_at <= q,
        rest_of(c, q, f) is Ok,
        ({
            let (e, g) = rest_of(c, q, f)->Ok_0;
            g.insert_at == f.insert_at && holds(out, at, without(c, q, e, found(f, g)))
        }),
    ensures
        ({
            let (e, g) = rest_of(c, q, f)->Ok_0;
            &&& rest_of(out, at, f2) == Ok::<(int, Facts), Fault>(
                (at + without(c, q, e, found(f, g)).len(), g2),
            )
            &&& g2.app15 == f2.app15
            &&& g2.insert_at == f2.insert_at
            &&& g2.has_exif == g.has_exif
        }),
    decreases c.len() - q, 1int,
{
    let (e, g) = rest_of(c, q, f)->Ok_0;
    let (m, p) = marker_at(c, q)->Ok_0;
    let list = found(f, g);
    lemma_marker_at(c, q);
    lemma_walk_appends(c, m, p, f);
    let bytes = without(c, q, e, list);
    if m == M_EOI {
        assert(list =~= Seq::<Seg>::empty());
        lemma_holds_clip(out, at, c, q, p);
        lemma_marker_shift(c, q, out, at);
        f2
    } else if is_standalone(m) {
        lemma_marker_at(c, p);
        let (m2, p2) = marker_at(c, p)->Ok_0;
        lemma_walk_appends(c, m2, p2, f);
        lemma_without_head(c, q, p, e, list);
        lemma_holds_split(out, at, clip(c, q, p), without(c, p, e, list));
        lemma_holds_clip(out, at, c, q, p);
        lemma_marker_shift(c, q, out, at);
        let g2 = lemma_after(c, p, f, out, at + (p - q), f2);
        lemma_marker_at(out, at + (p - q));
        g2
    } else if m == M_SOS {
        lemma_scan_step_facts(c, p, f);
        assert(list =~= Seq::<Seg>::empty());
        lemma_holds_clip(out, at, c, q, e);
        lemma_copied_tail(c, q, p, e, out, at);
        lemma_marker_shift(c, q, out, at);
        lemma_scan_step(c, p, f, out, at + (p - q), f2);
        Facts { leading: false, open: false, ..f2 }
    } else {
        let body = be16(c, p) - 2;
        let end = p + 2 + body;
        let g1 = noted(c, f, m, p - 2, body);
        lemma_marker_at(c, end);
        let (m2, p2) = marker_at(c, end)->Ok_0;
        lemma_walk_appends(c, m2, p2, g1);
        // A segment here is past the leading run.
        assert(!g1.leading) by {
            if g1.leading {
                assert(g1.insert_at == end);
            }
        }
        if m == M_APP15 {
            lemma_after_app15(c, q, f, out, at, f2)
        } else {
            assert(found(g1, g) =~= list);
            lemma_without_head(c, q, end, e, list);
            let rest = without(c, end, e, list);
            lemma_holds_split(out, at, clip(c, q, end), rest);
            lemma_holds_clip(out, at, c, q, end);
            lemma_copied_tail(c, q, p, end, out, at);
            lemma_marker_shift(c, q, out, at);
            let at_p = at + (p - q);
            lemma_segment_step(c, m, p, f, out, at_p, f2);
            let h1 = noted(out, f2, m, at_p - 2, body);
            lemma_after(c, end, g1, out, at_p + (end - p), h1)
        }
    }
}

proof fn lemma_scan_step_facts(c: Seq<u8>, p: int, f: Facts)
    requires
        2 <= p <= c.len(),
        f.open,
        walk(c, M_SOS, p, f, false) is Ok,
    ensures
        walk(c, M_SOS, p, f, false)->Ok_0.1 == (Facts { leading: false, open: false, ..f }),
        p <= walk(c, M_SOS, p, f, false)->Ok_0.0 <= c.len(),
{
    let body = be16(c, p) - 2;
    let end = p + 2 + body;
    let g1 = noted(c, f, M_SOS, p - 2, body);
    lemma_scan_end(c, end);
    let (m2, p2) = scan_end(c, end)->Ok_0;
    lemma_walk_appends(c, m2, p2, shut(g1));
}

/// [`lemma_after`] where the next segment is one that is left out.
#[verifier::rlimit(40)]
proof fn lemma_after_app15(c: Seq<u8>, q: int, f: Facts, out: Seq<u8>, at: int, f2: Facts) -> (g2:
    Facts)
    requires
        0 <= q,
        f.open,
        f2.open,
        !f.leading,
        !f2.leading,
        f2.has_exif == f.has_exif,
        f.insert_at <= q,
        rest_of(c, q, f) is Ok,
        marker_at(c, q)->Ok_0.0 == M_APP15,
        ({
            let (e, g) = rest_of(c, q, f)->Ok_0;
            g.insert_at == f.insert_at && holds(out, at, without(c, q, e, found(f, g)))
        }),
    ensures
        ({
            let (e, g) = rest_of(c, q, f)->Ok_0;
            &&& rest_of(out, at, f2) == Ok::<(int, Facts), Fault>(
                (at + without(c, q, e, found(f, g)).len(), g2),
            )
            &&& g2.app15 == f2.app15
            &&& g2.insert_at == f2.insert_at
            &&& g2.has_exif == g.has_exif
        }),
    decreases c.len() - q, 0int,
{
    let (e, g) = rest_of(c, q, f)->Ok_0;
    let (m, p) = marker_at(c, q)->Ok_0;
    lemma_marker_at(c, q);
    lemma_dropped_step(c, q, f, out, at);
    let body = be16(c, p) - 2;
    let end = p + 2 + body;
    let g1 = noted(c, f, m, p - 2, body);
    let at2 = at + (p - 2 - q);
    lemma_marker_at(c, end);
    lemma_walk_appends(c, marker_at(c, end)->Ok_0.0, marker_at(c, end)->Ok_0.1, g1);
    let g2 = lemma_after(c, end, g1, out, at2, f2);
    lemma_dropped_fill(c, q, out, at, f2);
    g2
}

/// The bytes around an APP15 segment that is left out.
proof fn lemma_dropped_step(c: Seq<u8>, q: int, f: Facts, out: Seq<u8>, at: int)
    requires
        0 <= q,
        f.open,
        rest_of(c, q, f) is Ok,
        marker_at(c, q)->Ok_0.0 == M_APP15,
        ({
            let (e, g) = rest_of(c, q, f)->Ok_0;
            holds(out, at, without(c, q, e, found(f, g)))
        }),
    ensures
        ({
            let (e, g) = rest_of(c, q, f)->Ok_0;
            let p = marker_at(c, q)->Ok_0.1;
            let end = p + be16(c, p);
            let g1 = noted(c, f, M_APP15, p - 2, be16(c, p) - 2);
            let rest = without(c, end, e, found(g1, g));
            &&& rest_of(c, end, g1) == rest_of(c, q, f)
            &&& without(c, q, e, found(f, g)) == clip(c, q, p - 2) + rest
            &&& copied(c, q, p - 2, out, at)
            &&& holds(out, at + (p - 2 - q), rest)
        }),
{
    let (e, g) = rest_of(c, q, f)->Ok_0;
    let (m, p) = marker_at(c, q)->Ok_0;
    lemma_marker_at(c, q);
    lemma_walk_appends(c, m, p, f);
    let list = found(f, g);
    let body = be16(c, p) - 2;
    let end = p + 2 + body;
    let g1 = noted(c, f, m, p - 2, body);
    lemma_marker_at(c, end);
    let (m2, p2) = marker_at(c, end)->Ok_0;
    lemma_walk_appends(c, m2, p2, g1);
    let s = Seg { offset: p - 2, len: body + 4 };
    let n = f.app15.len() as int;
    assert(g.app15.take(n + 1)[n] == s);
    assert(list[0] == s);
    assert(list.drop_first() =~= found(g1, g));
    let rest = without(c, end, e, found(g1, g));
    lemma_holds_split(out, at, clip(c, q, p - 2), rest);
    lemma_holds_clip(out, at, c, q, p - 2);
}

/// Fill bytes in front of an APP15 segment that is left out run on into the next marker.
proof fn lemma_dropped_fill(c: Seq<u8>, q: int, out: Seq<u8>, at: int, f2: Facts)
    requires
        0 <= q,
        marker_at(c, q) is Ok,
        copied(c, q, marker_at(c, q)->Ok_0.1 - 2, out, at),
        marker_at(out, at + (marker_at(c, q)->Ok_0.1 - 2 - q)) is Ok,
    ensures
        rest_of(out, at, f2) == rest_of(out, at + (marker_at(c, q)->Ok_0.1 - 2 - q), f2),
{
    let p = marker_at(c, q)->Ok_0.1;
    let at2 = at + (p - 2 - q);
    lemma_marker_at(c, q);
    lemma_marker_at(out, at2);
    lemma_skip_ff(c, q + 1);
    assert forall|k: int| at <= k <= at2 implies out[k] == 0xFF by {
        if k < at2 {
            assert(c[q + (k - at)] == out[at + (q + (k - at) - q)]);
        }
    }
    lemma_fill_bytes(out, at, at2, f2);
}

/// The segments of `framed(data)` when it stands at `at`.
spec fn framed_segs(at: int, data: Seq<u8>) -> Seq<Seg>
    decreases data.len(),
{
    let m = APP15_MAX_PAYLOAD as int;
    if data.len() == 0 {
        Seq::empty()
    } else if data.len() <= m {
        seq![Seg { offset: at, len: data.len() as int + 4 }]
    } else {
        seq![Seg { offset: at, len: m + 4 }] + framed_segs(at + m + 4, data.skip(m))
    }
}

/// The facts after new segments at the end of the leading run.
spec fn with_framed(f: Facts, at: int, data: Seq<u8>) -> Facts {
    Facts {
        app15: f.app15 + framed_segs(at, data),
        insert_at: if data.len() == 0 {
            f.insert_at
        } else {
            at + framed(data).len()
        },
        ..f
    }
}

proof fn lemma_one_inserted(out: Seq<u8>, at: int, payload: Seq<u8>, f: Facts)
    requires
        f.open,
        f.leading,
        0 <= at,
        0 < payload.len() <= APP15_MAX_PAYLOAD,
        holds(out, at, app15_segment(payload)),
    ensures
        rest_of(out, at, f) == rest_of(
            out,
            at + payload.len() + 4,
            Facts {
                app15: f.app15.push(Seg { offset: at, len: payload.len() as int + 4 }),
                insert_at: at + payload.len() + 4,
                ..f
            },
        ),
{
    let n = payload.len() as int;
    let bytes = app15_segment(payload);
    assert(bytes.len() == n + 4);
    assert(bytes[0] == 0xFF && bytes[1] == M_APP15);
    assert(bytes[2] == ((n + 2) / 256) as u8 && bytes[3] == ((n + 2) % 256) as u8);
    assert(bytes[0] == out[at + 0]);
    assert(bytes[1] == out[at + 1]);
    assert(bytes[2] == out[at + 2]);
    assert(bytes[3] == out[at + 3]);
    assert(be16(out, at + 2) == n + 2);
    assert(marker_at(out, at) == Ok::<(u8, int), Fault>((M_APP15, at + 2)));
    lemma_marker_at(out, at + n + 4);
}

proof fn lemma_inserted(out: Seq<u8>, at: int, data: Seq<u8>, f: Facts)
    requires
        f.open,
        f.leading,
        0 <= at,
        holds(out, at, framed(data)),
    ensures
        rest_of(out, at, f) == rest_of(out, at + framed(data).len(), with_framed(f, at, data)),
    decreases data.len(),
{
    let m = APP15_MAX_PAYLOAD as int;
    if data.len() == 0 {
        assert(f.app15 + framed_segs(at, data) =~= f.app15);
    } else if data.len() <= m {
        lemma_one_inserted(out, at, data, f);
        let seg = Seg { offset: at, len: data.len() as int + 4 };
        assert(f.app15.push(seg) =~= f.app15 + framed_segs(at, data));
    } else {
        let first = data.take(m);
        let rest = data.skip(m);
        lemma_holds_split(out, at, app15_segment(first), framed(rest));
        lemma_one_inserted(out, at, first, f);
        let f1 = Facts {
            app15: f.app15.push(Seg { offset: at, len: m + 4 }),
            insert_at: at + m + 4,
            ..f
        };
        lemma_inserted(out, at + m + 4, rest, f1);
        assert(f1.app15 + framed_segs(at + m + 4, rest) =~= f.app15 + framed_segs(at, data));
    }
}

/// Everything that is expected behind `q`, up to the end `e` of the image.
spec fn expected(c: Seq<u8>, q: int, ia: int, e: int, list: Seq<Seg>, data: Seq<u8>) -> Seq<u8> {
    without(c, q, ia, list) + framed(data) + without(c, ia, e, list)
}

spec fn before_ok(c: Seq<u8>, q: int, f: Facts, data: Seq<u8>, out: Seq<u8>, at: int, f2: Facts) -> bool {
    &&& 0 <= q
    &&& 2 <= at
    &&& f.open
    &&& f2.open
    &&& f.leading
    &&& f2.leading
    &&& f2.has_exif == f.has_exif
    &&& f.insert_at <= q
    &&& rest_of(c, q, f) is Ok
    &&& ({
        let (e, g) = rest_of(c, q, f)->Ok_0;
        q <= g.insert_at && holds(out, at, expected(c, q, g.insert_at, e, found(f, g), data))
    })
}

spec fn before_result(
    c: Seq<u8>,
    q: int,
    f: Facts,
    data: Seq<u8>,
    out: Seq<u8>,
    at: int,
    f2: Facts,
    g2: Facts,
) -> bool {
    let (e, g) = rest_of(c, q, f)->Ok_0;
    let list = found(f, g);
    let ia = g.insert_at;
    let here = at + without(c, q, ia, list).len();
    &&& rest_of(out, at, f2) == Ok::<(int, Facts), Fault>(
        (at + expected(c, q, ia, e, list, data).len(), g2),
    )
    &&& g2.app15 == f2.app15 + framed_segs(here, data)
    &&& g2.has_exif == g.has_exif
    &&& data.len() > 0 ==> g2.insert_at == here + framed(data).len()
    &&& data.len() == 0 && list.len() == 0 && f2.insert_at == f.insert_at + (at - q)
        ==> g2.insert_at == ia + (at - q)
}

/// A kept prefix moves the rest along.
proof fn lemma_expected_head(
    c: Seq<u8>,
    q: int,
    mid: int,
    ia: int,
    e: int,
    list: Seq<Seg>,
    data: Seq<u8>,
    out: Seq<u8>,
    at: int,
)
    requires
        forall|i: int| 0 <= i < list.len() ==> (#[trigger] list[i]).offset >= mid && list[i].len >= 4,
        0 <= q <= mid <= ia <= e <= c.len(),
        holds(out, at, expected(c, q, ia, e, list, data)),
    ensures
        expected(c, q, ia, e, list, data) == clip(c, q, mid) + expected(c, mid, ia, e, list, data),
        without(c, q, ia, list).len() == (mid - q) + without(c, mid, ia, list).len(),
        copied(c, q, mid, out, at),
        holds(out, at + (mid - q), expected(c, mid, ia, e, list, data)),
{
    lemma_without_head(c, q, mid, ia, list);
    let rest = expected(c, mid, ia, e, list, data);
    assert(expected(c, q, ia, e, list, data) =~= clip(c, q, mid) + rest);
    lemma_holds_split(out, at, clip(c, q, mid), rest);
    lemma_holds_clip(out, at, c, q, mid);
}

/// Up to where new segments go: the same walk without the APP15 segments, then the new ones.
proof fn lemma_before(
    c: Seq<u8>,
    q: int,
    f: Facts,
    data: Seq<u8>,
    out: Seq<u8>,
    at: int,
    f2: Facts,
) -> (g2: Facts)
    requires
        before_ok(c, q, f, data, out, at, f2),
    ensures
        before_result(c, q, f, data, out, at, f2, g2),
    decreases c.len() - q, 1int,
{
    let (e, g) = rest_of(c, q, f)->Ok_0;
    let (m, p) = marker_at(c, q)->Ok_0;
    lemma_marker_at(c, q);
    if f.insert_at == g.insert_at {
        lemma_before_here(c, q, f, data, out, at, f2)
    } else if is_standalone(m) {
        lemma_before_standalone(c, q, f, data, out, at, f2)
    } else {
        lemma_still_leading(c, q, f);
        if m == M_APP15 {
            lemma_before_dropped(c, q, f, data, out, at, f2)
        } else {
            lemma_before_segment(c, q, f, data, out, at, f2)
        }
    }
}

/// While the leading run is not over, the next segment belongs to it.
proof fn lemma_still_leading(c: Seq<u8>, q: int, f: Facts)
    requires
        0 <= q,
        f.open,
        f.leading,
        rest_of(c, q, f) is Ok,
        !is_standalone(marker_at(c, q)->Ok_0.0),
        f.insert_at != rest_of(c, q, f)->Ok_0.1.insert_at,
    ensures
        ({
            let (m, p) = marker_at(c, q)->Ok_0;
            let (e, g) = rest_of(c, q, f)->Ok_0;
            let end = p + be16(c, p);
            let g1 = noted(c, f, m, p - 2, be16(c, p) - 2);
            &&& m == M_APP0 || m == M_APP1 || m == M_APP15
            &&& 2 <= p
            &&& p + 2 <= end <= g.insert_at <= e <= c.len()
            &&& be16(c, p) >= 2
            &&& g1.leading && g1.open && g1.insert_at == end
            &&& rest_of(c, end, g1) == rest_of(c, q, f)
            &&& placed(found(g1, g), end, e)
        }),
{
    let (m, p) = marker_at(c, q)->Ok_0;
    lemma_marker_at(c, q);
    if m == M_SOS {
        lemma_scan_step_facts(c, p, f);
    }
    let body = be16(c, p) - 2;
    let end = p + 2 + body;
    let g1 = noted(c, f, m, p - 2, body);
    lemma_marker_at(c, end);
    let (m2, p2) = marker_at(c, end)->Ok_0;
    lemma_walk_appends(c, m2, p2, g1);
}

proof fn lemma_before_here(
    c: Seq<u8>,
    q: int,
    f: Facts,
    data: Seq<u8>,
    out: Seq<u8>,
    at: int,
    f2: Facts,
) -> (g2: Facts)
    requires
        before_ok(c, q, f, data, out, at, f2),
        f.insert_at == rest_of(c, q, f)->Ok_0.1.insert_at,
    ensures
        before_result(c, q, f, data, out, at, f2, g2),
{
    let (e, g) = rest_of(c, q, f)->Ok_0;
    let (m, p) = marker_at(c, q)->Ok_0;
    let list = found(f, g);
    let ia = g.insert_at;
    lemma_marker_at(c, q);
    lemma_walk_appends(c, m, p, f);
    assert(q == ia);
    lemma_without_later(c, q, q, list);
    assert(without(c, q, ia, list) =~= Seq::<u8>::empty());
    assert(expected(c, q, ia, e, list, data) =~= framed(data) + without(c, ia, e, list));
    lemma_holds_split(out, at, framed(data), without(c, ia, e, list));
    lemma_inserted(out, at, data, f2);
    let f3 = with_framed(f2, at, data);
    lemma_after(c, q, f, out, at + framed(data).len(), f3)
}

proof fn lemma_before_standalone(
    c: Seq<u8>,
    q: int,
    f: Facts,
    data: Seq<u8>,
    out: Seq<u8>,
    at: int,
    f2: Facts,
) -> (g2: Facts)
    requires
        before_ok(c, q, f, data, out, at, f2),
        is_standalone(marker_at(c, q)->Ok_0.0),
        f.insert_at != rest_of(c, q, f)->Ok_0.1.insert_at,
    ensures
        before_result(c, q, f, data, out, at, f2, g2),
    decreases c.len() - q, 0int,
{
    let (e, g) = rest_of(c, q, f)->Ok_0;
    let (m, p) = marker_at(c, q)->Ok_0;
    let list = found(f, g);
    lemma_marker_at(c, q);
    lemma_marker_at(c, p);
    let (m2, p2) = marker_at(c, p)->Ok_0;
    lemma_walk_appends(c, m2, p2, f);
    assert(rest_of(c, p, f) == rest_of(c, q, f));
    lemma_expected_head(c, q, p, g.insert_at, e, list, data, out, at);
    lemma_marker_shift(c, q, out, at);
    let g2 = lemma_before(c, p, f, data, out, at + (p - q), f2);
    lemma_marker_at(out, at + (p - q));
    assert(rest_of(out, at, f2) == rest_of(out, at + (p - q), f2));
    g2
}

proof fn lemma_before_dropped(
    c: Seq<u8>,
    q: int,
    f: Facts,
    data: Seq<u8>,
    out: Seq<u8>,
    at: int,
    f2: Facts,
) -> (g2: Facts)
    requires
        before_ok(c, q, f, data, out, at, f2),
        marker_at(c, q)->Ok_0.0 == M_APP15,
        f.insert_at != rest_of(c, q, f)->Ok_0.1.insert_at,
    ensures
        before_result(c, q, f, data, out, at, f2, g2),
    decreases c.len() - q, 0int,
{
    let (m, p) = marker_at(c, q)->Ok_0;
    lemma_marker_at(c, q);
    lemma_still_leading(c, q, f);
    lemma_before_app15(c, q, f, data, out, at);
    let end = p + be16(c, p);
    let g1 = noted(c, f, m, p - 2, be16(c, p) - 2);
    let at2 = at + (p - 2 - q);
    let g2 = lemma_before(c, end, g1, data, out, at2, f2);
    lemma_dropped_fill(c, q, out, at, f2);
    g2
}

proof fn lemma_before_segment(
    c: Seq<u8>,
    q: int,
    f: Facts,
    data: Seq<u8>,
    out: Seq<u8>,
    at: int,
    f2: Facts,
) -> (g2: Facts)
    requires
        before_ok(c, q, f, data, out, at, f2),
        ({
            let m = marker_at(c, q)->Ok_0.0;
            m == M_APP0 || m == M_APP1
        }),
        f.insert_at != rest_of(c, q, f)->Ok_0.1.insert_at,
    ensures
        before_result(c, q, f, data, out, at, f2, g2),
    decreases c.len() - q, 0int,
{
    let (e, g) = rest_of(c, q, f)->Ok_0;
    let (m, p) = marker_at(c, q)->Ok_0;
    let list = found(f, g);
    lemma_marker_at(c, q);
    lemma_still_leading(c, q, f);
    let body = be16(c, p) - 2;
    let end = p + 2 + body;
    let g1 = noted(c, f, m, p - 2, body);
    assert(found(g1, g) =~= list);
    lemma_expected_head(c, q, end, g.insert_at, e, list, data, out, at);
    lemma_copied_tail(c, q, p, end, out, at);
    lemma_marker_shift(c, q, out, at);
    let at_p = at + (p - q);
    lemma_segment_step(c, m, p, f, out, at_p, f2);
    let h1 = noted(out, f2, m, at_p - 2, body);
    lemma_before(c, end, g1, data, out, at_p + (end - p), h1)
}

/// The bytes around an APP15 segment of the leading run, which is left out.
proof fn lemma_before_app15(c: Seq<u8>, q: int, f: Facts, data: Seq<u8>, out: Seq<u8>, at: int)
    requires
        0 <= q,
        f.open,
        f.leading,
        rest_of(c, q, f) is Ok,
        marker_at(c, q)->Ok_0.0 == M_APP15,
        ({
            let (e, g) = rest_of(c, q, f)->Ok_0;
            holds(out, at, expected(c, q, g.insert_at, e, found(f, g), data))
        }),
    ensures
        ({
            let (e, g) = rest_of(c, q, f)->Ok_0;
            let p = marker_at(c, q)->Ok_0.1;
            let end = p + be16(c, p);
            let g1 = noted(c, f, M_APP15, p - 2, be16(c, p) - 2);
            let ia = g.insert_at;
            let rest = expected(c, end, ia, e, found(g1, g), data);
            &&& rest_of(c, end, g1) == rest_of(c, q, f)
            &&& found(f, g).len() > 0
            &&& expected(c, q, ia, e, found(f, g), data) == clip(c, q, p - 2) + rest
            &&& without(c, q, ia, found(f, g)).len() == (p - 2 - q) + without(
                c,
                end,
                ia,
                found(g1, g),
            ).len()
            &&& copied(c, q, p - 2, out, at)
            &&& holds(out, at + (p - 2 - q), rest)
        }),
{
    let (e, g) = rest_of(c, q, f)->Ok_0;
    let (m, p) = marker_at(c, q)->Ok_0;
    lemma_marker_at(c, q);
    lemma_walk_appends(c, m, p, f);
    let list = found(f, g);
    let ia = g.insert_at;
    let body = be16(c, p) - 2;
    let end = p + 2 + body;
    let g1 = noted(c, f, m, p - 2, body);
    lemma_marker_at(c, end);
    let (m2, p2) = marker_at(c, end)->Ok_0;
    lemma_walk_appends(c, m2, p2, g1);
    let s = Seg { offset: p - 2, len: body + 4 };
    let n = f.app15.len() as int;
    assert(g.app15.take(n + 1)[n] == s);
    assert(list[0] == s);
    assert(list.drop_first() =~= found(g1, g));
    let rest = expected(c, end, ia, e, found(g1, g), data);
    assert(without(c, q, ia, list) == clip(c, q, p - 2) + without(c, end, ia, found(g1, g)));
    assert(without(c, ia, e, list) == without(c, ia, e, found(g1, g)));
    assert(expected(c, q, ia, e, list, data) =~= clip(c, q, p - 2) + rest);
    lemma_holds_split(out, at, clip(c, q, p - 2), rest);
    lemma_holds_clip(out, at, c, q, p - 2);
}

/// Chained images stay chained wherever they stand.
proof fn lemma_chain_shift(c: Seq<u8>, e: int, out: Seq<u8>, at: int)
    requires
        0 <= e <= c.len(),
        copied(c, e, chain(c, e), out, at),
        ({
            let x = at + (chain(c, e) - e);
            !(x + 2 <= out.len() && out[x] == 0xFF && out[x + 1] == M_SOI)
        }),
    ensures
        chain(out, at) == at + (chain(c, e) - e),
    decreases c.len() - e,
{
    let f = shut(no_facts());
    if e + 2 <= c.len() && c[e] == 0xFF && c[e + 1] == M_SOI {
        if let Ok((e2, g)) = image(c, e, f, false) {
            lemma_marker_at(c, e + 2);
            let (m, p) = marker_at(c, e + 2)->Ok_0;
            lemma_walk_end(c, m, p, f);
            lemma_chain(c, e2);
            let x = chain(c, e2);
            lemma_copied_tail(c, e, e2, x, out, at);
            assert(c[e] == out[at + (e - e)]);
            assert(c[e + 1] == out[at + (e + 1 - e)]);
            lemma_copied_tail(c, e, e + 2, e2, out, at);
            lemma_copied_tail(c, e + 2, p, e2, out, at + 2);
            lemma_marker_shift(c, e + 2, out, at + 2);
            lemma_walk_shift(c, m, p, f, out, at + 2 + (p - (e + 2)), f);
            lemma_chain_shift(c, e2, out, at + (e2 - e));
        }
    }
}

/// A file made of the kept parts of a JPEG, new APP15 segments in their place, and a tail.
pub open spec fn spliced(c: Seq<u8>, s: Shape, data: Seq<u8>, tail: Seq<u8>) -> Seq<u8> {
    without(c, 0, s.insert_at, s.app15) + framed(data) + without(c, s.insert_at, s.image_end, s.app15)
        + tail
}

/// Whether `tail` begins like an image.
pub open spec fn starts_image(tail: Seq<u8>) -> bool {
    tail.len() >= 2 && tail[0] == 0xFF && tail[1] == M_SOI
}

/// The structure of such a file.
proof fn lemma_spliced(c: Seq<u8>, data: Seq<u8>, tail: Seq<u8>)
    requires
        shape(c) is Ok,
        !starts_image(tail),
    ensures
        ({
            let s = shape(c)->Ok_0;
            let out = spliced(c, s, data, tail);
            let pre = without(c, 0, s.insert_at, s.app15).len() as int;
            &&& shape(out) is Ok
            &&& shape(out)->Ok_0.app15 == framed_segs(pre, data)
            &&& shape(out)->Ok_0.has_exif == s.has_exif
            &&& shape(out)->Ok_0.image_end == out.len() - tail.len()
            &&& data.len() > 0 ==> shape(out)->Ok_0.insert_at == pre + framed(data).len()
            &&& data.len() == 0 && s.app15.len() == 0 ==> shape(out)->Ok_0.insert_at == s.insert_at
        }),
{
    let s = shape(c)->Ok_0;
    let out = spliced(c, s, data, tail);
    lemma_shape(c);
    let (e, g) = image(c, 0, no_facts(), false)->Ok_0;
    lemma_image_facts(c, 0, no_facts(), false);
    lemma_chain(c, e);
    let list = s.app15;
    let ia = s.insert_at;
    assert(found(no_facts(), g) =~= list);
    assert(rest_of(c, 2, no_facts()) == image(c, 0, no_facts(), false));
    let head = without(c, 2, ia, list);
    let back = without(c, ia, e, list);
    lemma_without_head(c, 0, 2, ia, list);
    lemma_without_tail(c, ia, e, s.image_end, list);
    let body = expected(c, 2, ia, e, list, data);
    let more = clip(c, e, s.image_end);
    let e2 = 2 + body.len() as int;
    let here = 2 + head.len() as int;
    assert(out =~= clip(c, 0, 2) + (body + (more + tail)));
    assert(holds(out, 0, clip(c, 0, 2) + (body + (more + tail))));
    lemma_holds_split(out, 0, clip(c, 0, 2), body + (more + tail));
    lemma_holds_split(out, 2, body, more + tail);
    lemma_holds_split(out, e2, more, tail);
    assert(clip(c, 0, 2)[0] == out[0int + 0]);
    assert(clip(c, 0, 2)[1] == out[0int + 1]);
    let g2 = lemma_before(c, 2, no_facts(), data, out, 2, no_facts());
    assert(image(out, 0, no_facts(), false) == Ok::<(int, Facts), Fault>((e2, g2)));
    lemma_holds_clip(out, e2, c, e, s.image_end);
    let x = e2 + more.len() as int;
    if x + 2 <= out.len() {
        assert(tail[0] == out[x + 0]);
        assert(tail[1] == out[x + 1]);
    }
    lemma_chain_shift(c, e, out, e2);
    assert(no_facts().app15 + framed_segs(here, data) =~= framed_segs(here, data));
}

/// The header tells the same whether or not the walk goes on behind it.
pub proof fn lemma_header_only(c: Seq<u8>, m: u8, p: int, f: Facts)
    requires
        2 <= p <= c.len(),
        f.open,
        walk(c, m, p, f, false) is Ok,
    ensures
        walk(c, m, p, f, true) is Ok,
        walk(c, m, p, f, true)->Ok_0.1.app15 == walk(c, m, p, f, false)->Ok_0.1.app15,
    decreases c.len() - p,
{
    lemma_marker_at(c, p);
    if m == M_EOI {
    } else if m == M_SOS {
        lemma_scan_step_facts(c, p, f);
    } else if is_standalone(m) {
        let (m2, p2) = marker_at(c, p)->Ok_0;
        lemma_header_only(c, m2, p2, f);
    } else {
        let body = be16(c, p) - 2;
        let end = p + 2 + body;
        let g = noted(c, f, m, p - 2, body);
        lemma_marker_at(c, end);
        let (m2, p2) = marker_at(c, end)->Ok_0;
        lemma_header_only(c, m2, p2, g);
    }
}

/// Gathering the payloads of `framed(data)` gives `data`.
proof fn lemma_gather_framed(out: Seq<u8>, at: int, data: Seq<u8>)
    requires
        holds(out, at, framed(data)),
        out.len() <= u64::MAX,
    ensures
        gathered(out, payload_parts(framed_segs(at, data))) == data,
        seg_sum(framed_segs(at, data)) - 4 * framed_segs(at, data).len() == data.len(),
        data.len() > 0 ==> framed_segs(at, data).len() > 0 && framed_segs(at, data)[0].offset == at,
    decreases data.len(),
{
    let m = APP15_MAX_PAYLOAD as int;
    let list = framed_segs(at, data);
    let parts = payload_parts(list);
    if data.len() == 0 {
        assert(parts =~= Seq::<(u64, u64)>::empty());
        assert(gathered(out, parts) =~= data);
    } else {
        let n = if data.len() <= m {
            data.len() as int
        } else {
            m
        };
        let first = data.take(n);
        let rest = data.skip(n);
        assert(framed(data) =~= app15_segment(first) + framed(rest)) by {
            if data.len() <= m {
                assert(first =~= data);
            }
        }
        lemma_holds_split(out, at, app15_segment(first), framed(rest));
        lemma_gather_framed(out, at + n + 4, rest);
        let more = framed_segs(at + n + 4, rest);
        assert(list =~= seq![Seg { offset: at, len: n + 4 }] + more);
        assert(list.drop_first() =~= more);
        assert(parts[0] == ((at + 4) as u64, n as u64));
        assert(parts.drop_first() =~= payload_parts(more));
        assert(clip(out, at + 4, at + 4 + n) =~= first) by {
            assert forall|k: int| 0 <= k < n implies out[at + 4 + k] == #[trigger] first[k] by {
                assert(app15_segment(first)[4 + k] == first[k]);
                assert(app15_segment(first)[4 + k] == out[at + (4 + k)]);
            }
        }
        assert(gathered(out, parts) =~= first + rest);
        assert(first + rest =~= data);
    }
}

/// Leaving out the segments of `framed(data)` leaves what stands before and after it.
proof fn lemma_without_framed(out: Seq<u8>, from: int, at: int, to: int, data: Seq<u8>)
    requires
        0 <= from <= at,
        at + framed(data).len() <= to <= out.len(),
    ensures
        without(out, from, to, framed_segs(at, data)) == clip(out, from, at) + clip(
            out,
            at + framed(data).len(),
            to,
        ),
    decreases data.len(),
{
    let m = APP15_MAX_PAYLOAD as int;
    let list = framed_segs(at, data);
    if data.len() == 0 {
        assert(clip(out, from, to) =~= clip(out, from, at) + clip(out, at, to));
    } else {
        let n = if data.len() <= m {
            data.len() as int
        } else {
            m
        };
        let rest = data.skip(n);
        let more = framed_segs(at + n + 4, rest);
        assert(list =~= seq![Seg { offset: at, len: n + 4 }] + more);
        assert(list.drop_first() =~= more);
        assert(framed(data).len() == n + 4 + framed(rest).len());
        lemma_without_framed(out, at + n + 4, at + n + 4, to, rest);
        assert(without(out, from, to, list) =~= clip(out, from, at) + clip(
            out,
            at + framed(data).len(),
            to,
        ));
    }
}

/// From behind the segments of `framed(data)` on, nothing is left out.
proof fn lemma_without_passed(out: Seq<u8>, from: int, at: int, to: int, data: Seq<u8>)
    requires
        at + framed(data).len() <= from,
    ensures
        without(out, from, to, framed_segs(at, data)) == clip(out, from, to),
    decreases data.len(),
{
    let m = APP15_MAX_PAYLOAD as int;
    let list = framed_segs(at, data);
    if data.len() > 0 {
        let n = if data.len() <= m {
            data.len() as int
        } else {
            m
        };
        let rest = data.skip(n);
        let more = framed_segs(at + n + 4, rest);
        assert(list =~= seq![Seg { offset: at, len: n + 4 }] + more);
        assert(list.drop_first() =~= more);
        assert(framed(data).len() == n + 4 + framed(rest).len());
        lemma_without_passed(out, from, at + n + 4, to, rest);
    }
}

/// What is kept of a spliced file is what was kept of the original.
proof fn lemma_spliced_kept(c: Seq<u8>, data: Seq<u8>, tail: Seq<u8>)
    requires
        shape(c) is Ok,
        !starts_image(tail),
    ensures
        ({
            let s = shape(c)->Ok_0;
            let out = spliced(c, s, data, tail);
            let s2 = shape(out)->Ok_0;
            let pre = without(c, 0, s.insert_at, s.app15);
            let post = without(c, s.insert_at, s.image_end, s.app15);
            &&& shape(out) is Ok
            &&& kept(out, s2) == kept(c, s)
            &&& data.len() > 0 || s2.insert_at == pre.len() ==> without(out, 0, s2.insert_at, s2.app15)
                == pre && without(out, s2.insert_at, s2.image_end, s2.app15) == post
        }),
{
    let s = shape(c)->Ok_0;
    let out = spliced(c, s, data, tail);
    let s2 = shape(out)->Ok_0;
    let pre = without(c, 0, s.insert_at, s.app15);
    let post = without(c, s.insert_at, s.image_end, s.app15);
    lemma_spliced(c, data, tail);
    lemma_kept(c);
    let at = pre.len() as int;
    let x = at + framed(data).len();
    lemma_without_framed(out, 0, at, s2.image_end, data);
    assert(clip(out, 0, at) =~= pre);
    assert(clip(out, x, s2.image_end) =~= post);
    assert(kept(out, s2) =~= pre + post);
    if data.len() > 0 || s2.insert_at == at {
        if data.len() == 0 {
            assert(framed(data).len() == 0);
        }
        assert(s2.insert_at == x);
        lemma_without_framed(out, 0, at, x, data);
        assert(clip(out, x, x) =~= Seq::<u8>::empty());
        assert(without(out, 0, s2.insert_at, s2.app15) =~= pre);
        lemma_without_passed(out, x, at, s2.image_end, data);
    }
}

/// [`Carrier::embedded`] as a splice.
proof fn lemma_embedded_is_spliced(c: Seq<u8>, technique: Technique, region: Seq<u8>)
    requires
        shape(c) is Ok,
    ensures
        technique == Technique::JpegApp15 ==> JpegCarrier::embedded(c, technique, region) == spliced(
            c,
            shape(c)->Ok_0,
            region,
            Seq::empty(),
        ),
        technique != Technique::JpegApp15 ==> JpegCarrier::embedded(c, technique, region) == spliced(
            c,
            shape(c)->Ok_0,
            Seq::empty(),
            region,
        ),
        kept(c, shape(c)->Ok_0) == spliced(c, shape(c)->Ok_0, Seq::empty(), Seq::empty()),
{
    let s = shape(c)->Ok_0;
    lemma_kept(c);
    assert(framed(Seq::<u8>::empty()) =~= Seq::<u8>::empty());
    if technique == Technique::JpegApp15 {
        assert(JpegCarrier::embedded(c, technique, region) =~= spliced(c, s, region, Seq::empty()));
    } else {
        assert(JpegCarrier::embedded(c, technique, region) =~= spliced(c, s, Seq::empty(), region));
    }
    assert(kept(c, s) =~= spliced(c, s, Seq::empty(), Seq::empty()));
}

/// After a hide, the photo holds exactly one region, and that is the one that was hidden. A region
/// behind the image must not begin like another image, which no envelope does.
pub proof fn jpeg_region_reads_back(c: Seq<u8>, technique: Technique, region: Seq<u8>)
    requires
        JpegCarrier::embedded_len(c, technique, region.len()) is Ok,
        JpegCarrier::embedded(c, technique, region).len() <= u64::MAX,
        region.len() > 0,
        technique == Technique::JpegTrailer ==> !starts_image(region),
    ensures
        reads_back::<JpegCarrier>(JpegCarrier::embedded(c, technique, region), region),
        JpegCarrier::regions(JpegCarrier::embedded(c, technique, region))->Ok_0.len() == 1,
        JpegCarrier::regions(JpegCarrier::embedded(c, technique, region))->Ok_0[0].technique
            == technique,
{
    if technique == Technique::JpegApp15 {
        lemma_app15_reads_back(c, region);
    } else {
        lemma_trailer_reads_back(c, region);
    }
}

proof fn lemma_app15_reads_back(c: Seq<u8>, region: Seq<u8>)
    requires
        shape(c) is Ok,
        JpegCarrier::embedded(c, Technique::JpegApp15, region).len() <= u64::MAX,
        region.len() > 0,
    ensures
        ({
            let out = JpegCarrier::embedded(c, Technique::JpegApp15, region);
            &&& JpegCarrier::regions(out) is Ok
            &&& JpegCarrier::regions(out)->Ok_0.len() == 1
            &&& JpegCarrier::regions(out)->Ok_0[0].technique == Technique::JpegApp15
            &&& JpegCarrier::regions(out)->Ok_0[0].len == region.len()
            &&& JpegCarrier::region_bytes(out, JpegCarrier::regions(out)->Ok_0[0]) == Ok::<
                Seq<u8>,
                Fault,
            >(region)
        }),
{
    let s = shape(c)->Ok_0;
    let none = Seq::<u8>::empty();
    let out = spliced(c, s, region, none);
    let pre = without(c, 0, s.insert_at, s.app15);
    lemma_embedded_is_spliced(c, Technique::JpegApp15, region);
    lemma_spliced(c, region, none);
    let s2 = shape(out)->Ok_0;
    assert(holds(out, pre.len() as int, framed(region))) by {
        assert forall|k: int| 0 <= k < framed(region).len() implies #[trigger] framed(region)[k]
            == out[pre.len() + k] by {}
    }
    lemma_gather_framed(out, pre.len() as int, region);
    lemma_one_header(out);
    lemma_framed_len(region);
    let list = shape_regions(s2, out.len() as int);
    assert(list.len() == 1);
    assert(list[0].fragmented);
}

/// The APP15 segments that a header walk gathers are those of the whole walk.
proof fn lemma_one_header(out: Seq<u8>)
    requires
        shape(out) is Ok,
    ensures
        image(out, 0, no_facts(), true) is Ok,
        image(out, 0, no_facts(), true)->Ok_0.1.app15 == shape(out)->Ok_0.app15,
{
    lemma_marker_at(out, 2);
    let (m, p) = marker_at(out, 2)->Ok_0;
    lemma_header_only(out, m, p, no_facts());
}

/// A place to look that lies in pieces is the APP15 segments: what it holds is their payloads, in file
/// order, back to back.
pub proof fn jpeg_fragments_in_order(c: Seq<u8>, region: Region)
    requires
        shape(c) is Ok,
        region.fragmented,
    ensures
        JpegCarrier::region_bytes(c, region) == Ok::<Seq<u8>, Fault>(
            gathered(c, payload_parts(shape(c)->Ok_0.app15)),
        ),
{
    lemma_one_header(c);
}

proof fn lemma_trailer_reads_back(c: Seq<u8>, region: Seq<u8>)
    requires
        shape(c) is Ok,
        JpegCarrier::embedded(c, Technique::JpegTrailer, region).len() <= u64::MAX,
        region.len() > 0,
        !starts_image(region),
    ensures
        ({
            let out = JpegCarrier::embedded(c, Technique::JpegTrailer, region);
            &&& JpegCarrier::regions(out) is Ok
            &&& JpegCarrier::regions(out)->Ok_0.len() == 1
            &&& JpegCarrier::regions(out)->Ok_0[0].technique == Technique::JpegTrailer
            &&& JpegCarrier::regions(out)->Ok_0[0].len == region.len()
            &&& JpegCarrier::region_bytes(out, JpegCarrier::regions(out)->Ok_0[0]) == Ok::<
                Seq<u8>,
                Fault,
            >(region)
        }),
{
    let s = shape(c)->Ok_0;
    let none = Seq::<u8>::empty();
    let out = spliced(c, s, none, region);
    let pre = without(c, 0, s.insert_at, s.app15);
    lemma_embedded_is_spliced(c, Technique::JpegTrailer, region);
    lemma_spliced(c, none, region);
    let s2 = shape(out)->Ok_0;
    assert(framed_segs(pre.len() as int, none) =~= Seq::<Seg>::empty());
    let list = shape_regions(s2, out.len() as int);
    assert(list.len() == 1);
    let r = list[0];
    lemma_gather_one(out, r.offset, r.len);
    assert(clip(out, s2.image_end, out.len() as int) =~= region);
}

/// Stripping a photo that something was hidden in gives what stripping it before would have given:
/// the picture is never touched.
pub proof fn jpeg_strip_undoes_embed(c: Seq<u8>, technique: Technique, region: Seq<u8>)
    requires
        JpegCarrier::embedded_len(c, technique, region.len()) is Ok,
        technique == Technique::JpegTrailer ==> !starts_image(region),
    ensures
        JpegCarrier::stripped(JpegCarrier::embedded(c, technique, region)) == JpegCarrier::stripped(c),
{
    let none = Seq::<u8>::empty();
    lemma_embedded_is_spliced(c, technique, region);
    if technique == Technique::JpegApp15 {
        lemma_spliced_kept(c, region, none);
    } else {
        lemma_spliced_kept(c, none, region);
    }
}

/// A photo with no APP15 segments and nothing behind the image is restored to the byte.
pub proof fn jpeg_strip_restores(c: Seq<u8>, technique: Technique, region: Seq<u8>)
    requires
        JpegCarrier::embedded_len(c, technique, region.len()) is Ok,
        JpegCarrier::regions(c) == Ok::<Seq<Region>, Fault>(Seq::empty()),
        technique == Technique::JpegTrailer ==> !starts_image(region),
    ensures
        JpegCarrier::stripped(JpegCarrier::embedded(c, technique, region)) == Ok::<Seq<u8>, Fault>(c),
{
    jpeg_strip_undoes_embed(c, technique, region);
    let s = shape(c)->Ok_0;
    lemma_shape(c);
    let list = shape_regions(s, c.len() as int);
    assert(list.len() == 0);
    assert(s.app15.len() == 0);
    assert(kept(c, s) =~= c);
}

/// A stripped photo offers no place to look, looks the same when stripped again, and keeps its
/// EXIF header or lack of one.
pub proof fn jpeg_stripped_is_clean(c: Seq<u8>)
    requires
        JpegCarrier::stripped(c) is Ok,
    ensures
        ({
            let out = JpegCarrier::stripped(c)->Ok_0;
            &&& JpegCarrier::regions(out) == Ok::<Seq<Region>, Fault>(Seq::empty())
            &&& JpegCarrier::stripped(out) == Ok::<Seq<u8>, Fault>(out)
            &&& JpegCarrier::reencoded(out) == Ok::<bool, Fault>(!shape(c)->Ok_0.has_exif)
        }),
{
    let s = shape(c)->Ok_0;
    let none = Seq::<u8>::empty();
    lemma_embedded_is_spliced(c, Technique::JpegTrailer, none);
    lemma_spliced(c, none, none);
    lemma_spliced_kept(c, none, none);
    let out = kept(c, s);
    let pre = without(c, 0, s.insert_at, s.app15);
    assert(framed_segs(pre.len() as int, none) =~= Seq::<Seg>::empty());
    assert(shape_regions(shape(out)->Ok_0, out.len() as int) =~= Seq::<Region>::empty());
}

/// Hiding into a photo that already holds something replaces it: the result is what hiding into
/// the original would have given.
///
/// Going from a trailer to APP15 segments needs the leading run of the stripped photo to end where
/// the new segments would have gone: an APP15 segment that used to end the run and stood behind
/// fill bytes leaves those bytes on the other side.
pub proof fn jpeg_rehiding_replaces(
    c: Seq<u8>,
    first: Technique,
    old_region: Seq<u8>,
    second: Technique,
    region: Seq<u8>,
)
    requires
        JpegCarrier::embedded_len(c, first, old_region.len()) is Ok,
        JpegCarrier::embedded_len(c, second, region.len()) is Ok,
        first == Technique::JpegTrailer ==> !starts_image(old_region),
        second == Technique::JpegApp15 && (first == Technique::JpegTrailer || old_region.len() == 0)
            ==> shape(JpegCarrier::embedded(c, first, old_region))->Ok_0.insert_at == without(
            c,
            0,
            shape(c)->Ok_0.insert_at,
            shape(c)->Ok_0.app15,
        ).len(),
    ensures
        JpegCarrier::embedded(JpegCarrier::embedded(c, first, old_region), second, region)
            == JpegCarrier::embedded(c, second, region),
        JpegCarrier::embedded_len(JpegCarrier::embedded(c, first, old_region), second, region.len())
            == JpegCarrier::embedded_len(c, second, region.len()),
{
    let none = Seq::<u8>::empty();
    lemma_embedded_is_spliced(c, first, old_region);
    if first == Technique::JpegApp15 {
        lemma_spliced_kept(c, old_region, none);
    } else {
        lemma_spliced_kept(c, none, old_region);
    }
}

/// A photo without APP15 segments meets the condition of [`jpeg_rehiding_replaces`].
pub proof fn jpeg_insertion_point_stays(c: Seq<u8>, region: Seq<u8>)
    requires
        shape(c) is Ok,
        shape(c)->Ok_0.app15.len() == 0,
        !starts_image(region),
    ensures
        shape(JpegCarrier::embedded(c, Technique::JpegTrailer, region))->Ok_0.insert_at == without(
            c,
            0,
            shape(c)->Ok_0.insert_at,
            shape(c)->Ok_0.app15,
        ).len(),
{
    lemma_embedded_is_spliced(c, Technique::JpegTrailer, region);
    lemma_spliced(c, Seq::empty(), region);
    lemma_shape(c);
}

} // verus!
