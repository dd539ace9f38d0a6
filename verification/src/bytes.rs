//! Fixed-width numbers as bytes.

use vstd::prelude::*;

verus! {

/// The number that big-endian bytes spell.
pub open spec fn be_number(bytes: Seq<u8>) -> nat
    decreases bytes.len(),
{
    if bytes.len() == 0 {
        0
    } else {
        be_number(bytes.drop_last()) * 256 + bytes.last() as nat
    }
}

/// `n` as `width` big-endian bytes.
pub open spec fn be_bytes(n: nat, width: nat) -> Seq<u8>
    decreases width,
{
    if width == 0 {
        Seq::empty()
    } else {
        be_bytes(n / 256, (width - 1) as nat).push((n % 256) as u8)
    }
}

/// The number that little-endian bytes spell.
pub open spec fn le_number(bytes: Seq<u8>) -> nat
    decreases bytes.len(),
{
    if bytes.len() == 0 {
        0
    } else {
        bytes[0] as nat + 256 * le_number(bytes.drop_first())
    }
}

/// `n` as `width` little-endian bytes.
pub open spec fn le_bytes(n: nat, width: nat) -> Seq<u8>
    decreases width,
{
    if width == 0 {
        Seq::empty()
    } else {
        seq![(n % 256) as u8] + le_bytes(n / 256, (width - 1) as nat)
    }
}

/// How many values `width` bytes can take.
pub open spec fn pow256(width: nat) -> nat
    decreases width,
{
    if width == 0 {
        1
    } else {
        256 * pow256((width - 1) as nat)
    }
}

pub proof fn lemma_pow256()
    ensures
        pow256(1) == 0x100,
        pow256(2) == 0x1_0000,
        pow256(4) == 0x1_0000_0000,
        pow256(8) == 0x1_0000_0000_0000_0000,
{
    reveal_with_fuel(pow256, 9);
}

pub proof fn lemma_be_bytes_len(n: nat, width: nat)
    ensures
        be_bytes(n, width).len() == width,
    decreases width,
{
    if width > 0 {
        lemma_be_bytes_len(n / 256, (width - 1) as nat);
    }
}

pub proof fn lemma_le_bytes_len(n: nat, width: nat)
    ensures
        le_bytes(n, width).len() == width,
    decreases width,
{
    if width > 0 {
        lemma_le_bytes_len(n / 256, (width - 1) as nat);
    }
}

/// Reading back what was written, big-endian.
pub proof fn lemma_be_round_trip(n: nat, width: nat)
    requires
        n < pow256(width),
    ensures
        be_number(be_bytes(n, width)) == n,
        be_bytes(n, width).len() == width,
    decreases width,
{
    if width > 0 {
        let w = (width - 1) as nat;
        assert(n / 256 < pow256(w));
        lemma_be_round_trip(n / 256, w);
        assert(be_bytes(n, width).drop_last() =~= be_bytes(n / 256, w));
    }
}

/// Reading back what was written, little-endian.
pub proof fn lemma_le_round_trip(n: nat, width: nat)
    requires
        n < pow256(width),
    ensures
        le_number(le_bytes(n, width)) == n,
        le_bytes(n, width).len() == width,
    decreases width,
{
    if width > 0 {
        let w = (width - 1) as nat;
        assert(n / 256 < pow256(w));
        lemma_le_round_trip(n / 256, w);
        assert(le_bytes(n, width).drop_first() =~= le_bytes(n / 256, w));
    }
}

/// Writing back what was read, big-endian.
pub proof fn lemma_be_canonical(bytes: Seq<u8>)
    ensures
        be_bytes(be_number(bytes), bytes.len()) == bytes,
    decreases bytes.len(),
{
    if bytes.len() > 0 {
        let rest = bytes.drop_last();
        lemma_be_canonical(rest);
        let n = be_number(bytes);
        assert(n % 256 == bytes.last());
        assert(n / 256 == be_number(rest));
        assert(be_bytes(n, bytes.len()) =~= rest.push(bytes.last()));
        assert(rest.push(bytes.last()) =~= bytes);
    } else {
        assert(be_bytes(0, 0) =~= bytes);
    }
}

pub proof fn lemma_be_bound(bytes: Seq<u8>)
    ensures
        be_number(bytes) < pow256(bytes.len()),
    decreases bytes.len(),
{
    if bytes.len() > 0 {
        lemma_be_bound(bytes.drop_last());
    }
}

pub proof fn lemma_le_bound(bytes: Seq<u8>)
    ensures
        le_number(bytes) < pow256(bytes.len()),
    decreases bytes.len(),
{
    if bytes.len() > 0 {
        lemma_le_bound(bytes.drop_first());
    }
}

pub proof fn lemma_pow256_monotone(a: nat, b: nat)
    requires
        a <= b,
    ensures
        pow256(a) <= pow256(b),
    decreases b,
{
    if a < b {
        lemma_pow256_monotone(a, (b - 1) as nat);
    }
}

/// The big-endian number in `bytes[from..to]`, at most eight bytes.
pub fn be_value(bytes: &[u8], from: usize, to: usize) -> (r: u64)
    requires
        from <= to <= bytes@.len(),
        to - from <= 8,
    ensures
        r == be_number(bytes@.subrange(from as int, to as int)),
{
    let mut n: u64 = 0;
    let mut i: usize = from;
    assert(bytes@.subrange(from as int, from as int) =~= Seq::<u8>::empty());
    while i < to
        invariant
            from <= i <= to <= bytes@.len(),
            to - from <= 8,
            n == be_number(bytes@.subrange(from as int, i as int)),
        decreases to - i,
    {
        proof {
            let done = bytes@.subrange(from as int, i as int);
            let more = bytes@.subrange(from as int, i + 1);
            assert(more.drop_last() =~= done);
            lemma_be_bound(more);
            lemma_pow256_monotone(more.len(), 8);
            lemma_pow256();
        }
        n = n * 256 + bytes[i] as u64;
        i = i + 1;
    }
    n
}

/// The little-endian number in `bytes[from..to]`, at most eight bytes.
pub fn le_value(bytes: &[u8], from: usize, to: usize) -> (r: u64)
    requires
        from <= to <= bytes@.len(),
        to - from <= 8,
    ensures
        r == le_number(bytes@.subrange(from as int, to as int)),
{
    let mut n: u64 = 0;
    let mut i: usize = to;
    assert(bytes@.subrange(to as int, to as int) =~= Seq::<u8>::empty());
    while i > from
        invariant
            from <= i <= to <= bytes@.len(),
            to - from <= 8,
            n == le_number(bytes@.subrange(i as int, to as int)),
        decreases i - from,
    {
        i = i - 1;
        proof {
            let more = bytes@.subrange(i as int, to as int);
            assert(more.drop_first() =~= bytes@.subrange(i + 1, to as int));
            lemma_le_bound(more);
            lemma_pow256_monotone(more.len(), 8);
            lemma_pow256();
        }
        n = n * 256 + bytes[i] as u64;
    }
    n
}

/// Append `n` as `width` big-endian bytes.
pub fn push_be(out: &mut Vec<u8>, n: u64, width: usize)
    ensures
        final(out)@ == old(out)@ + be_bytes(n as nat, width as nat),
    decreases width,
{
    if width > 0 {
        push_be(out, n / 256, width - 1);
        out.push((n % 256) as u8);
    }
    assert(out@ =~= old(out)@ + be_bytes(n as nat, width as nat));
}

/// Append `n` as `width` little-endian bytes.
pub fn push_le(out: &mut Vec<u8>, n: u64, width: usize)
    ensures
        final(out)@ == old(out)@ + le_bytes(n as nat, width as nat),
    decreases width,
{
    if width > 0 {
        let ghost before = out@;
        out.push((n % 256) as u8);
        push_le(out, n / 256, width - 1);
    }
    assert(out@ =~= old(out)@ + le_bytes(n as nat, width as nat));
}

/// Whether two runs of bytes are the same.
pub fn same_bytes(a: &[u8], b: &[u8]) -> (r: bool)
    ensures
        r == (a@ == b@),
{
    if a.len() != b.len() {
        return false;
    }
    let mut i: usize = 0;
    while i < a.len()
        invariant
            a@.len() == b@.len(),
            i <= a@.len(),
            forall|k: int| 0 <= k < i ==> a@[k] == b@[k],
        decreases a@.len() - i,
    {
        if a[i] != b[i] {
            return false;
        }
        i = i + 1;
    }
    assert(a@ =~= b@);
    true
}

} // verus!
