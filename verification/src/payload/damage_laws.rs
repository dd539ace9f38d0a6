//! What is made of a bundle that is not right: nothing of it is lost, cut or taken twice in silence.

use super::bundle::{concatenated, pick, unpack, unpack_files, Unpacked};
use super::manifest::{encode_fault, entry_fault, manifest_encoding_is_unique, parsed, Entry, Item};
use super::names::byte_len;
use crate::bytes::le_number;
use crate::error::Fault;
use crate::text::decimal_text;
use vstd::prelude::*;

verus! {

/// The bytes of what came out.
pub open spec fn contents(list: Seq<Unpacked>) -> Seq<Seq<u8>> {
    list.map_values(|u: Unpacked| u.bytes)
}

proof fn lemma_files(data: Seq<u8>, end: Option<Fault>, list: Seq<Item>, i: nat, taken: Seq<Seq<char>>)
    requires
        i <= list.len(),
        unpack_files(data, end, list, i, taken) is Ok,
    ensures
        ({
            let out = unpack_files(data, end, list, i, taken)->Ok_0;
            &&& end is None
            &&& out.len() == list.len() - i
            &&& concatenated(contents(out)) == data
            &&& forall|k: int| 0 <= k < out.len() ==> (#[trigger] out[k]).bytes.len() == list[i + k].len
        }),
    decreases list.len() - i,
{
    let out = unpack_files(data, end, list, i, taken)->Ok_0;
    if i < list.len() {
        let base = super::bundle::base_name(list[i as int], i);
        let name = pick(base, taken, 1)->Some_0;
        let n = list[i as int].len as int;
        let next = taken.push(super::bundle::folded(name));
        lemma_files(data.skip(n), end, list, i + 1, next);
        let rest = unpack_files(data.skip(n), end, list, i + 1, next)->Ok_0;
        assert(out == seq![Unpacked { base, name, bytes: data.take(n) }] + rest);
        assert(contents(out).skip(1) =~= contents(rest));
        assert(contents(out)[0] == data.take(n));
        assert(data.take(n) + data.skip(n) =~= data);
        assert forall|k: int| 0 <= k < out.len() implies (#[trigger] out[k]).bytes.len() == list[i + k].len by {
            if k > 0 {
                assert(out[k] == rest[k - 1]);
                assert(rest[k - 1].bytes.len() == list[i + 1 + (k - 1)].len);
            }
        }
    } else {
        assert(contents(out) =~= Seq::<Seq<u8>>::empty());
        assert(concatenated(contents(out)) =~= data);
    }
}

/// What comes out of a bundle is everything behind its manifest, cut into as many files as the manifest
/// lists, each as long as its entry says, and nothing is left over. A source that fails is never taken for
/// one that ends.
pub proof fn bundles_come_apart_without_rest(data: Seq<u8>, end: Option<Fault>)
    requires
        unpack(data, end) is Ok,
    ensures
        ({
            let out = unpack(data, end)->Ok_0;
            let n = le_number(data.take(4)) as int;
            &&& end is None
            &&& 4 + n <= data.len()
            &&& parsed(data.subrange(4, 4 + n)) is Ok
            &&& out.len() == parsed(data.subrange(4, 4 + n))->Ok_0.len()
            &&& concatenated(contents(out)) == data.skip(4 + n)
            &&& forall|k: int|
                0 <= k < out.len() ==> (#[trigger] out[k]).bytes.len() == parsed(data.subrange(4, 4 + n))->Ok_0[k].len
        }),
{
    let n = le_number(data.take(4)) as int;
    let list = parsed(data.subrange(4, 4 + n))->Ok_0;
    lemma_files(data.skip(4 + n), end, list, 0, Seq::empty());
}

proof fn lemma_concatenated(parts: Seq<Seq<u8>>, list: Seq<Item>)
    requires
        parts.len() == list.len(),
        forall|k: int| 0 <= k < parts.len() ==> (#[trigger] parts[k]).len() == list[k].len,
    ensures
        concatenated(parts).len() == lengths(list),
    decreases parts.len(),
{
    if parts.len() > 0 {
        assert(forall|k: int| 0 <= k < parts.skip(1).len() ==> parts.skip(1)[k] == parts[k + 1]);
        assert(forall|k: int| 0 <= k < list.skip(1).len() ==> list.skip(1)[k] == list[k + 1]);
        lemma_concatenated(parts.skip(1), list.skip(1));
    }
}

/// All lengths together.
pub open spec fn lengths(list: Seq<Item>) -> nat
    decreases list.len(),
{
    if list.len() == 0 {
        0
    } else {
        list[0].len + lengths(list.skip(1))
    }
}

/// A bundle that is cut short, or that goes on behind its last file, is refused, wherever the cut is.
pub proof fn bundles_of_another_length_are_refused(
    data: Seq<u8>,
    end: Option<Fault>,
    other: Seq<u8>,
    other_end: Option<Fault>,
    same: nat,
)
    requires
        unpack(data, end) is Ok,
        same <= data.len(),
        same <= other.len(),
        data.take(same as int) == other.take(same as int),
        data.len() != other.len(),
        same == data.len() || same == other.len(),
    ensures
        unpack(other, other_end) is Err,
{
    if unpack(other, other_end) is Ok {
        bundles_come_apart_without_rest(data, end);
        bundles_come_apart_without_rest(other, other_end);
        let n = le_number(data.take(4)) as int;
        let m = le_number(other.take(4)) as int;
        let s = same as int;
        assert(s >= 4);
        assert(data.take(4) =~= data.take(s).take(4));
        assert(other.take(4) =~= other.take(s).take(4));
        assert(n == m);
        assert(s >= 4 + n);
        assert(data.subrange(4, 4 + n) =~= data.take(s).subrange(4, 4 + n));
        assert(other.subrange(4, 4 + n) =~= other.take(s).subrange(4, 4 + n));
        let list = parsed(data.subrange(4, 4 + n))->Ok_0;
        lemma_concatenated(contents(unpack(data, end)->Ok_0), list);
        lemma_concatenated(contents(unpack(other, other_end)->Ok_0), list);
        assert(false);
    }
}

/// A manifest is taken for one only if it is exactly what its entries are written as.
pub proof fn manifests_have_one_form(a: Seq<u8>, b: Seq<u8>)
    requires
        parsed(a) is Ok,
        parsed(a) == parsed(b),
    ensures
        a == b,
{
    manifest_encoding_is_unique(a);
    manifest_encoding_is_unique(b);
}

/// A manifest that claims more than 16 MiB is refused, and so is one that is not all there.
pub proof fn absurd_manifests_are_refused(data: Seq<u8>, end: Option<Fault>)
    requires
        data.len() >= 4,
    ensures
        le_number(data.take(4)) > 0x100_0000 ==> unpack(data, end) == Err::<Seq<Unpacked>, Fault>(
            Fault::CorruptBundle("manifest claims "@ + decimal_text(le_number(data.take(4))) + " bytes"@),
        ),
        le_number(data.take(4)) <= 0x100_0000 && data.len() < 4 + le_number(data.take(4)) ==> unpack(data, None)
            == Err::<Seq<Unpacked>, Fault>(Fault::CorruptBundle("payload ends inside the manifest"@)),
{
}

/// Names of up to 65535 bytes and types of up to 255 can be stored, longer ones cannot.
pub proof fn long_entries_are_refused(list: Seq<Entry>)
    requires
        list.len() <= 0xffff_ffff,
    ensures
        encode_fault(list) is None <==> forall|i: int|
            0 <= i < list.len() ==> byte_len((#[trigger] list[i]).name@) <= 65535 && byte_len(list[i].mime@) <= 255,
    decreases list.len(),
{
    if list.len() > 0 {
        let less = list.drop_last();
        long_entries_are_refused(less);
        assert(entry_fault(less) == encode_fault(less));
        if encode_fault(list) is None {
            assert forall|i: int| 0 <= i < list.len() implies byte_len((#[trigger] list[i]).name@) <= 65535
                && byte_len(list[i].mime@) <= 255 by {
                if i < less.len() {
                    assert(less[i] == list[i]);
                }
            }
        } else if forall|i: int|
            0 <= i < list.len() ==> byte_len((#[trigger] list[i]).name@) <= 65535 && byte_len(list[i].mime@) <= 255 {
            assert(forall|i: int| 0 <= i < less.len() ==> less[i] == list[i]);
            assert(list[list.len() - 1] == list.last());
        }
    }
}

} // verus!
