//! What an envelope is, byte by byte, and what is made of one that is not right.

use super::envelope::{version_params, InnerHeader, Suite};
use super::kdf::{argon2id_key, cost_fault, input_fault, KdfParams};
use super::stream::{
    envelope, opening, preamble_ok, released, sealing, sealing_end, sealing_len, stream_open, stream_seal, unreadable, Contents,
};
use super::{chunk_count, envelope_len};
use crate::error::{Fault, IoErrorKind, IoFault};
use crate::text::decimal_text;
use vstd::prelude::*;
use vstd::utf8::encode_utf8;

verus! {

/// An envelope is its preamble, 16 bytes of salt and 19 of nonce, and then chunks. The key comes from the
/// passphrase and the salt. What is sealed is a version and a suite, both 1, and the payload.
pub proof fn envelopes_are_preamble_and_chunks(
    preamble: Seq<u8>,
    payload: Seq<u8>,
    passphrase: Seq<char>,
    params: KdfParams,
)
    requires
        preamble.len() == 35,
    ensures
        envelope(preamble, payload, passphrase, params) == preamble + sealing(
            argon2id_key(
                encode_utf8(passphrase),
                preamble.subrange(0, 16),
                params.memory_kib,
                params.iterations,
                params.parallelism,
            ),
            preamble.subrange(16, 35),
            seq![1u8, 1] + payload,
            0,
        ),
{
    assert(preamble.subrange(0, 16) =~= preamble.take(16));
    assert(preamble.subrange(16, 35) =~= preamble.skip(16));
    assert(seq![1u8, 1] + payload =~= super::stream::plaintext(payload));
}

/// Chunks are 65536 bytes, but for the last, which may be shorter and is sealed as the last. Each is sealed
/// with its number.
pub proof fn chunks_are_numbered(key: Seq<u8>, prefix: Seq<u8>, plain: Seq<u8>, index: nat)
    ensures
        plain.len() <= 65536 ==> sealing(key, prefix, plain, index) == stream_seal(
            key,
            prefix,
            index as u32,
            true,
            plain,
        ),
        plain.len() > 65536 ==> sealing(key, prefix, plain, index) == stream_seal(
            key,
            prefix,
            index as u32,
            false,
            plain.subrange(0, 65536),
        ) + sealing(key, prefix, plain.subrange(65536, plain.len() as int), index + 1),
{
    if plain.len() > 65536 {
        assert(plain.subrange(0, 65536) =~= plain.take(65536));
        assert(plain.subrange(65536, plain.len() as int) =~= plain.skip(65536));
    }
}

/// How long an envelope is: the preamble, the two bytes of the header, the payload, and 16 bytes for each of
/// the chunks, of which there are as many as it takes to hold header and payload.
pub proof fn envelope_sizes(n: nat)
    ensures
        ({
            let k = chunk_count(n + 2);
            &&& (k - 1) * 65536 < n + 2 <= k * 65536
            &&& envelope_len(n) == 35 + 2 + n + 16 * k
        }),
{
}

/// A preamble is used unless it begins with `FF D8`, as a JPEG does.
pub proof fn preambles_are_no_images(preamble: Seq<u8>)
    requires
        preamble.len() == 35,
    ensures
        preamble_ok(preamble) == !(preamble[0] == 0xFF && preamble[1] == 0xD8),
{
}

/// A region that is too short for an envelope is answered as a wrong passphrase is.
pub proof fn short_regions_are_no_envelopes(
    region: Seq<u8>,
    src_end: Option<Fault>,
    passphrase: Seq<char>,
    params: KdfParams,
)
    requires
        region.len() < 53,
    ensures
        opening(region, src_end, region.len(), passphrase, params) == Err::<Contents, Fault>(
            Fault::WrongPassphrase,
        ),
{
}

/// A first chunk that the cipher refuses means a wrong passphrase. The one exception is a region of exactly
/// one full chunk that would do as a chunk with more behind it: that was cut off.
pub proof fn refused_first_chunk_is_a_wrong_passphrase(
    region: Seq<u8>,
    passphrase: Seq<char>,
    params: KdfParams,
    key: Seq<u8>,
)
    requires
        53 <= region.len() <= 35 + 65552 * 0x1_0000_0000,
        cost_fault(params) is None,
        input_fault(encode_utf8(passphrase), region.subrange(0, 16)) is None,
        key == argon2id_key(
            encode_utf8(passphrase),
            region.subrange(0, 16),
            params.memory_kib,
            params.iterations,
            params.parallelism,
        ),
        stream_open(
            key,
            region.subrange(16, 35),
            0,
            region.len() <= 35 + 65552,
            region.subrange(
                35,
                if region.len() <= 35 + 65552 {
                    region.len() as int
                } else {
                    35int + 65552
                },
            ),
        ) is None,
    ensures
        opening(region, None, region.len(), passphrase, params) == Err::<Contents, Fault>(
            if region.len() == 35 + 65552 && (stream_open(
                key,
                region.subrange(16, 35),
                0,
                false,
                region.subrange(35, region.len() as int),
            ) matches Some(plain) && plain.len() == 65536) {
                Fault::DamagedPayload
            } else {
                Fault::WrongPassphrase
            },
        ),
{
    let n: int = if region.len() <= 35 + 65552 {
        region.len() - 35
    } else {
        65552
    };
    assert(region.subrange(0, 16) =~= region.take(16));
    assert(region.skip(35).take(n) =~= region.subrange(35, 35 + n));
}

/// A first chunk that the cipher accepts and that begins with version and suite 1 makes the passphrase the
/// right one: the payload is what follows these two bytes, and then what the later chunks hold. Any other
/// version or suite is an error that says so.
pub proof fn accepted_first_chunk_opens(
    region: Seq<u8>,
    passphrase: Seq<char>,
    params: KdfParams,
    key: Seq<u8>,
    plain: Seq<u8>,
    n: int,
)
    requires
        53 <= region.len() <= 35 + 65552 * 0x1_0000_0000,
        cost_fault(params) is None,
        input_fault(encode_utf8(passphrase), region.subrange(0, 16)) is None,
        key == argon2id_key(
            encode_utf8(passphrase),
            region.subrange(0, 16),
            params.memory_kib,
            params.iterations,
            params.parallelism,
        ),
        n == (if region.len() <= 35 + 65552 {
            region.len() - 35
        } else {
            65552
        }),
        stream_open(
            key,
            region.subrange(16, 35),
            0,
            region.len() <= 35 + 65552,
            region.subrange(35, 35 + n),
        ) == Some(plain),
        plain.len() + 16 == n,
    ensures
        plain[0] == 1 && plain[1] == 1 ==> {
            let (rest, end) = released(
                key,
                region.subrange(16, 35),
                region.subrange(35 + n, region.len() as int),
                (region.len() - 35 - n) as nat,
                1,
                None,
            );
            opening(region, None, region.len(), passphrase, params) == Ok::<Contents, Fault>(
                Contents {
                    header: InnerHeader { version: 1, suite: Suite::XChaCha20Poly1305Argon2id },
                    payload: plain.subrange(2, plain.len() as int) + rest,
                    ending: end,
                },
            )
        },
        plain[1] != 1 ==> opening(region, None, region.len(), passphrase, params) == Err::<Contents, Fault>(
            Fault::CorruptBundle("unknown envelope cipher suite"@),
        ),
        plain[0] != 1 && plain[1] == 1 ==> opening(region, None, region.len(), passphrase, params) == Err::<
            Contents,
            Fault,
        >(
            Fault::CorruptBundle(
                "envelope version "@ + decimal_text(plain[0] as nat)
                    + " is newer than this build understands"@,
            ),
        ),
{
    assert(region.subrange(0, 16) =~= region.take(16));
    assert(region.skip(35).take(n) =~= region.subrange(35, 35 + n));
    assert(region.skip(35).skip(n) =~= region.subrange(35 + n, region.len() as int));
    assert(plain.skip(2) =~= plain.subrange(2, plain.len() as int));
}

/// Behind the first chunk, what comes out is what the chunks hold, in order, up to the first that the cipher
/// refuses or that is not all there. That is damage, and nothing of that chunk comes out.
pub proof fn later_chunks_follow(
    key: Seq<u8>,
    prefix: Seq<u8>,
    avail: Seq<u8>,
    left: nat,
    index: nat,
)
    requires
        left > 0,
    ensures
        ({
            let n: int = if left <= 65552 {
                left as int
            } else {
                65552
            };
            let (out, end) = released(key, prefix, avail, left, index, None);
            if avail.len() < n {
                out.len() == 0 && end == Some(Fault::DamagedPayload)
            } else {
                match stream_open(key, prefix, index as u32, left <= 65552, avail.subrange(0, n)) {
                    None => out.len() == 0 && end == Some(Fault::DamagedPayload),
                    Some(plain) => plain.len() + 16 == n ==> {
                        let (rest, ending) = released(
                            key,
                            prefix,
                            avail.subrange(n, avail.len() as int),
                            (left - n) as nat,
                            index + 1,
                            None,
                        );
                        out == plain + rest && end == ending
                    },
                }
            }
        }),
        released(key, prefix, avail, 0, index, None) == (Seq::<u8>::empty(), None::<Fault>),
{
    let n: int = if left <= 65552 {
        left as int
    } else {
        65552
    };
    if avail.len() >= n {
        assert(avail.subrange(0, n) =~= avail.take(n));
        assert(avail.subrange(n, avail.len() as int) =~= avail.skip(n));
    }
}

/// The costs of the one version there is: 48 MiB, three passes, one lane.
pub proof fn costs_follow_the_version(version: u8)
    ensures
        version_params(version) == (if version == 1 {
            Some(KdfParams { memory_kib: 49152, iterations: 3, parallelism: 1 })
        } else {
            None
        }),
        InnerHeader::parsed(version, 1) == Some(
            InnerHeader { version, suite: Suite::XChaCha20Poly1305Argon2id },
        ),
        forall|suite: u8| suite != 1 ==> #[trigger] InnerHeader::parsed(version, suite) is None,
{
}

/// A payload is sealed if it is exactly as long as was said. One that grew is refused; one that ended early is
/// refused, with what its source said of that if it said something. A failure at the very end is not passed
/// over.
pub proof fn payloads_of_another_length_are_refused(avail: nat, n: nat, fault: Fault)
    ensures
        sealing_end(n, n, None) is None,
        sealing_end(n, n, Some(fault)) == Some(fault),
        avail > n ==> sealing_end(avail, n, None) == Some(
            Fault::InvalidRequest("payload grew while it was being hidden"@),
        ) && sealing_end(avail, n, Some(fault)) == sealing_end(avail, n, None),
        avail < n ==> sealing_end(avail, n, Some(fault)) == Some(fault) && sealing_end(avail, n, None) == Some(
            Fault::Io {
                kind: IoErrorKind::UnexpectedEof,
                cause: IoFault::Message("failed to fill whole buffer"@),
            },
        ),
        avail >= n ==> sealing_len(avail, n) == envelope_len(n),
        avail < n ==> sealing_len(avail, n) <= 35 + avail + 2 + 16 * ((avail + 2) / 65536),
{
    let k = chunk_count(n + 2) as int;
    assert((k - 1) * 65536 < n + 2 <= k * 65536);
}

/// A region can be an envelope if it is 53 bytes long at least and no longer than 2^32 full chunks and a
/// preamble. Whatever else it is, it is answered as a wrong passphrase is. One that can be an envelope is read
/// on if its preamble is there.
pub proof fn envelopes_have_a_range_of_lengths(avail: Seq<u8>, end: Option<Fault>, len: nat)
    ensures
        len < 53 || len > 35 + 65552 * 0x1_0000_0000 ==> unreadable(avail, end, len) == Some(
            Fault::WrongPassphrase,
        ),
        53 <= len <= 35 + 65552 * 0x1_0000_0000 ==> (unreadable(avail, end, len) is None <==> avail.len() >= 35),
{
}

} // verus!
