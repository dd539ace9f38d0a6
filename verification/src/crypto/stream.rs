//! Chunked streaming encryption (XChaCha20-Poly1305, STREAM/BE32).
//!
//! ## Chunking
//!
//! The plaintext is the 2-byte [`InnerHeader`] followed by the payload. It is cut into
//! [`CHUNK_SIZE`] pieces; only the last may be shorter. Each piece is sealed with nonce
//! `prefix ‖ index (u32 BE) ‖ last-flag`, so a chunk only authenticates at its own position, and only
//! the true final chunk authenticates as final.
//!
//! The chunk count is not stored: it follows from the region length, which the container gives. That is
//! what makes truncation fatal. Cut a stream short and its new "last" chunk was sealed as non-final, so
//! its tag fails.
//!
//! ## Partial plaintext
//!
//! Every chunk is authenticated before a byte of it is released, but truncation is only provable at the
//! end. So a reader of [`OpenReader`] must treat what it has written as **uncommitted until the reader
//! returns end-of-stream**.

use super::envelope::{current_header, params_for_version, version_params, InnerHeader};
use super::kdf::{
    cost_fault, derive_key, derived, kdf_fault, key_fault, lemma_key_fault, out_of_memory, KdfParams,
};
use super::secret::{Key, Plain};
use super::{
    chunk_count, envelope_len, region_len, CHUNK_SIZE, INNER_HEADER_LEN, MAX_PLAINTEXT_LEN,
    MIN_REGION_LEN, SEALED_CHUNK_LEN,
};
use crate::carrier::Fill;
use crate::error::{ended_early, fails, fails_through, unwrapped, Fault, IoError, IoErrorKind, IoFault, ZolalError};
use crate::io::{copy_all, read_exact, Read, Write};
use crate::progress::{decided, Progress};
use crate::text::{append_decimal, decimal_text};
use aead_stream::{NewStream, StreamBE32, StreamPrimitive};
use chacha20poly1305::{KeyInit, XChaCha20Poly1305};
use vstd::prelude::*;

verus! {

/// Salt plus nonce prefix: the only cleartext in a region.
pub const PREAMBLE_LEN: usize = 35;

// ---------------------------------------------------------------------------------------------
// One chunk

/// What STREAM (BE32, over XChaCha20-Poly1305, without associated data) makes of a chunk.
pub uninterp spec fn stream_seal(
    key: Seq<u8>,
    prefix: Seq<u8>,
    index: u32,
    last: bool,
    plain: Seq<u8>,
) -> Seq<u8>;

/// What it gives back for a sealed chunk, if the tag is right.
pub uninterp spec fn stream_open(
    key: Seq<u8>,
    prefix: Seq<u8>,
    index: u32,
    last: bool,
    sealed: Seq<u8>,
) -> Option<Seq<u8>>;

/// Calls `StreamPrimitive::encrypt_in_place` of `aead_stream::StreamBE32` over `XChaCha20Poly1305`.
///
/// The result depends on the arguments alone, is 16 bytes (the tag) longer than the chunk, and opens
/// to it again. Only chunks far beyond 64 KiB are refused.
#[verifier::external_body]
fn seal_chunk(key: &[u8; 32], prefix: &[u8], index: u32, last: bool, chunk: &mut Vec<u8>) -> (r: Result<
    (),
    (),
>)
    requires
        prefix@.len() == 19,
        old(chunk)@.len() <= CHUNK_SIZE,
    ensures
        r is Ok,
        final(chunk)@ == stream_seal(key@, prefix@, index, last, old(chunk)@),
        final(chunk)@.len() == old(chunk)@.len() + 16,
        stream_open(key@, prefix@, index, last, final(chunk)@) == Some(old(chunk)@),
{
    let aead = XChaCha20Poly1305::new_from_slice(key).map_err(|_| ())?;
    let nonce = prefix.try_into().map_err(|_| ())?;
    let stream: StreamBE32<XChaCha20Poly1305> = StreamBE32::from_aead(aead, &nonce);
    stream.encrypt_in_place(index, last, &[], chunk).map_err(|_| ())
}

/// Calls `StreamPrimitive::decrypt_in_place` of `aead_stream::StreamBE32` over `XChaCha20Poly1305`.
///
/// The result depends on the arguments alone. What comes out is 16 bytes (the tag) shorter than the
/// chunk. What the buffer holds after a failure is left unsaid.
#[verifier::external_body]
fn open_chunk(key: &[u8; 32], prefix: &[u8], index: u32, last: bool, chunk: &mut Vec<u8>) -> (r: Result<
    (),
    (),
>)
    requires
        prefix@.len() == 19,
        old(chunk)@.len() <= SEALED_CHUNK_LEN,
    ensures
        r is Ok ==> stream_open(key@, prefix@, index, last, old(chunk)@) == Some(final(chunk)@)
            && final(chunk)@.len() + 16 == old(chunk)@.len(),
        r is Err ==> stream_open(key@, prefix@, index, last, old(chunk)@) is None
            && final(chunk)@.len() <= old(chunk)@.len(),
{
    let aead = XChaCha20Poly1305::new_from_slice(key).map_err(|_| ())?;
    let nonce = prefix.try_into().map_err(|_| ())?;
    let stream: StreamBE32<XChaCha20Poly1305> = StreamBE32::from_aead(aead, &nonce);
    stream.decrypt_in_place(index, last, &[], chunk).map_err(|_| ())
}

// ---------------------------------------------------------------------------------------------
// The preamble

/// Calls `getrandom::fill` on `n` bytes. Nothing is said of what they are: they are as random as the
/// operating system makes them. The text of a failure is the one the crate prints.
#[verifier::external_body]
pub(crate) fn random_bytes(n: usize) -> (r: Result<Vec<u8>, String>)
    ensures
        r matches Ok(bytes) ==> bytes@.len() == n,
{
    let mut bytes = vec![0u8; n];
    match getrandom::fill(&mut bytes) {
        Ok(()) => Ok(bytes),
        Err(e) => Err(format!("{e}")),
    }
}

/// What a failure of the random source is reported as.
pub open spec fn random_fault(text: Seq<char>) -> Fault {
    Fault::Io {
        kind: IoErrorKind::Other,
        cause: IoFault::Message("OS random source failed: "@ + text),
    }
}

/// What a failure of the random source is reported as.
pub(crate) fn random_error(text: String) -> (r: ZolalError)
    ensures
        r@ == random_fault(text@),
{
    let mut message = "OS random source failed: ".to_owned();
    message.append(text.as_str());
    ZolalError::Io(IoError::other(message.as_str()))
}

/// A preamble that no JPEG walk takes for the start of an image.
pub open spec fn preamble_ok(preamble: Seq<u8>) -> bool {
    preamble.len() == PREAMBLE_LEN && !(preamble[0] == 0xFF && preamble[1] == 0xD8)
}

/// How often a preamble is drawn again before giving up. Each draw is refused with a chance of one in
/// 65536, so this is never reached.
const MAX_DRAWS: u32 = 0xffff_ffff;

/// The error after the last draw.
pub open spec fn draws_used_up() -> Fault {
    Fault::Io {
        kind: IoErrorKind::Other,
        cause: IoFault::Message("no usable preamble was drawn"@),
    }
}

/// A failure to come by a preamble: of the random source, or of every draw.
pub open spec fn preamble_failed(fault: Fault) -> bool {
    random_failed(fault) || fault == draws_used_up()
}

/// What becomes of a draw: a usable preamble is kept, another one means to draw again, and a failure of
/// the random source is an error.
pub fn judge_draw(draw: Result<Vec<u8>, String>) -> (r: Result<Option<Vec<u8>>, ZolalError>)
    requires
        draw matches Ok(bytes) ==> bytes@.len() == PREAMBLE_LEN,
    ensures
        match draw {
            Ok(bytes) => r matches Ok(kept) && (if preamble_ok(bytes@) {
                kept == Some(bytes)
            } else {
                kept is None
            }),
            Err(text) => fails(r, random_fault(text@)),
        },
{
    match draw {
        Ok(bytes) => if bytes[0] != 0xFF || bytes[1] != 0xD8 {
            Ok(Some(bytes))
        } else {
            Ok(None)
        },
        Err(text) => Err(random_error(text)),
    }
}

/// Random salt and nonce prefix. The salt never starts with a JPEG start-of-image marker.
pub fn random_preamble() -> (r: Result<Vec<u8>, ZolalError>)
    ensures
        r matches Ok(preamble) ==> preamble_ok(preamble@),
        r matches Err(e) ==> random_failed(e@) || e@ == draws_used_up(),
{
    let mut draws: u32 = 0;
    while draws < MAX_DRAWS
        decreases MAX_DRAWS - draws,
    {
        if let Some(preamble) = judge_draw(random_bytes(PREAMBLE_LEN))? {
            return Ok(preamble);
        }
        draws = draws + 1;
    }
    Err(ZolalError::Io(IoError::other("no usable preamble was drawn")))
}

// ---------------------------------------------------------------------------------------------
// What a region holds

/// Either what the source failed with, or damage: the region was shorter than its own length said.
pub open spec fn cut_off(src_end: Option<Fault>) -> Fault {
    match src_end {
        Some(fault) => if ended_early(fault) {
            Fault::DamagedPayload
        } else {
            fault
        },
        None => Fault::DamagedPayload,
    }
}

/// What a sealed chunk holds, if its tag is right. A chunk is 16 bytes longer than what it holds.
pub open spec fn chunk_plain(
    key: Seq<u8>,
    prefix: Seq<u8>,
    index: u32,
    last: bool,
    sealed: Seq<u8>,
) -> Option<Seq<u8>> {
    match stream_open(key, prefix, index, last, sealed) {
        Some(plain) => if plain.len() + 16 == sealed.len() {
            Some(plain)
        } else {
            None
        },
        None => None,
    }
}

/// What the sealed chunks at the front of `avail` release, `left` sealed bytes in all, the first of
/// them with the given index: the plaintext up to the first chunk that fails, and how that ends.
pub open spec fn released(
    key: Seq<u8>,
    prefix: Seq<u8>,
    avail: Seq<u8>,
    left: nat,
    index: nat,
    src_end: Option<Fault>,
) -> (Seq<u8>, Option<Fault>)
    decreases left,
{
    if left == 0 {
        (Seq::empty(), None)
    } else {
        let last = left <= SEALED_CHUNK_LEN;
        let n: nat = if last {
            left
        } else {
            SEALED_CHUNK_LEN as nat
        };
        if avail.len() < n {
            (Seq::empty(), Some(cut_off(src_end)))
        } else {
            match chunk_plain(key, prefix, index as u32, last, avail.take(n as int)) {
                None => (Seq::empty(), Some(Fault::DamagedPayload)),
                Some(plain) => {
                    let rest = released(
                        key,
                        prefix,
                        avail.skip(n as int),
                        (left - n) as nat,
                        index + 1,
                        src_end,
                    );
                    (plain + rest.0, rest.1)
                },
            }
        }
    }
}

/// What an envelope holds.
pub ghost struct Contents {
    pub header: InnerHeader,
    /// The payload, up to the first chunk that fails.
    pub payload: Seq<u8>,
    /// How it ends: `None` means that the final chunk authenticated as final.
    pub ending: Option<Fault>,
}

/// What is wrong with the plaintext of the first chunk, if anything.
pub open spec fn header_fault(plain: Seq<u8>) -> Option<Fault> {
    if plain.len() < 2 || InnerHeader::parsed(plain[0], plain[1]) is None {
        Some(Fault::CorruptBundle("unknown envelope cipher suite"@))
    } else if version_params(plain[0]) is None {
        Some(
            Fault::CorruptBundle(
                "envelope version "@ + decimal_text(plain[0] as nat)
                    + " is newer than this build understands"@,
            ),
        )
    } else {
        None
    }
}

/// How many sealed chunks `n` bytes are.
pub open spec fn sealed_chunks(n: nat) -> int {
    (n + SEALED_CHUNK_LEN - 1) / (SEALED_CHUNK_LEN as int)
}

/// Why a region cannot be opened before a key is derived, if it cannot: it is too short or too long for
/// any envelope, or it is cut off.
pub open spec fn unreadable(avail: Seq<u8>, src_end: Option<Fault>, len: nat) -> Option<Fault> {
    if len < MIN_REGION_LEN || sealed_chunks((len - PREAMBLE_LEN) as nat) - 1 > u32::MAX {
        Some(Fault::WrongPassphrase)
    } else if avail.len() < PREAMBLE_LEN {
        Some(cut_off(src_end))
    } else {
        None
    }
}

/// What a region of `len` bytes at the front of `avail` holds under a passphrase and costs, or why it
/// cannot be opened.
pub open spec fn opening(
    avail: Seq<u8>,
    src_end: Option<Fault>,
    len: nat,
    passphrase: Seq<char>,
    params: KdfParams,
) -> Result<Contents, Fault> {
    match unreadable(avail, src_end, len) {
        Some(fault) => Err(fault),
        None => match kdf_fault(vstd::utf8::encode_utf8(passphrase), avail.take(16), params) {
            Some(fault) => Err(fault),
            None => keyed(
                derived(passphrase, avail.take(16), params),
                avail.subrange(16, 35),
                avail.skip(35),
                (len - PREAMBLE_LEN) as nat,
                src_end,
            ),
        },
    }
}

/// What `sealed` bytes of chunks at the front of `avail` hold under a key, or why they cannot be opened.
pub open spec fn keyed(
    key: Seq<u8>,
    prefix: Seq<u8>,
    avail: Seq<u8>,
    sealed: nat,
    src_end: Option<Fault>,
) -> Result<Contents, Fault> {
    let n: nat = if sealed <= SEALED_CHUNK_LEN {
        sealed
    } else {
        SEALED_CHUNK_LEN as nat
    };
    if avail.len() < n {
        Err(cut_off(src_end))
    } else {
        first_chunk(key, prefix, avail, sealed, src_end)
    }
}

/// Whether opening a region comes to the point where memory for a key is asked for.
pub open spec fn derives_key(
    avail: Seq<u8>,
    src_end: Option<Fault>,
    len: nat,
    params: KdfParams,
) -> bool {
    unreadable(avail, src_end, len) is None && cost_fault(params) is None
}

/// What the first chunk says, and what follows it.
pub open spec fn first_chunk(
    key: Seq<u8>,
    prefix: Seq<u8>,
    avail: Seq<u8>,
    sealed: nat,
    src_end: Option<Fault>,
) -> Result<Contents, Fault> {
    let last = sealed <= SEALED_CHUNK_LEN;
    let n: int = if last {
        sealed as int
    } else {
        SEALED_CHUNK_LEN as int
    };
    let chunk = avail.take(n);
    match chunk_plain(key, prefix, 0, last, chunk) {
        None => if sealed == SEALED_CHUNK_LEN && chunk_plain(key, prefix, 0, false, chunk) is Some {
            Err(Fault::DamagedPayload)
        } else {
            Err(Fault::WrongPassphrase)
        },
        Some(plain) => match header_fault(plain) {
            Some(fault) => Err(fault),
            None => {
                let rest = released(
                    key,
                    prefix,
                    avail.skip(n),
                    (sealed - n) as nat,
                    1,
                    src_end,
                );
                Ok(
                    Contents {
                        header: InnerHeader::parsed(plain[0], plain[1])->Some_0,
                        payload: plain.skip(2) + rest.0,
                        ending: rest.1,
                    },
                )
            },
        },
    }
}

/// Nothing is released that was not sealed.
pub proof fn lemma_released_len(
    key: Seq<u8>,
    prefix: Seq<u8>,
    avail: Seq<u8>,
    left: nat,
    index: nat,
    src_end: Option<Fault>,
)
    ensures
        released(key, prefix, avail, left, index, src_end).0.len() <= left,
    decreases left,
{
    if left > 0 {
        let n: nat = if left <= SEALED_CHUNK_LEN {
            left
        } else {
            SEALED_CHUNK_LEN as nat
        };
        if avail.len() >= n {
            lemma_released_len(
                key,
                prefix,
                avail.skip(n as int),
                (left - n) as nat,
                index + 1,
                src_end,
            );
        }
    }
}

/// A payload is never longer than its region.
pub proof fn payload_fits_region(
    avail: Seq<u8>,
    src_end: Option<Fault>,
    len: nat,
    passphrase: Seq<char>,
    params: KdfParams,
)
    ensures
        opening(avail, src_end, len, passphrase, params) matches Ok(contents) ==> contents.payload.len()
            <= len,
{
    if opening(avail, src_end, len, passphrase, params) is Ok {
        let key = derived(passphrase, avail.take(16), params);
        let sealed = (len - PREAMBLE_LEN) as nat;
        let n: int = if sealed <= SEALED_CHUNK_LEN {
            sealed as int
        } else {
            SEALED_CHUNK_LEN as int
        };
        lemma_released_len(
            key,
            avail.subrange(16, 35),
            avail.skip(35).skip(n),
            (sealed - n) as nat,
            1,
            src_end,
        );
    }
}

/// The `k`th chunk of `left` sealed bytes.
pub open spec fn chunk_at(avail: Seq<u8>, left: nat, k: int) -> Seq<u8> {
    let end = (k + 1) * SEALED_CHUNK_LEN;
    avail.subrange(
        k * SEALED_CHUNK_LEN,
        if end < left {
            end
        } else {
            left as int
        },
    )
}

/// Each of `left` sealed bytes is there and belongs to a chunk that the cipher accepts in its place, and
/// only the last one as the last. The first has the given index.
pub open spec fn all_authentic(
    key: Seq<u8>,
    prefix: Seq<u8>,
    avail: Seq<u8>,
    left: nat,
    index: nat,
) -> bool {
    &&& left <= avail.len()
    &&& forall|k: int|
        0 <= k && k * SEALED_CHUNK_LEN < left ==> stream_open(
            key,
            prefix,
            (index + k) as u32,
            left <= (k + 1) * SEALED_CHUNK_LEN,
            #[trigger] chunk_at(avail, left, k),
        ) is Some
}

proof fn lemma_authentic(
    key: Seq<u8>,
    prefix: Seq<u8>,
    avail: Seq<u8>,
    left: nat,
    index: nat,
    n: nat,
)
    requires
        0 < left,
        n == (if left <= SEALED_CHUNK_LEN {
            left
        } else {
            SEALED_CHUNK_LEN as nat
        }),
        n <= avail.len(),
        stream_open(key, prefix, index as u32, left <= SEALED_CHUNK_LEN, avail.take(n as int)) is Some,
        all_authentic(key, prefix, avail.skip(n as int), (left - n) as nat, index + 1),
    ensures
        all_authentic(key, prefix, avail, left, index),
{
    let rest = avail.skip(n as int);
    assert forall|k: int| 0 <= k && k * SEALED_CHUNK_LEN < left implies stream_open(
        key,
        prefix,
        (index + k) as u32,
        left <= (k + 1) * SEALED_CHUNK_LEN,
        #[trigger] chunk_at(avail, left, k),
    ) is Some by {
        if k == 0 {
            assert(chunk_at(avail, left, 0) =~= avail.take(n as int));
        } else {
            assert(n == SEALED_CHUNK_LEN);
            assert(chunk_at(avail, left, k) =~= chunk_at(rest, (left - n) as nat, k - 1));
            assert((index + 1) + (k - 1) == index + k);
        }
    }
}

proof fn lemma_released_authentic(
    key: Seq<u8>,
    prefix: Seq<u8>,
    avail: Seq<u8>,
    left: nat,
    index: nat,
    src_end: Option<Fault>,
)
    requires
        released(key, prefix, avail, left, index, src_end).1 is None,
    ensures
        all_authentic(key, prefix, avail, left, index),
    decreases left,
{
    if left > 0 {
        let n: nat = if left <= SEALED_CHUNK_LEN {
            left
        } else {
            SEALED_CHUNK_LEN as nat
        };
        lemma_released_authentic(
            key,
            prefix,
            avail.skip(n as int),
            (left - n) as nat,
            index + 1,
            src_end,
        );
        lemma_authentic(key, prefix, avail, left, index, n);
    }
}

/// A payload comes to a clean end only where the cipher accepts every chunk of the region in its place,
/// and the last one as the last: a region that was cut off, or in which one chunk is refused, is not
/// opened or ends in an error.
pub proof fn clean_end_is_authentic(
    avail: Seq<u8>,
    src_end: Option<Fault>,
    len: nat,
    passphrase: Seq<char>,
    params: KdfParams,
)
    ensures
        opening(avail, src_end, len, passphrase, params) matches Ok(contents) ==> contents.ending is None
            ==> all_authentic(
            derived(passphrase, avail.take(16), params),
            avail.subrange(16, 35),
            avail.skip(35),
            (len - PREAMBLE_LEN) as nat,
            0,
        ),
{
    if let Ok(contents) = opening(avail, src_end, len, passphrase, params) {
        if contents.ending is None {
            let key = derived(passphrase, avail.take(16), params);
            let prefix = avail.subrange(16, 35);
            let rest = avail.skip(35);
            let sealed = (len - PREAMBLE_LEN) as nat;
            let n: nat = if sealed <= SEALED_CHUNK_LEN {
                sealed
            } else {
                SEALED_CHUNK_LEN as nat
            };
            lemma_released_authentic(key, prefix, rest.skip(n as int), (sealed - n) as nat, 1, src_end);
            if sealed > 0 {
                lemma_authentic(key, prefix, rest, sealed, 0, n);
            }
        }
    }
}

// ---------------------------------------------------------------------------------------------
// Opening

/// What is made of an attempt to read a part of the region.
fn cut_off_error(r: Result<Option<Vec<u8>>, IoError>) -> (e: Result<Vec<u8>, ZolalError>)
    ensures
        r matches Ok(Some(bytes)) ==> e == Ok::<Vec<u8>, ZolalError>(bytes),
        r matches Ok(None) ==> e matches Err(z) && z@ == cut_off(None),
        r matches Err(io) ==> e matches Err(z) && z@ == cut_off(Some(unwrapped(io)@)),
{
    match r {
        Ok(Some(bytes)) => Ok(bytes),
        Ok(None) => Err(ZolalError::DamagedPayload),
        Err(io) => match ZolalError::from_io(io) {
            ZolalError::Io(inner) => if inner.kind() == IoErrorKind::UnexpectedEof {
                Err(ZolalError::DamagedPayload)
            } else {
                Err(ZolalError::Io(inner))
            },
            other => Err(other),
        },
    }
}

fn header_error(version: u8) -> (r: ZolalError)
    ensures
        r@ == Fault::CorruptBundle(
            "envelope version "@ + decimal_text(version as nat)
                + " is newer than this build understands"@,
        ),
{
    let mut text = "envelope version ".to_owned();
    append_decimal(&mut text, version as u64);
    text.append(" is newer than this build understands");
    ZolalError::CorruptBundle(text)
}

/// The header in the first bytes of a chunk.
fn read_header(plain: &Vec<u8>) -> (r: Result<InnerHeader, ZolalError>)
    ensures
        match r {
            Ok(header) => header_fault(plain@) is None && InnerHeader::parsed(plain@[0], plain@[1])
                == Some(header),
            Err(e) => header_fault(plain@) == Some(e@),
        },
{
    if plain.len() < 2 {
        return Err(ZolalError::CorruptBundle("unknown envelope cipher suite".to_owned()));
    }
    let pair: [u8; 2] = [plain[0], plain[1]];
    match InnerHeader::from_bytes(pair) {
        None => Err(ZolalError::CorruptBundle("unknown envelope cipher suite".to_owned())),
        Some(header) => {
            if params_for_version(header.version).is_none() {
                return Err(header_error(header.version));
            }
            Ok(header)
        },
    }
}

/// What the first chunk means: `plain` is what the buffer holds afterwards, `opened` says whether it opened
/// in its place, and `cut` whether it opened only as a chunk that more should follow.
pub fn judge_first_chunk(plain: &Vec<u8>, opened: bool, cut: bool) -> (r: Result<InnerHeader, ZolalError>)
    ensures
        if opened {
            match header_fault(plain@) {
                None => r matches Ok(header) && InnerHeader::parsed(plain@[0], plain@[1]) == Some(header),
                Some(fault) => fails(r, fault),
            }
        } else if cut {
            fails(r, Fault::DamagedPayload)
        } else {
            fails(r, Fault::WrongPassphrase)
        },
{
    if opened {
        // Authenticated, so a bad header is a format problem, not tampering.
        read_header(plain)
    } else if cut {
        Err(ZolalError::DamagedPayload)
    } else {
        Err(ZolalError::WrongPassphrase)
    }
}

/// The state of an [`OpenReader`].
struct OpenCore<'p, R: Read, P: Progress> {
    src: R,
    key: Key,
    prefix: Vec<u8>,
    region_len: u64,
    /// Sealed bytes not yet read.
    left: u64,
    /// Index of the next chunk to load.
    next: u64,
    /// The current chunk's plaintext, and how much of it has been handed out.
    plain: Plain,
    pos: usize,
    /// Region bytes consumed so far, for progress.
    consumed: u64,
    /// Set once a chunk fails, so a caller that ignores the error can't then read a clean end.
    poisoned: bool,
    header: InnerHeader,
    progress: &'p P,
}

impl<'p, R: Read, P: Progress> OpenCore<'p, R, P> {
    spec fn wf(&self) -> bool {
        &&& self.prefix@.len() == 19
        &&& self.pos <= self.plain.bytes@.len()
        &&& self.consumed + self.left == self.region_len
        &&& self.next + sealed_chunks(self.left as nat) <= 0x1_0000_0000
    }

    spec fn rest(&self) -> (Seq<u8>, Option<Fault>) {
        released(
            self.key@,
            self.prefix@,
            self.src.remaining(),
            self.left as nat,
            self.next as nat,
            self.src.ending(),
        )
    }

    /// Load and open the next chunk.
    fn open_next_chunk(&mut self) -> (r: Result<(), ZolalError>)
        requires
            old(self).wf(),
            old(self).left > 0,
        ensures
            final(self).wf(),
            final(self).pos == 0,
            final(self).poisoned == old(self).poisoned,
            final(self).header == old(self).header,
            old(self).src.reliable() ==> final(self).src.reliable(),
            final(self).progress == old(self).progress,
            r is Ok ==> {
                &&& final(self).left < old(self).left
                &&& old(self).rest() == (
                    final(self).plain.bytes@ + final(self).rest().0,
                    final(self).rest().1,
                )
            },
            r matches Err(e) ==> old(self).src.reliable() && old(self).progress.steady()
                ==> old(self).rest() == (Seq::<u8>::empty(), Some(e@)),
            old(self).progress.halted() ==> fails(r, Fault::Cancelled),
            r is Err ==> final(self).plain.bytes@.len() == 0,
    {
        self.pos = 0;
        self.plain = Plain { bytes: Vec::new() };
        if self.progress.is_cancelled() {
            return Err(ZolalError::Cancelled);
        }
        let last = self.left <= SEALED_CHUNK_LEN;
        let n: u64 = if last { self.left } else { SEALED_CHUNK_LEN };
        let ghost avail = self.src.remaining();
        let chunk = read_exact(&mut self.src, n as usize);
        let mut chunk = Plain { bytes: cut_off_error(chunk)? };
        let ghost sealed = chunk.bytes@;
        match open_chunk(
            self.key.bytes(),
            self.prefix.as_slice(),
            self.next as u32,
            last,
            &mut chunk.bytes,
        ) {
            Ok(()) => {},
            Err(()) => {
                return Err(ZolalError::DamagedPayload);
            },
        }
        self.plain = chunk;
        self.next = self.next + 1;
        self.left = self.left - n;
        self.consumed = self.consumed + n;
        self.progress.update(self.consumed, self.region_len);
        Ok(())
    }
}

/// Pull-based decryptor: a [`Read`] of the payload that authenticates each chunk before releasing any of
/// it.
///
/// Construction reads the preamble, derives the key and verifies chunk 0. That makes
/// [`OpenReader::new`] the passphrase check:
///
/// - chunk 0 fails: [`ZolalError::WrongPassphrase`] (or, for a region too short to hold a whole chunk 0,
///   the honest "can't tell", which is also `WrongPassphrase`);
/// - chunk 0 passes but a later chunk fails, or the stream ends early:
///   [`ZolalError::DamagedPayload`], surfaced from `read` wrapped in an [`IoError`].
///
/// The end of the data is only reported after the final chunk has authenticated as final. Dropping the
/// reader overwrites the key and any plaintext that it still holds.
pub struct OpenReader<'p, R: Read, P: Progress> {
    core: OpenCore<'p, R, P>,
}

impl<'p, R: Read, P: Progress> OpenReader<'p, R, P> {
    /// The authenticated inner header.
    pub closed spec fn inner_header(&self) -> InnerHeader {
        self.core.header
    }

    /// Whether a read has failed, other than by cancellation.
    pub closed spec fn poisoned(&self) -> bool {
        self.core.broken()
    }

    /// Whether cancellation has been asked for.
    pub closed spec fn halted(&self) -> bool {
        self.core.progress.halted()
    }

    /// Whether everything that has been opened is handed out and there is more to open, so that the next
    /// read opens a chunk.
    pub closed spec fn at_boundary(&self) -> bool {
        &&& !self.core.poisoned
        &&& self.core.wf()
        &&& self.core.pos == self.core.plain.bytes@.len()
        &&& self.core.left > 0
    }

    /// Authenticate chunk 0 with a key. `src` stands behind the preamble, whose nonce prefix is given.
    pub fn with_key(src: R, region_len: u64, prefix: Vec<u8>, key: Key, progress: &'p P) -> (r: Result<
        Self,
        ZolalError,
    >)
        requires
            region_len >= MIN_REGION_LEN,
            sealed_chunks((region_len - PREAMBLE_LEN) as nat) - 1 <= u32::MAX,
            prefix@.len() == 19,
        ensures
            r matches Ok(reader) ==> {
                &&& keyed(
                    key@,
                    prefix@,
                    src.remaining(),
                    (region_len - PREAMBLE_LEN) as nat,
                    src.ending(),
                ) == Ok::<Contents, Fault>(
                    Contents {
                        header: reader.inner_header(),
                        payload: reader.remaining(),
                        ending: reader.ending(),
                    },
                )
                &&& reader.halted() == progress.halted()
                &&& !reader.poisoned()
                &&& src.reliable() && progress.steady() ==> reader.reliable()
            },
            r matches Err(e) ==> src.reliable() ==> keyed(
                key@,
                prefix@,
                src.remaining(),
                (region_len - PREAMBLE_LEN) as nat,
                src.ending(),
            ) == Err::<Contents, Fault>(e@),
    {
        let sealed: u64 = region_len - PREAMBLE_LEN as u64;
        let last = sealed <= SEALED_CHUNK_LEN;
        let n: u64 = if last { sealed } else { SEALED_CHUNK_LEN };
        let mut src = src;
        let ghost avail = src.remaining();
        let chunk = read_exact(&mut src, n as usize);
        let mut chunk = Plain { bytes: cut_off_error(chunk)? };
        let ghost first = chunk.bytes@;
        // Keep a copy only in the one ambiguous case: a full-size chunk 0 with nothing after it. It is
        // either a wrong key or a stream cut off right after its first chunk.
        let mut copy = Plain { bytes: Vec::new() };
        let retry = sealed == SEALED_CHUNK_LEN;
        if retry {
            copy = Plain { bytes: vstd::slice::slice_to_vec(chunk.bytes.as_slice()) };
            assert(copy.bytes@ =~= first);
        }
        let opened = open_chunk(key.bytes(), prefix.as_slice(), 0, last, &mut chunk.bytes).is_ok();
        let cut = !opened && retry && open_chunk(
            key.bytes(),
            prefix.as_slice(),
            0,
            false,
            &mut copy.bytes,
        ).is_ok();
        if opened {
            progress.update(PREAMBLE_LEN as u64 + n, region_len);
        }
        let header = judge_first_chunk(&chunk.bytes, opened, cut)?;
        let core = OpenCore {
            src,
            key,
            prefix,
            region_len,
            left: sealed - n,
            next: 1,
            plain: chunk,
            pos: 2,
            consumed: PREAMBLE_LEN as u64 + n,
            poisoned: false,
            header,
            progress,
        };
        Ok(OpenReader { core })
    }

    /// Read the preamble, derive the key with `params`, and authenticate chunk 0.
    ///
    /// Progress is reported as `(region bytes consumed, region_len)`.
    pub fn new(src: R, region_len: u64, passphrase: &str, params: KdfParams, progress: &'p P) -> (r:
        Result<Self, ZolalError>)
        ensures
            r matches Ok(reader) ==> {
                &&& opening(
                    src.remaining(),
                    src.ending(),
                    region_len as nat,
                    passphrase@,
                    params,
                ) == Ok::<Contents, Fault>(
                    Contents {
                        header: reader.inner_header(),
                        payload: reader.remaining(),
                        ending: reader.ending(),
                    },
                )
                &&& src.reliable() && progress.steady() ==> reader.reliable()
                &&& !reader.poisoned()
            },
            region_len < MIN_REGION_LEN ==> fails(r, Fault::WrongPassphrase),
            src.reliable() ==> (unreadable(src.remaining(), src.ending(), region_len as nat) matches Some(
                fault,
            ) ==> fails(r, fault)),
            src.reliable() && progress.halted() ==> (unreadable(
                src.remaining(),
                src.ending(),
                region_len as nat,
            ) is None ==> fails(r, Fault::Cancelled)),
            progress.halted() ==> r is Err,
            r matches Err(e) ==> src.reliable() && progress.steady() ==> opening(
                src.remaining(),
                src.ending(),
                region_len as nat,
                passphrase@,
                params,
            ) == Err::<Contents, Fault>(e@) || (e@ == out_of_memory() && derives_key(
                src.remaining(),
                src.ending(),
                region_len as nat,
                params,
            )),
    {
        if region_len < MIN_REGION_LEN {
            return Err(ZolalError::WrongPassphrase);
        }
        let sealed: u64 = region_len - PREAMBLE_LEN as u64;
        let chunks: u64 = (sealed - 1) / SEALED_CHUNK_LEN + 1;
        assert(chunks == sealed_chunks(sealed as nat));
        if chunks - 1 > 0xffff_ffff {
            return Err(ZolalError::WrongPassphrase);
        }
        let mut src = src;
        let ghost avail = src.remaining();
        let preamble = read_exact(&mut src, PREAMBLE_LEN);
        let preamble = cut_off_error(preamble)?;
        if progress.is_cancelled() {
            return Err(ZolalError::Cancelled);
        }
        let salt = vstd::slice::slice_subrange(preamble.as_slice(), 0, 16);
        let prefix = vstd::slice::slice_to_vec(
            vstd::slice::slice_subrange(preamble.as_slice(), 16, 35),
        );
        proof {
            assert(salt@ =~= avail.take(16));
            assert(prefix@ =~= avail.subrange(16, 35));
        }
        let key = derive_key(passphrase, salt, params)?;
        OpenReader::with_key(src, region_len, prefix, key, progress)
    }

    /// The authenticated inner header of this envelope.
    pub fn header(&self) -> (r: InnerHeader)
        ensures
            r == self.inner_header(),
    {
        self.core.header
    }
}

impl<'p, R: Read, P: Progress> OpenCore<'p, R, P> {
    fn sane(&self) -> (r: bool)
        ensures
            r == self.wf(),
    {
        let full: u64 = self.left / SEALED_CHUNK_LEN;
        let chunks: u64 = if self.left % SEALED_CHUNK_LEN == 0 { full } else { full + 1 };
        self.prefix.len() == 19 && self.pos <= self.plain.bytes.len() && self.consumed
            <= self.region_len && self.left == self.region_len - self.consumed && chunks <= 0x1_0000_0000
            && self.next <= 0x1_0000_0000 - chunks
    }

    fn hand_out(&mut self, max: usize) -> (r: Result<Vec<u8>, IoError>)
        ensures
            old(self).src.reliable() ==> final(self).src.reliable(),
            final(self).progress == old(self).progress,
            final(self).header == old(self).header,
            r matches Ok(bytes) ==> {
                &&& bytes@.len() <= max
                &&& bytes@.len() <= old(self).coming().0.len()
                &&& bytes@ == old(self).coming().0.take(bytes@.len() as int)
                &&& final(self).coming().0 == old(self).coming().0.skip(bytes@.len() as int)
                &&& final(self).coming().1 == old(self).coming().1
                &&& bytes@.len() == 0 && max > 0 ==> old(self).coming().0.len() == 0
                    && old(self).coming().1 is None
            },
            r matches Err(e) ==> old(self).src.reliable() && old(self).progress.steady() ==> {
                &&& old(self).coming().0.len() == 0
                &&& old(self).coming().1 == Some(unwrapped(e)@)
            },
            r matches Err(e) ==> unwrapped(e)@ == Fault::Cancelled || final(self).broken(),
            old(self).broken() ==> final(self).broken() && fails_through(r, Fault::DamagedPayload),
            old(self).progress.halted() && max > 0 && !old(self).poisoned && old(self).wf() && old(self).pos
                == old(self).plain.bytes@.len() && old(self).left > 0 ==> fails_through(
                r,
                Fault::Cancelled,
            ),
    {
        let ghost all = self.coming();
        if self.poisoned || !self.sane() {
            return Err(ZolalError::DamagedPayload.into_io());
        }
        if max == 0 {
            assert(all.0.take(0) =~= Seq::<u8>::empty());
            assert(all.0.skip(0) =~= all.0);
            return Ok(Vec::new());
        }
        while self.pos == self.plain.bytes.len()
            invariant
                self.wf(),
                max > 0,
                !self.poisoned,
                !old(self).broken(),
                all == old(self).coming(),
                self.coming() == all,
                old(self).src.reliable() ==> self.src.reliable(),
                self.progress == old(self).progress,
                self.header == old(self).header,
                old(self).progress.halted() ==> {
                    &&& self.pos == old(self).pos
                    &&& self.plain == old(self).plain
                    &&& self.left == old(self).left
                },
            decreases self.left,
        {
            let ghost here = self.rest();
            proof {
                assert(self.plain.bytes@.skip(self.pos as int) =~= Seq::<u8>::empty());
                assert(Seq::<u8>::empty() + here.0 =~= here.0);
            }
            if self.left == 0 {
                assert(all.0 =~= Seq::<u8>::empty());
                assert(all.0.take(0) =~= Seq::<u8>::empty());
                assert(all.0.skip(0) =~= all.0);
                return Ok(Vec::new());
            }
            match self.open_next_chunk() {
                Ok(()) => {
                    assert(self.plain.bytes@.skip(0) =~= self.plain.bytes@);
                },
                Err(e) => {
                    let cancelled = matches!(e, ZolalError::Cancelled);
                    self.poisoned = !cancelled;
                    return Err(e.into_io());
                },
            }
        }
        let held: usize = self.plain.bytes.len() - self.pos;
        let n: usize = if held < max { held } else { max };
        let out = vstd::slice::slice_to_vec(
            vstd::slice::slice_subrange(self.plain.bytes.as_slice(), self.pos, self.pos + n),
        );
        let ghost before = self.plain.bytes@.skip(self.pos as int);
        self.pos = self.pos + n;
        proof {
            let after = self.plain.bytes@.skip(self.pos as int);
            assert(before =~= out@ + after);
            assert(out@ =~= all.0.take(n as int));
            assert(self.coming().0 =~= all.0.skip(n as int));
        }
        Ok(out)
    }

    /// Nothing is to be had any more.
    spec fn broken(&self) -> bool {
        self.poisoned || !self.wf()
    }

    /// What is still to come, and how it ends.
    spec fn coming(&self) -> (Seq<u8>, Option<Fault>) {
        if self.broken() {
            (Seq::empty(), Some(Fault::DamagedPayload))
        } else {
            (self.plain.bytes@.skip(self.pos as int) + self.rest().0, self.rest().1)
        }
    }
}

impl<'p, R: Read, P: Progress> Read for OpenReader<'p, R, P> {
    closed spec fn remaining(&self) -> Seq<u8> {
        self.core.coming().0
    }

    closed spec fn ending(&self) -> Option<Fault> {
        self.core.coming().1
    }

    closed spec fn reliable(&self) -> bool {
        self.core.src.reliable() && self.core.progress.steady()
    }

    /// A read that fails, other than by cancellation, poisons the reader, and every read of a poisoned
    /// one fails as damage, however much is asked for and whatever the source does: no caller that ignores
    /// the error can come to a clean end. Cancellation takes effect where the next chunk would be opened.
    fn read(&mut self, max: usize) -> (r: Result<Vec<u8>, IoError>)
        ensures
            r matches Err(e) ==> unwrapped(e)@ == Fault::Cancelled || final(self).poisoned(),
            old(self).poisoned() ==> final(self).poisoned() && fails_through(r, Fault::DamagedPayload),
            final(self).poisoned() ==> final(self).remaining() == Seq::<u8>::empty() && final(self).ending()
                == Some(Fault::DamagedPayload),
            old(self).halted() && old(self).at_boundary() && max > 0 ==> fails_through(
                r,
                Fault::Cancelled,
            ),
    {
        self.core.hand_out(max)
    }
}

/// Decrypt a whole region from `src` into `dst`, returning the payload length.
///
/// `dst` receives authenticated chunks as they verify, so on an error the caller must discard what was
/// written. A truncated or reordered stream is always an error, never a partial success.
pub fn open_stream<R: Read, W: Write, P: Progress>(
    src: R,
    region_len: u64,
    dst: &mut W,
    passphrase: &str,
    params: KdfParams,
    progress: &P,
) -> (r: Result<u64, ZolalError>)
    requires
        old(dst).written().len() + region_len <= u64::MAX,
    ensures
        final(dst).reliable() == old(dst).reliable(),
        r matches Ok(n) ==> opening(
            src.remaining(),
            src.ending(),
            region_len as nat,
            passphrase@,
            params,
        ) matches Ok(contents) && {
            &&& contents.ending is None
            &&& n == contents.payload.len()
            &&& final(dst).written() == old(dst).written() + contents.payload
        },
        src.reliable() ==> (unreadable(src.remaining(), src.ending(), region_len as nat) matches Some(
            fault,
        ) ==> fails(r, fault) && final(dst).written() == old(dst).written()),
        src.reliable() && progress.halted() ==> (unreadable(
            src.remaining(),
            src.ending(),
            region_len as nat,
        ) is None ==> fails(r, Fault::Cancelled) && final(dst).written() == old(dst).written()),
        r matches Err(e) ==> src.reliable() && old(dst).reliable() && progress.steady() ==> (e@
            == out_of_memory() && derives_key(
            src.remaining(),
            src.ending(),
            region_len as nat,
            params,
        )) || match opening(
            src.remaining(),
            src.ending(),
            region_len as nat,
            passphrase@,
            params,
        ) {
            Err(fault) => e@ == fault,
            Ok(contents) => contents.ending == Some(e@) && final(dst).written() == old(dst).written()
                + contents.payload,
        },
{
    proof {
        payload_fits_region(
            src.remaining(),
            src.ending(),
            region_len as nat,
            passphrase@,
            params,
        );
    }
    let mut reader = OpenReader::new(src, region_len, passphrase, params, progress)?;
    copy_all(&mut reader, dst)
}

// ---------------------------------------------------------------------------------------------
// Sealing

/// The plaintext of an envelope: the current header, then the payload.
pub open spec fn plaintext(payload: Seq<u8>) -> Seq<u8> {
    current_header().bytes() + payload
}

/// `sealed` is what sealing `plain` gives, and opens to it.
pub open spec fn chunk_sealed(
    key: Seq<u8>,
    prefix: Seq<u8>,
    index: u32,
    last: bool,
    sealed: Seq<u8>,
    plain: Seq<u8>,
) -> bool {
    &&& sealed == stream_seal(key, prefix, index, last, plain)
    &&& chunk_plain(key, prefix, index, last, sealed) == Some(plain)
}

/// What sealing `plain` gives, chunk by chunk, the first of them with the given index and the last as the
/// last.
pub open spec fn sealing(key: Seq<u8>, prefix: Seq<u8>, plain: Seq<u8>, index: nat) -> Seq<u8>
    decreases plain.len(),
{
    if plain.len() <= CHUNK_SIZE {
        stream_seal(key, prefix, index as u32, true, plain)
    } else {
        stream_seal(key, prefix, index as u32, false, plain.take(CHUNK_SIZE as int)) + sealing(
            key,
            prefix,
            plain.skip(CHUNK_SIZE as int),
            index + 1,
        )
    }
}

/// The region that a payload becomes with a given key and preamble.
pub open spec fn sealed_region(key: Seq<u8>, preamble: Seq<u8>, payload: Seq<u8>) -> Seq<u8> {
    preamble + sealing(key, preamble.skip(16), plaintext(payload), 0)
}

/// Each chunk of that region opens again, and there are not too many of them.
pub open spec fn opens_again(key: Seq<u8>, preamble: Seq<u8>, payload: Seq<u8>) -> bool {
    &&& preamble.len() == PREAMBLE_LEN
    &&& chunk_count(payload.len() + 2) <= 0x1_0000_0000
    &&& chunks_open(
        key,
        preamble.skip(16),
        sealing(key, preamble.skip(16), plaintext(payload), 0),
        plaintext(payload),
        0,
    )
}

/// The region that a payload becomes with a given preamble.
pub open spec fn envelope(
    preamble: Seq<u8>,
    payload: Seq<u8>,
    passphrase: Seq<char>,
    params: KdfParams,
) -> Seq<u8> {
    preamble + sealing(
        derived(passphrase, preamble.take(16), params),
        preamble.skip(16),
        plaintext(payload),
        0,
    )
}

/// `k` full chunks, sealed, that open to `plain`, none of them as the last.
pub open spec fn full_chunks_open(
    key: Seq<u8>,
    prefix: Seq<u8>,
    sealed: Seq<u8>,
    plain: Seq<u8>,
    k: nat,
) -> bool
    decreases k,
{
    if k == 0 {
        sealed.len() == 0 && plain.len() == 0
    } else {
        let s = (k - 1) * SEALED_CHUNK_LEN;
        let p = (k - 1) * CHUNK_SIZE;
        &&& sealed.len() == s + SEALED_CHUNK_LEN
        &&& plain.len() == p + CHUNK_SIZE
        &&& chunk_sealed(key, prefix, (k - 1) as u32, false, sealed.skip(s), plain.skip(p))
        &&& full_chunks_open(key, prefix, sealed.take(s), plain.take(p), (k - 1) as nat)
    }
}

/// Sealed chunks that open to `plain`, the first of them with the given index and the last as the last.
pub open spec fn chunks_open(
    key: Seq<u8>,
    prefix: Seq<u8>,
    sealed: Seq<u8>,
    plain: Seq<u8>,
    index: nat,
) -> bool
    decreases plain.len(),
{
    if plain.len() <= CHUNK_SIZE {
        &&& sealed.len() == plain.len() + 16
        &&& chunk_sealed(key, prefix, index as u32, true, sealed, plain)
    } else {
        &&& sealed.len() > SEALED_CHUNK_LEN
        &&& chunk_sealed(
            key,
            prefix,
            index as u32,
            false,
            sealed.take(SEALED_CHUNK_LEN as int),
            plain.take(CHUNK_SIZE as int),
        )
        &&& chunks_open(
            key,
            prefix,
            sealed.skip(SEALED_CHUNK_LEN as int),
            plain.skip(CHUNK_SIZE as int),
            index + 1,
        )
    }
}

/// Full chunks and then the rest.
proof fn lemma_chunks_join(
    key: Seq<u8>,
    prefix: Seq<u8>,
    sealed: Seq<u8>,
    plain: Seq<u8>,
    k: nat,
    more: Seq<u8>,
    rest: Seq<u8>,
)
    requires
        full_chunks_open(key, prefix, sealed, plain, k),
        chunks_open(key, prefix, more, rest, k),
        rest.len() > 0,
    ensures
        chunks_open(key, prefix, sealed + more, plain + rest, 0),
    decreases k,
{
    if k == 0 {
        assert(sealed + more =~= more);
        assert(plain + rest =~= rest);
    } else {
        let s = (k - 1) * SEALED_CHUNK_LEN;
        let p = (k - 1) * CHUNK_SIZE;
        let c = sealed.skip(s);
        let d = plain.skip(p);
        let more2 = c + more;
        let rest2 = d + rest;
        assert(more2.take(SEALED_CHUNK_LEN as int) =~= c);
        assert(more2.skip(SEALED_CHUNK_LEN as int) =~= more);
        assert(rest2.take(CHUNK_SIZE as int) =~= d);
        assert(rest2.skip(CHUNK_SIZE as int) =~= rest);
        lemma_chunks_len(key, prefix, more, rest, k);
        assert(chunks_open(key, prefix, more2, rest2, (k - 1) as nat));
        lemma_chunks_join(
            key,
            prefix,
            sealed.take(s),
            plain.take(p),
            (k - 1) as nat,
            more2,
            rest2,
        );
        assert(sealed + more =~= sealed.take(s) + more2);
        assert(plain + rest =~= plain.take(p) + rest2);
    }
}

proof fn lemma_chunks_len(
    key: Seq<u8>,
    prefix: Seq<u8>,
    sealed: Seq<u8>,
    plain: Seq<u8>,
    index: nat,
)
    requires
        chunks_open(key, prefix, sealed, plain, index),
        plain.len() > 0,
    ensures
        sealed.len() == plain.len() + 16 * chunk_count(plain.len()),
        sealed.len() > 16,
    decreases plain.len(),
{
    if plain.len() > CHUNK_SIZE {
        lemma_chunks_len(
            key,
            prefix,
            sealed.skip(SEALED_CHUNK_LEN as int),
            plain.skip(CHUNK_SIZE as int),
            index + 1,
        );
    }
}

/// Chunks that open one by one are released whole.
proof fn lemma_chunks_release(
    key: Seq<u8>,
    prefix: Seq<u8>,
    sealed: Seq<u8>,
    plain: Seq<u8>,
    index: nat,
    src_end: Option<Fault>,
)
    requires
        chunks_open(key, prefix, sealed, plain, index),
        plain.len() > 0,
    ensures
        released(key, prefix, sealed, sealed.len(), index, src_end) == (plain, None::<Fault>),
    decreases plain.len(),
{
    lemma_chunks_len(key, prefix, sealed, plain, index);
    if plain.len() <= CHUNK_SIZE {
        let n = sealed.len() as int;
        assert(sealed.take(n) =~= sealed);
        let rest = released(key, prefix, sealed.skip(n), 0, index + 1, src_end);
        assert(plain + rest.0 =~= plain);
    } else {
        let m = SEALED_CHUNK_LEN as int;
        let c = CHUNK_SIZE as int;
        lemma_chunks_len(key, prefix, sealed.skip(m), plain.skip(c), index + 1);
        lemma_chunks_release(key, prefix, sealed.skip(m), plain.skip(c), index + 1, src_end);
        assert(plain.take(c) + plain.skip(c) =~= plain);
    }
}

/// Chunks that were sealed one by one are the sealing of the whole.
proof fn lemma_chunks_are_sealing(
    key: Seq<u8>,
    prefix: Seq<u8>,
    sealed: Seq<u8>,
    plain: Seq<u8>,
    index: nat,
)
    requires
        chunks_open(key, prefix, sealed, plain, index),
    ensures
        sealed == sealing(key, prefix, plain, index),
    decreases plain.len(),
{
    if plain.len() > CHUNK_SIZE {
        let m = SEALED_CHUNK_LEN as int;
        lemma_chunks_are_sealing(key, prefix, sealed.skip(m), plain.skip(CHUNK_SIZE as int), index + 1);
        assert(sealed.take(m) + sealed.skip(m) =~= sealed);
    }
}

/// What was sealed opens to the payload again: the whole envelope, under the passphrase and costs it was
/// sealed with, holds the current header and the payload and ends as it should.
pub proof fn sealed_envelope_opens(
    preamble: Seq<u8>,
    sealed: Seq<u8>,
    payload: Seq<u8>,
    passphrase: Seq<char>,
    params: KdfParams,
)
    requires
        preamble.len() == PREAMBLE_LEN,
        kdf_fault(vstd::utf8::encode_utf8(passphrase), preamble.take(16), params) is None,
        chunk_count(payload.len() + 2) <= 0x1_0000_0000,
        chunks_open(
            derived(passphrase, preamble.take(16), params),
            preamble.skip(16),
            sealed,
            plaintext(payload),
            0,
        ),
    ensures
        (preamble + sealed).len() == envelope_len(payload.len()),
        opening(preamble + sealed, None, (preamble + sealed).len(), passphrase, params) == Ok::<
            Contents,
            Fault,
        >(Contents { header: current_header(), payload, ending: None }),
{
    let key = derived(passphrase, preamble.take(16), params);
    let prefix = preamble.skip(16);
    let region = preamble + sealed;
    let plain = plaintext(payload);
    lemma_chunks_len(key, prefix, sealed, plain, 0);
    lemma_chunks_release(key, prefix, sealed, plain, 0, None);
    assert(region.take(16) =~= preamble.take(16));
    assert(region.subrange(16, 35) =~= prefix);
    assert(region.skip(35) =~= sealed);
    let n: int = if sealed.len() <= SEALED_CHUNK_LEN {
        sealed.len() as int
    } else {
        SEALED_CHUNK_LEN as int
    };
    let first = chunk_plain(key, prefix, 0, sealed.len() <= SEALED_CHUNK_LEN, sealed.take(n))->Some_0;
    let rest = released(key, prefix, sealed.skip(n), (sealed.len() - n) as nat, 1, None);
    assert(plain == first + rest.0);
    assert(first.len() >= 2) by {
        if sealed.len() <= SEALED_CHUNK_LEN {
            assert(sealed.take(n) =~= sealed);
        }
    }
    assert(first[0] == plain[0] && first[1] == plain[1]);
    assert(first.skip(2) + rest.0 =~= plain.skip(2));
    assert(plain.skip(2) =~= payload);
    assert(sealed_chunks(sealed.len()) == chunk_count(plain.len())) by {
        lemma_sealed_chunks(plain.len());
    }
}

proof fn lemma_sealed_chunks(n: nat)
    requires
        n > 0,
    ensures
        sealed_chunks(n + 16 * chunk_count(n)) == chunk_count(n),
{
    let k = chunk_count(n) as int;
    assert((k - 1) * 65536 < n <= k * 65536);
    let m = n + 16 * k;
    assert((k - 1) * 65552 < m <= k * 65552);
    assert((m + 65551) / 65552 == k) by (nonlinear_arith)
        requires
            (k - 1) * 65552 < m <= k * 65552,
    ;
}

/// How many chunks can be sealed from a source of `avail` bytes that should have `n`.
pub open spec fn chunks_within(avail: nat, n: nat) -> nat {
    if avail >= n {
        chunk_count(n + 2)
    } else {
        (avail + 2) / (CHUNK_SIZE as nat)
    }
}

/// How long the first `k` chunks of `total` plaintext bytes are when sealed.
pub open spec fn sealed_until(k: nat, total: nat) -> nat {
    (if k * CHUNK_SIZE <= total {
        (k * CHUNK_SIZE) as nat
    } else {
        total
    }) + 16 * k
}

/// How many payload bytes the first `k` chunks take.
pub open spec fn taken_until(k: nat, total: nat) -> int {
    if k == 0 {
        0
    } else if k * CHUNK_SIZE <= total {
        k * CHUNK_SIZE - 2
    } else {
        total - 2
    }
}

/// How many payload bytes the first `k` chunks take. This is what sealing reports once it has sealed
/// them.
pub fn sealed_so_far(plaintext_len: u64, k: u64) -> (r: u64)
    requires
        plaintext_len <= MAX_PLAINTEXT_LEN,
        k <= chunk_count((plaintext_len + 2) as nat),
    ensures
        r == taken_until(k as nat, (plaintext_len + 2) as nat),
{
    let total: u64 = plaintext_len + INNER_HEADER_LEN;
    if k == 0 {
        0
    } else if k <= total / (CHUNK_SIZE as u64) {
        k * (CHUNK_SIZE as u64) - INNER_HEADER_LEN
    } else {
        plaintext_len
    }
}

/// What sealing reports begins with nothing, never falls, never passes the length of the payload, and
/// comes to it with the last chunk.
pub proof fn sealing_reports_grow(n: nat, i: nat, j: nat)
    requires
        i <= j <= chunk_count(n + 2),
    ensures
        taken_until(0, n + 2) == 0,
        0 <= taken_until(i, n + 2) <= taken_until(j, n + 2) <= n,
        taken_until(chunk_count(n + 2), n + 2) == n,
{
    let k = chunk_count(n + 2) as int;
    assert((k - 1) * 65536 < n + 2 <= k * 65536);
}

/// The error for a source that ended before it should.
pub open spec fn source_short() -> Fault {
    Fault::Io {
        kind: IoErrorKind::UnexpectedEof,
        cause: IoFault::Message("failed to fill whole buffer"@),
    }
}

/// The error for a source that went on when it should have ended.
pub open spec fn source_long() -> Fault {
    Fault::InvalidRequest("payload grew while it was being hidden"@)
}

/// How sealing a source of `avail` bytes that should have `n` ends.
pub open spec fn sealing_end(avail: nat, n: nat, src_end: Option<Fault>) -> Option<Fault> {
    if avail > n {
        Some(source_long())
    } else if avail == n {
        src_end
    } else {
        match src_end {
            Some(fault) => Some(fault),
            None => Some(source_short()),
        }
    }
}

/// How many region bytes come before that.
pub open spec fn sealing_len(avail: nat, n: nat) -> nat {
    PREAMBLE_LEN as nat + sealed_until(chunks_within(avail, n), n + 2)
}

/// How sealing such a source ends if cancellation may have been asked for.
pub open spec fn sealed_end<P: Progress>(
    progress: &P,
    avail: nat,
    n: nat,
    src_end: Option<Fault>,
) -> Option<Fault> {
    if progress.halted() {
        Some(Fault::Cancelled)
    } else {
        sealing_end(avail, n, src_end)
    }
}

/// How many region bytes come before that.
pub open spec fn sealed_len<P: Progress>(progress: &P, avail: nat, n: nat) -> nat {
    if progress.halted() {
        PREAMBLE_LEN as nat
    } else {
        sealing_len(avail, n)
    }
}

/// A failure of the operating system's random source.
pub open spec fn random_failed(fault: Fault) -> bool {
    exists|text: Seq<char>| fault == #[trigger] random_fault(text)
}

/// A failure to come by a key: the costs or the passphrase are impossible, or memory ran out.
pub open spec fn key_failed(fault: Fault, passphrase: Seq<char>, params: KdfParams) -> bool {
    ||| key_fault(passphrase, params) == Some(fault)
    ||| fault == out_of_memory() && cost_fault(params) is None
}

/// The error for a payload that one envelope cannot hold.
pub open spec fn too_large() -> Fault {
    Fault::InvalidRequest("payload too large for one envelope (over 256 TiB)"@)
}

/// How many chunks a payload and the header before it take, if one envelope can hold them.
fn chunks_for(plaintext_len: u64) -> (r: Result<u64, ZolalError>)
    requires
        plaintext_len <= MAX_PLAINTEXT_LEN,
    ensures
        match r {
            Ok(n) => n == chunk_count((plaintext_len + 2) as nat) && n <= 0x1_0000_0000,
            Err(e) => chunk_count((plaintext_len + 2) as nat) > 0x1_0000_0000 && e@ == too_large(),
        },
{
    let total: u64 = plaintext_len + INNER_HEADER_LEN;
    let chunks: u64 = (total - 1) / (CHUNK_SIZE as u64) + 1;
    assert(chunks == chunk_count(total as nat));
    if chunks - 1 > 0xffff_ffff {
        return Err(
            ZolalError::InvalidRequest(
                "payload too large for one envelope (over 256 TiB)".to_owned(),
            ),
        );
    }
    Ok(chunks)
}

/// Encrypts a source as a complete region, chunk by chunk: salt, nonce prefix, then sealed chunks.
///
/// The source must yield exactly the promised number of bytes. The caller committed the region size to
/// the container from that number, so a source that turns out shorter or longer is an error rather than
/// a silently wrong file.
pub struct Sealer<'p, R: Read, P: Progress> {
    src: R,
    plaintext_len: u64,
    preamble: Vec<u8>,
    key: Key,
    /// Total chunk count.
    chunks: u64,
    /// Index of the next chunk.
    next: u64,
    /// Whether the preamble has been handed out.
    started: bool,
    /// Set once something fails.
    failed: bool,
    progress: &'p P,
    /// What the source held in the beginning, and how it ends.
    payload: Ghost<Seq<u8>>,
    src_end: Ghost<Option<Fault>>,
    /// The sealed chunks so far.
    sealed: Ghost<Seq<u8>>,
}

impl<'p, R: Read, P: Progress> Sealer<'p, R, P> {
    spec fn total(&self) -> nat {
        (self.plaintext_len + 2) as nat
    }

    spec fn in_order(&self) -> bool {
        let total = self.total();
        let taken = taken_until(self.next as nat, total);
        let prefix = self.preamble@.skip(16);
        &&& self.plaintext_len <= MAX_PLAINTEXT_LEN
        &&& self.preamble@.len() == PREAMBLE_LEN
        &&& self.chunks == chunk_count(total)
        &&& self.chunks <= 0x1_0000_0000
        &&& self.next <= self.chunks
        &&& !self.started ==> self.next == 0
        &&& self.progress.halted() ==> self.next == 0
        &&& !self.failed ==> {
            &&& taken <= self.payload@.len()
            &&& self.src.remaining() == self.payload@.skip(taken)
            &&& self.src.ending() == self.src_end@
            &&& self.sealed@.len() == sealed_until(self.next as nat, total)
            &&& self.next < self.chunks ==> full_chunks_open(
                self.key@,
                prefix,
                self.sealed@,
                plaintext(self.payload@).take(self.next * CHUNK_SIZE),
                self.next as nat,
            )
            &&& self.next == self.chunks ==> chunks_open(
                self.key@,
                prefix,
                self.sealed@,
                plaintext(self.payload@).take(total as int),
                0,
            )
        }
    }

    /// Seal `src` with the given key and preamble.
    pub fn with_key(src: R, plaintext_len: u64, preamble: Vec<u8>, key: Key, progress: &'p P) -> (r: Result<
        Self,
        ZolalError,
    >)
        requires
            plaintext_len <= MAX_PLAINTEXT_LEN,
            preamble@.len() == PREAMBLE_LEN,
        ensures
            r is Ok <==> chunk_count((plaintext_len + 2) as nat) <= 0x1_0000_0000,
            r matches Ok(sealer) ==> {
                &&& sealer.wf()
                &&& sealer.origin() == seq![key@, preamble@, src.remaining()]
                &&& sealer.produced() == Seq::<u8>::empty()
                &&& sealer.left() == sealed_len(
                    progress,
                    src.remaining().len(),
                    plaintext_len as nat,
                )
                &&& sealer.ending() == sealed_end(
                    progress,
                    src.remaining().len(),
                    plaintext_len as nat,
                    src.ending(),
                )
                &&& sealer.reliable() == (src.reliable() && decided(progress))
            },
            r matches Err(e) ==> e@ == too_large(),
    {
        let chunks: u64 = chunks_for(plaintext_len)?;
        let ghost payload = src.remaining();
        let ghost src_end = src.ending();
        let sealer = Sealer {
            src,
            plaintext_len,
            preamble,
            key,
            chunks,
            next: 0,
            started: false,
            failed: false,
            progress,
            payload: Ghost(payload),
            src_end: Ghost(src_end),
            sealed: Ghost(Seq::empty()),
        };
        proof {
            assert(payload.skip(0) =~= payload);
            assert(plaintext(payload).take(0) =~= Seq::<u8>::empty());
            assert(sealer.produced() =~= Seq::<u8>::empty());
        }
        Ok(sealer)
    }

    /// Seal `src` with the given preamble.
    pub fn with_preamble(
        src: R,
        plaintext_len: u64,
        preamble: Vec<u8>,
        passphrase: &str,
        params: KdfParams,
        progress: &'p P,
    ) -> (r: Result<Self, ZolalError>)
        requires
            plaintext_len <= MAX_PLAINTEXT_LEN,
            preamble@.len() == PREAMBLE_LEN,
        ensures
            r matches Ok(sealer) ==> {
                &&& sealer.wf()
                &&& sealer.origin() == seq![
                    derived(passphrase@, preamble@.take(16), params),
                    preamble@,
                    src.remaining(),
                ]
                &&& sealer.produced() == Seq::<u8>::empty()
                &&& sealer.left() == sealed_len(
                    progress,
                    src.remaining().len(),
                    plaintext_len as nat,
                )
                &&& sealer.ending() == sealed_end(
                    progress,
                    src.remaining().len(),
                    plaintext_len as nat,
                    src.ending(),
                )
                &&& sealer.reliable() == (src.reliable() && decided(progress))
                &&& chunk_count((plaintext_len + 2) as nat) <= 0x1_0000_0000
                &&& kdf_fault(
                    vstd::utf8::encode_utf8(passphrase@),
                    preamble@.take(16),
                    params,
                ) is None
            },
            r matches Err(e) ==> if chunk_count((plaintext_len + 2) as nat) > 0x1_0000_0000 {
                e@ == too_large()
            } else {
                key_failed(e@, passphrase@, params)
            },
            chunk_count((plaintext_len + 2) as nat) > 0x1_0000_0000 ==> r is Err,
            key_fault(passphrase@, params) is Some ==> r is Err,
    {
        chunks_for(plaintext_len)?;
        let salt = vstd::slice::slice_subrange(preamble.as_slice(), 0, 16);
        proof {
            assert(salt@ =~= preamble@.take(16));
            lemma_key_fault(passphrase@, salt@, params);
        }
        let key = derive_key(passphrase, salt, params)?;
        Sealer::with_key(src, plaintext_len, preamble, key, progress)
    }

    /// Seal `src` with a preamble from the operating system's random source.
    pub fn new(src: R, plaintext_len: u64, passphrase: &str, params: KdfParams, progress: &'p P) -> (r:
        Result<Self, ZolalError>)
        requires
            plaintext_len <= MAX_PLAINTEXT_LEN,
        ensures
            r matches Ok(sealer) ==> {
                let preamble = sealer.origin()[1];
                &&& preamble_ok(preamble)
                &&& sealer.wf()
                &&& sealer.origin() == seq![
                    derived(passphrase@, preamble.take(16), params),
                    preamble,
                    src.remaining(),
                ]
                &&& sealer.produced() == Seq::<u8>::empty()
                &&& sealer.left() == sealed_len(
                    progress,
                    src.remaining().len(),
                    plaintext_len as nat,
                )
                &&& sealer.ending() == sealed_end(
                    progress,
                    src.remaining().len(),
                    plaintext_len as nat,
                    src.ending(),
                )
                &&& sealer.reliable() == (src.reliable() && decided(progress))
                &&& chunk_count((plaintext_len + 2) as nat) <= 0x1_0000_0000
                &&& kdf_fault(vstd::utf8::encode_utf8(passphrase@), preamble.take(16), params) is None
            },
            r matches Err(e) ==> if chunk_count((plaintext_len + 2) as nat) > 0x1_0000_0000 {
                e@ == too_large()
            } else {
                preamble_failed(e@) || key_failed(e@, passphrase@, params)
            },
            chunk_count((plaintext_len + 2) as nat) > 0x1_0000_0000 ==> r is Err,
            key_fault(passphrase@, params) is Some ==> r is Err,
    {
        chunks_for(plaintext_len)?;
        progress.update(0, plaintext_len);
        let preamble = random_preamble()?;
        Sealer::with_preamble(src, plaintext_len, preamble, passphrase, params, progress)
    }

    /// Seal the next chunk.
    fn next_chunk(&mut self) -> (r: Result<Vec<u8>, ZolalError>)
        requires
            old(self).in_order(),
            !old(self).failed,
            old(self).started,
            old(self).next < old(self).chunks,
        ensures
            final(self).in_order(),
            old(self).src.reliable() ==> final(self).src.reliable(),
            final(self).progress == old(self).progress,
            final(self).origin() == old(self).origin(),
            final(self).plaintext_len == old(self).plaintext_len,
            final(self).src_end == old(self).src_end,
            final(self).started,
            r matches Ok(block) ==> {
                &&& !final(self).failed
                &&& final(self).next == old(self).next + 1
                &&& final(self).sealed@ == old(self).sealed@ + block@
                &&& block@.len() > 0
            },
            old(self).progress.halted() ==> fails(r, Fault::Cancelled),
            r matches Err(e) ==> final(self).failed && (old(self).src.reliable() && old(self).progress.steady() ==> {
                &&& old(self).payload@.len() < taken_until((old(self).next + 1) as nat, old(self).total())
                &&& e@ == cut_short(old(self).src_end@)
            }),
    {
        let ghost total = self.total();
        let ghost next = self.next as nat;
        let ghost taken = taken_until(next, total);
        let ghost payload = self.payload@;
        let ghost plain = plaintext(payload);
        let ghost prefix = self.preamble@.skip(16);
        if self.progress.is_cancelled() {
            self.failed = true;
            return Err(ZolalError::Cancelled);
        }
        let start: u64 = self.next * (CHUNK_SIZE as u64);
        let room: u64 = self.plaintext_len + INNER_HEADER_LEN - start;
        let chunk_len: usize = if room < CHUNK_SIZE as u64 { room as usize } else { CHUNK_SIZE };
        let mut chunk = Plain { bytes: Vec::with_capacity(CHUNK_SIZE + 16) };
        if self.next == 0 {
            let head: [u8; 2] = InnerHeader::current().to_bytes();
            chunk.bytes.push(head[0]);
            chunk.bytes.push(head[1]);
        }
        let need: usize = chunk_len - chunk.bytes.len();
        let ghost front = chunk.bytes@;
        match read_exact(&mut self.src, need) {
            Ok(Some(bytes)) => {
                let bytes = Plain { bytes };
                chunk.bytes.extend_from_slice(bytes.bytes.as_slice());
            },
            Ok(None) => {
                self.failed = true;
                return Err(
                    ZolalError::Io(
                        IoError::new(IoErrorKind::UnexpectedEof, "failed to fill whole buffer"),
                    ),
                );
            },
            Err(e) => {
                self.failed = true;
                return Err(ZolalError::from_io(e));
            },
        }
        let ghost piece = chunk.bytes@;
        proof {
            assert(front =~= if next == 0 { current_header().bytes() } else { Seq::<u8>::empty() });
            assert(piece =~= plain.subrange(start as int, start + chunk_len));
            assert(self.src.remaining() =~= payload.skip(taken + need));
        }
        let last = self.next + 1 == self.chunks;
        let nonce = vstd::slice::slice_subrange(self.preamble.as_slice(), 16, 35);
        assert(nonce@ =~= prefix);
        match seal_chunk(self.key.bytes(), nonce, self.next as u32, last, &mut chunk.bytes) {
            Ok(()) => {},
            Err(()) => {
                self.failed = true;
                return Err(ZolalError::Io(IoError::other("internal error: chunk encryption failed")));
            },
        }
        let ghost before = self.sealed@;
        proof {
            let sealed = before + chunk.bytes@;
            let done = plain.take(start as int);
            if last {
                assert(chunks_open(self.key@, prefix, chunk.bytes@, piece, next));
                lemma_chunks_join(self.key@, prefix, before, done, next, chunk.bytes@, piece);
                assert(done + piece =~= plain.take(total as int));
            } else {
                let more = plain.take(start + CHUNK_SIZE);
                assert(sealed.skip(next * SEALED_CHUNK_LEN) =~= chunk.bytes@);
                assert(sealed.take(next * SEALED_CHUNK_LEN) =~= before);
                assert(more.skip(start as int) =~= piece);
                assert(more.take(start as int) =~= done);
                assert(full_chunks_open(self.key@, prefix, sealed, more, next + 1));
            }
            self.sealed@ = sealed;
        }
        self.next = self.next + 1;
        Ok(chunk.release())
    }
}

/// What a source that ends early is reported as.
pub open spec fn cut_short(src_end: Option<Fault>) -> Fault {
    match src_end {
        Some(fault) => fault,
        None => source_short(),
    }
}

impl<'p, R: Read, P: Progress> Fill for Sealer<'p, R, P> {
    closed spec fn produced(&self) -> Seq<u8> {
        (if self.started {
            self.preamble@
        } else {
            Seq::empty()
        }) + self.sealed@
    }

    closed spec fn left(&self) -> nat {
        if self.failed {
            0
        } else if self.progress.halted() {
            if self.started {
                0
            } else {
                PREAMBLE_LEN as nat
            }
        } else {
            let total = self.total();
            (sealing_len(self.payload@.len(), self.plaintext_len as nat) - (if self.started {
                PREAMBLE_LEN as int
            } else {
                0
            }) - sealed_until(self.next as nat, total)) as nat
        }
    }

    closed spec fn wf(&self) -> bool {
        self.in_order()
    }

    closed spec fn origin(&self) -> Seq<Seq<u8>> {
        seq![self.key@, self.preamble@, self.payload@]
    }

    closed spec fn ending(&self) -> Option<Fault> {
        if self.failed {
            Some(Fault::DamagedPayload)
        } else {
            sealed_end(
                self.progress,
                self.payload@.len(),
                self.plaintext_len as nat,
                self.src_end@,
            )
        }
    }

    closed spec fn reliable(&self) -> bool {
        self.src.reliable() && decided(self.progress)
    }

    fn next_block(&mut self) -> (r: Result<Vec<u8>, ZolalError>) {
        if self.failed {
            return Err(ZolalError::DamagedPayload);
        }
        let ghost n = self.plaintext_len as nat;
        let ghost total = self.total();
        let ghost avail = self.payload@.len();
        let ghost next = self.next as nat;
        proof {
            lemma_sealing(avail, n, next);
        }
        if !self.started {
            self.started = true;
            let block = vstd::slice::slice_to_vec(self.preamble.as_slice());
            assert(self.sealed@ =~= Seq::<u8>::empty());
            assert(self.produced() =~= old(self).produced() + block@);
            return Ok(block);
        }
        if self.next == self.chunks {
            match self.src.read(1) {
                Ok(extra) => {
                    if extra.len() > 0 {
                        self.failed = true;
                        return Err(
                            ZolalError::InvalidRequest(
                                "payload grew while it was being hidden".to_owned(),
                            ),
                        );
                    }
                    proof {
                        let rest = old(self).src.remaining();
                        assert(rest.skip(0) =~= rest);
                        assert(self.produced() =~= old(self).produced() + extra@);
                    }
                    return Ok(extra);
                },
                Err(e) => {
                    self.failed = true;
                    return Err(ZolalError::from_io(e));
                },
            }
        }
        let block = self.next_chunk()?;
        proof {
            sealing_reports_grow(n, 0, self.next as nat);
        }
        self.progress.update(sealed_so_far(self.plaintext_len, self.next), self.plaintext_len);
        proof {
            lemma_sealing(avail, n, next + 1);
            assert(self.produced() =~= old(self).produced() + block@);
        }
        Ok(block)
    }
}

/// Where a sealing stands after `next` chunks.
proof fn lemma_sealing(avail: nat, n: nat, next: nat)
    requires
        next <= chunk_count(n + 2),
        taken_until(next, n + 2) <= avail,
    ensures
        next <= chunks_within(avail, n),
        chunks_within(avail, n) <= chunk_count(n + 2),
        sealed_until(next, n + 2) <= sealed_until(chunks_within(avail, n), n + 2),
        next < chunk_count(n + 2) && avail < taken_until(next + 1, n + 2) ==> next == chunks_within(
            avail,
            n,
        ) && avail < n,
{
    let total = n + 2;
    let k = chunk_count(total) as int;
    assert((k - 1) * 65536 < total <= k * 65536);
    if avail < n {
        let w = chunks_within(avail, n) as int;
        assert(w * 65536 <= avail + 2 < (w + 1) * 65536);
    }
}

impl<'p, R: Read, P: Progress> Sealer<'p, R, P> {
    /// A sealer that has come to its proper end has produced the preamble and everything sealed, chunk by
    /// chunk, and each chunk opens again.
    pub proof fn finished_region_is_sealed(&self)
        requires
            self.wf(),
            self.left() == 0,
            self.ending() is None,
        ensures
            self.produced() == sealed_region(
                self.origin()[0],
                self.origin()[1],
                self.origin()[2],
            ),
            self.produced().len() == envelope_len(self.origin()[2].len()),
            opens_again(self.origin()[0], self.origin()[1], self.origin()[2]),
    {
        let payload = self.payload@;
        let n = self.plaintext_len as nat;
        let total = self.total();
        lemma_sealing(payload.len(), n, self.next as nat);
        assert(!self.failed);
        assert(payload.len() == n);
        assert(self.next == self.chunks) by {
            if self.next < self.chunks {
                lemma_sealing_grows(self.next as nat, self.chunks as nat, total);
            }
        }
        assert(plaintext(payload).take(total as int) =~= plaintext(payload));
        assert(self.started);
        lemma_chunks_are_sealing(
            self.origin()[0],
            self.preamble@.skip(16),
            self.sealed@,
            plaintext(payload),
            0,
        );
    }

    /// A sealer that has come to its proper end has produced an envelope of exactly the promised length,
    /// which opens to what the source held.
    pub proof fn finished_region_opens(&self, passphrase: Seq<char>, params: KdfParams)
        requires
            self.wf(),
            self.left() == 0,
            self.ending() is None,
            self.origin()[0] == derived(passphrase, self.origin()[1].take(16), params),
            kdf_fault(vstd::utf8::encode_utf8(passphrase), self.origin()[1].take(16), params) is None,
        ensures
            self.produced().len() == envelope_len(self.origin()[2].len()),
            self.produced() == envelope(self.origin()[1], self.origin()[2], passphrase, params),
            self.produced().take(35) == self.origin()[1],
            opening(self.produced(), None, self.produced().len(), passphrase, params) == Ok::<
                Contents,
                Fault,
            >(Contents { header: current_header(), payload: self.origin()[2], ending: None }),
    {
        let payload = self.payload@;
        let n = self.plaintext_len as nat;
        let total = self.total();
        lemma_sealing(payload.len(), n, self.next as nat);
        assert(!self.failed);
        assert(payload.len() == n);
        assert(self.next == self.chunks) by {
            if self.next < self.chunks {
                lemma_sealing_grows(self.next as nat, self.chunks as nat, total);
            }
        }
        assert(plaintext(payload).take(total as int) =~= plaintext(payload));
        assert(self.started);
        sealed_envelope_opens(self.preamble@, self.sealed@, payload, passphrase, params);
        lemma_chunks_are_sealing(
            self.origin()[0],
            self.preamble@.skip(16),
            self.sealed@,
            plaintext(payload),
            0,
        );
        assert(self.produced().take(35) =~= self.preamble@);
    }
}

proof fn lemma_sealing_grows(a: nat, b: nat, total: nat)
    requires
        a < b,
    ensures
        sealed_until(a, total) < sealed_until(b, total),
{
}

/// Write everything that a sealer produces to `dst`. Returns how much that was.
pub fn seal_with<'p, R: Read, W: Write, P: Progress>(sealer: Sealer<'p, R, P>, dst: &mut W) -> (r: Result<
    u64,
    ZolalError,
>)
    requires
        sealer.wf(),
        sealer.produced() == Seq::<u8>::empty(),
        old(dst).written().len() + sealer.left() <= u64::MAX,
    ensures
        final(dst).reliable() == old(dst).reliable(),
        r matches Ok(n) ==> {
            let region = sealed_region(sealer.origin()[0], sealer.origin()[1], sealer.origin()[2]);
            &&& sealer.ending() is None
            &&& final(dst).written() == old(dst).written() + region
            &&& n == region.len()
            &&& n == envelope_len(sealer.origin()[2].len())
            &&& opens_again(sealer.origin()[0], sealer.origin()[1], sealer.origin()[2])
        },
        r matches Err(e) ==> sealer.reliable() && old(dst).reliable() ==> sealer.ending() == Some(e@),
        sealer.ending() is Some ==> r is Err,
{
    let mut work = sealer;
    let ghost start = dst.written();
    let mut count: u64 = 0;
    proof {
        assert(start + work.produced() =~= start);
    }
    loop
        invariant
            start == old(dst).written(),
            start.len() + sealer.left() <= u64::MAX,
            work.wf(),
            work.origin() == sealer.origin(),
            work.ending() == sealer.ending(),
            sealer.reliable() ==> work.reliable(),
            work.produced().len() + work.left() == sealer.left(),
            count == work.produced().len(),
            dst.reliable() == old(dst).reliable(),
            dst.written() == start + work.produced(),
        ensures
            work.left() == 0,
            sealer.ending() is None,
        decreases work.left(),
    {
        let ghost before = work.produced();
        let block = match work.next_block() {
            Ok(block) => block,
            Err(e) => {
                return Err(e);
            },
        };
        if block.len() == 0 {
            assert(work.produced() =~= before);
            break;
        }
        match dst.write_all(block.as_slice()) {
            Ok(()) => {},
            Err(e) => {
                return Err(ZolalError::from_io(e));
            },
        }
        assert(dst.written() =~= start + work.produced());
        count = count + block.len() as u64;
    }
    proof {
        work.finished_region_is_sealed();
    }
    Ok(count)
}

/// Encrypt `src` into `dst` as a complete region.
///
/// `src` must yield exactly `plaintext_len` bytes. Writes exactly [`region_len`]`(plaintext_len)` bytes
/// and returns that count. Progress is reported as `(plaintext bytes sealed, plaintext_len)`.
pub fn seal_stream<R: Read, W: Write, P: Progress>(
    src: R,
    plaintext_len: u64,
    dst: &mut W,
    passphrase: &str,
    params: KdfParams,
    progress: &P,
) -> (r: Result<u64, ZolalError>)
    requires
        plaintext_len <= MAX_PLAINTEXT_LEN,
        chunk_count((plaintext_len + 2) as nat) <= 0x1_0000_0000 ==> old(dst).written().len()
            + envelope_len(plaintext_len as nat) <= u64::MAX,
    ensures
        final(dst).reliable() == old(dst).reliable(),
        r matches Ok(n) ==> {
            let region = final(dst).written().skip(old(dst).written().len() as int);
            &&& final(dst).written() == old(dst).written() + region
            &&& n == region.len()
            &&& n == envelope_len(plaintext_len as nat)
            &&& plaintext_len == src.remaining().len()
            &&& preamble_ok(region.take(35))
            &&& region == envelope(region.take(35), src.remaining(), passphrase@, params)
            &&& opening(region, None, region.len(), passphrase@, params) == Ok::<Contents, Fault>(
                Contents { header: current_header(), payload: src.remaining(), ending: None },
            )
        },
        chunk_count((plaintext_len + 2) as nat) > 0x1_0000_0000 ==> fails(r, too_large()),
        key_fault(passphrase@, params) is Some ==> r is Err,
        sealed_end(progress, src.remaining().len(), plaintext_len as nat, src.ending()) is Some ==> r is Err,
        r matches Err(e) ==> src.reliable() && old(dst).reliable() && decided(progress) && chunk_count(
            (plaintext_len + 2) as nat,
        ) <= 0x1_0000_0000 ==> {
            ||| preamble_failed(e@)
            ||| key_failed(e@, passphrase@, params)
            ||| key_fault(passphrase@, params) is None && sealed_end(
                progress,
                src.remaining().len(),
                plaintext_len as nat,
                src.ending(),
            ) == Some(e@)
        },
{
    let sealer = Sealer::new(src, plaintext_len, passphrase, params, progress)?;
    let ghost origin = sealer.origin();
    let ghost start = dst.written();
    proof {
        lemma_sealing_bound(src.remaining().len(), plaintext_len as nat);
        lemma_key_fault(passphrase@, origin[1].take(16), params);
    }
    let n: u64 = seal_with(sealer, dst)?;
    proof {
        let region = sealed_region(origin[0], origin[1], origin[2]);
        sealed_envelope_opens(
            origin[1],
            sealing(origin[0], origin[1].skip(16), plaintext(origin[2]), 0),
            origin[2],
            passphrase@,
            params,
        );
        assert(dst.written().skip(start.len() as int) =~= region);
        assert(region.take(35) =~= origin[1]);
    }
    Ok(n)
}

/// Never more than the promised length.
pub proof fn lemma_sealing_bound(avail: nat, n: nat)
    ensures
        sealing_len(avail, n) <= envelope_len(n),
{
    let total = n + 2;
    let k = chunk_count(total) as int;
    assert((k - 1) * 65536 < total <= k * 65536);
    if avail < n {
        let w = chunks_within(avail, n) as int;
        assert(w * 65536 <= avail + 2 < (w + 1) * 65536);
    }
}

} // verus!
