//! Encryption envelope: markerless, streaming, authenticated.
//!
//! ## Region layout
//!
//! ```text
//! [ salt : 16 ][ nonce_base : 19 ][ chunk_0 ][ chunk_1 ] ... [ chunk_n (final) ]
//!                                  each chunk = up to 64 KiB ciphertext + 16-byte tag
//! ```
//!
//! Every byte is random or indistinguishable from random. There is no length field: the region
//! boundary gives the length, and the chunk count follows from it. There is no version byte in the
//! clear, and there are no KDF parameters anywhere: the version, inside the encryption, implies them.
//!
//! One exception: a salt never begins `FF D8`, so a JPEG trailer region can never be mistaken for a
//! chained image.
//!
//! ## Why streaming
//!
//! A one-shot cipher would force the entire payload into memory. The STREAM construction binds each
//! chunk's index into its nonce and marks the last chunk as terminal. It also makes ciphertext length a
//! deterministic function of plaintext length, which allows a single-pass write where the region size
//! must be committed to the file *before* the bytes are produced.

pub mod envelope;
pub mod kdf;
pub mod secret;
pub mod stream;
pub mod stream_laws;

use vstd::prelude::*;

verus! {

/// Plaintext bytes per chunk.
pub const CHUNK_SIZE: usize = 65536;

/// Poly1305 authentication tag length.
pub const TAG_LEN: u64 = 16;

/// Argon2id salt length.
pub const SALT_LEN: u64 = 16;

/// STREAM nonce prefix length.
pub const NONCE_PREFIX_LEN: u64 = 19;

/// Plaintext header written before the payload, inside chunk 0: version and suite id.
pub const INNER_HEADER_LEN: u64 = 2;

/// One sealed chunk on disk: [`CHUNK_SIZE`] bytes of ciphertext plus its tag.
pub const SEALED_CHUNK_LEN: u64 = 65552;

/// The smallest region that could possibly be an envelope (an empty payload).
pub const MIN_REGION_LEN: u64 = 53;

/// The largest payload length that leaves room for the header in 64 bits: far beyond what one envelope
/// holds.
pub const MAX_PLAINTEXT_LEN: u64 = 0xffff_ffff_ffff_fffd;

/// How many chunks `total` plaintext bytes are cut into, at least one.
pub open spec fn chunk_count(total: nat) -> nat {
    if total == 0 {
        1
    } else {
        ((total + CHUNK_SIZE - 1) / (CHUNK_SIZE as int)) as nat
    }
}

/// Ciphertext length for `n` payload bytes: the header, the payload and a tag per chunk.
pub open spec fn sealed_len(n: nat) -> nat {
    n + INNER_HEADER_LEN as nat + TAG_LEN as nat * chunk_count(n + INNER_HEADER_LEN as nat)
}

/// Region length for `n` payload bytes.
pub open spec fn envelope_len(n: nat) -> nat {
    SALT_LEN as nat + NONCE_PREFIX_LEN as nat + sealed_len(n)
}

/// Ciphertext length produced for `plaintext_len` bytes.
///
/// Exact, not an estimate: hiding relies on it to commit a region size up front.
pub fn ciphertext_len(plaintext_len: u64) -> (r: u64)
    requires
        sealed_len(plaintext_len as nat) <= u64::MAX,
    ensures
        r == sealed_len(plaintext_len as nat),
{
    let total: u64 = plaintext_len + INNER_HEADER_LEN;
    let full: u64 = total / (CHUNK_SIZE as u64);
    let chunks: u64 = if total % (CHUNK_SIZE as u64) == 0 { full } else { full + 1 };
    total + chunks * TAG_LEN
}

/// Total region size for a payload of `plaintext_len` bytes, including the salt and nonce prefix.
pub fn region_len(plaintext_len: u64) -> (r: u64)
    requires
        envelope_len(plaintext_len as nat) <= u64::MAX,
    ensures
        r == envelope_len(plaintext_len as nat),
{
    SALT_LEN + NONCE_PREFIX_LEN + ciphertext_len(plaintext_len)
}

/// Bytes added on top of the raw payload.
pub fn overhead_for(plaintext_len: u64) -> (r: u64)
    requires
        envelope_len(plaintext_len as nat) <= u64::MAX,
    ensures
        r == envelope_len(plaintext_len as nat) - plaintext_len,
{
    region_len(plaintext_len) - plaintext_len
}

/// Longer payloads make longer regions, and no region is shorter than the smallest.
pub proof fn region_len_grows(a: nat, b: nat)
    requires
        a < b,
    ensures
        envelope_len(a) < envelope_len(b),
        envelope_len(a) >= MIN_REGION_LEN,
        envelope_len(0) == MIN_REGION_LEN,
{
}

} // verus!
