//! Argon2id key derivation.
//!
//! The cost parameters are stored nowhere: they cannot go inside the encryption, because they are
//! needed to derive the key that opens it, and in the clear they would be a fingerprint. The envelope
//! version implies them (see [`crate::crypto::envelope::params_for_version`]), and reveal tries each
//! known set, newest first.

use super::secret::Key;
use crate::error::{fails, Fault, IoError, IoErrorKind, IoFault, ZolalError};
use argon2::{Algorithm, Argon2, Params, Version};
use vstd::prelude::*;

verus! {

/// Memory cost in KiB.
pub const ARGON2_MEMORY_KIB: u32 = 49152;

/// Time cost (iterations).
pub const ARGON2_ITERATIONS: u32 = 3;

/// Parallelism.
pub const ARGON2_PARALLELISM: u32 = 1;

/// Argon2id cost parameters.
#[derive(Debug, Clone, Copy, PartialEq, Eq, Structural)]
pub struct KdfParams {
    /// Memory cost in KiB.
    pub memory_kib: u32,
    /// Iterations.
    pub iterations: u32,
    /// Lanes.
    pub parallelism: u32,
}

/// The costs of the first envelope version.
pub open spec fn default_params() -> KdfParams {
    KdfParams {
        memory_kib: ARGON2_MEMORY_KIB,
        iterations: ARGON2_ITERATIONS,
        parallelism: ARGON2_PARALLELISM,
    }
}

impl Default for KdfParams {
    fn default() -> (r: Self)
        ensures
            r == default_params(),
    {
        KdfParams {
            memory_kib: ARGON2_MEMORY_KIB,
            iterations: ARGON2_ITERATIONS,
            parallelism: ARGON2_PARALLELISM,
        }
    }
}

/// What is wrong with a set of costs, if anything.
pub open spec fn cost_fault(params: KdfParams) -> Option<Seq<char>> {
    if params.memory_kib < 8 {
        Some("memory cost is too small"@)
    } else if params.parallelism < 1 {
        Some("not enough threads"@)
    } else if params.parallelism > 0xff_ffff {
        Some("too many threads"@)
    } else if params.memory_kib < 8 * params.parallelism {
        Some("memory cost is too small"@)
    } else if params.iterations < 1 {
        Some("time cost is too small"@)
    } else {
        None
    }
}

/// What is wrong with a password and salt, if anything.
pub open spec fn input_fault(password: Seq<u8>, salt: Seq<u8>) -> Option<Seq<char>> {
    if password.len() > 0xffff_ffff {
        Some("password is too long"@)
    } else if salt.len() < 8 {
        Some("salt is too short"@)
    } else if salt.len() > 0xffff_ffff {
        Some("salt is too long"@)
    } else {
        None
    }
}

/// The 32 bytes that Argon2id (version 0x13) makes of a password and salt at the given costs.
pub uninterp spec fn argon2id_key(
    password: Seq<u8>,
    salt: Seq<u8>,
    memory_kib: u32,
    iterations: u32,
    parallelism: u32,
) -> Seq<u8>;

/// Why no key came out.
#[derive(Debug)]
pub enum KdfFailure {
    /// The costs are impossible.
    Costs(String),
    /// The password or the salt is.
    Inputs(String),
    /// There was not enough memory.
    OutOfMemory,
}

/// Calls `argon2::Params::new`, `argon2::Argon2::new` (Argon2id, version 0x13) and
/// `Argon2::hash_password_into` for a 32-byte output, which is written to `key`.
///
/// The costs are checked first, then memory is allocated, then the lengths of password and salt are
/// checked; the texts are those that `argon2::Error` prints. The key depends on the arguments alone.
/// Whether there is enough memory rests on the machine. What `key` holds after a failure is left unsaid.
#[verifier::external_body]
fn argon2id(password: &[u8], salt: &[u8], params: KdfParams, key: &mut [u8; 32]) -> (r: Result<
    (),
    KdfFailure,
>)
    ensures
        r is Ok ==> cost_fault(params) is None && input_fault(password@, salt@) is None && final(key)@
            == argon2id_key(
            password@,
            salt@,
            params.memory_kib,
            params.iterations,
            params.parallelism,
        ),
        r matches Err(KdfFailure::Costs(text)) ==> cost_fault(params) == Some(text@),
        r matches Err(KdfFailure::Inputs(text)) ==> cost_fault(params) is None && input_fault(
            password@,
            salt@,
        ) == Some(text@),
        r matches Err(KdfFailure::OutOfMemory) ==> cost_fault(params) is None,
{
    let costs = Params::new(params.memory_kib, params.iterations, params.parallelism, Some(32));
    let argon = match costs {
        Ok(costs) => Argon2::new(Algorithm::Argon2id, Version::V0x13, costs),
        Err(e) => return Err(KdfFailure::Costs(format!("{e}"))),
    };
    match argon.hash_password_into(password, salt, key) {
        Ok(()) => Ok(()),
        Err(argon2::Error::OutOfMemory) => Err(KdfFailure::OutOfMemory),
        Err(e) => Err(KdfFailure::Inputs(format!("{e}"))),
    }
}

/// Why no key can be derived, if none can.
pub open spec fn kdf_fault(password: Seq<u8>, salt: Seq<u8>, params: KdfParams) -> Option<Fault> {
    match cost_fault(params) {
        Some(text) => Some(Fault::InvalidRequest("invalid Argon2 parameters: "@ + text)),
        None => match input_fault(password, salt) {
            Some(text) => Some(Fault::InvalidRequest("key derivation failed: "@ + text)),
            None => None,
        },
    }
}

/// Why no key can be derived with a salt of the usual length, if none can.
pub open spec fn key_fault(passphrase: Seq<char>, params: KdfParams) -> Option<Fault> {
    kdf_fault(vstd::utf8::encode_utf8(passphrase), Seq::new(16, |i: int| 0u8), params)
}

/// It does not matter which salt that is.
pub proof fn lemma_key_fault(passphrase: Seq<char>, salt: Seq<u8>, params: KdfParams)
    requires
        salt.len() == 16,
    ensures
        kdf_fault(vstd::utf8::encode_utf8(passphrase), salt, params) == key_fault(passphrase, params),
{
}

/// The error for a machine that is out of memory.
pub open spec fn out_of_memory() -> Fault {
    Fault::Io { kind: IoErrorKind::OutOfMemory, cause: IoFault::Message("out of memory"@) }
}

/// The key for a passphrase and salt at the given costs.
pub open spec fn derived(passphrase: Seq<char>, salt: Seq<u8>, params: KdfParams) -> Seq<u8> {
    argon2id_key(
        vstd::utf8::encode_utf8(passphrase),
        salt,
        params.memory_kib,
        params.iterations,
        params.parallelism,
    )
}

/// What a failed derivation is reported as.
pub open spec fn failure_fault(failure: KdfFailure) -> Fault {
    match failure {
        KdfFailure::Costs(text) => Fault::InvalidRequest("invalid Argon2 parameters: "@ + text@),
        KdfFailure::Inputs(text) => Fault::InvalidRequest("key derivation failed: "@ + text@),
        KdfFailure::OutOfMemory => out_of_memory(),
    }
}

/// What a failed derivation is reported as.
fn kdf_error(failure: KdfFailure) -> (r: ZolalError)
    ensures
        r@ == failure_fault(failure),
{
    match failure {
        KdfFailure::Costs(text) => {
            let mut out = "invalid Argon2 parameters: ".to_owned();
            out.append(text.as_str());
            ZolalError::InvalidRequest(out)
        },
        KdfFailure::Inputs(text) => {
            let mut out = "key derivation failed: ".to_owned();
            out.append(text.as_str());
            ZolalError::InvalidRequest(out)
        },
        KdfFailure::OutOfMemory => ZolalError::Io(
            IoError::new(IoErrorKind::OutOfMemory, "out of memory"),
        ),
    }
}

/// What becomes of a derivation: the key that was filled in, or the error that says why none was.
pub fn judge_derivation(key: Key, outcome: Result<(), KdfFailure>) -> (r: Result<Key, ZolalError>)
    ensures
        match outcome {
            Ok(()) => r matches Ok(kept) && kept@ == key@,
            Err(failure) => fails(r, failure_fault(failure)),
        },
{
    match outcome {
        Ok(()) => Ok(key),
        Err(failure) => Err(kdf_error(failure)),
    }
}

/// Derive the payload encryption key from a passphrase and salt.
///
/// The key is overwritten when it is dropped. With its `zeroize` feature the crate does the same to the
/// first hash and the last block that it computes.
pub fn derive_key(passphrase: &str, salt: &[u8], params: KdfParams) -> (r: Result<Key, ZolalError>)
    ensures
        r matches Ok(key) ==> key@ == derived(passphrase@, salt@, params) && kdf_fault(
            vstd::utf8::encode_utf8(passphrase@),
            salt@,
            params,
        ) is None,
        r matches Err(e) ==> kdf_fault(vstd::utf8::encode_utf8(passphrase@), salt@, params) == Some(e@)
            || (e@ == out_of_memory() && cost_fault(params) is None),
{
    let mut key = Key::new([0; 32]);
    let outcome = argon2id(passphrase.as_bytes(), salt, params, key.bytes_mut());
    judge_derivation(key, outcome)
}

} // verus!
