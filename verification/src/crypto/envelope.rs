//! Envelope framing: the 2-byte inner header that lives *inside* the encryption.
//!
//! Keeping version and cipher-suite identifiers encrypted is what preserves the markerless property:
//! any cleartext version byte would be a stable fingerprint.

use super::kdf::{default_params, KdfParams};
use vstd::prelude::*;

verus! {

/// Current envelope version.
pub const VERSION: u8 = 1;

/// Cipher suite identifier.
#[derive(Debug, Clone, Copy, PartialEq, Eq, Structural)]
pub enum Suite {
    /// XChaCha20-Poly1305 with STREAM/BE32 chunking, Argon2id KDF.
    XChaCha20Poly1305Argon2id,
}

impl Suite {
    /// The byte that stands for a suite.
    pub open spec fn id(self) -> u8 {
        match self {
            Suite::XChaCha20Poly1305Argon2id => 1,
        }
    }
}

/// The inner header, encrypted as the first bytes of chunk 0.
#[derive(Debug, Clone, Copy, PartialEq, Eq, Structural)]
pub struct InnerHeader {
    /// Envelope version.
    pub version: u8,
    /// Cipher suite in use.
    pub suite: Suite,
}

/// The header every new envelope is written with.
pub open spec fn current_header() -> InnerHeader {
    InnerHeader { version: VERSION, suite: Suite::XChaCha20Poly1305Argon2id }
}

impl InnerHeader {
    /// The header every new envelope is written with.
    pub fn current() -> (r: Self)
        ensures
            r == current_header(),
    {
        InnerHeader { version: VERSION, suite: Suite::XChaCha20Poly1305Argon2id }
    }

    /// The bytes of [`InnerHeader::to_bytes`].
    pub open spec fn bytes(self) -> Seq<u8> {
        seq![self.version, self.suite.id()]
    }

    /// Serialise to the 2 bytes that prefix the plaintext.
    pub fn to_bytes(self) -> (r: [u8; 2])
        ensures
            r@ == self.bytes(),
    {
        let id: u8 = match self.suite {
            Suite::XChaCha20Poly1305Argon2id => 1,
        };
        let r: [u8; 2] = [self.version, id];
        assert(r@ =~= self.bytes());
        r
    }

    /// What [`InnerHeader::from_bytes`] makes of two bytes.
    pub open spec fn parsed(version: u8, suite: u8) -> Option<InnerHeader> {
        if suite == 1 {
            Some(InnerHeader { version, suite: Suite::XChaCha20Poly1305Argon2id })
        } else {
            None
        }
    }

    /// Parse from the first 2 plaintext bytes.
    pub fn from_bytes(bytes: [u8; 2]) -> (r: Option<Self>)
        ensures
            r == Self::parsed(bytes@[0], bytes@[1]),
    {
        if bytes[1] == 1 {
            Some(InnerHeader { version: bytes[0], suite: Suite::XChaCha20Poly1305Argon2id })
        } else {
            None
        }
    }
}

/// A header survives being written and read back.
pub proof fn header_round_trips(header: InnerHeader)
    ensures
        InnerHeader::parsed(header.bytes()[0], header.bytes()[1]) == Some(header),
{
}

/// The parameters that a version implies, if it is known.
pub open spec fn version_params(version: u8) -> Option<KdfParams> {
    if version == 1 {
        Some(default_params())
    } else {
        None
    }
}

/// KDF parameters that a given envelope version implies.
pub fn params_for_version(version: u8) -> (r: Option<KdfParams>)
    ensures
        r == version_params(version),
{
    if version == 1 {
        Some(KdfParams::default())
    } else {
        None
    }
}

/// Parameters new envelopes are sealed with.
pub fn current_params() -> (r: KdfParams)
    ensures
        version_params(VERSION) == Some(r),
{
    match params_for_version(VERSION) {
        Some(params) => params,
        None => KdfParams::default(),
    }
}

/// Whether some known version implies these parameters.
pub open spec fn implied(params: KdfParams) -> bool {
    exists|v: u8| 1 <= v <= VERSION && #[trigger] version_params(v) == Some(params)
}

/// Whether `list` holds `params`.
fn holds(list: &Vec<KdfParams>, params: KdfParams) -> (r: bool)
    ensures
        r == list@.contains(params),
{
    let mut i: usize = 0;
    while i < list.len()
        invariant
            i <= list@.len(),
            forall|k: int| 0 <= k < i ==> list@[k] != params,
        decreases list@.len() - i,
    {
        if list[i] == params {
            assert(list@[i as int] == params);
            return true;
        }
        i = i + 1;
    }
    false
}

/// The newest version, up to the given one, that implies these parameters; 0 where none does.
pub open spec fn newest_implying(params: KdfParams, version: nat) -> nat
    decreases version,
{
    if version == 0 {
        0
    } else if version_params(version as u8) == Some(params) {
        version
    } else {
        newest_implying(params, (version - 1) as nat)
    }
}

/// The parameter sets of the known versions, newest first and each once.
pub open spec fn newest_first(list: Seq<KdfParams>) -> bool {
    &&& forall|i: int| 0 <= i < list.len() ==> implied(#[trigger] list[i])
    &&& forall|v: u8|
        1 <= v <= VERSION && version_params(v) is Some ==> list.contains(
            #[trigger] version_params(v)->Some_0,
        )
    &&& forall|i: int, j: int|
        0 <= i < j < list.len() ==> newest_implying(#[trigger] list[j], VERSION as nat) < newest_implying(
            #[trigger] list[i],
            VERSION as nat,
        )
}

/// [`newest_implying`] is the version it says, if no newer one implies the parameters.
proof fn lemma_newest_implying(params: KdfParams, version: nat, newest: nat)
    requires
        1 <= newest <= version <= 255,
        version_params(newest as u8) == Some(params),
        forall|v: u8| newest < v <= version ==> #[trigger] version_params(v) != Some(params),
    ensures
        newest_implying(params, version) == newest,
    decreases version,
{
    if version > newest {
        assert(version_params(version as u8) != Some(params));
        lemma_newest_implying(params, (version - 1) as nat, newest);
    }
}

/// Every parameter set reveal should try, newest first, without duplicates.
///
/// The version is encrypted, so reveal can't read it before deriving the key. It derives with each
/// candidate in turn and lets the first chunk's tag say which one was right.
pub fn kdf_candidates() -> (r: Vec<KdfParams>)
    ensures
        newest_first(r@),
        r@.len() > 0,
        Some(r@[0]) == version_params(VERSION),
{
    let mut out: Vec<KdfParams> = Vec::new();
    let mut version: u8 = VERSION;
    while version > 0
        invariant
            version <= VERSION,
            version < VERSION ==> out@.len() > 0 && Some(out@[0]) == version_params(VERSION),
            forall|i: int, j: int|
                0 <= i < j < out@.len() ==> newest_implying(#[trigger] out@[j], VERSION as nat)
                    < newest_implying(#[trigger] out@[i], VERSION as nat),
            forall|i: int|
                0 <= i < out@.len() ==> newest_implying(#[trigger] out@[i], VERSION as nat) > version,
            forall|v: u8|
                version < v <= VERSION && version_params(v) is Some ==> out@.contains(
                    #[trigger] version_params(v)->Some_0,
                ),
            forall|i: int| 0 <= i < out@.len() ==> implied(#[trigger] out@[i]),
        decreases version,
    {
        let ghost before = out@;
        if let Some(params) = params_for_version(version) {
            if !holds(&out, params) {
                out.push(params);
                proof {
                    let n = before.len() as int;
                    assert(out@[n] == params);
                    assert forall|v: u8| version < v <= VERSION implies #[trigger] version_params(v) != Some(
                        params,
                    ) by {
                        if version_params(v) is Some {
                            assert(before.contains(version_params(v)->Some_0));
                        }
                    }
                    lemma_newest_implying(params, VERSION as nat, version as nat);
                    assert forall|v: u8| version - 1 < v <= VERSION && version_params(v) is Some implies out@.contains(
                        #[trigger] version_params(v)->Some_0,
                    ) by {
                        if v > version {
                            let p = version_params(v)->Some_0;
                            let k = choose|k: int| 0 <= k < n && before[k] == p;
                            assert(out@[k] == p);
                        } else {
                            assert(out@[n] == version_params(v)->Some_0);
                        }
                    }
                    assert(implied(params)) by {
                        assert(version_params(version) == Some(params));
                    }
                }
            }
        }
        version = version - 1;
    }
    out
}

} // verus!
