//! Payload bundling: several files in, one byte stream out.
//!
//! The bundle is written *inside* the encryption, so nothing here needs to resist tampering: the tag has
//! already verified the bytes before they are parsed. Names are still sanitised: authenticated only means
//! "made by someone who knew the passphrase".
//!
//! ```text
//! [ manifest_len : u32 LE ][ manifest (entries) ][ file_0 bytes ][ file_1 bytes ] ...
//! ```
//!
//! Files are stored back to back with no per-file framing: lengths come from the manifest. There is no
//! compression: payloads are overwhelmingly photos and videos, which are compressed already.

pub mod bundle;
pub mod bundle_laws;
pub mod damage_laws;
pub mod manifest;
pub mod names;
pub mod names_laws;

pub use bundle::{plan, read_bundle, BundleReader, Extracted};
pub use manifest::{Entry, Manifest};
