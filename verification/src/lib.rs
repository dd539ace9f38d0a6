//! Hide encrypted files inside ordinary photos, videos, documents and songs.
//!
//! The payload lives in structurally unused space (after a JPEG's end-of-image marker or in its APP15
//! segments, in an MP4 `free` box, in an unreferenced PDF object, in an ID3 private frame), so the carrier
//! still opens normally in any viewer.
//!
//! This is **not** forensic-grade steganography: a file-size check reveals that something was added. The
//! threat model is a casual snooper, not an analyst. [`ops::plausibility`] and [`ops::verdict`] exist to
//! keep a front end honest about that.
//!
//! - **No platform dependencies.** Everything here works on [`io::ReadSeek`], [`io::Read`] and
//!   [`io::Write`]; opening, renaming and deleting files is the front end's part.
//! - **Streaming everywhere.** Memory does not grow with file size.
//! - **Markerless.** Nothing identifiable is written. Candidate regions are located from container
//!   structure, and the authentication tag is the only validator.
//!
//! [`ops`] holds the operations, [`ops_laws`] what they promise together. [`carrier`] has one module for
//! each container format, with its laws beside it; [`crypto`] the envelope; [`payload`] the bundle of
//! files inside it.

pub mod bytes;
pub mod carrier;
pub mod cli;
pub mod codes;
pub mod crypto;
pub mod error;
pub mod io;
pub mod ops;
pub mod ops_laws;
pub mod ops_rules;
pub mod payload;
pub mod probe;
pub mod probe_laws;
pub mod progress;
pub mod text;
pub mod wording_laws;

pub use crate::carrier::{CarrierFormat, Technique};
pub use crate::crypto::kdf::KdfParams;
pub use crate::error::ZolalError;
pub use crate::ops::{
    clean, hide_files, plausibility, probe, reveal_files, size_limit, CarrierInfo, CleanReport, HideReport,
    RevealReport, Verdict,
};
pub use crate::progress::Progress;
