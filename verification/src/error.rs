//! Error types.
//!
//! These variants are deliberately precise. The worst failure mode is silent loss: a carrier
//! sent the wrong way arrives looking perfect with the payload gone, so the integrator needs to
//! know whether a reveal failed because of a typo, a stripped carrier or truncation.
//!
//! Precise errors are an oracle: [`ZolalError::WrongPassphrase`] means that something shaped like
//! a hidden region is there, [`ZolalError::NoHiddenData`] that nothing is. A front end that
//! anyone else can watch should collapse every reveal failure into one outcome.

use crate::carrier::CarrierFormat;
use crate::text::{append_decimal, decimal_text};
use vstd::prelude::*;

verus! {

/// The broad cause of an input or output failure.
#[derive(Debug, Clone, Copy, PartialEq, Eq, Structural)]
pub enum IoErrorKind {
    /// No such file.
    NotFound,
    /// The operating system refused access.
    PermissionDenied,
    /// The file exists already.
    AlreadyExists,
    /// The call was interrupted and may be repeated.
    Interrupted,
    /// The source ended too early.
    UnexpectedEof,
    /// No memory was left for the operation.
    OutOfMemory,
    /// Anything else.
    Other,
}

/// What an [`IoError`] carries besides its kind.
#[derive(Debug)]
pub enum IoCause {
    /// A description.
    Message(String),
    /// An error of this library on its way through an adapter that can only fail with an
    /// [`IoError`].
    Wrapped(Box<ZolalError>),
}

/// A failure of reading or writing.
#[derive(Debug)]
pub struct IoError {
    /// The broad cause.
    pub kind: IoErrorKind,
    /// The details.
    pub cause: IoCause,
}

/// Everything that can go wrong.
#[derive(Debug)]
pub enum ZolalError {
    /// A candidate region exists but the passphrase did not authenticate it.
    ///
    /// A carrier with unrelated trailing bytes also yields this, because there is no way to tell
    /// someone else's bytes from ours under the wrong key.
    WrongPassphrase,
    /// No authenticated payload was found.
    NoHiddenData {
        /// Whether the carrier shows signs of having been re-encoded in transit. A hint, not a
        /// proof.
        carrier_looks_reencoded: bool,
    },
    /// The passphrase is right, but the hidden data is damaged or incomplete.
    DamagedPayload,
    /// The file is not of a format that can carry anything.
    UnsupportedFormat {
        /// Human-readable detected type, such as `"unknown"`.
        detected: String,
    },
    /// Hiding this much in this carrier would produce a file too big to still open as what it
    /// pretends to be. Nothing was written.
    PayloadTooLarge {
        /// What the output would have weighed.
        output_size: u64,
        /// The carrier format's limit.
        limit: u64,
        /// The carrier format to use instead.
        suggestion: CarrierFormat,
    },
    /// The carrier is too small to be a valid file of its claimed type.
    CarrierTooSmall,
    /// A structurally invalid container.
    MalformedContainer {
        /// Which container type failed to parse.
        format: &'static str,
        /// What specifically was wrong.
        detail: String,
    },
    /// The payload was authenticated but its bundle framing is invalid.
    CorruptBundle(String),
    /// The request cannot be carried out as asked.
    InvalidRequest(String),
    /// The operation was cancelled through [`crate::progress::Progress`].
    Cancelled,
    /// Reading or writing failed.
    Io(IoError),
}

/// [`ZolalError`] as contracts speak of it: the same cases, with texts as character sequences.
pub enum Fault {
    WrongPassphrase,
    NoHiddenData { carrier_looks_reencoded: bool },
    DamagedPayload,
    UnsupportedFormat { detected: Seq<char> },
    PayloadTooLarge { output_size: nat, limit: nat, suggestion: CarrierFormat },
    CarrierTooSmall,
    MalformedContainer { format: Seq<char>, detail: Seq<char> },
    CorruptBundle(Seq<char>),
    InvalidRequest(Seq<char>),
    Cancelled,
    Io { kind: IoErrorKind, cause: IoFault },
}

/// [`IoCause`] as contracts speak of it.
pub enum IoFault {
    Message(Seq<char>),
    Wrapped(Box<Fault>),
}

impl IoCause {
    /// What contracts say of this cause.
    pub open spec fn fault(self) -> IoFault
        decreases self,
    {
        match self {
            IoCause::Message(text) => IoFault::Message(text@),
            IoCause::Wrapped(inner) => IoFault::Wrapped(Box::new((*inner).fault())),
        }
    }
}

impl ZolalError {
    /// What contracts say of this error.
    pub open spec fn fault(self) -> Fault
        decreases self,
    {
        match self {
            ZolalError::WrongPassphrase => Fault::WrongPassphrase,
            ZolalError::NoHiddenData { carrier_looks_reencoded } => Fault::NoHiddenData {
                carrier_looks_reencoded,
            },
            ZolalError::DamagedPayload => Fault::DamagedPayload,
            ZolalError::UnsupportedFormat { detected } => Fault::UnsupportedFormat {
                detected: detected@,
            },
            ZolalError::PayloadTooLarge { output_size, limit, suggestion } => Fault::PayloadTooLarge {
                output_size: output_size as nat,
                limit: limit as nat,
                suggestion,
            },
            ZolalError::CarrierTooSmall => Fault::CarrierTooSmall,
            ZolalError::MalformedContainer { format, detail } => Fault::MalformedContainer {
                format: format@,
                detail: detail@,
            },
            ZolalError::CorruptBundle(text) => Fault::CorruptBundle(text@),
            ZolalError::InvalidRequest(text) => Fault::InvalidRequest(text@),
            ZolalError::Cancelled => Fault::Cancelled,
            ZolalError::Io(e) => Fault::Io { kind: e.kind, cause: e.cause.fault() },
        }
    }
}

impl View for ZolalError {
    type V = Fault;

    open spec fn view(&self) -> Fault {
        self.fault()
    }
}

/// A source that says of itself that it ended too early.
pub open spec fn ended_early(fault: Fault) -> bool {
    fault matches Fault::Io { kind: IoErrorKind::UnexpectedEof, .. }
}

/// Whether `r` is this failure.
pub open spec fn fails<T>(r: Result<T, ZolalError>, fault: Fault) -> bool {
    r matches Err(e) && e@ == fault
}

/// Whether `r` is this failure, on its way through an adapter that can only fail with an [`IoError`].
pub open spec fn fails_through<T>(r: Result<T, IoError>, fault: Fault) -> bool {
    r matches Err(e) && unwrapped(e)@ == fault
}

impl IoError {
    /// A failure of the given kind with a description.
    pub fn new(kind: IoErrorKind, message: &str) -> (r: Self)
        ensures
            r.kind == kind,
            r.cause.fault() == IoFault::Message(message@),
    {
        IoError { kind, cause: IoCause::Message(message.to_owned()) }
    }

    /// A failure of no particular kind.
    pub fn other(message: &str) -> (r: Self)
        ensures
            r.kind == IoErrorKind::Other,
            r.cause.fault() == IoFault::Message(message@),
    {
        IoError::new(IoErrorKind::Other, message)
    }

    /// The broad cause.
    pub fn kind(&self) -> (r: IoErrorKind)
        ensures
            r == self.kind,
    {
        self.kind
    }
}

/// What [`From<IoError>`] makes of an I/O failure: the error wrapped in it, or itself.
pub open spec fn unwrapped(err: IoError) -> ZolalError {
    match err.cause {
        IoCause::Wrapped(inner) => *inner,
        IoCause::Message(_) => ZolalError::Io(err),
    }
}

impl ZolalError {
    /// Wrap this error in an [`IoError`], for adapters that can only fail with one.
    /// [`From<IoError>`] unwraps it again, so the original variant survives the trip.
    pub fn into_io(self) -> (r: IoError)
        ensures
            r.kind == IoErrorKind::Other,
            r.cause == IoCause::Wrapped(Box::new(self)),
            unwrapped(r) == self,
    {
        IoError { kind: IoErrorKind::Other, cause: IoCause::Wrapped(Box::new(self)) }
    }

    /// The error wrapped in an [`IoError`], or the failure itself.
    pub fn from_io(err: IoError) -> (r: Self)
        ensures
            r == unwrapped(err),
    {
        let IoError { kind, cause } = err;
        match cause {
            IoCause::Wrapped(inner) => *inner,
            IoCause::Message(text) => ZolalError::Io(IoError { kind, cause: IoCause::Message(text) }),
        }
    }
}

impl vstd::std_specs::convert::FromSpecImpl<IoError> for ZolalError {
    open spec fn obeys_from_spec() -> bool {
        true
    }

    open spec fn from_spec(err: IoError) -> Self {
        unwrapped(err)
    }
}

impl From<IoError> for ZolalError {
    fn from(err: IoError) -> (r: Self) {
        ZolalError::from_io(err)
    }
}

/// The text that [`ZolalError::message`] gives for an error.
pub open spec fn fault_text(fault: Fault) -> Seq<char>
    decreases fault,
{
    match fault {
        Fault::WrongPassphrase => "wrong passphrase"@,
        Fault::NoHiddenData { carrier_looks_reencoded } => if carrier_looks_reencoded {
            "no hidden data found (carrier looks re-encoded: true)"@
        } else {
            "no hidden data found (carrier looks re-encoded: false)"@
        },
        Fault::DamagedPayload => "the hidden data is damaged or incomplete"@,
        Fault::UnsupportedFormat { detected } => "unsupported carrier format: "@ + detected,
        Fault::PayloadTooLarge { output_size, limit, suggestion } => "the result would be "@
            + decimal_text(output_size) + " bytes, over the "@ + decimal_text(limit)
            + "-byte limit for this carrier; use a "@ + suggestion.label() + " carrier instead"@,
        Fault::CarrierTooSmall => "carrier file is too small or truncated"@,
        Fault::MalformedContainer { format, detail } => "malformed "@ + format + " container: "@
            + detail,
        Fault::CorruptBundle(text) => "payload bundle is corrupt: "@ + text,
        Fault::InvalidRequest(text) => "invalid request: "@ + text,
        Fault::Cancelled => "operation cancelled"@,
        Fault::Io { kind, cause } => "io error: "@ + io_fault_text(cause),
    }
}

/// The text for the cause of an I/O failure.
pub open spec fn io_fault_text(cause: IoFault) -> Seq<char>
    decreases cause,
{
    match cause {
        IoFault::Message(text) => text,
        IoFault::Wrapped(inner) => fault_text(*inner),
    }
}

impl IoCause {
    /// The description of this cause.
    pub fn message(&self) -> (r: String)
        ensures
            r@ == io_fault_text(self.fault()),
        decreases self,
    {
        match self {
            IoCause::Message(text) => text.as_str().to_owned(),
            IoCause::Wrapped(inner) => inner.message(),
        }
    }
}

impl ZolalError {
    /// A one-line description for people.
    pub fn message(&self) -> (r: String)
        ensures
            r@ == fault_text(self@),
        decreases self,
    {
        match self {
            ZolalError::WrongPassphrase => "wrong passphrase".to_owned(),
            ZolalError::NoHiddenData { carrier_looks_reencoded } => {
                if *carrier_looks_reencoded {
                    "no hidden data found (carrier looks re-encoded: true)".to_owned()
                } else {
                    "no hidden data found (carrier looks re-encoded: false)".to_owned()
                }
            },
            ZolalError::DamagedPayload => "the hidden data is damaged or incomplete".to_owned(),
            ZolalError::UnsupportedFormat { detected } => {
                let mut out = "unsupported carrier format: ".to_owned();
                out.append(detected.as_str());
                out
            },
            ZolalError::PayloadTooLarge { output_size, limit, suggestion } => {
                let mut out = "the result would be ".to_owned();
                append_decimal(&mut out, *output_size);
                out.append(" bytes, over the ");
                append_decimal(&mut out, *limit);
                out.append("-byte limit for this carrier; use a ");
                out.append(suggestion.name());
                out.append(" carrier instead");
                out
            },
            ZolalError::CarrierTooSmall => "carrier file is too small or truncated".to_owned(),
            ZolalError::MalformedContainer { format, detail } => {
                let mut out = "malformed ".to_owned();
                out.append(format);
                out.append(" container: ");
                out.append(detail.as_str());
                out
            },
            ZolalError::CorruptBundle(text) => {
                let mut out = "payload bundle is corrupt: ".to_owned();
                out.append(text.as_str());
                out
            },
            ZolalError::InvalidRequest(text) => {
                let mut out = "invalid request: ".to_owned();
                out.append(text.as_str());
                out
            },
            ZolalError::Cancelled => "operation cancelled".to_owned(),
            ZolalError::Io(e) => {
                let mut out = "io error: ".to_owned();
                let cause = e.cause.message();
                out.append(cause.as_str());
                out
            },
        }
    }
}

/// An error of this library survives the trip through an [`IoError`], whatever it is.
pub proof fn wrapping_round_trips(err: ZolalError, wrapped: IoError)
    requires
        wrapped.cause == IoCause::Wrapped(Box::new(err)),
    ensures
        <ZolalError as vstd::std_specs::convert::FromSpec<IoError>>::from_spec(wrapped) == err,
{
}

} // verus!
