//! The closed set of failure kinds shared by every store operation.

use vstd::prelude::*;
use vstd::string::StringExecFns;

verus! {

/// The general kinds of failure a store operation can report.
#[derive(Debug, Clone, Copy, PartialEq, Eq, Structural)]
pub enum ErrorType {
    /// Database interaction issues: a key that is not in storage.
    KVError,
    /// Authenticated encryption failed: a wrong password, tampered
    /// ciphertext, or a secret of the wrong size.
    CryptoError,
    /// Bytes did not parse: a store file that is no well-formed record, or
    /// a payload that does not decode to the caller's expected type.
    SerializationError,
    /// An I/O failure around the store file, reported by the caller that
    /// performs the file access; also a store file that is missing.
    FileError,
    /// A lock could not be acquired because a prior holder panicked.
    PoisonError,
}

/// The error value returned to user-facing code: a kind plus an optional
/// human-readable message.
#[derive(Debug, Clone)]
pub struct KVError {
    pub error: ErrorType,
    pub msg: Option<String>,
}

/// The name of an error kind, as its display text spells it.
pub open spec fn spec_kind_name(k: ErrorType) -> Seq<char> {
    match k {
        ErrorType::KVError => "KVError"@,
        ErrorType::CryptoError => "CryptoError"@,
        ErrorType::SerializationError => "SerializationError"@,
        ErrorType::FileError => "FileError"@,
        ErrorType::PoisonError => "PoisonError"@,
    }
}

/// The display text of an error: its kind, and its message when it has
/// one.
pub open spec fn spec_display_text(e: KVError) -> Seq<char> {
    match e.msg {
        Some(m) => spec_kind_name(e.error) + " received from microkv with message: "@ + m@,
        None => spec_kind_name(e.error) + " received from microkv"@,
    }
}

impl KVError {
    /// Build an error of the given kind with a message.
    pub fn with_msg(error: ErrorType, msg: &str) -> (r: KVError)
        ensures
            r.error == error,
            r.msg matches Some(m) && m@ == msg@,
    {
        KVError { error, msg: Some(msg.to_owned()) }
    }

    /// The text user-facing code prints for this error.
    pub fn display_text(&self) -> (r: String)
        ensures
            r@ == spec_display_text(*self),
    {
        let kind: &str = match self.error {
            ErrorType::KVError => "KVError",
            ErrorType::CryptoError => "CryptoError",
            ErrorType::SerializationError => "SerializationError",
            ErrorType::FileError => "FileError",
            ErrorType::PoisonError => "PoisonError",
        };
        let mut out = kind.to_owned();
        match &self.msg {
            Some(m) => {
                out.append(" received from microkv with message: ");
                out.append(m.as_str());
                proof {
                    assert(out@ =~= spec_display_text(*self));
                }
            },
            None => {
                out.append(" received from microkv");
                proof {
                    assert(out@ =~= spec_display_text(*self));
                }
            },
        }
        out
    }
}

} // verus!
