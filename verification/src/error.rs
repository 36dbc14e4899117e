//! The error type shared by every operation of the engine.

use vstd::prelude::*;
use vstd::string::StringExecFns;

use crate::text::push_dec;

verus! {

use crate::text::dec_digits;

/// Unified error type for all engine operations.
#[derive(Debug)]
pub enum Error {
    /// Underlying IO failure, by its message.
    Io(String),
    /// On-disk data failed validation (bad CRC, truncated structure, bad magic).
    Corruption(String),
    /// Caller misuse: reserved key prefix, bad checkpoint name, unknown module.
    InvalidArgument(String),
    /// Optimistic transaction lost a first-committer-wins race.
    Conflict,
    /// The database has been shut down.
    Closed,
    /// A background thread (flush, compaction) failed; the store is
    /// read-only-degraded until reopened.
    Background(String),
    /// WASM engine or module failure (compile error, trap, limit exhaustion).
    Wasm(String),
    /// A WASM executor or query ran fine but the guest returned a non-zero code.
    GuestFailed { code: i32, output: Vec<u8> },
}

pub type Result<T> = std::result::Result<T, Error>;

/// A corruption error with the given message.
pub fn corrupt(msg: &str) -> (e: Error)
    ensures
        e matches Error::Corruption(m) && m@ == msg@,
{
    Error::Corruption(msg.to_string())
}

/// A caller-misuse error with the given message.
pub fn invalid(msg: &str) -> (e: Error)
    ensures
        e matches Error::InvalidArgument(m) && m@ == msg@,
{
    Error::InvalidArgument(msg.to_string())
}

/// The decimal digits of a code, with a sign where it is negative.
pub open spec fn code_text(code: i32) -> Seq<char> {
    if code < 0 {
        "-"@ + dec_digits((-code) as nat)
    } else {
        dec_digits(code as nat)
    }
}

/// What an error says to a reader.
pub open spec fn error_text(e: Error) -> Seq<char> {
    match e {
        Error::Io(m) => "io error: "@ + m@,
        Error::Corruption(m) => "corruption: "@ + m@,
        Error::InvalidArgument(m) => "invalid argument: "@ + m@,
        Error::Conflict => "transaction conflict"@,
        Error::Closed => "database closed"@,
        Error::Background(m) => "background error: "@ + m@,
        Error::Wasm(m) => "wasm: "@ + m@,
        Error::GuestFailed { code, output } => "guest module failed with code "@ + code_text(code),
    }
}

fn joined(a: &str, b: &str) -> (s: String)
    ensures
        s@ == a@ + b@,
{
    let mut s = String::from_str(a);
    s.append(b);
    s
}

impl Error {
    /// What the error says to a reader.
    pub fn message(&self) -> (s: String)
        ensures
            s@ == error_text(*self),
    {
        match self {
            Error::Io(m) => joined("io error: ", m.as_str()),
            Error::Corruption(m) => joined("corruption: ", m.as_str()),
            Error::InvalidArgument(m) => joined("invalid argument: ", m.as_str()),
            Error::Conflict => String::from_str("transaction conflict"),
            Error::Closed => String::from_str("database closed"),
            Error::Background(m) => joined("background error: ", m.as_str()),
            Error::Wasm(m) => joined("wasm: ", m.as_str()),
            Error::GuestFailed { code, .. } => {
                let mut s = String::from_str("guest module failed with code ");
                if *code < 0 {
                    s.append("-");
                    push_dec(&mut s, (-(*code as i64)) as u64);
                } else {
                    push_dec(&mut s, *code as u64);
                }
                assert(s@ =~= error_text(*self));
                s
            },
        }
    }
}

} // verus!
