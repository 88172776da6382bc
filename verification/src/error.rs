//! The error type shared by every reader and writer of the crate.

use vstd::prelude::*;

verus! {

/// What went wrong, in the coarse terms that callers act on.
#[derive(Clone, Copy, Debug, PartialEq, Eq, Structural)]
pub enum ErrorKind {
    /// The requested field or entry does not exist.
    NotFound,
    /// The caller asked for something that cannot be encoded.
    InvalidInput,
    /// The bytes do not have the expected form.
    InvalidData,
    /// The bytes end before the value does.
    UnexpectedEof,
    /// An outside codec failed.
    Other,
}

/// An error: its kind, and a short message for people.
#[derive(Clone, Copy, Debug)]
pub struct Error {
    pub kind: ErrorKind,
    pub message: &'static str,
}

impl Error {
    pub fn new(kind: ErrorKind, message: &'static str) -> (e: Error)
        ensures
            e.kind == kind,
            e.message == message,
    {
        Error { kind, message }
    }

    pub fn kind(&self) -> (k: ErrorKind)
        ensures
            k == self.kind,
    {
        self.kind
    }
}

/// `r` and the position reached afterwards are what the parse `p` describes:
/// the parsed value and its end, or an error of the parse's kind.
pub open spec fn outcome<T>(r: Result<T, Error>, end: int, p: Result<(T, int), ErrorKind>) -> bool {
    match p {
        Ok((v, q)) => r == Ok::<T, Error>(v) && end == q,
        Err(k) => r is Err && r->Err_0.kind == k,
    }
}

} // verus!
