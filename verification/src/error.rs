//! Error kinds with a documented, finite set of categories.

use vstd::prelude::*;

verus! {

/// Finite, documented set of error categories.
#[derive(Debug, Clone, Copy, PartialEq, Eq, Structural)]
pub enum ErrorKind {
    NotFound,
    Conflict,
    InvalidInput,
    Io,
    Unsupported,
}

impl ErrorKind {
    /// Whether retrying the same operation might succeed: only I/O failures are.
    pub fn retryable(self) -> (r: bool)
        ensures
            r <==> self == ErrorKind::Io,
    {
        match self {
            ErrorKind::Io => true,
            _ => false,
        }
    }
}

/// An error with a kind and a human-readable message.
#[derive(Debug)]
pub struct KairnError {
    pub kind: ErrorKind,
    pub message: String,
}

impl KairnError {
    pub fn new(kind: ErrorKind, message: String) -> (e: Self)
        ensures
            e.kind == kind,
            e.message@ == message@,
    {
        KairnError { kind, message }
    }

    pub fn not_found(m: String) -> (e: Self)
        ensures
            e.kind == ErrorKind::NotFound,
            e.message@ == m@,
    {
        Self::new(ErrorKind::NotFound, m)
    }

    pub fn conflict(m: String) -> (e: Self)
        ensures
            e.kind == ErrorKind::Conflict,
            e.message@ == m@,
    {
        Self::new(ErrorKind::Conflict, m)
    }

    pub fn invalid(m: String) -> (e: Self)
        ensures
            e.kind == ErrorKind::InvalidInput,
            e.message@ == m@,
    {
        Self::new(ErrorKind::InvalidInput, m)
    }

    pub fn io(m: String) -> (e: Self)
        ensures
            e.kind == ErrorKind::Io,
            e.message@ == m@,
    {
        Self::new(ErrorKind::Io, m)
    }
}

} // verus!
