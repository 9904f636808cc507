//! Error taxonomy of the database core.
//!
//! Every fallible path returns a `Result` carrying an [`Error`]; a kind
//! classifies the failure and, for engine-level failures, a [`PhantomError`]
//! preserves the engine's message.

use vstd::prelude::*;

verus! {

/// The message of an underlying engine error, kept as plain text.
#[derive(Debug, Clone)]
pub struct PhantomError {
    pub message: Option<String>,
}

impl PhantomError {
    /// Wraps a plain message.
    pub fn from_str(msg: &str) -> (r: PhantomError)
        ensures
            r.message matches Some(m) && m@ == msg@,
    {
        PhantomError { message: Some(msg.to_owned()) }
    }
}

/// Enumerates error kinds.
#[derive(Debug)]
pub enum ErrorKind {
    Unknown,
    NotFound,
    DataType,
    OutOfBounds,
    NullValue,
    UndefinedExpr,
    Configuration,
    CloseUsing,
    CreateDuplicate,
    TooManyFiles,
    AlreadyClosed,
    Format,
    ParseFloat,
    ParseInt,
    ParseBool,
    ParseDateTime,
    IO,
    JSON,
    DBOpen(PhantomError),
    DBRead(PhantomError),
    DBWrite(PhantomError),
    DBClose(PhantomError),
    DBOther(PhantomError),
}

/// The error type of the database core.
#[derive(Debug)]
pub struct Error {
    pub inner: ErrorKind,
}

impl Error {
    /// Builds a datatype error.
    pub fn new_datatype_err() -> (r: Error)
        ensures
            r.inner is DataType,
    {
        Error { inner: ErrorKind::DataType }
    }

    /// The kind this error carries.
    pub fn kind(&self) -> (r: &ErrorKind)
        ensures
            r == &self.inner,
    {
        &self.inner
    }
}

impl From<ErrorKind> for Error {
    fn from(kind: ErrorKind) -> (r: Error) {
        Error { inner: kind }
    }
}

impl vstd::std_specs::convert::FromSpecImpl<ErrorKind> for Error {
    open spec fn obeys_from_spec() -> bool {
        true
    }

    open spec fn from_spec(kind: ErrorKind) -> Error {
        Error { inner: kind }
    }
}

} // verus!
