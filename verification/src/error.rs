//! The errors that the store reports.

use vstd::prelude::*;

verus! {

/// Why an operation failed.
#[derive(Clone, Copy, Debug, PartialEq, Eq, Structural)]
pub enum ErrorKind {
    /// The underlying engine failed.
    IoError,
    /// A record that the operation needs is absent.
    NotFound,
    /// Stored bytes do not decode, or one half of a relation lacks its
    /// mirror.
    IntegrityError,
    /// A deletion met an `Error` policy; nothing was written.
    PolicyViolation,
    /// A family descriptor was registered again with different relations,
    /// or with a lower version.
    SchemaError,
}

/// A failure: its kind, and a message for the reader.
#[derive(Debug)]
pub struct StoreError {
    pub kind: ErrorKind,
    pub message: String,
}

/// The result of a store operation.
pub type Result<T> = core::result::Result<T, StoreError>;

impl StoreError {
    /// An error of the given kind.
    pub fn new(kind: ErrorKind, message: &str) -> (e: StoreError)
        ensures
            e.kind == kind,
            e.message@ == message@,
    {
        StoreError { kind, message: message.to_owned() }
    }

    /// The kind of the failure.
    pub fn kind(&self) -> (kind: ErrorKind)
        ensures
            kind == self.kind,
    {
        self.kind
    }

    /// The message, for display.
    pub fn to_string(&self) -> (text: String)
        ensures
            text@ == self.message@,
    {
        self.message.clone()
    }
}

} // verus!
