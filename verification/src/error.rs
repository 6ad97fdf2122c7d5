use vstd::prelude::*;

verus! {

/// The error type of the byte sinks that a `CountingWrite` wraps.
#[verifier::external_type_specification]
#[verifier::external_body]
pub struct ExIoError(std::io::Error);

/// The category of a save failure, in the terms of `std::io::ErrorKind`.
#[derive(Debug, Clone, Copy, PartialEq, Eq, Structural)]
pub enum ErrorKind {
    /// The request needs a feature that is not implemented (`Unsupported`).
    Unsupported,
    /// A size, position or configuration is out of range (`InvalidInput`).
    InvalidInput,
    /// A value has no representation in PDF syntax (`InvalidData`).
    InvalidData,
    /// Another failure while building the output (`Other`).
    Other,
    /// The underlying sink reported an error.
    Sink,
}

/// Why a save or a write did not complete.
#[derive(Debug)]
pub enum SaveError {
    Unsupported(&'static str),
    InvalidInput(&'static str),
    InvalidData(&'static str),
    Other(&'static str),
    Sink(std::io::Error),
}

/// The category of an error.
pub open spec fn kind_of(e: SaveError) -> ErrorKind {
    match e {
        SaveError::Unsupported(_) => ErrorKind::Unsupported,
        SaveError::InvalidInput(_) => ErrorKind::InvalidInput,
        SaveError::InvalidData(_) => ErrorKind::InvalidData,
        SaveError::Other(_) => ErrorKind::Other,
        SaveError::Sink(_) => ErrorKind::Sink,
    }
}

impl SaveError {
    /// The category of this error.
    pub fn kind(&self) -> (k: ErrorKind)
        ensures
            k == kind_of(*self),
            k == ErrorKind::Unsupported <==> self is Unsupported,
            k == ErrorKind::InvalidInput <==> self is InvalidInput,
            k == ErrorKind::InvalidData <==> self is InvalidData,
            k == ErrorKind::Other <==> self is Other,
            k == ErrorKind::Sink <==> self is Sink,
    {
        match self {
            SaveError::Unsupported(_) => ErrorKind::Unsupported,
            SaveError::InvalidInput(_) => ErrorKind::InvalidInput,
            SaveError::InvalidData(_) => ErrorKind::InvalidData,
            SaveError::Other(_) => ErrorKind::Other,
            SaveError::Sink(_) => ErrorKind::Sink,
        }
    }
}

/// Why a `Null` cross-reference entry cannot be written.
pub open spec fn null_entry_message() -> Seq<char> {
    "a null cross-reference entry has no serialized form; it must be resolved before writing"@
}

/// The error for an cross-reference entry that no serialized form can carry: `Unsupported`,
/// with the message that says so.
pub fn null_serialization_error() -> (e: SaveError)
    ensures
        e matches SaveError::Unsupported(m) && m@ == null_entry_message(),
{
    SaveError::Unsupported(
        "a null cross-reference entry has no serialized form; it must be resolved before writing",
    )
}

} // verus!
