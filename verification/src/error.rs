//! The library's error type.
use vstd::prelude::*;

verus! {

/// `std::io::Error`, carried through unchanged by [`Error::IO`].
#[verifier::external_type_specification]
#[verifier::external_body]
pub struct ExIoError(std::io::Error);

/// What can go wrong when loading, packing or looking things up.
#[non_exhaustive]
#[derive(Debug)]
pub enum Error {
    /// An I/O error of the underlying file.
    IO(std::io::Error),
    /// An entity was not found, often a file or a dir.
    NotFound,
    /// Illegal data: not an archive of this format.
    IllegalData,
    /// The header could not be serialized.
    SerializationError(String),
    /// The header could not be deserialized.
    DeserializationError(String),
    /// Any other error.
    Unknown(String),
}

/// Which `std::io::ErrorKind` an error becomes as an `std::io::Error`.
#[derive(Clone, Copy, Debug, PartialEq, Eq, Structural)]
pub enum IoKind {
    /// An I/O error is handed back as it is.
    Carried,
    NotFound,
    InvalidData,
}

impl Error {
    /// An I/O error stays itself, "not found" stays "not found", and every
    /// other error is invalid data.
    pub fn io_kind(&self) -> (r: IoKind)
        ensures
            r == (match self {
                Error::IO(_) => IoKind::Carried,
                Error::NotFound => IoKind::NotFound,
                _ => IoKind::InvalidData,
            }),
    {
        match self {
            Error::IO(_) => IoKind::Carried,
            Error::NotFound => IoKind::NotFound,
            Error::IllegalData => IoKind::InvalidData,
            Error::SerializationError(_) => IoKind::InvalidData,
            Error::DeserializationError(_) => IoKind::InvalidData,
            Error::Unknown(_) => IoKind::InvalidData,
        }
    }
}

impl From<std::io::Error> for Error {
    fn from(io_error: std::io::Error) -> (r: Self) {
        Error::IO(io_error)
    }
}

impl vstd::std_specs::convert::FromSpecImpl<std::io::Error> for Error {
    open spec fn obeys_from_spec() -> bool {
        true
    }

    open spec fn from_spec(io_error: std::io::Error) -> Self {
        Error::IO(io_error)
    }
}

} // verus!
