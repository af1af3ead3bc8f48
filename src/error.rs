use vstd::prelude::*;

verus! {

/// What went wrong while decoding an index.
#[derive(Debug, Clone, Copy, PartialEq, Eq, Structural)]
pub enum ErrorKind {
    InvalidMagic,
    UnsupportedVersion,
    TruncatedInput,
    InvalidPathEncoding,
    TrailingExtensionData,
    UnsupportedMandatoryExtension,
    ChecksumMismatch,
}

/// The part of the decoder that detected an error.
#[derive(Debug, Clone, Copy, PartialEq, Eq, Structural)]
pub enum Component {
    Header,
    Entry,
    Path,
    Extension,
    Checksum,
}

/// A decoding failure, with the byte offset at which it was detected.
#[derive(Debug, Clone, Copy, PartialEq, Eq, Structural)]
pub struct DecodeError {
    pub kind: ErrorKind,
    pub component: Component,
    pub offset: usize,
}

pub fn fail<T>(kind: ErrorKind, component: Component, offset: usize) -> (r: Result<T, DecodeError>)
    ensures
        r == Err::<T, DecodeError>(DecodeError { kind, component, offset }),
{
    Err(DecodeError { kind, component, offset })
}

} // verus!
