//! Failures of unpacking and packing.

use vstd::prelude::*;

verus! {

/// Why a container could not be unpacked, as a mathematical value.
pub enum Fault {
    /// The container ends before a header, table entry or chunk does.
    Truncation,
    /// A compressed chunk is not a well-formed zlib stream; the codec's
    /// diagnostic is carried along.
    Codec(Seq<char>),
}

/// Why a container could not be unpacked.
#[derive(Debug)]
pub enum UnpackError {
    /// The container ends before a header, table entry or chunk does.
    Truncation,
    /// A compressed chunk is not a well-formed zlib stream; the codec's
    /// diagnostic is carried along.
    CodecFailure(String),
}

impl View for UnpackError {
    type V = Fault;

    open spec fn view(&self) -> Fault {
        match self {
            UnpackError::Truncation => Fault::Truncation,
            UnpackError::CodecFailure(message) => Fault::Codec(message@),
        }
    }
}

/// Why a flat file could not be packed.
#[derive(Clone, Copy, Debug, PartialEq, Eq, Structural)]
pub enum PackError {
    /// The flat file is shorter than a header.
    Truncation,
    /// The flat file needs more chunks than the section table can hold.
    CapacityExceeded,
    /// A compressed chunk cannot be described by a table entry: it is empty,
    /// longer than a signed 32-bit size, or starts beyond a 32-bit offset.
    ChunkOutOfRange,
}

} // verus!
