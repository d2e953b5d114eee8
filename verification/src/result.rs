use vstd::prelude::*;

verus! {

/// What can go wrong while an archive is built or read.
#[derive(PartialEq, Eq, Structural, Clone, Copy, Debug)]
pub enum Error {
    /// The entropy coder could not read or write its byte stream.
    Io,
    /// The fixed-accuracy tensor coder produced no valid output.
    ZPFUnknown,
    /// A buffer's length is not a multiple of the width of its elements.
    MisalignedInput,
    /// The product of the dimensions, times the element width, is not the byte length.
    ShapeMismatch,
    /// A stage was handed a number of streams it cannot take.
    FanOutMismatch,
    /// A stage tag that names no stage.
    InvalidStage,
    /// An element type tag that names no element type.
    InvalidDataType,
    /// A blob of that name is already in the archive.
    DuplicateName,
    /// No blob of that name is in the archive.
    MissingBlob,
    /// The decoded bytes do not have the length that the descriptor declares.
    LengthMismatch,
    Unknown,
}

pub type Result<T> = core::result::Result<T, Error>;

/// `std::io::Error`, which the entropy coder fails with: carried through and no more.
#[verifier::external_type_specification]
#[verifier::external_body]
pub struct ExIoError(std::io::Error);

} // verus!
