//! What this crate leaves to the program around it.
use crate::codec::convert::Convert;
use crate::data_type::DataType;
use crate::deviation::Tolerance;
use vstd::prelude::*;

verus! {

/// Floating-point arithmetic and the fixed-accuracy tensor coder.
///
/// This crate handles every number by its bit pattern and does no floating-point
/// arithmetic itself. Where a stage or the error metric needs some, it asks the backend,
/// one element at a time. Of the arithmetic no more is assumed than that it is a matter of
/// the numbers alone: asked twice about the same numbers, a backend answers the same. Each
/// answer has a name, by which the contracts of this crate speak of it; what the crate
/// proves holds with every backend.
pub trait Backend {
    /// What [`Backend::narrow`] answers.
    spec fn narrowed(&self, mode: Convert, bits: u64) -> u64;

    /// What [`Backend::widen`] answers.
    spec fn widened(&self, mode: Convert, bits: u64) -> u64;

    /// What [`Backend::difference`] answers.
    spec fn distance(&self, dt: DataType, hi: u64, lo: u64) -> u64;

    /// What [`Backend::subtract`] answers.
    spec fn remainder(&self, dt: DataType, a: u64, b: u64) -> u64;

    /// What [`Backend::tensor_encode`] answers.
    spec fn tensor_coded(
        &self,
        data: &[u8],
        dt: DataType,
        dims: usize,
        field: [u32; 4],
        accuracy: Tolerance,
    ) -> Option<Vec<u8>>;

    /// What [`Backend::tensor_decode`] answers.
    spec fn tensor_decoded(
        &self,
        data: &[u8],
        dt: DataType,
        dims: usize,
        field: [u32; 4],
        len: usize,
    ) -> Option<Vec<u8>>;

    /// The narrow number nearest to the wide number `bits`, for a narrowing that the crate
    /// does not do itself.
    fn narrow(&self, mode: Convert, bits: u64) -> (r: u64)
        ensures
            r == self.narrowed(mode, bits),
    ;

    /// The wide number equal to the narrow number `bits`, for a widening that the crate
    /// does not do itself.
    fn widen(&self, mode: Convert, bits: u64) -> (r: u64)
        ensures
            r == self.widened(mode, bits),
    ;

    /// `hi - lo` in double precision, for two numbers of kind `dt` that are no NaN and of
    /// which `hi` is the larger.
    fn difference(&self, dt: DataType, hi: u64, lo: u64) -> (r: u64)
        ensures
            r == self.distance(dt, hi, lo),
    ;

    /// `a - b` in the precision of kind `dt`.
    fn subtract(&self, dt: DataType, a: u64, b: u64) -> (r: u64)
        ensures
            r == self.remainder(dt, a, b),
    ;

    /// Codes `data`, an array of kind `dt` with the extents `field`, of which the first
    /// `dims` count, so that no element is further than `accuracy` from what decoding
    /// gives. Nothing comes back where the coder fails.
    fn tensor_encode(
        &self,
        data: &[u8],
        dt: DataType,
        dims: usize,
        field: [u32; 4],
        accuracy: Tolerance,
    ) -> (r: Option<Vec<u8>>)
        ensures
            r == self.tensor_coded(data, dt, dims, field, accuracy),
    ;

    /// Decodes what [`Backend::tensor_encode`] gave for an array of that kind and those
    /// extents, which takes `len` bytes. Nothing comes back where the coder fails.
    fn tensor_decode(
        &self,
        data: &[u8],
        dt: DataType,
        dims: usize,
        field: [u32; 4],
        len: usize,
    ) -> (r: Option<Vec<u8>>)
        ensures
            r == self.tensor_decoded(data, dt, dims, field, len),
    ;
}

} // verus!
