//! Floating-point numbers, by their bit patterns, taken apart into exponent and mantissa.
use crate::codec::split::Split;
use vstd::prelude::*;

verus! {

/// The bit pattern of an IEEE-754 single-precision number.
#[derive(PartialEq, Eq, Structural, Copy, Clone, Debug)]
pub struct Binary32(pub u32);

/// The bit pattern of an IEEE-754 double-precision number.
#[derive(PartialEq, Eq, Structural, Copy, Clone, Debug)]
pub struct Binary64(pub u64);

/// The bit pattern of an IEEE-754 half-precision number.
#[derive(PartialEq, Eq, Structural, Copy, Clone, Debug)]
pub struct Binary16(pub u16);

/// The bit pattern of a bfloat16 number.
#[derive(PartialEq, Eq, Structural, Copy, Clone, Debug)]
pub struct Bfloat16(pub u16);

/// A floating-point format whose numbers part into a biased exponent of type `E` and a
/// mantissa of type `M` that carries the sign in the bit above it.
pub trait SplitFloat<E, M>: Sized {
    /// Exponent, and mantissa with sign, of a number.
    spec fn split(self) -> (E, M);

    /// The number with that exponent and that mantissa with sign.
    spec fn join(e: E, m: M) -> Self;

    fn to_split_bits(self) -> (r: (E, M))
        ensures
            r == self.split(),
    ;

    fn from_split_bits(e: E, m: M) -> (r: Self)
        ensures
            r == Self::join(e, m),
    ;

    /// The parts of a number join to that number again, bit for bit: sign, exponent and
    /// mantissa, and so the payload of a NaN too.
    proof fn lemma_join_split(self)
        ensures
            Self::join(self.split().0, self.split().1) == self,
    ;
}

impl SplitFloat<u8, u32> for Binary32 {
    open spec fn split(self) -> (u8, u32) {
        (
            Split::Float32.exponent(self.0 as u64) as u8,
            Split::Float32.mantissa(self.0 as u64) as u32,
        )
    }

    open spec fn join(e: u8, m: u32) -> Self {
        Binary32(Split::Float32.joined(e as u64, m as u64) as u32)
    }

    fn to_split_bits(self) -> (r: (u8, u32)) {
        let (e, m) = Split::Float32.split_bits(self.0 as u64);
        (e as u8, m as u32)
    }

    fn from_split_bits(e: u8, m: u32) -> (r: Self) {
        Binary32(Split::Float32.join_bits(e as u64, m as u64) as u32)
    }

    proof fn lemma_join_split(self) {
        Split::Float32.lemma_join_split(self.0 as u64);
    }
}

impl SplitFloat<u16, u64> for Binary64 {
    open spec fn split(self) -> (u16, u64) {
        (Split::Float64.exponent(self.0) as u16, Split::Float64.mantissa(self.0))
    }

    open spec fn join(e: u16, m: u64) -> Self {
        Binary64(Split::Float64.joined(e as u64, m))
    }

    fn to_split_bits(self) -> (r: (u16, u64)) {
        let (e, m) = Split::Float64.split_bits(self.0);
        (e as u16, m)
    }

    fn from_split_bits(e: u16, m: u64) -> (r: Self) {
        Binary64(Split::Float64.join_bits(e as u64, m))
    }

    proof fn lemma_join_split(self) {
        Split::Float64.lemma_join_split(self.0);
    }
}

impl SplitFloat<u8, u8> for Bfloat16 {
    open spec fn split(self) -> (u8, u8) {
        (
            Split::Bfloat16.exponent(self.0 as u64) as u8,
            Split::Bfloat16.mantissa(self.0 as u64) as u8,
        )
    }

    open spec fn join(e: u8, m: u8) -> Self {
        Bfloat16(Split::Bfloat16.joined(e as u64, m as u64) as u16)
    }

    fn to_split_bits(self) -> (r: (u8, u8)) {
        let (e, m) = Split::Bfloat16.split_bits(self.0 as u64);
        (e as u8, m as u8)
    }

    fn from_split_bits(e: u8, m: u8) -> (r: Self) {
        Bfloat16(Split::Bfloat16.join_bits(e as u64, m as u64) as u16)
    }

    proof fn lemma_join_split(self) {
        Split::Bfloat16.lemma_join_split(self.0 as u64);
    }
}

impl SplitFloat<u8, u16> for Binary16 {
    open spec fn split(self) -> (u8, u16) {
        (
            Split::Float16.exponent(self.0 as u64) as u8,
            Split::Float16.mantissa(self.0 as u64) as u16,
        )
    }

    open spec fn join(e: u8, m: u16) -> Self {
        Binary16(Split::Float16.joined(e as u64, m as u64) as u16)
    }

    fn to_split_bits(self) -> (r: (u8, u16)) {
        let (e, m) = Split::Float16.split_bits(self.0 as u64);
        (e as u8, m as u16)
    }

    fn from_split_bits(e: u8, m: u16) -> (r: Self) {
        Binary16(Split::Float16.join_bits(e as u64, m as u64) as u16)
    }

    proof fn lemma_join_split(self) {
        Split::Float16.lemma_join_split(self.0 as u64);
    }
}

} // verus!
