use vstd::prelude::*;

verus! {

/// The primitive kind of the elements of a blob.
#[derive(PartialEq, Eq, Structural, Clone, Copy, Debug)]
pub enum DataType {
    Byte,
    Float32,
    Float64,
    Float16,
    Bfloat16,
    Int8,
    Uint8,
    Int16,
    Uint16,
    Int32,
    Uint32,
    Int64,
    Uint64,
}

impl DataType {
    /// Width of one element, in bytes.
    pub open spec fn width(self) -> nat {
        match self {
            DataType::Byte | DataType::Int8 | DataType::Uint8 => 1,
            DataType::Float16 | DataType::Bfloat16 | DataType::Int16 | DataType::Uint16 => 2,
            DataType::Float32 | DataType::Int32 | DataType::Uint32 => 4,
            DataType::Float64 | DataType::Int64 | DataType::Uint64 => 8,
        }
    }

    pub fn byte_len(&self) -> (n: usize)
        ensures
            n == self.width(),
    {
        match self {
            DataType::Byte => 1,
            DataType::Float32 => 4,
            DataType::Float64 => 8,
            DataType::Float16 => 2,
            DataType::Bfloat16 => 2,
            DataType::Int8 => 1,
            DataType::Uint8 => 1,
            DataType::Int16 => 2,
            DataType::Uint16 => 2,
            DataType::Int32 => 4,
            DataType::Uint32 => 4,
            DataType::Int64 => 8,
            DataType::Uint64 => 8,
        }
    }

    /// The number that stands for the type in an archive.
    pub fn tag(&self) -> (t: i32)
        ensures
            1 <= t <= 13,
            Self::of_tag(t) == Some(*self),
    {
        match self {
            DataType::Byte => 1,
            DataType::Float32 => 2,
            DataType::Float64 => 3,
            DataType::Float16 => 4,
            DataType::Bfloat16 => 5,
            DataType::Int8 => 6,
            DataType::Uint8 => 7,
            DataType::Int16 => 8,
            DataType::Uint16 => 9,
            DataType::Int32 => 10,
            DataType::Uint32 => 11,
            DataType::Int64 => 12,
            DataType::Uint64 => 13,
        }
    }

    /// The type that a number stands for in an archive, if it stands for one.
    pub open spec fn of_tag(t: i32) -> Option<Self> {
        if t == 1 {
            Some(DataType::Byte)
        } else if t == 2 {
            Some(DataType::Float32)
        } else if t == 3 {
            Some(DataType::Float64)
        } else if t == 4 {
            Some(DataType::Float16)
        } else if t == 5 {
            Some(DataType::Bfloat16)
        } else if t == 6 {
            Some(DataType::Int8)
        } else if t == 7 {
            Some(DataType::Uint8)
        } else if t == 8 {
            Some(DataType::Int16)
        } else if t == 9 {
            Some(DataType::Uint16)
        } else if t == 10 {
            Some(DataType::Int32)
        } else if t == 11 {
            Some(DataType::Uint32)
        } else if t == 12 {
            Some(DataType::Int64)
        } else if t == 13 {
            Some(DataType::Uint64)
        } else {
            None
        }
    }

    /// The type that a number stands for in an archive; a number that stands for none comes
    /// back as the error.
    pub fn from_tag(t: i32) -> (r: core::result::Result<Self, i32>)
        ensures
            r matches Ok(dt) ==> Self::of_tag(t) == Some(dt),
            r matches Err(e) ==> Self::of_tag(t) is None && e == t,
    {
        match t {
            1 => Ok(DataType::Byte),
            2 => Ok(DataType::Float32),
            3 => Ok(DataType::Float64),
            4 => Ok(DataType::Float16),
            5 => Ok(DataType::Bfloat16),
            6 => Ok(DataType::Int8),
            7 => Ok(DataType::Uint8),
            8 => Ok(DataType::Int16),
            9 => Ok(DataType::Uint16),
            10 => Ok(DataType::Int32),
            11 => Ok(DataType::Uint32),
            12 => Ok(DataType::Int64),
            13 => Ok(DataType::Uint64),
            _ => Err(t),
        }
    }
}

} // verus!
