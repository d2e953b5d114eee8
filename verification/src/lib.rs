//! Archives of tensors: the chains of stages that pack a blob, the choice of a chain within
//! an error that is allowed, and the metadata and chunks of an archive.
//!
//! The crate handles floating-point numbers by their bit patterns and leaves arithmetic on
//! them, and the fixed-accuracy tensor coder, to a [`backend::Backend`]. It reads and writes
//! no files: a [`write::Builder`] says which chunks are to be written, and a [`read::Blob`]
//! is made from the chunks that were read.
use vstd::prelude::*;

pub mod backend;
pub mod bits;
pub mod chunk;
pub mod chunks;
pub mod codec;
pub mod compress;
pub mod data_type;
pub mod deviation;
pub mod disk_map;
pub mod executor;
pub mod meta;
pub mod metric;
pub mod operator;
pub mod order;
pub mod paths;
pub mod read;
pub mod result;
pub mod transform;
pub mod write;

pub use data_type::DataType;
pub use read::Archive;
pub use result::{Error, Result};
pub use write::{BlobWriteOption, Builder};

verus! {

} // verus!
