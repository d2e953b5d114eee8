//! The operators of the streaming graph.
use vstd::prelude::*;

pub mod block_align;
pub mod byte_count;
pub mod coder;
pub mod column_split;
pub mod compress;
pub mod data_convert;
pub mod delta_encode;
pub mod multi_write;
pub mod pipe_reader;
pub mod pipe_writer;
pub mod read_block;

verus! {

} // verus!
