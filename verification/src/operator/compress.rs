//! Entropy coding, block by block.
use crate::executor::{at_end, Operator};
use crate::operator::pipe_reader::PipeReader;
use crate::operator::coder::{all_fresh, Coder};
use crate::operator::pipe_writer::PipeWriter;
use crate::operator::read_block::BLOCK_SIZE;
use crate::result::{Error, Result};
use vstd::prelude::*;

verus! {

/// The entropy coder and its level.
#[derive(PartialEq, Eq, Structural, Copy, Clone, Debug)]
pub enum CompressMode {
    Zstd(i32),
}

/// `count` coders: encoders at the level of `mode`, or decoders.
fn coders(count: usize, mode: CompressMode, decode: bool) -> (r: Result<Vec<Coder>>)
    ensures
        r matches Ok(c) ==> c@.len() == count && all_fresh(c@),
        r is Err ==> r matches Err(Error::Io),
        count == 0 ==> r is Ok,
{
    let mut c: Vec<Coder> = Vec::new();
    let mut i: usize = 0;
    while i < count
        invariant
            i <= count,
            c@.len() == i,
            all_fresh(c@),
        decreases count - i,
    {
        let made = if decode {
            Coder::decoder()
        } else {
            match mode {
                CompressMode::Zstd(level) => Coder::encoder(level),
            }
        };
        match made {
            Ok(coder) => {
                let ghost before = c@;
                c.push(coder);
                assert forall|j: int| 0 <= j < c@.len() implies (#[trigger] c@[j]).fresh() by {
                    if j < before.len() {
                        assert(c@[j] == before[j]);
                    }
                }
            },
            Err(e) => {
                return Err(e);
            },
        }
        i = i + 1;
    }
    Ok(c)
}

/// An operator that entropy-codes each output of `parent`: one fresh encoder for each
/// output, none of which was fed anything. Making an encoder may fail; with no output
/// there is none to make.
pub fn new_compress<P: Operator>(parent: P, mode: CompressMode) -> (r: Result<Box<PipeWriter<P>>>)
    requires
        parent.inv(),
    ensures
        r matches Ok(op) ==> op.inv() && op.outputs() == parent.outputs() && !op.ended()
            && !op.ready(),
        r matches Ok(op) ==> op.source_foretold() == parent.foretold() && op.source_rest()
            == parent.rest() && op.fed().len() == parent.outputs() && at_end(op.fed())
            && op.given().len() == parent.outputs() && at_end(op.given()),
        r is Err ==> r matches Err(Error::Io),
        parent.outputs() == 0 ==> r is Ok,
{
    let c = match coders(parent.num_outputs(), mode, false) {
        Ok(c) => c,
        Err(e) => {
            return Err(e);
        },
    };
    PipeWriter::new(parent, c)
}

/// An operator that decodes each output of `parent`, which an operator of [`new_compress`]
/// has coded: one fresh decoder for each output, none of which was fed anything, and
/// blocks of no more than [`BLOCK_SIZE`] bytes. Making a decoder may fail; with no output
/// there is none to make.
pub fn new_decompress<P: Operator>(parent: P, mode: CompressMode) -> (r: Result<
    Box<PipeReader<P>>,
>)
    requires
        parent.inv(),
    ensures
        r matches Ok(op) ==> op.inv() && op.outputs() == parent.outputs() && op.block()
            == BLOCK_SIZE && !op.ended() && !op.has_pending(),
        r matches Ok(op) ==> op.source_foretold() == parent.foretold() && op.source_rest()
            == parent.rest() && op.fed().len() == parent.outputs() && at_end(op.fed())
            && op.given().len() == parent.outputs() && at_end(op.given()),
        r is Err ==> r matches Err(Error::Io),
        parent.outputs() == 0 ==> r is Ok,
{
    let c = match coders(parent.num_outputs(), mode, true) {
        Ok(c) => c,
        Err(e) => {
            return Err(e);
        },
    };
    PipeReader::new(parent, BLOCK_SIZE, c)
}

} // verus!
