//! The columnar split, block by block.
use crate::chunks::{aligned, all_aligned, lemma_map_chunks_concat, map_chunks};
use crate::codec::split::Split;
use crate::executor::{at_end, gives, Context, Operator};
use crate::result::{Error, Result};
use vstd::prelude::*;

verus! {

/// The floating-point format whose elements are split.
#[derive(PartialEq, Eq, Structural, Copy, Clone, Debug)]
pub enum ColumnarSplitMode {
    Bfloat16,
    Float32,
    Float64,
}

impl ColumnarSplitMode {
    /// The format, as the codec names it.
    pub open spec fn format(self) -> Split {
        match self {
            ColumnarSplitMode::Bfloat16 => Split::Bfloat16,
            ColumnarSplitMode::Float32 => Split::Float32,
            ColumnarSplitMode::Float64 => Split::Float64,
        }
    }

    /// The format, as the codec names it.
    pub fn codec(&self) -> (s: Split)
        ensures
            s == self.format(),
    {
        match self {
            ColumnarSplitMode::Bfloat16 => Split::Bfloat16,
            ColumnarSplitMode::Float32 => Split::Float32,
            ColumnarSplitMode::Float64 => Split::Float64,
        }
    }
}

/// What each of the buffers holds.
pub open spec fn contents(bufs: Seq<Vec<u8>>) -> Seq<Seq<u8>> {
    Seq::new(bufs.len(), |i: int| bufs[i]@)
}

/// Splits each block into two, which take the places of what `out` held: for the block at
/// `i`, its exponents at `2 * i` and its mantissas at `2 * i + 1`, as the codec does.
///
/// Fails, with [`Error::MisalignedInput`], exactly where some block is not a whole number
/// of elements.
pub fn split_blocks(mode: ColumnarSplitMode, blocks: &Vec<Vec<u8>>, out: &mut Vec<Vec<u8>>) -> (r:
    Result<()>)
    requires
        old(out)@.len() == 2 * blocks@.len(),
    ensures
        final(out)@.len() == old(out)@.len(),
        r is Ok <==> mode.format().splits(contents(blocks@)),
        r is Err ==> r matches Err(Error::MisalignedInput),
        r is Ok ==> contents(final(out)@) == mode.format().encoded(contents(blocks@)),
{
    let format = mode.codec();
    let w = format.width_len();
    let count = blocks.len();
    let out_len = out.len();
    let ghost data = contents(blocks@);
    let mut i: usize = 0;
    while i < count
        invariant
            format == mode.format(),
            w == format.width(),
            count == blocks@.len(),
            out_len == 2 * count,
            out@.len() == out_len,
            out_len == old(out)@.len(),
            data == contents(blocks@),
            i <= count,
            forall|j: int| 0 <= j < i ==> aligned((#[trigger] data[j]).len(), format.width()),
            forall|k: int| 0 <= k < 2 * i ==> (#[trigger] out@[k])@ == format.encoded(data)[k],
        decreases count - i,
    {
        if blocks[i].len() % w != 0 {
            assert(!aligned(data[i as int].len(), format.width()));
            return Err(Error::MisalignedInput);
        }
        let ghost given = out@;
        out[2 * i].clear();
        format.split_buffer(false, blocks[i].as_slice(), &mut out[2 * i]);
        out[2 * i + 1].clear();
        format.split_buffer(true, blocks[i].as_slice(), &mut out[2 * i + 1]);
        proof {
            assert forall|k: int| 0 <= k < 2 * (i + 1) implies (#[trigger] out@[k])@
                == format.encoded(data)[k] by {
                if k < 2 * i {
                    assert(out@[k] == given[k]);
                }
            }
        }
        i = i + 1;
    }
    assert(contents(out@) =~= format.encoded(data));
    Ok(())
}

/// Splits what each output of its parent gives into two outputs of its own.
pub struct ColumnarSplit<P: Operator> {
    parent: P,
    mode: ColumnarSplitMode,
}

impl<P: Operator> ColumnarSplit<P> {
    /// Whether the parent never fails.
    pub closed spec fn source_unfailing(&self) -> bool {
        self.parent.unfailing()
    }

    /// The split of the outputs of `parent`; [`Error::FanOutMismatch`] where they would be
    /// too many to count.
    pub fn new(parent: P, mode: ColumnarSplitMode) -> (r: Result<Box<Self>>)
        requires
            parent.inv(),
        ensures
            r is Ok <==> 2 * parent.outputs() <= usize::MAX,
            r matches Ok(op) ==> op.inv() && op.outputs() == 2 * parent.outputs() && op.foretold()
                == parent.foretold() && op.rest() == mode.format().encoded(parent.rest()),
            r matches Ok(op) ==> op.source_unfailing() == parent.unfailing() && op.unfailing() == (
            parent.unfailing() && parent.whole(mode.format().width())),
            r matches Ok(op) ==> op.due() == parent.due(),
            r is Err ==> r matches Err(Error::FanOutMismatch),
    {
        if parent.num_outputs() > usize::MAX / 2 {
            return Err(Error::FanOutMismatch);
        }
        Ok(Box::new(Self { parent, mode }))
    }
}

/// The streams that follow, split, where blocks of whole elements were split off them.
pub proof fn lemma_split_of_rest(
    mode: ColumnarSplitMode,
    before: Seq<Seq<u8>>,
    blocks: Seq<Vec<u8>>,
    out: Seq<Vec<u8>>,
    after: Seq<Seq<u8>>,
)
    requires
        gives(before, blocks, after),
        mode.format().splits(contents(blocks)),
        contents(out) == mode.format().encoded(contents(blocks)),
    ensures
        gives(mode.format().encoded(before), out, mode.format().encoded(after)),
{
    let format = mode.format();
    assert(contents(out).len() == out.len());
    assert forall|k: int| 0 <= k < out.len() implies #[trigger] format.encoded(before)[k] == out[k]@
        + format.encoded(after)[k] by {
        let i = k / 2;
        let f = if k % 2 == 0 {
            format.exponent_bytes()
        } else {
            format.mantissa_bytes()
        };
        assert(before[i] == blocks[i]@ + after[i]);
        assert(aligned(contents(blocks)[i].len(), format.width()));
        lemma_map_chunks_concat(blocks[i]@, after[i], format.width(), f);
        assert(out[k]@ == contents(out)[k]);
        assert(contents(out)[k] == map_chunks(contents(blocks)[i], format.width(), f));
    }
}

impl<P: Operator> Operator for ColumnarSplit<P> {
    closed spec fn inv(&self) -> bool {
        &&& self.parent.inv()
        &&& 2 * self.parent.outputs() <= usize::MAX
    }

    closed spec fn outputs(&self) -> nat {
        2 * self.parent.outputs()
    }

    /// The numbers given are the parent's.
    closed spec fn due(&self) -> Option<nat> {
        self.parent.due()
    }

    /// A split foretells what it has yet to give where its parent does.
    closed spec fn foretold(&self) -> bool {
        self.parent.foretold()
    }

    /// What the parent has yet to give, split.
    closed spec fn rest(&self) -> Seq<Seq<u8>> {
        self.mode.format().encoded(self.parent.rest())
    }

    /// A split never fails where its parent never does and gives blocks of whole elements.
    closed spec fn unfailing(&self) -> bool {
        self.parent.unfailing() && self.parent.whole(self.mode.format().width())
    }

    fn num_outputs(&self) -> (n: usize) {
        2 * self.parent.num_outputs()
    }

    /// The parent's next blocks, split: the parent's failure where it fails, and else what
    /// `split_blocks` makes of its blocks, with the parent's number. So where the parent
    /// never fails, the one failure is a block that is not a whole number of elements.
    fn next(&mut self, ctx: &Context, out: &mut Vec<Vec<u8>>) -> (r: Result<usize>)
        ensures
            old(self).source_unfailing() && r is Err ==> r matches Err(Error::MisalignedInput),
            r is Ok && old(self).source_unfailing() ==> final(self).source_unfailing(),
    {
        let nb = self.parent.num_outputs();
        let mut tmp = ctx.allocate(nb);
        let ghost before = self.parent.rest();
        let n = match self.parent.next(ctx, &mut tmp) {
            Ok(n) => n,
            Err(e) => {
                return Err(e);
            },
        };
        proof {
            if old(self).unfailing() {
                assert(all_aligned(tmp@, self.mode.format().width()));
                assert forall|i: int| 0 <= i < contents(tmp@).len() implies aligned(
                    (#[trigger] contents(tmp@)[i]).len(),
                    self.mode.format().width(),
                ) by {
                    assert(aligned(tmp@[i]@.len(), self.mode.format().width()));
                }
            }
        }
        let done = split_blocks(self.mode, &tmp, out);
        proof {
            if done is Ok && old(self).foretold() {
                lemma_split_of_rest(self.mode, before, tmp@, out@, self.parent.rest());
                if n == 0 {
                    assert forall|k: int| 0 <= k < old(self).rest().len() implies (
                    #[trigger] old(self).rest()[k]).len() == 0 by {
                        assert(before[k / 2].len() == 0);
                    }
                }
            }
        }
        ctx.release(tmp);
        match done {
            Ok(()) => Ok(n),
            Err(e) => Err(e),
        }
    }
}

} // verus!
