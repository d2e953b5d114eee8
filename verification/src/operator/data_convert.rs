//! Narrowing of floating-point elements, block by block.
use crate::backend::Backend;
use crate::chunks::{aligned, all_aligned, lemma_map_chunks_concat, map_chunks};
use crate::codec::convert::Convert;
use crate::executor::{at_end, gives, Context, Operator};
use crate::result::{Error, Result};
use vstd::prelude::*;

verus! {

/// Which wide floating-point type is narrowed to which.
#[derive(PartialEq, Eq, Structural, Copy, Clone, Debug)]
pub enum DataConvertMode {
    Float32ToBfloat16,
    Float64ToBfloat16,
    Float64ToFloat32,
}

impl DataConvertMode {
    /// The conversion, as the codec names it.
    pub open spec fn conversion(self) -> Convert {
        match self {
            DataConvertMode::Float32ToBfloat16 => Convert::Float32ToBfloat16,
            DataConvertMode::Float64ToBfloat16 => Convert::Float64ToBfloat16,
            DataConvertMode::Float64ToFloat32 => Convert::Float64ToFloat32,
        }
    }

    /// The conversion, as the codec names it.
    pub fn codec(&self) -> (c: Convert)
        ensures
            c == self.conversion(),
    {
        match self {
            DataConvertMode::Float32ToBfloat16 => Convert::Float32ToBfloat16,
            DataConvertMode::Float64ToBfloat16 => Convert::Float64ToBfloat16,
            DataConvertMode::Float64ToFloat32 => Convert::Float64ToFloat32,
        }
    }
}

/// Narrows the elements of `buf` in its place.
///
/// Fails, with [`Error::MisalignedInput`] and `buf` as it was, exactly where `buf` is not a
/// whole number of wide elements. Else `buf` holds as many narrow elements as it held wide
/// ones, each the narrowing of the one at its place: the crate's own, where it narrows by
/// itself, and else the backend's answer.
pub fn encode<B: Backend>(backend: &B, mode: DataConvertMode, buf: &mut Vec<u8>) -> (r: Result<()>)
    ensures
        r is Ok <==> aligned(old(buf)@.len(), mode.conversion().wide()),
        r is Err ==> (r matches Err(Error::MisalignedInput)) && final(buf)@ == old(buf)@,
        r is Ok ==> final(buf)@.len() == (old(buf)@.len() / mode.conversion().wide())
            * mode.conversion().narrow(),
        r is Ok && mode.conversion().narrows_here() ==> final(buf)@ == map_chunks(
            old(buf)@,
            mode.conversion().wide(),
            mode.conversion().narrowing(),
        ),
        r is Ok ==> final(buf)@ == map_chunks(
            old(buf)@,
            mode.conversion().wide(),
            mode.conversion().narrowing_by(backend),
        ),
{
    let conversion = mode.codec();
    if buf.len() % conversion.wide_len() != 0 {
        return Err(Error::MisalignedInput);
    }
    let mut out: Vec<u8> = Vec::new();
    conversion.narrow_buffer(backend, buf.as_slice(), &mut out);
    *buf = out;
    Ok(())
}

/// The streams `data`, narrowed with `backend`: by the crate itself where it narrows by
/// itself, and else by the backend's answers.
pub open spec fn narrowed_by<B: Backend>(backend: &B, mode: DataConvertMode, data: Seq<Seq<u8>>) -> Seq<
    Seq<u8>,
> {
    Seq::new(
        data.len(),
        |i: int|
            map_chunks(data[i], mode.conversion().wide(), mode.conversion().narrowing_by(backend)),
    )
}

/// Narrows the elements of what its parent gives.
pub struct DataConvert<P: Operator, B: Backend> {
    parent: P,
    mode: DataConvertMode,
    backend: B,
}

impl<P: Operator, B: Backend> DataConvert<P, B> {
    /// Whether the parent never fails.
    pub closed spec fn source_unfailing(&self) -> bool {
        self.parent.unfailing()
    }

    pub fn new(parent: P, mode: DataConvertMode, backend: B) -> (r: Box<Self>)
        requires
            parent.inv(),
        ensures
            r.inv(),
            r.outputs() == parent.outputs(),
            r.foretold() == parent.foretold(),
            r.rest() == narrowed_by(&backend, mode, parent.rest()),
            r.source_unfailing() == parent.unfailing(),
            r.due() == parent.due(),
            r.unfailing() == (parent.unfailing() && parent.whole(mode.conversion().wide())),
    {
        Box::new(Self { parent, mode, backend })
    }
}

impl<P: Operator, B: Backend> Operator for DataConvert<P, B> {
    closed spec fn inv(&self) -> bool {
        self.parent.inv()
    }

    closed spec fn outputs(&self) -> nat {
        self.parent.outputs()
    }

    /// The numbers given are the parent's.
    closed spec fn due(&self) -> Option<nat> {
        self.parent.due()
    }

    /// A narrowing foretells what it has yet to give where its parent does.
    closed spec fn foretold(&self) -> bool {
        self.parent.foretold()
    }

    /// What the parent has yet to give, narrowed.
    closed spec fn rest(&self) -> Seq<Seq<u8>> {
        narrowed_by(&self.backend, self.mode, self.parent.rest())
    }

    /// A narrowing never fails where its parent never does and gives blocks of whole
    /// elements.
    closed spec fn unfailing(&self) -> bool {
        self.parent.unfailing() && self.parent.whole(self.mode.conversion().wide())
    }

    fn num_outputs(&self) -> (n: usize) {
        self.parent.num_outputs()
    }

    /// The parent's next blocks, narrowed: the parent's failure where it fails, and else
    /// what `narrow_blocks` makes of its blocks, with the parent's number. So where the
    /// parent never fails, the one failure is a block that is not a whole number of wide
    /// elements.
    fn next(&mut self, ctx: &Context, out: &mut Vec<Vec<u8>>) -> (r: Result<usize>)
        ensures
            old(self).source_unfailing() && r is Err ==> r matches Err(Error::MisalignedInput),
            r is Ok && old(self).source_unfailing() ==> final(self).source_unfailing(),
    {
        let ghost before = self.parent.rest();
        let n = match self.parent.next(ctx, out) {
            Ok(n) => n,
            Err(e) => {
                return Err(e);
            },
        };
        let ghost blocks = out@;
        let ghost after = self.parent.rest();
        let ghost conversion = self.mode.conversion();
        if let Err(e) = narrow_blocks(&self.backend, self.mode, out) {
            return Err(e);
        }
        proof {
            if old(self).foretold() {
                assert forall|j: int| 0 <= j < out@.len() implies #[trigger] old(self).rest()[j]
                    == out@[j]@ + self.rest()[j] by {
                    assert(before[j] == blocks[j]@ + after[j]);
                    assert(aligned(blocks[j]@.len(), conversion.wide()));
                    lemma_map_chunks_concat(
                        blocks[j]@,
                        after[j],
                        conversion.wide(),
                        conversion.narrowing_by(&self.backend),
                    );
                }
                if n == 0 {
                    assert forall|j: int| 0 <= j < old(self).rest().len() implies (
                    #[trigger] old(self).rest()[j]).len() == 0 by {
                        assert(before[j].len() == 0);
                    }
                }
            }
        }
        Ok(n)
    }
}

/// Narrows the elements of each of the blocks in its place.
///
/// Fails, with [`Error::MisalignedInput`], exactly where one of the blocks is not a whole
/// number of wide elements. Else each block holds as many narrow elements as it held wide
/// ones: those that the crate states, where it narrows by itself.
pub fn narrow_blocks<B: Backend>(backend: &B, mode: DataConvertMode, blocks: &mut Vec<Vec<u8>>) -> (r:
    Result<()>)
    ensures
        final(blocks)@.len() == old(blocks)@.len(),
        r is Ok <==> all_aligned(old(blocks)@, mode.conversion().wide()),
        r is Err ==> r matches Err(Error::MisalignedInput),
        r is Ok ==> forall|j: int|
            0 <= j < old(blocks)@.len() ==> (#[trigger] final(blocks)@[j])@.len() == (old(blocks)@[j]@.len() / mode.conversion().wide()) * mode.conversion().narrow(),
        r is Ok && mode.conversion().narrows_here() ==> forall|j: int|
            0 <= j < old(blocks)@.len() ==> (#[trigger] final(blocks)@[j])@ == map_chunks(
                old(blocks)@[j]@,
                mode.conversion().wide(),
                mode.conversion().narrowing(),
            ),
        r is Ok ==> forall|j: int|
            0 <= j < old(blocks)@.len() ==> (#[trigger] final(blocks)@[j])@ == map_chunks(
                old(blocks)@[j]@,
                mode.conversion().wide(),
                mode.conversion().narrowing_by(backend),
            ),
{
    let ghost conversion = mode.conversion();
    let mut i: usize = 0;
    while i < blocks.len()
        invariant
            conversion == mode.conversion(),
            blocks@.len() == old(blocks)@.len(),
            i <= blocks@.len(),
            forall|j: int| i <= j < blocks@.len() ==> #[trigger] blocks@[j] == old(blocks)@[j],
            forall|j: int|
                0 <= j < i ==> aligned((#[trigger] old(blocks)@[j])@.len(), conversion.wide()),
            forall|j: int|
                0 <= j < i ==> (#[trigger] blocks@[j])@.len() == (old(blocks)@[j]@.len()
                    / conversion.wide()) * conversion.narrow(),
            conversion.narrows_here() ==> forall|j: int|
                0 <= j < i ==> (#[trigger] blocks@[j])@ == map_chunks(
                    old(blocks)@[j]@,
                    conversion.wide(),
                    conversion.narrowing(),
                ),
            forall|j: int|
                0 <= j < i ==> (#[trigger] blocks@[j])@ == map_chunks(
                    old(blocks)@[j]@,
                    conversion.wide(),
                    conversion.narrowing_by(backend),
                ),
        decreases blocks@.len() - i,
    {
        let done = encode(backend, mode, &mut blocks[i]);
        if let Err(e) = done {
            assert(!aligned(old(blocks)@[i as int]@.len(), conversion.wide()));
            return Err(e);
        }
        i = i + 1;
    }
    Ok(())
}

} // verus!
