//! Chains of stages: the encode pass, the decode pass, and the round trip through both.
use crate::backend::Backend;
use crate::chunks::{aligned, map_chunks};
use crate::codec::compress::Compress;
use crate::codec::convert::{all_exact_in_bf16, lemma_exact_comes_back, Convert};
use crate::codec::split::Split;
use crate::codec::zfp::{tensor_array_of, tensor_coded_of, tensor_usable, Zfp};
use crate::codec::BufferList;
use crate::data_type::DataType;
use crate::deviation::{Deviation, Tolerance};
use crate::metric::bits_of;
use crate::result::{Error, Result};
use vstd::prelude::*;

verus! {

/// The level that the entropy coder of a chain works at.
pub const ZSTD_LEVEL: i32 = 9;

/// One stage of a chain, as archives name it.
#[derive(PartialEq, Eq, Structural, Copy, Clone, Debug)]
pub enum CompressionStage {
    InvalidStage,
    Zstd,
    ConvertFloat32ToBfloat16,
    ConvertFloat64ToBfloat16,
    ConvertFloat64ToFloat32,
    SplitMantissaBfloat16,
    SplitMantissaFloat32,
    SplitMantissaFloat64,
    ZfpFloat32OneD,
    ZfpFloat64OneD,
}

/// What a stage does.
pub enum Work {
    Nothing,
    Entropy(Compress),
    Narrow(Convert),
    Columns(Split),
    Tensor(DataType),
}

impl CompressionStage {
    /// What the stage does.
    pub open spec fn work(self) -> Work {
        match self {
            CompressionStage::InvalidStage => Work::Nothing,
            CompressionStage::Zstd => Work::Entropy(Compress::Zstd(ZSTD_LEVEL)),
            CompressionStage::ConvertFloat32ToBfloat16 => Work::Narrow(Convert::Float32ToBfloat16),
            CompressionStage::ConvertFloat64ToBfloat16 => Work::Narrow(Convert::Float64ToBfloat16),
            CompressionStage::ConvertFloat64ToFloat32 => Work::Narrow(Convert::Float64ToFloat32),
            CompressionStage::SplitMantissaBfloat16 => Work::Columns(Split::Bfloat16),
            CompressionStage::SplitMantissaFloat32 => Work::Columns(Split::Float32),
            CompressionStage::SplitMantissaFloat64 => Work::Columns(Split::Float64),
            CompressionStage::ZfpFloat32OneD => Work::Tensor(DataType::Float32),
            CompressionStage::ZfpFloat64OneD => Work::Tensor(DataType::Float64),
        }
    }

    /// What the stage does.
    pub fn plan(&self) -> (w: Work)
        ensures
            w == self.work(),
    {
        match self {
            CompressionStage::InvalidStage => Work::Nothing,
            CompressionStage::Zstd => Work::Entropy(Compress::Zstd(ZSTD_LEVEL)),
            CompressionStage::ConvertFloat32ToBfloat16 => Work::Narrow(Convert::Float32ToBfloat16),
            CompressionStage::ConvertFloat64ToBfloat16 => Work::Narrow(Convert::Float64ToBfloat16),
            CompressionStage::ConvertFloat64ToFloat32 => Work::Narrow(Convert::Float64ToFloat32),
            CompressionStage::SplitMantissaBfloat16 => Work::Columns(Split::Bfloat16),
            CompressionStage::SplitMantissaFloat32 => Work::Columns(Split::Float32),
            CompressionStage::SplitMantissaFloat64 => Work::Columns(Split::Float64),
            CompressionStage::ZfpFloat32OneD => Work::Tensor(DataType::Float32),
            CompressionStage::ZfpFloat64OneD => Work::Tensor(DataType::Float64),
        }
    }

    /// The number of streams that the stage makes of one.
    pub open spec fn fan_out(self) -> nat {
        match self.work() {
            Work::Columns(_) => 2,
            _ => 1,
        }
    }

    /// Whether decoding gives back, bit for bit, what the stage was given.
    pub open spec fn is_lossless(self) -> bool {
        self.work() is Entropy || self.work() is Columns
    }

    /// Whether the crate states what the stage's encoder gives.
    pub open spec fn encodes_here(self) -> bool {
        self.is_lossless() || self == CompressionStage::ConvertFloat32ToBfloat16
    }

    /// Whether the crate states what the stage's decoder gives.
    pub open spec fn decodes_here(self) -> bool {
        self.is_lossless() || self == CompressionStage::ConvertFloat32ToBfloat16 || self
            == CompressionStage::ConvertFloat64ToBfloat16
    }

    /// The streams that the stage's encoder makes of `data`, for a stage of which the crate
    /// states it.
    pub open spec fn encoded(self, data: Seq<Seq<u8>>) -> Seq<Seq<u8>> {
        match self.work() {
            Work::Entropy(c) => c.encoded(data),
            Work::Narrow(c) => Seq::new(
                data.len(),
                |i: int| map_chunks(data[i], c.wide(), c.narrowing()),
            ),
            Work::Columns(s) => s.encoded(data),
            _ => data,
        }
    }

    /// The streams that the stage's decoder makes of `data`, for a stage of which the crate
    /// states it.
    pub open spec fn decoded(self, data: Seq<Seq<u8>>) -> Seq<Seq<u8>> {
        match self.work() {
            Work::Entropy(_) => Compress::decoded(data),
            Work::Narrow(c) => Seq::new(
                data.len(),
                |i: int| map_chunks(data[i], c.narrow(), c.widening()),
            ),
            Work::Columns(s) => s.decoded(data),
            _ => data,
        }
    }

    /// The streams that the stage's encoder makes of `data` with `backend`, for an array of
    /// the given shape and within the accuracy `prec`: what the crate states for the
    /// stage, and else what the backend answers.
    pub open spec fn encoded_by<B: Backend>(
        self,
        backend: &B,
        shape: Seq<usize>,
        prec: Tolerance,
        data: Seq<Seq<u8>>,
    ) -> Seq<Seq<u8>> {
        match self.work() {
            Work::Entropy(c) => c.encoded(data),
            Work::Narrow(c) => Seq::new(
                data.len(),
                |i: int| map_chunks(data[i], c.wide(), c.narrowing_by(backend)),
            ),
            Work::Columns(s) => s.encoded(data),
            Work::Tensor(dt) => match tensor_coded_of(backend, data[0], dt, 1, shape, prec) {
                Some(v) => seq![v],
                None => data,
            },
            Work::Nothing => data,
        }
    }

    /// The streams that the stage's decoder makes of `data` with `backend`, for an array of
    /// the given shape: what the crate states for the stage, and else what the backend
    /// answers.
    pub open spec fn decoded_by<B: Backend>(
        self,
        backend: &B,
        shape: Seq<usize>,
        data: Seq<Seq<u8>>,
    ) -> Seq<Seq<u8>> {
        match self.work() {
            Work::Entropy(_) => Compress::decoded(data),
            Work::Narrow(c) => Seq::new(
                data.len(),
                |i: int| map_chunks(data[i], c.narrow(), c.widening_by(backend)),
            ),
            Work::Columns(s) => s.decoded(data),
            Work::Tensor(dt) => match tensor_array_of(backend, data[0], dt, 1, shape) {
                Some(v) => seq![v],
                None => data,
            },
            Work::Nothing => data,
        }
    }

    /// Whether the encoder of the stage takes `data`: the entropy coder takes what it
    /// codes, a narrowing and a split take whole elements, and the tensor coder takes the
    /// one array that the backend codes. The invalid stage takes nothing.
    pub open spec fn takes_by<B: Backend>(
        self,
        backend: &B,
        shape: Seq<usize>,
        prec: Tolerance,
        data: Seq<Seq<u8>>,
    ) -> bool {
        match self.work() {
            Work::Entropy(c) => c.encodes(data),
            Work::Narrow(c) => forall|i: int|
                0 <= i < data.len() ==> aligned((#[trigger] data[i]).len(), c.wide()),
            Work::Columns(s) => 2 * data.len() <= usize::MAX && s.splits(data),
            Work::Tensor(dt) => data.len() == 1 && tensor_usable(dt, 1, shape) && tensor_coded_of(
                backend,
                data[0],
                dt,
                1,
                shape,
                prec,
            ) is Some,
            _ => false,
        }
    }

    /// Whether the decoder of the stage takes `data`: the entropy coder takes frames that
    /// it decodes, a widening whole elements, a split pairs that match, and the tensor
    /// coder the one stream that the backend decodes to an array of the shape. The invalid
    /// stage takes nothing.
    pub open spec fn gives_by<B: Backend>(self, backend: &B, shape: Seq<usize>, data: Seq<Seq<u8>>) -> bool {
        match self.work() {
            Work::Entropy(_) => Compress::decodes(data),
            Work::Narrow(c) => forall|i: int|
                0 <= i < data.len() ==> aligned((#[trigger] data[i]).len(), c.narrow()),
            Work::Columns(s) => s.joins(data),
            Work::Tensor(dt) => data.len() == 1 && tensor_usable(dt, 1, shape) && tensor_array_of(
                backend,
                data[0],
                dt,
                1,
                shape,
            ) is Some,
            _ => false,
        }
    }

    /// The number that stands for the stage in an archive.
    pub fn tag(&self) -> (t: i32)
        ensures
            0 <= t <= 9,
            Self::of_tag(t) == Some(*self),
    {
        match self {
            CompressionStage::InvalidStage => 0,
            CompressionStage::Zstd => 1,
            CompressionStage::ConvertFloat32ToBfloat16 => 2,
            CompressionStage::ConvertFloat64ToBfloat16 => 3,
            CompressionStage::ConvertFloat64ToFloat32 => 4,
            CompressionStage::SplitMantissaBfloat16 => 5,
            CompressionStage::SplitMantissaFloat32 => 6,
            CompressionStage::SplitMantissaFloat64 => 7,
            CompressionStage::ZfpFloat32OneD => 8,
            CompressionStage::ZfpFloat64OneD => 9,
        }
    }

    /// The stage that a number stands for in an archive, if it stands for one.
    pub open spec fn of_tag(t: i32) -> Option<Self> {
        if t == 0 {
            Some(CompressionStage::InvalidStage)
        } else if t == 1 {
            Some(CompressionStage::Zstd)
        } else if t == 2 {
            Some(CompressionStage::ConvertFloat32ToBfloat16)
        } else if t == 3 {
            Some(CompressionStage::ConvertFloat64ToBfloat16)
        } else if t == 4 {
            Some(CompressionStage::ConvertFloat64ToFloat32)
        } else if t == 5 {
            Some(CompressionStage::SplitMantissaBfloat16)
        } else if t == 6 {
            Some(CompressionStage::SplitMantissaFloat32)
        } else if t == 7 {
            Some(CompressionStage::SplitMantissaFloat64)
        } else if t == 8 {
            Some(CompressionStage::ZfpFloat32OneD)
        } else if t == 9 {
            Some(CompressionStage::ZfpFloat64OneD)
        } else {
            None
        }
    }

    /// The stage that a number stands for in an archive; a number that stands for none is
    /// refused with [`Error::InvalidStage`].
    pub fn from_tag(t: i32) -> (r: Result<Self>)
        ensures
            r matches Ok(s) ==> Self::of_tag(t) == Some(s),
            r is Err ==> Self::of_tag(t) is None && r == Err::<Self, Error>(Error::InvalidStage),
    {
        match t {
            0 => Ok(CompressionStage::InvalidStage),
            1 => Ok(CompressionStage::Zstd),
            2 => Ok(CompressionStage::ConvertFloat32ToBfloat16),
            3 => Ok(CompressionStage::ConvertFloat64ToBfloat16),
            4 => Ok(CompressionStage::ConvertFloat64ToFloat32),
            5 => Ok(CompressionStage::SplitMantissaBfloat16),
            6 => Ok(CompressionStage::SplitMantissaFloat32),
            7 => Ok(CompressionStage::SplitMantissaFloat64),
            8 => Ok(CompressionStage::ZfpFloat32OneD),
            9 => Ok(CompressionStage::ZfpFloat64OneD),
            _ => Err(Error::InvalidStage),
        }
    }
}

/// The number of streams that a chain makes of one: the product over its stages.
pub open spec fn chain_fan_out(stages: Seq<CompressionStage>) -> nat
    decreases stages.len(),
{
    if stages.len() == 0 {
        1
    } else {
        chain_fan_out(stages.drop_last()) * stages.last().fan_out()
    }
}

/// Whether every stage of a chain is lossless.
pub open spec fn chain_is_lossless(stages: Seq<CompressionStage>) -> bool {
    forall|i: int| 0 <= i < stages.len() ==> (#[trigger] stages[i]).is_lossless()
}

/// Whether the crate states what the encoder of every stage of a chain gives.
pub open spec fn chain_encodes_here(stages: Seq<CompressionStage>) -> bool {
    forall|i: int| 0 <= i < stages.len() ==> (#[trigger] stages[i]).encodes_here()
}

/// Whether the crate states what the decoder of every stage of a chain gives.
pub open spec fn chain_decodes_here(stages: Seq<CompressionStage>) -> bool {
    forall|i: int| 0 <= i < stages.len() ==> (#[trigger] stages[i]).decodes_here()
}

/// What the encode pass of a chain makes of `data`: each stage works on what the one
/// before it gave.
pub open spec fn chain_encoded(stages: Seq<CompressionStage>, data: Seq<Seq<u8>>) -> Seq<Seq<u8>>
    decreases stages.len(),
{
    if stages.len() == 0 {
        data
    } else {
        stages.last().encoded(chain_encoded(stages.drop_last(), data))
    }
}

/// Whether the encode pass of a chain takes `data`: every stage takes what the one before
/// it gave.
pub open spec fn chain_takes_by<B: Backend>(
    backend: &B,
    shape: Seq<usize>,
    prec: Tolerance,
    stages: Seq<CompressionStage>,
    data: Seq<Seq<u8>>,
) -> bool
    decreases stages.len(),
{
    if stages.len() == 0 {
        true
    } else {
        &&& chain_takes_by(backend, shape, prec, stages.drop_last(), data)
        &&& stages.last().takes_by(
            backend,
            shape,
            prec,
            chain_encoded_by(backend, shape, prec, stages.drop_last(), data),
        )
    }
}

/// Whether the decode pass of a chain takes `data`: every stage, the last first, takes
/// what the one behind it gave.
pub open spec fn chain_gives_by<B: Backend>(
    backend: &B,
    shape: Seq<usize>,
    stages: Seq<CompressionStage>,
    data: Seq<Seq<u8>>,
) -> bool
    decreases stages.len(),
{
    if stages.len() == 0 {
        true
    } else {
        &&& stages.last().gives_by(backend, shape, data)
        &&& chain_gives_by(
            backend,
            shape,
            stages.drop_last(),
            stages.last().decoded_by(backend, shape, data),
        )
    }
}

/// The encode pass that takes `data` takes it up to every stage.
pub proof fn lemma_chain_takes_prefix<B: Backend>(
    backend: &B,
    shape: Seq<usize>,
    prec: Tolerance,
    stages: Seq<CompressionStage>,
    upto: int,
    data: Seq<Seq<u8>>,
)
    requires
        0 <= upto <= stages.len(),
        chain_takes_by(backend, shape, prec, stages, data),
    ensures
        chain_takes_by(backend, shape, prec, stages.subrange(0, upto), data),
    decreases stages.len(),
{
    if upto < stages.len() {
        lemma_chain_takes_prefix(backend, shape, prec, stages.drop_last(), upto, data);
        assert(stages.drop_last().subrange(0, upto) =~= stages.subrange(0, upto));
    } else {
        assert(stages.subrange(0, upto) =~= stages);
    }
}

/// What the encode pass of a chain makes of `data` with `backend`: each stage works on
/// what the one before it gave.
pub open spec fn chain_encoded_by<B: Backend>(
    backend: &B,
    shape: Seq<usize>,
    prec: Tolerance,
    stages: Seq<CompressionStage>,
    data: Seq<Seq<u8>>,
) -> Seq<Seq<u8>>
    decreases stages.len(),
{
    if stages.len() == 0 {
        data
    } else {
        stages.last().encoded_by(
            backend,
            shape,
            prec,
            chain_encoded_by(backend, shape, prec, stages.drop_last(), data),
        )
    }
}

/// What the decode pass of a chain makes of `data` with `backend`: the decoders of the
/// stages, the last stage first.
pub open spec fn chain_decoded_by<B: Backend>(
    backend: &B,
    shape: Seq<usize>,
    stages: Seq<CompressionStage>,
    data: Seq<Seq<u8>>,
) -> Seq<Seq<u8>>
    decreases stages.len(),
{
    if stages.len() == 0 {
        data
    } else {
        chain_decoded_by(
            backend,
            shape,
            stages.drop_last(),
            stages.last().decoded_by(backend, shape, data),
        )
    }
}

/// What the decode pass of a chain makes of `data`: the decoders of the stages, the last
/// stage first.
pub open spec fn chain_decoded(stages: Seq<CompressionStage>, data: Seq<Seq<u8>>) -> Seq<Seq<u8>>
    decreases stages.len(),
{
    if stages.len() == 0 {
        data
    } else {
        chain_decoded(stages.drop_last(), stages.last().decoded(data))
    }
}

/// Whether every stage of a chain is a columnar split: such a chain the crate runs without
/// a coder and without the backend, so that its success is the crate's own.
pub open spec fn chain_is_columns(stages: Seq<CompressionStage>) -> bool {
    forall|i: int| 0 <= i < stages.len() ==> (#[trigger] stages[i]).work() is Columns
}

/// Whether the encode pass of a chain of splits takes `data`: every split is given buffers
/// of whole elements, and makes no more streams of them than can be counted.
pub open spec fn chain_splits(stages: Seq<CompressionStage>, data: Seq<Seq<u8>>) -> bool
    decreases stages.len(),
{
    if stages.len() == 0 {
        true
    } else {
        let given = chain_encoded(stages.drop_last(), data);
        &&& chain_splits(stages.drop_last(), data)
        &&& match stages.last().work() {
            Work::Columns(s) => 2 * given.len() <= usize::MAX && s.splits(given),
            _ => true,
        }
    }
}

/// Whether the decode pass of a chain of splits takes `data`: every split is given pairs
/// of streams that match.
pub open spec fn chain_joins(stages: Seq<CompressionStage>, data: Seq<Seq<u8>>) -> bool
    decreases stages.len(),
{
    if stages.len() == 0 {
        true
    } else {
        &&& match stages.last().work() {
            Work::Columns(s) => s.joins(data),
            _ => true,
        }
        &&& chain_joins(stages.drop_last(), stages.last().decoded(data))
    }
}

/// The encode pass that takes `data` takes it up to every stage.
pub proof fn lemma_chain_splits_prefix(stages: Seq<CompressionStage>, upto: int, data: Seq<Seq<u8>>)
    requires
        0 <= upto <= stages.len(),
        chain_splits(stages, data),
    ensures
        chain_splits(stages.subrange(0, upto), data),
    decreases stages.len(),
{
    if upto < stages.len() {
        lemma_chain_splits_prefix(stages.drop_last(), upto, data);
        assert(stages.drop_last().subrange(0, upto) =~= stages.subrange(0, upto));
    } else {
        assert(stages.subrange(0, upto) =~= stages);
    }
}

/// What the encode pass of a chain of splits has made, the decode pass takes, and makes
/// of it what the encode pass was given.
pub proof fn lemma_chain_joins_encoded(stages: Seq<CompressionStage>, data: Seq<Seq<u8>>)
    requires
        chain_is_columns(stages),
        chain_splits(stages, data),
    ensures
        chain_joins(stages, chain_encoded(stages, data)),
        chain_decoded(stages, chain_encoded(stages, data)) == data,
    decreases stages.len(),
{
    if stages.len() > 0 {
        let prefix = stages.drop_last();
        let given = chain_encoded(prefix, data);
        assert forall|i: int| 0 <= i < prefix.len() implies (#[trigger] prefix[i]).work() is Columns by {
            assert(prefix[i] == stages[i]);
        }
        lemma_chain_joins_encoded(prefix, data);
        assert(stages.last() == stages[stages.len() - 1]);
        match stages.last().work() {
            Work::Columns(s) => {
                s.lemma_decoded_encoded(given);
            },
            _ => {},
        }
    }
}

/// Runs the encoder of one stage on `data`.
///
/// Where it succeeds, `out` holds the stage's fan-out times as many streams as `data`;
/// they are the streams that the crate states for the stage, if it states any, and for a
/// lossless stage their decoding gives `data` back. It succeeds exactly where the stage
/// takes `data`. The invalid stage fails with [`Error::InvalidStage`]; any other failure
/// is the one of the stage's encoder.
pub fn do_encode<B: Backend>(
    backend: &B,
    stage: CompressionStage,
    data: &BufferList,
    shape: &[usize],
    target_prec: Tolerance,
    out: &mut BufferList,
) -> (r: Result<()>)
    requires
        data.wf(),
        old(out).wf(),
    ensures
        final(out).wf(),
        r is Ok ==> final(out)@.len() == data@.len() * stage.fan_out(),
        r is Ok && stage.encodes_here() ==> final(out)@ == stage.encoded(data@),
        r is Ok && stage.is_lossless() ==> stage.decoded(final(out)@) == data@,
        stage == CompressionStage::InvalidStage ==> r == Err::<(), Error>(Error::InvalidStage),
        r is Ok ==> final(out)@ == stage.encoded_by(backend, shape@, target_prec, data@),
        r is Ok <==> stage.takes_by(backend, shape@, target_prec, data@),
        r is Ok && stage.is_lossless() ==> stage.gives_by(backend, shape@, final(out)@)
            && stage.decoded_by(backend, shape@, final(out)@) == data@,
        stage.work() matches Work::Columns(s) ==> (r is Ok <==> 2 * data@.len() <= usize::MAX
            && s.splits(data@)),
        stage.work() matches Work::Narrow(c) ==> (r is Ok <==> forall|i: int|
            0 <= i < data@.len() ==> aligned(
                (#[trigger] data@[i]).len(),
                c.wide(),
            )),
{
    match stage.plan() {
        Work::Nothing => Err(Error::InvalidStage),
        Work::Entropy(c) => c.encode(data, out),
        Work::Narrow(c) => {
            let r = c.encode(backend, data, out);
            proof {
                if r is Ok && stage.encodes_here() {
                    assert(out@ =~= stage.encoded(data@));
                }
                if r is Ok {
                    assert(out@ =~= stage.encoded_by(backend, shape@, target_prec, data@));
                }
            }
            r
        },
        Work::Columns(s) => {
            let r = s.encode(data, out);
            proof {
                if r is Ok {
                    s.lemma_decoded_encoded(data@);
                }
            }
            r
        },
        Work::Tensor(dt) => {
            let r = Zfp::new(dt, 1, shape, target_prec).encode(backend, data, out);
            proof {
                if r is Ok {
                    assert(out@ =~= stage.encoded_by(backend, shape@, target_prec, data@));
                }
            }
            r
        },
    }
}

/// Runs the decoder of one stage on `data`.
///
/// Where it succeeds, `data` holds the stage's fan-out times as many streams as `out`;
/// they are the streams that the crate states for the stage, if it states any. It
/// succeeds exactly where the stage takes `data`. The invalid stage fails with
/// [`Error::InvalidStage`]; any other failure is the one of the stage's decoder.
pub fn do_decode<B: Backend>(
    backend: &B,
    stage: CompressionStage,
    data: &BufferList,
    shape: &[usize],
    out: &mut BufferList,
) -> (r: Result<()>)
    requires
        data.wf(),
        old(out).wf(),
    ensures
        final(out).wf(),
        r is Ok ==> final(out)@.len() * stage.fan_out() == data@.len(),
        r is Ok && stage.decodes_here() ==> final(out)@ == stage.decoded(data@),
        stage == CompressionStage::InvalidStage ==> r == Err::<(), Error>(Error::InvalidStage),
        r is Ok ==> final(out)@ == stage.decoded_by(backend, shape@, data@),
        r is Ok <==> stage.gives_by(backend, shape@, data@),
        stage.work() matches Work::Columns(s) ==> (r is Ok <==> s.joins(data@)),
        stage.work() matches Work::Narrow(c) ==> (r is Ok <==> forall|i: int|
            0 <= i < data@.len() ==> aligned(
                (#[trigger] data@[i]).len(),
                c.narrow(),
            )),
{
    match stage.plan() {
        Work::Nothing => Err(Error::InvalidStage),
        Work::Entropy(c) => c.decode(data, out),
        Work::Narrow(c) => {
            let r = c.decode(backend, data, out);
            proof {
                if r is Ok && stage.decodes_here() {
                    assert(out@ =~= stage.decoded(data@));
                }
                if r is Ok {
                    assert(out@ =~= stage.decoded_by(backend, shape@, data@));
                }
            }
            r
        },
        Work::Columns(s) => s.decode(data, out),
        Work::Tensor(dt) => {
            let r = Zfp::new(dt, 1, shape, Tolerance::from_bits(0)).decode(backend, data, out);
            proof {
                if r is Ok {
                    assert(out@ =~= stage.decoded_by(backend, shape@, data@));
                }
            }
            r
        },
    }
}

/// A chain with one more stage at its end fans out that stage's times more.
pub proof fn lemma_chain_fan_out_push(stages: Seq<CompressionStage>, upto: int)
    requires
        0 <= upto < stages.len(),
    ensures
        chain_fan_out(stages.subrange(0, upto + 1)) == chain_fan_out(stages.subrange(0, upto))
            * stages[upto].fan_out(),
        chain_fan_out(stages.subrange(0, upto)) >= 1,
    decreases upto,
{
    let s = stages.subrange(0, upto + 1);
    assert(s.drop_last() =~= stages.subrange(0, upto));
    assert(s.last() == stages[upto]);
    if upto > 0 {
        lemma_chain_fan_out_push(stages, upto - 1);
        assert(chain_fan_out(stages.subrange(0, upto - 1)) * stages[upto - 1].fan_out() >= 1)
            by (nonlinear_arith)
            requires
                chain_fan_out(stages.subrange(0, upto - 1)) >= 1,
                stages[upto - 1].fan_out() >= 1,
        ;
    } else {
        assert(stages.subrange(0, 0) =~= Seq::<CompressionStage>::empty());
    }
}

/// Runs the decode pass of a chain on `cur`, the last stage first, and leaves what it
/// gives in `cur`.
fn decode_pass<B: Backend>(
    backend: &B,
    stages: &[CompressionStage],
    shape: &[usize],
    cur: &mut BufferList,
) -> (r: Result<()>)
    requires
        old(cur).wf(),
        old(cur)@.len() == chain_fan_out(stages@),
    ensures
        final(cur).wf(),
        r is Ok ==> final(cur)@.len() == 1,
        r is Ok && chain_decodes_here(stages@) ==> final(cur)@ == chain_decoded(
            stages@,
            old(cur)@,
        ),
        chain_is_columns(stages@) ==> (r is Ok <==> chain_joins(stages@, old(cur)@)),
        r is Ok ==> chain_is_valid(stages@),
        r is Ok ==> final(cur)@ == chain_decoded_by(backend, shape@, stages@, old(cur)@),
        r is Ok <==> chain_gives_by(backend, shape@, stages@, old(cur)@),
        stages@.len() > 0 && stages@.last() == CompressionStage::InvalidStage ==> r == Err::<
            (),
            Error,
        >(Error::InvalidStage),
{
    let mut out = BufferList::new();
    let mut j: usize = stages.len();
    proof {
        assert(stages@.subrange(0, j as int) =~= stages@);
    }
    while j > 0
        invariant
            cur.wf(),
            out.wf(),
            j <= stages@.len(),
            cur@.len() == chain_fan_out(stages@.subrange(0, j as int)),
            chain_decodes_here(stages@) ==> chain_decoded(stages@.subrange(0, j as int), cur@)
                == chain_decoded(stages@, old(cur)@),
            chain_is_columns(stages@) ==> chain_joins(stages@.subrange(0, j as int), cur@)
                == chain_joins(stages@, old(cur)@),
            forall|k: int|
                j <= k < stages@.len() ==> #[trigger] stages@[k] != CompressionStage::InvalidStage,
            chain_decoded_by(backend, shape@, stages@.subrange(0, j as int), cur@)
                == chain_decoded_by(backend, shape@, stages@, old(cur)@),
            chain_gives_by(backend, shape@, stages@.subrange(0, j as int), cur@)
                == chain_gives_by(backend, shape@, stages@, old(cur)@),
        decreases j,
    {
        j = j - 1;
        let stage = stages[j];
        proof {
            let prefix = stages@.subrange(0, j + 1);
            assert(prefix.drop_last() =~= stages@.subrange(0, j as int));
            assert(prefix.last() == stage);
        }
        let done = do_decode(backend, stage, cur, shape, &mut out);
        if let Err(e) = done {
            return Err(e);
        }
        proof {
            lemma_chain_fan_out_push(stages@, j as int);
            let prefix = stages@.subrange(0, j + 1);
            assert(prefix.drop_last() =~= stages@.subrange(0, j as int));
            assert(prefix.last() == stage);
            let a = chain_fan_out(stages@.subrange(0, j as int));
            let f = stage.fan_out();
            assert(out@.len() == a) by (nonlinear_arith)
                requires
                    out@.len() * f == a * f,
                    f >= 1,
            ;
        }
        core::mem::swap(&mut out, cur);
    }
    proof {
        assert(stages@.subrange(0, 0) =~= Seq::<CompressionStage>::empty());
    }
    Ok(())
}

/// The number of stages of a chain up to its last lossy one: behind them the chain has
/// lossless stages only, which the decode pass undoes.
pub open spec fn lossy_len(stages: Seq<CompressionStage>) -> nat
    decreases stages.len(),
{
    if stages.len() == 0 {
        0
    } else if !stages.last().is_lossless() {
        stages.len()
    } else {
        lossy_len(stages.drop_last())
    }
}

/// The stages of a chain up to its last lossy one.
pub open spec fn lossy_head(stages: Seq<CompressionStage>) -> Seq<CompressionStage> {
    stages.subrange(0, lossy_len(stages) as int)
}

/// The lossy head of a chain is no longer than the chain, and it is the head of the chain
/// without its last stage where that stage is lossless.
pub proof fn lemma_lossy_head(stages: Seq<CompressionStage>)
    ensures
        lossy_len(stages) <= stages.len(),
        stages.len() > 0 && stages.last().is_lossless() ==> lossy_head(stages) == lossy_head(
            stages.drop_last(),
        ),
        stages.len() > 0 && !stages.last().is_lossless() ==> lossy_head(stages) == stages,
        chain_is_lossless(stages) ==> lossy_len(stages) == 0,
    decreases stages.len(),
{
    if stages.len() > 0 {
        lemma_lossy_head(stages.drop_last());
        if stages.last().is_lossless() {
            assert(stages.subrange(0, lossy_len(stages) as int) =~= stages.drop_last().subrange(
                0,
                lossy_len(stages.drop_last()) as int,
            ));
            if chain_is_lossless(stages) {
                assert forall|i: int| 0 <= i < stages.drop_last().len() implies (
                #[trigger] stages.drop_last()[i]).is_lossless() by {
                    assert(stages.drop_last()[i] == stages[i]);
                }
            }
        } else {
            assert(stages.subrange(0, stages.len() as int) =~= stages);
            if chain_is_lossless(stages) {
                assert(stages[stages.len() - 1].is_lossless());
            }
        }
    }
}

/// What the decode pass of a chain makes of what its encode pass made of `data`: the
/// lossless stages at the end of the chain are undone, so that it is what the decode pass
/// of the lossy head makes of what the encode pass of that head made.
pub open spec fn undone<B: Backend>(
    backend: &B,
    shape: Seq<usize>,
    prec: Tolerance,
    stages: Seq<CompressionStage>,
    data: Seq<u8>,
) -> Seq<Seq<u8>> {
    chain_decoded_by(
        backend,
        shape,
        lossy_head(stages),
        chain_encoded_by(backend, shape, prec, lossy_head(stages), seq![data]),
    )
}

/// Whether no stage of a chain is the invalid one.
pub open spec fn chain_is_valid(stages: Seq<CompressionStage>) -> bool {
    forall|i: int| 0 <= i < stages.len() ==> #[trigger] stages[i] != CompressionStage::InvalidStage
}

/// What holds of the streams `outputs` and the distance `error` that a round trip of
/// `data`, an array of the given shape, through a chain gave within the accuracy `prec`.
///
/// The streams are as many as the chain fans out to. They are what the encode pass of the
/// chain makes of `data` with `backend`, and the distance is the one between `data` and
/// what the decode pass makes of the streams, which is what the decode pass of the lossy
/// head of the chain makes of what that head made, the lossless stages behind it being
/// undone: exact for bytes and integers, and for
/// floating-point numbers the largest difference that `backend` gives. There is none where
/// `data` holds a NaN. Where the crate states the encoders or the decoders of all the
/// stages by itself, the same holds of what it states, and for a lossless chain the decode
/// pass gives `data`. No stage is the invalid one, and every split of a chain of nothing
/// but splits was given whole elements.
pub open spec fn round_trip<B: Backend>(
    backend: &B,
    outputs: Seq<Seq<u8>>,
    error: Option<Deviation>,
    data: Seq<u8>,
    dt: DataType,
    shape: Seq<usize>,
    prec: Tolerance,
    stages: Seq<CompressionStage>,
) -> bool {
    &&& outputs.len() == chain_fan_out(stages)
    &&& outputs == chain_encoded_by(backend, shape, prec, stages, seq![data])
    &&& chain_decoded_by(backend, shape, stages, outputs) == undone(
        backend,
        shape,
        prec,
        stages,
        data,
    )
    &&& bits_of(error) == dt.difference_by(
        backend,
        data,
        chain_decoded_by(backend, shape, stages, outputs)[0],
    )
    &&& (error matches Some(e) ==> e.wf())
    &&& (chain_encodes_here(stages) ==> outputs == chain_encoded(stages, seq![data]))
    &&& (chain_is_lossless(stages) ==> chain_decoded(stages, outputs) == seq![data])
    &&& (chain_decodes_here(stages) ==> bits_of(error) == dt.difference_by(
        backend,
        data,
        chain_decoded(stages, outputs)[0],
    ))
    &&& (chain_decodes_here(stages) && !dt.is_float() ==> bits_of(error) == dt.exact_difference(
        data,
        chain_decoded(stages, outputs)[0],
    ))
    &&& (chain_is_lossless(stages) && !dt.is_float() ==> error == if aligned(
        data.len(),
        dt.width(),
    ) {
        Some(Deviation::zero_value())
    } else {
        None
    })
    &&& (chain_is_lossless(stages) && dt.is_float() ==> if !aligned(data.len(), dt.width())
        || dt.any_nan(data, data) {
        error is None
    } else {
        error == Some(Deviation::zero_value())
    })
    &&& (dt.is_float() && dt.any_nan(data, data) ==> error is None)
    &&& (chain_is_columns(stages) ==> chain_splits(stages, seq![data]))
    &&& chain_is_valid(stages)
    &&& chain_passes(backend, shape, prec, stages, data)
}

/// Whether both passes of a chain take what they are given: the encode pass `data`, and
/// the decode pass what the encode pass made of it.
pub open spec fn chain_passes<B: Backend>(
    backend: &B,
    shape: Seq<usize>,
    prec: Tolerance,
    stages: Seq<CompressionStage>,
    data: Seq<u8>,
) -> bool {
    &&& chain_takes_by(backend, shape, prec, stages, seq![data])
    &&& chain_gives_by(
        backend,
        shape,
        stages,
        chain_encoded_by(backend, shape, prec, stages, seq![data]),
    )
}

/// A round trip of a blob gives one distance and one list of streams: what the chain and
/// the backend make of the blob, whenever it is tried.
pub proof fn lemma_round_trip_is_unique<B: Backend>(
    backend: &B,
    a: Seq<Seq<u8>>,
    b: Seq<Seq<u8>>,
    error_a: Option<Deviation>,
    error_b: Option<Deviation>,
    data: Seq<u8>,
    dt: DataType,
    shape: Seq<usize>,
    prec: Tolerance,
    stages: Seq<CompressionStage>,
)
    requires
        round_trip(backend, a, error_a, data, dt, shape, prec, stages),
        round_trip(backend, b, error_b, data, dt, shape, prec, stages),
    ensures
        a == b,
        error_a == error_b,
{
    if let Some(x) = error_a {
        if let Some(y) = error_b {
            Deviation::lemma_same_bits(x, y);
        }
    }
}

/// What a lossless chain made of a blob, its decode pass takes and gives back, byte for
/// byte: decoding what was coded succeeds, with the blob.
pub proof fn lemma_round_trip_identity<B: Backend>(
    backend: &B,
    outputs: Seq<Seq<u8>>,
    error: Option<Deviation>,
    data: Seq<u8>,
    dt: DataType,
    shape: Seq<usize>,
    prec: Tolerance,
    stages: Seq<CompressionStage>,
)
    requires
        round_trip(backend, outputs, error, data, dt, shape, prec, stages),
        chain_is_lossless(stages),
    ensures
        outputs.len() == chain_fan_out(stages),
        chain_gives_by(backend, shape, stages, outputs),
        chain_decoded_by(backend, shape, stages, outputs) == seq![data],
{
    lemma_lossy_head(stages);
    assert(lossy_head(stages) =~= Seq::<CompressionStage>::empty());
}

/// What any chain made of a blob, its decode pass takes, and the distance of the round
/// trip is the one between the blob and what that pass gives: decoding what was coded
/// succeeds, and lies as far from the blob as the round trip said.
pub proof fn lemma_round_trip_bounded<B: Backend>(
    backend: &B,
    outputs: Seq<Seq<u8>>,
    error: Option<Deviation>,
    data: Seq<u8>,
    dt: DataType,
    shape: Seq<usize>,
    prec: Tolerance,
    stages: Seq<CompressionStage>,
)
    requires
        round_trip(backend, outputs, error, data, dt, shape, prec, stages),
    ensures
        outputs.len() == chain_fan_out(stages),
        chain_gives_by(backend, shape, stages, outputs),
        bits_of(error) == dt.difference_by(
            backend,
            data,
            chain_decoded_by(backend, shape, stages, outputs)[0],
        ),
{
}

/// A blob of single-precision numbers that bfloat16 holds exactly comes back from a chain
/// that narrows to bfloat16 and is lossless behind that: the decode pass of what the
/// chain made of the blob gives the blob, byte for byte.
pub proof fn lemma_exact_narrowing_undone<B: Backend>(
    backend: &B,
    shape: Seq<usize>,
    prec: Tolerance,
    stages: Seq<CompressionStage>,
    data: Seq<u8>,
)
    requires
        lossy_head(stages) == seq![CompressionStage::ConvertFloat32ToBfloat16],
        aligned(data.len(), 4),
        all_exact_in_bf16(data),
    ensures
        undone(backend, shape, prec, stages, data) == seq![data],
{
    let head = lossy_head(stages);
    let stage = CompressionStage::ConvertFloat32ToBfloat16;
    let c = Convert::Float32ToBfloat16;
    assert(head.drop_last() =~= Seq::<CompressionStage>::empty());
    assert(head.last() == stage);
    assert(stage.work() == Work::Narrow(c));
    let made = chain_encoded_by(backend, shape, prec, head, seq![data]);
    assert(chain_encoded_by(backend, shape, prec, head.drop_last(), seq![data]) == seq![data]);
    assert(made == stage.encoded_by(backend, shape, prec, seq![data]));
    let narrow = map_chunks(data, 4, c.narrowing_by(backend));
    assert(made =~= seq![narrow]);
    let back = stage.decoded_by(backend, shape, made);
    assert(chain_decoded_by(backend, shape, head.drop_last(), back) == back);
    assert(chain_decoded_by(backend, shape, head, made) == back);
    lemma_exact_comes_back(backend, data);
    assert(back =~= seq![data]);
}

/// Carries `data` through the encode pass of a chain and back through its decode pass.
///
/// Where it succeeds, it gives the streams that the encode pass made, as many as the chain
/// fans out to, and the distance between `data` and what the decode pass made of them,
/// if there is one. The streams are those that the crate states for the chain, if it
/// states the encoders of all its stages. For a lossless chain the decode pass of the
/// streams is `data`, and the distance is the one between `data` and itself.
///
/// It succeeds exactly where both passes take what they are given: each stage of the
/// encode pass what the one before it made, and each stage of the decode pass, the last
/// first, what the one behind it gave. So a chain of nothing but splits, and the empty
/// chain, succeeds exactly where every split is given whole elements. A chain with the
/// invalid stage fails: with [`Error::InvalidStage`] where that is its first stage.
pub fn compress<B: Backend>(
    backend: &B,
    data: &[u8],
    dt: DataType,
    shape: &[usize],
    stages: &[CompressionStage],
    target_prec: Tolerance,
) -> (r: Result<(BufferList, Option<Deviation>)>)
    ensures
        r matches Ok((outputs, error)) ==> outputs.wf() && round_trip(
            backend,
            outputs@,
            error,
            data@,
            dt,
            shape@,
            target_prec,
            stages@,
        ),
        chain_is_columns(stages@) && chain_splits(stages@, seq![data@]) ==> r is Ok,
        r is Ok <==> chain_passes(backend, shape@, target_prec, stages@, data@),
        !chain_is_valid(stages@) ==> r is Err,
        stages@.len() > 0 && stages@[0] == CompressionStage::InvalidStage ==> r == Err::<
            (BufferList, Option<Deviation>),
            Error,
        >(Error::InvalidStage),
{
    let mut cur = BufferList::of(data);
    let mut out = BufferList::new();
    let mut i: usize = 0;
    proof {
        assert(stages@.subrange(0, 0) =~= Seq::<CompressionStage>::empty());
    }
    while i < stages.len()
        invariant
            cur.wf(),
            out.wf(),
            i <= stages@.len(),
            cur@.len() == chain_fan_out(stages@.subrange(0, i as int)),
            chain_encodes_here(stages@) ==> cur@ == chain_encoded(
                stages@.subrange(0, i as int),
                seq![data@],
            ),
            chain_is_lossless(stages@) ==> chain_decoded(stages@.subrange(0, i as int), cur@)
                == seq![data@],
            chain_is_columns(stages@) ==> chain_splits(stages@.subrange(0, i as int), seq![data@]),
            forall|k: int| 0 <= k < i ==> #[trigger] stages@[k] != CompressionStage::InvalidStage,
            cur@ == chain_encoded_by(
                backend,
                shape@,
                target_prec,
                stages@.subrange(0, i as int),
                seq![data@],
            ),
            chain_takes_by(
                backend,
                shape@,
                target_prec,
                stages@.subrange(0, i as int),
                seq![data@],
            ),
            chain_decoded_by(backend, shape@, stages@.subrange(0, i as int), cur@) == undone(
                backend,
                shape@,
                target_prec,
                stages@.subrange(0, i as int),
                data@,
            ),
        decreases stages@.len() - i,
    {
        let stage = stages[i];
        let done = do_encode(backend, stage, &cur, shape, target_prec, &mut out);
        proof {
            let prefix = stages@.subrange(0, i + 1);
            assert(prefix.drop_last() =~= stages@.subrange(0, i as int));
            assert(prefix.last() == stage);
            if chain_is_columns(stages@) {
                assert(stage == stages@[i as int]);
                assert(chain_encodes_here(stages@)) by {
                    assert forall|k: int| 0 <= k < stages@.len() implies (
                    #[trigger] stages@[k]).encodes_here() by {
                        assert(stages@[k].work() is Columns);
                    }
                }
                if done is Err && chain_splits(stages@, seq![data@]) {
                    lemma_chain_splits_prefix(stages@, i + 1, seq![data@]);
                }
            }
            {
                assert(stage == stages@[i as int]);
                if done is Err && chain_takes_by(backend, shape@, target_prec, stages@, seq![data@]) {
                    lemma_chain_takes_prefix(
                        backend,
                        shape@,
                        target_prec,
                        stages@,
                        i + 1,
                        seq![data@],
                    );
                }
            }
        }
        if let Err(e) = done {
            return Err(e);
        }
        proof {
            lemma_chain_fan_out_push(stages@, i as int);
            let prefix = stages@.subrange(0, i + 1);
            assert(prefix.drop_last() =~= stages@.subrange(0, i as int));
            assert(prefix.last() == stage);
            lemma_lossy_head(prefix);
            if stage.is_lossless() {
                assert(stage.decoded_by(backend, shape@, out@) == cur@);
            }
        }
        core::mem::swap(&mut out, &mut cur);
        i = i + 1;
    }
    proof {
        assert(stages@.subrange(0, stages@.len() as int) =~= stages@);
    }
    let outputs = cur.clone();
    proof {
        if chain_is_columns(stages@) {
            lemma_chain_joins_encoded(stages@, seq![data@]);
            assert forall|k: int| 0 <= k < stages@.len() implies (
            #[trigger] stages@[k]).encodes_here() by {
                assert(stages@[k].work() is Columns);
            }
        }
    }
    let back = decode_pass(backend, stages, shape, &mut cur);
    if let Err(e) = back {
        return Err(e);
    }
    let error = dt.max_difference(backend, data, cur.get(0).as_slice());
    proof {
        dt.lemma_same_buffer(data@);
        if dt.is_float() && dt.any_nan(data@, data@) && cur@[0].len() == data@.len() {
            dt.lemma_nan_of_source(data@, cur@[0]);
        }
        if chain_is_lossless(stages@) {
            assert(chain_decodes_here(stages@));
            assert(cur@[0] == data@);
            if let Some(e) = error {
                if !dt.is_float() {
                    Deviation::lemma_zero_is_zero(e);
                }
            }
        }
    }
    Ok((outputs, error))
}

/// Carries the streams `data` through the decode pass of a chain. The element type has no
/// part in it: every stage knows the type that it works on.
///
/// Fails with [`Error::FanOutMismatch`] where the streams are not as many as the chain fans
/// out to. Where it succeeds, it gives the one buffer that the decode pass makes of the
/// streams with `backend`: the one that the crate states for the chain by itself, if it
/// states the decoders of all its stages. It succeeds exactly where the streams are as
/// many as the chain fans out to and the decode pass takes them: every stage, the last
/// first, what the one behind it gave. A chain with the invalid stage fails: with
/// [`Error::InvalidStage`] where that is its last stage and the streams are as many as
/// the chain fans out to.
pub fn decompress<B: Backend>(
    backend: &B,
    data: BufferList,
    _dt: DataType,
    shape: &[usize],
    stages: &[CompressionStage],
) -> (r: Result<Vec<u8>>)
    requires
        data.wf(),
    ensures
        r is Ok ==> data@.len() == chain_fan_out(stages@),
        data@.len() != chain_fan_out(stages@) ==> r matches Err(Error::FanOutMismatch),
        r matches Ok(bytes) ==> (chain_decodes_here(stages@) ==> seq![bytes@] == chain_decoded(
            stages@,
            data@,
        )),
        chain_is_columns(stages@) ==> (r is Ok <==> data@.len() == chain_fan_out(stages@)
            && chain_joins(stages@, data@)),
        !chain_is_valid(stages@) ==> r is Err,
        data@.len() == chain_fan_out(stages@) && stages@.len() > 0 && stages@.last()
            == CompressionStage::InvalidStage ==> r == Err::<Vec<u8>, Error>(Error::InvalidStage),
        r matches Ok(bytes) ==> seq![bytes@] == chain_decoded_by(backend, shape@, stages@, data@),
        r is Ok <==> data@.len() == chain_fan_out(stages@) && chain_gives_by(
            backend,
            shape@,
            stages@,
            data@,
        ),
{
    let mut cur = data;
    let given = cur.len();
    match fan_out(stages) {
        Some(wanted) => {
            if wanted != given {
                return Err(Error::FanOutMismatch);
            }
        },
        None => {
            return Err(Error::FanOutMismatch);
        },
    }
    let back = decode_pass(backend, stages, shape, &mut cur);
    if let Err(e) = back {
        return Err(e);
    }
    let bytes = cur.take(0);
    proof {
        assert(seq![bytes@] =~= chain_decoded(stages@, data@) || !chain_decodes_here(stages@));
        assert(seq![bytes@] =~= chain_decoded_by(backend, shape@, stages@, data@));
    }
    Ok(bytes)
}

/// The number of streams that a chain makes of one, if it can be counted.
pub fn fan_out(stages: &[CompressionStage]) -> (n: Option<usize>)
    ensures
        n is Some <==> chain_fan_out(stages@) <= usize::MAX,
        n matches Some(v) ==> v == chain_fan_out(stages@),
{
    let mut n: usize = 1;
    let mut i: usize = 0;
    proof {
        assert(stages@.subrange(0, 0) =~= Seq::<CompressionStage>::empty());
    }
    while i < stages.len()
        invariant
            i <= stages@.len(),
            n == chain_fan_out(stages@.subrange(0, i as int)),
        decreases stages@.len() - i,
    {
        proof {
            lemma_chain_fan_out_push(stages@, i as int);
        }
        let twice = match stages[i].plan() {
            Work::Columns(_) => true,
            _ => false,
        };
        if twice {
            if n > usize::MAX / 2 {
                proof {
                    lemma_chain_fan_out_grows(stages@, i as int + 1);
                }
                return None;
            }
            n = n * 2;
        }
        i = i + 1;
    }
    proof {
        assert(stages@.subrange(0, stages@.len() as int) =~= stages@);
    }
    Some(n)
}

/// A chain fans out to no fewer streams than its first stages do.
pub proof fn lemma_chain_fan_out_grows(stages: Seq<CompressionStage>, upto: int)
    requires
        0 <= upto <= stages.len(),
    ensures
        chain_fan_out(stages) >= chain_fan_out(stages.subrange(0, upto)),
    decreases stages.len() - upto,
{
    if upto < stages.len() {
        lemma_chain_fan_out_push(stages, upto);
        lemma_chain_fan_out_grows(stages, upto + 1);
        let a = chain_fan_out(stages.subrange(0, upto));
        let f = stages[upto].fan_out();
        assert(a * f >= a) by (nonlinear_arith)
            requires
                a >= 1,
                f >= 1,
        ;
    } else {
        assert(stages.subrange(0, upto) =~= stages);
    }
}

} // verus!
