//! The chains that are tried for each element type.
use crate::compress::CompressionStage;
use crate::data_type::DataType;
use vstd::prelude::*;

verus! {

/// The chains that are tried for blobs of an element type, in the order of trying.
pub open spec fn candidate_chains(dt: DataType) -> Seq<Seq<CompressionStage>> {
    match dt {
        DataType::Float32 => seq![
            seq![CompressionStage::ZfpFloat32OneD],
            seq![CompressionStage::SplitMantissaFloat32, CompressionStage::Zstd],
            seq![
                CompressionStage::ConvertFloat32ToBfloat16,
                CompressionStage::SplitMantissaBfloat16,
                CompressionStage::Zstd,
            ],
            seq![CompressionStage::Zstd],
        ],
        DataType::Float64 => seq![
            seq![CompressionStage::ZfpFloat64OneD],
            seq![CompressionStage::SplitMantissaFloat64, CompressionStage::Zstd],
            seq![
                CompressionStage::ConvertFloat64ToFloat32,
                CompressionStage::SplitMantissaFloat32,
                CompressionStage::Zstd,
            ],
            seq![
                CompressionStage::ConvertFloat64ToBfloat16,
                CompressionStage::SplitMantissaBfloat16,
                CompressionStage::Zstd,
            ],
            seq![CompressionStage::Zstd],
        ],
        DataType::Bfloat16 => seq![
            seq![CompressionStage::Zstd],
            seq![CompressionStage::SplitMantissaBfloat16, CompressionStage::Zstd],
        ],
        _ => seq![seq![CompressionStage::Zstd]],
    }
}

/// Whether `table` holds the chains `chains`.
pub open spec fn holds(table: Seq<Vec<CompressionStage>>, chains: Seq<Seq<CompressionStage>>) -> bool {
    &&& table.len() == chains.len()
    &&& forall|i: int| 0 <= i < table.len() ==> (#[trigger] table[i])@ == chains[i]
}

/// The chains that are tried for blobs of an element type, in the order of trying.
pub fn compress_method(dt: DataType) -> (table: Vec<Vec<CompressionStage>>)
    ensures
        holds(table@, candidate_chains(dt)),
{
    let mut table: Vec<Vec<CompressionStage>> = Vec::new();
    match dt {
        DataType::Float32 => {
            table.push(chain1(CompressionStage::ZfpFloat32OneD));
            table.push(chain2(CompressionStage::SplitMantissaFloat32, CompressionStage::Zstd));
            table.push(
                chain3(
                    CompressionStage::ConvertFloat32ToBfloat16,
                    CompressionStage::SplitMantissaBfloat16,
                    CompressionStage::Zstd,
                ),
            );
            table.push(chain1(CompressionStage::Zstd));
        },
        DataType::Float64 => {
            table.push(chain1(CompressionStage::ZfpFloat64OneD));
            table.push(chain2(CompressionStage::SplitMantissaFloat64, CompressionStage::Zstd));
            table.push(
                chain3(
                    CompressionStage::ConvertFloat64ToFloat32,
                    CompressionStage::SplitMantissaFloat32,
                    CompressionStage::Zstd,
                ),
            );
            table.push(
                chain3(
                    CompressionStage::ConvertFloat64ToBfloat16,
                    CompressionStage::SplitMantissaBfloat16,
                    CompressionStage::Zstd,
                ),
            );
            table.push(chain1(CompressionStage::Zstd));
        },
        DataType::Bfloat16 => {
            table.push(chain1(CompressionStage::Zstd));
            table.push(chain2(CompressionStage::SplitMantissaBfloat16, CompressionStage::Zstd));
        },
        _ => {
            table.push(chain1(CompressionStage::Zstd));
        },
    }
    table
}

fn chain1(a: CompressionStage) -> (c: Vec<CompressionStage>)
    ensures
        c@ == seq![a],
{
    let mut c = Vec::new();
    c.push(a);
    assert(c@ =~= seq![a]);
    c
}

fn chain2(a: CompressionStage, b: CompressionStage) -> (c: Vec<CompressionStage>)
    ensures
        c@ == seq![a, b],
{
    let mut c = Vec::new();
    c.push(a);
    c.push(b);
    assert(c@ =~= seq![a, b]);
    c
}

fn chain3(a: CompressionStage, b: CompressionStage, d: CompressionStage) -> (c: Vec<
    CompressionStage,
>)
    ensures
        c@ == seq![a, b, d],
{
    let mut c = Vec::new();
    c.push(a);
    c.push(b);
    c.push(d);
    assert(c@ =~= seq![a, b, d]);
    c
}

} // verus!
