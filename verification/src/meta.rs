//! The metadata of a bundle: what an archive says of the files and blobs it holds.
use crate::compress::CompressionStage;
use crate::data_type::DataType;
use vstd::prelude::*;
use vstd::string::StringSliceAdditionalSpecFns;

verus! {

/// A file that the archive holds as it is.
#[derive(Clone, Debug, PartialEq, Eq)]
pub struct RawFile {
    pub name: String,
}

/// The descriptor of a blob, as the archive records it.
#[derive(Clone, Debug, PartialEq, Eq)]
pub struct Blob {
    pub name: String,
    /// The tag of the element type.
    pub data_type: i32,
    /// The extents of the array.
    pub dims: Vec<i64>,
    /// The file that the blob's bytes belong into; empty where there is none.
    pub target_file_name: String,
    /// Where in that file they belong.
    pub target_offset_in_bytes: i64,
    /// The tags of the stages of the chain, in the order of encoding.
    pub compression_stages: Vec<i32>,
    /// The identifiers of the chunks, in the order of the chain's outputs.
    pub chunk_ids: Vec<String>,
}

/// What an archive says of its contents.
#[derive(Clone, Debug, PartialEq, Eq)]
pub struct Bundle {
    pub raw_files: Vec<RawFile>,
    pub blobs: Vec<Blob>,
}

/// Whether the byte string `a` comes before `b` in the order of dictionaries.
pub open spec fn precedes(a: Seq<u8>, b: Seq<u8>) -> bool
    decreases a.len(),
{
    if b.len() == 0 {
        false
    } else if a.len() == 0 {
        true
    } else if a[0] != b[0] {
        a[0] < b[0]
    } else {
        precedes(a.drop_first(), b.drop_first())
    }
}

/// Of two byte strings that differ, one comes before the other.
pub proof fn lemma_precedes_total(a: Seq<u8>, b: Seq<u8>)
    ensures
        a == b || precedes(a, b) || precedes(b, a),
        !(precedes(a, b) && precedes(b, a)),
        !precedes(a, a),
    decreases a.len(),
{
    if a.len() == 0 || b.len() == 0 {
        if a.len() == 0 && b.len() == 0 {
            assert(a =~= b);
        }
    } else if a[0] == b[0] {
        lemma_precedes_total(a.drop_first(), b.drop_first());
        if a.drop_first() == b.drop_first() {
            assert(a =~= seq![a[0]] + a.drop_first());
            assert(b =~= seq![b[0]] + b.drop_first());
        }
        lemma_precedes_total(a.drop_first(), a.drop_first());
    }
    if a.len() > 0 {
        lemma_precedes_irreflexive(a);
    }
}

/// No byte string comes before itself.
pub proof fn lemma_precedes_irreflexive(a: Seq<u8>)
    ensures
        !precedes(a, a),
    decreases a.len(),
{
    if a.len() > 0 {
        lemma_precedes_irreflexive(a.drop_first());
    }
}

/// Whether the name `a` comes before the name `b`, by their bytes.
pub fn name_precedes(a: &str, b: &str) -> (r: bool)
    ensures
        r == precedes(a.spec_bytes(), b.spec_bytes()),
{
    let x = a.as_bytes();
    let y = b.as_bytes();
    let mut i: usize = 0;
    proof {
        assert(x@.skip(0) =~= x@);
        assert(y@.skip(0) =~= y@);
    }
    loop
        invariant
            x@ == a.spec_bytes(),
            y@ == b.spec_bytes(),
            i <= x@.len(),
            i <= y@.len(),
            precedes(x@, y@) == precedes(x@.skip(i as int), y@.skip(i as int)),
        decreases x@.len() - i,
    {
        if i >= y.len() {
            return false;
        }
        if i >= x.len() {
            return true;
        }
        proof {
            assert(x@.skip(i as int)[0] == x@[i as int]);
            assert(y@.skip(i as int)[0] == y@[i as int]);
            assert(x@.skip(i as int).drop_first() =~= x@.skip(i + 1));
            assert(y@.skip(i as int).drop_first() =~= y@.skip(i + 1));
        }
        if x[i] != y[i] {
            return x[i] < y[i];
        }
        i = i + 1;
    }
}

/// Whether two names are the same, by their bytes.
pub fn same_name(a: &str, b: &str) -> (r: bool)
    ensures
        r == (a.spec_bytes() == b.spec_bytes()),
{
    let x = a.as_bytes();
    let y = b.as_bytes();
    if x.len() != y.len() {
        return false;
    }
    let mut i: usize = 0;
    while i < x.len()
        invariant
            x@ == a.spec_bytes(),
            y@ == b.spec_bytes(),
            x@.len() == y@.len(),
            i <= x@.len(),
            forall|j: int| 0 <= j < i ==> x@[j] == y@[j],
        decreases x@.len() - i,
    {
        if x[i] != y[i] {
            return false;
        }
        i = i + 1;
    }
    assert(x@ =~= y@);
    true
}

impl Blob {
    /// The bytes of the blob's name.
    pub open spec fn name_bytes(&self) -> Seq<u8> {
        vstd::utf8::encode_utf8(self.name@)
    }

    /// The element type of the blob, unless its tag names none.
    pub fn element_type(&self) -> (dt: Option<DataType>)
        ensures
            dt == DataType::of_tag(self.data_type),
    {
        match DataType::from_tag(self.data_type) {
            Ok(dt) => Some(dt),
            Err(_) => None,
        }
    }

    /// The stages that the tags of a descriptor name.
    pub open spec fn stages_of(tags: Seq<i32>) -> Seq<CompressionStage> {
        Seq::new(tags.len(), |i: int| CompressionStage::of_tag(tags[i]).unwrap())
    }

    /// Whether every tag of a descriptor names a stage.
    pub open spec fn stages_known(tags: Seq<i32>) -> bool {
        forall|i: int| 0 <= i < tags.len() ==> CompressionStage::of_tag(#[trigger] tags[i]) is Some
    }

    /// The chain of the blob, unless one of its tags names no stage.
    pub fn stages(&self) -> (chain: Option<Vec<CompressionStage>>)
        ensures
            chain is Some <==> Self::stages_known(self.compression_stages@),
            chain matches Some(c) ==> c@ == Self::stages_of(self.compression_stages@),
    {
        let mut chain: Vec<CompressionStage> = Vec::new();
        let mut i: usize = 0;
        while i < self.compression_stages.len()
            invariant
                i <= self.compression_stages@.len(),
                chain@.len() == i,
                forall|j: int|
                    0 <= j < i ==> CompressionStage::of_tag(
                        #[trigger] self.compression_stages@[j],
                    ) == Some(chain@[j]),
            decreases self.compression_stages@.len() - i,
        {
            match CompressionStage::from_tag(self.compression_stages[i]) {
                Ok(s) => {
                    chain.push(s);
                },
                Err(_) => {
                    return None;
                },
            }
            i = i + 1;
        }
        assert(chain@ =~= Self::stages_of(self.compression_stages@));
        Some(chain)
    }
}

/// Whether the blobs are in the order of their names, each name once.
pub open spec fn sorted_by_name(blobs: Seq<Blob>) -> bool {
    forall|i: int|
        0 <= i < blobs.len() - 1 ==> precedes(
            (#[trigger] blobs[i]).name_bytes(),
            blobs[i + 1].name_bytes(),
        )
}

} // verus!
