//! Reading an archive: what its metadata holds, and its blobs.
use crate::backend::Backend;
use crate::codec::zfp::{byte_length, product};
use crate::codec::BufferList;
use crate::compress::{
    chain_decoded, chain_decoded_by, chain_decodes_here, chain_fan_out, chain_gives_by,
    chain_is_columns, chain_joins, decompress, CompressionStage,
};
use crate::data_type::DataType;
use crate::meta::{same_name, Blob as Descriptor, Bundle};
use crate::order::{in_order, sort, Entry};
use crate::result::{Error, Result};
use vstd::prelude::*;

verus! {

/// The metadata of an archive that was opened.
pub struct Archive {
    meta: Bundle,
}

impl Archive {
    /// The metadata.
    pub closed spec fn bundle(&self) -> Bundle {
        self.meta
    }

    /// The archive with the given metadata.
    pub fn new(meta: Bundle) -> (a: Self)
        ensures
            a.bundle() == meta,
    {
        Archive { meta }
    }

    /// The names of the files, in the order of the metadata.
    pub fn file_names(&self) -> (names: Vec<&str>)
        ensures
            names@.len() == self.bundle().raw_files@.len(),
            forall|i: int|
                0 <= i < names@.len() ==> (#[trigger] names@[i])@ == self.bundle().raw_files@[i].name@,
    {
        let mut names: Vec<&str> = Vec::new();
        let mut i: usize = 0;
        while i < self.meta.raw_files.len()
            invariant
                i <= self.meta.raw_files@.len(),
                names@.len() == i,
                forall|j: int|
                    0 <= j < i ==> (#[trigger] names@[j])@ == self.meta.raw_files@[j].name@,
            decreases self.meta.raw_files@.len() - i,
        {
            names.push(self.meta.raw_files[i].name.as_str());
            i = i + 1;
        }
        names
    }

    /// The names of the blobs, in the order of the metadata.
    pub fn blob_names(&self) -> (names: Vec<&str>)
        ensures
            names@.len() == self.bundle().blobs@.len(),
            forall|i: int|
                0 <= i < names@.len() ==> (#[trigger] names@[i])@ == self.bundle().blobs@[i].name@,
    {
        let mut names: Vec<&str> = Vec::new();
        let mut i: usize = 0;
        while i < self.meta.blobs.len()
            invariant
                i <= self.meta.blobs@.len(),
                names@.len() == i,
                forall|j: int| 0 <= j < i ==> (#[trigger] names@[j])@ == self.meta.blobs@[j].name@,
            decreases self.meta.blobs@.len() - i,
        {
            names.push(self.meta.blobs[i].name.as_str());
            i = i + 1;
        }
        names
    }

    /// The descriptor of the first blob of the given name; [`Error::MissingBlob`] where
    /// there is none.
    pub fn blob_by_name(&self, name: &str) -> (r: Result<&Descriptor>)
        ensures
            r matches Ok(blob) ==> exists|i: int|
                {
                    &&& 0 <= i < self.bundle().blobs@.len()
                    &&& *blob == #[trigger] self.bundle().blobs@[i]
                    &&& blob.name_bytes() == vstd::utf8::encode_utf8(name@)
                    &&& forall|j: int|
                        0 <= j < i ==> (#[trigger] self.bundle().blobs@[j]).name_bytes()
                            != vstd::utf8::encode_utf8(name@)
                },
            r is Err ==> r == Err::<&Descriptor, Error>(Error::MissingBlob) && forall|i: int|
                0 <= i < self.bundle().blobs@.len() ==> (#[trigger] self.bundle().blobs@[i]).name_bytes()
                    != vstd::utf8::encode_utf8(name@),
    {
        let mut i: usize = 0;
        while i < self.meta.blobs.len()
            invariant
                i <= self.meta.blobs@.len(),
                forall|j: int|
                    0 <= j < i ==> (#[trigger] self.meta.blobs@[j]).name_bytes()
                        != vstd::utf8::encode_utf8(name@),
            decreases self.meta.blobs@.len() - i,
        {
            if same_name(self.meta.blobs[i].name.as_str(), name) {
                assert(self.bundle().blobs@[i as int].name_bytes() == vstd::utf8::encode_utf8(
                    name@,
                ));
                return Ok(&self.meta.blobs[i]);
            }
            i = i + 1;
        }
        Err(Error::MissingBlob)
    }
}

/// What a blob holds at the moment.
pub enum BlobState {
    /// Nothing: decoding has failed.
    Invalid,
    /// The chunks, as the archive keeps them.
    Chunks(BufferList),
    /// The bytes of the blob, and how many of them were read.
    Uncompressed(Vec<u8>, usize),
}

/// A blob of an archive: its descriptor, and its bytes, which are decoded from the chunks
/// when they are first asked for.
pub struct Blob {
    meta: Descriptor,
    stages: Vec<CompressionStage>,
    state: BlobState,
}

/// Whether the number `d` is one of elements: not negative, and not too large to count.
pub open spec fn is_extent(d: i64) -> bool {
    0 <= d && d <= usize::MAX
}

/// Whether all of `dims` are numbers of elements.
pub open spec fn countable(dims: Seq<i64>) -> bool {
    forall|i: int| 0 <= i < dims.len() ==> is_extent(#[trigger] dims[i])
}

/// The extents of a descriptor as numbers of elements.
pub open spec fn extents(dims: Seq<i64>) -> Seq<usize> {
    Seq::new(dims.len(), |i: int| dims[i] as usize)
}

/// The extents of a blob as numbers of elements, if none is negative.
pub fn shape_of(dims: &Vec<i64>) -> (shape: Option<Vec<usize>>)
    ensures
        shape is Some <==> countable(dims@),
        shape matches Some(s) ==> s@ == extents(dims@),
{
    let mut shape: Vec<usize> = Vec::new();
    let mut i: usize = 0;
    while i < dims.len()
        invariant
            i <= dims@.len(),
            shape@.len() == i,
            forall|j: int| 0 <= j < i ==> is_extent(#[trigger] dims@[j]),
            forall|j: int| 0 <= j < i ==> #[trigger] shape@[j] == dims@[j],
        decreases dims@.len() - i,
    {
        let d = dims[i];
        if d < 0 || d as u64 > usize::MAX as u64 {
            assert(!is_extent(dims@[i as int]));
            return None;
        }
        shape.push(d as usize);
        i = i + 1;
    }
    assert(shape@ =~= extents(dims@));
    Some(shape)
}

/// The number of bytes that a descriptor declares for its blob: the product of the extents
/// times the width of an element, unless the element type is unknown or an extent is
/// negative.
pub open spec fn declared_len(meta: Descriptor) -> Option<nat> {
    match DataType::of_tag(meta.data_type) {
        Some(dt) => if countable(meta.dims@) {
            Some(product(extents(meta.dims@)) * dt.width())
        } else {
            None
        },
        None => None,
    }
}

/// The number of bytes that a descriptor declares for its blob, if there is one that can be
/// counted.
pub fn len_of(meta: &Descriptor) -> (len: Option<usize>)
    ensures
        len is Some <==> (declared_len(*meta) matches Some(n) && n <= usize::MAX),
        len matches Some(n) ==> declared_len(*meta) == Some(n as nat),
{
    let dt = match meta.element_type() {
        Some(dt) => dt,
        None => {
            return None;
        },
    };
    let shape = match shape_of(&meta.dims) {
        Some(s) => s,
        None => {
            return None;
        },
    };
    byte_length(shape.as_slice(), dt)
}

/// Whether a descriptor names a file that the blob's bytes belong into.
pub open spec fn is_targeted(meta: Descriptor) -> bool {
    meta.target_file_name@.len() > 0
}

/// Where in its file the bytes of a blob end, if the length of the blob is declared and
/// both it and the end can be counted.
pub open spec fn end_of(meta: Descriptor) -> Option<nat> {
    match declared_len(meta) {
        Some(n) => if n <= usize::MAX && (meta.target_offset_in_bytes as u64) + n <= u64::MAX {
            Some(((meta.target_offset_in_bytes as u64) + n) as nat)
        } else {
            None
        },
        None => None,
    }
}

/// Whether `sizes` gives the file `name` a length of `end` bytes or more.
pub open spec fn holds_up_to(sizes: Seq<(String, u64)>, name: Seq<char>, end: nat) -> bool {
    exists|j: int| 0 <= j < sizes.len() && (#[trigger] sizes[j]).0@ == name && sizes[j].1 >= end
}

/// Whether one of the first `upto` blobs belongs into the file `name` and ends at `end`.
pub open spec fn ends_at(blobs: Seq<Descriptor>, upto: int, name: Seq<char>, end: nat) -> bool {
    exists|i: int|
        0 <= i < upto && is_targeted(#[trigger] blobs[i]) && blobs[i].target_file_name@ == name
            && end_of(blobs[i]) == Some(end)
}

/// Whether `sizes` are the lengths that the files of the first `upto` blobs must have to
/// hold them: each file once, as long as it takes for the blob that ends last in it.
pub open spec fn sized_for(sizes: Seq<(String, u64)>, blobs: Seq<Descriptor>, upto: int) -> bool {
    &&& forall|j: int, k: int|
        0 <= j < k < sizes.len() ==> (#[trigger] sizes[j]).0@ != (#[trigger] sizes[k]).0@
    &&& forall|j: int|
        0 <= j < sizes.len() ==> ends_at(blobs, upto, (#[trigger] sizes[j]).0@, sizes[j].1 as nat)
    &&& forall|i: int|
        0 <= i < upto && is_targeted(#[trigger] blobs[i]) ==> end_of(blobs[i]) is Some
            && holds_up_to(sizes, blobs[i].target_file_name@, end_of(blobs[i]).unwrap())
}

/// The files that blobs belong into, each with the length it must have to hold them all.
///
/// Fails, with [`Error::ShapeMismatch`], exactly where a blob that belongs into a file
/// declares no length, or ends where it cannot be counted.
pub fn scatter_sizes(blobs: &Vec<Descriptor>) -> (r: Result<Vec<(String, u64)>>)
    ensures
        r matches Ok(sizes) ==> sized_for(sizes@, blobs@, blobs@.len() as int),
        r is Err <==> exists|i: int|
            0 <= i < blobs@.len() && is_targeted(#[trigger] blobs@[i]) && end_of(blobs@[i]) is None,
        r is Err ==> r matches Err(Error::ShapeMismatch),
{
    let mut sizes: Vec<(String, u64)> = Vec::new();
    let mut i: usize = 0;
    while i < blobs.len()
        invariant
            i <= blobs@.len(),
            sized_for(sizes@, blobs@, i as int),
        decreases blobs@.len() - i,
    {
        let blob = &blobs[i];
        if blob.target_file_name.as_str().unicode_len() > 0 {
            let len = match len_of(blob) {
                Some(n) => n,
                None => {
                    return Err(Error::ShapeMismatch);
                },
            };
            let offset = #[verifier::truncate] (blob.target_offset_in_bytes as u64);
            let end = match offset.checked_add(len as u64) {
                Some(e) => e,
                None => {
                    return Err(Error::ShapeMismatch);
                },
            };
            assert(end_of(blobs@[i as int]) == Some(end as nat));
            let mut j: usize = 0;
            let mut found = false;
            while j < sizes.len() && !found
                invariant
                    j <= sizes@.len(),
                    !found ==> forall|k: int|
                        0 <= k < j ==> (#[trigger] sizes@[k]).0@ != blob.target_file_name@,
                    found ==> j < sizes@.len() && sizes@[j as int].0@ == blob.target_file_name@,
                decreases sizes@.len() - j + if found { 0int } else { 1int },
            {
                if sizes[j].0 == blob.target_file_name {
                    found = true;
                } else {
                    j = j + 1;
                }
            }
            let ghost before = sizes@;
            if found {
                if sizes[j].1 < end {
                    let name = sizes[j].0.clone();
                    sizes.set(j, (name, end));
                }
            } else {
                sizes.push((blob.target_file_name.clone(), end));
            }
            proof {
                let now = sizes@;
                let at = if found { j as int } else { before.len() as int };
                assert(now[at].0@ == blob.target_file_name@ && now[at].1 >= end);
                assert forall|a: int, b: int| 0 <= a < b < now.len() implies (#[trigger] now[a]).0@
                    != (#[trigger] now[b]).0@ by {
                    if found {
                        assert(now[a].0@ == before[a].0@ && now[b].0@ == before[b].0@);
                    } else if b < before.len() {
                        assert(now[a] == before[a] && now[b] == before[b]);
                    } else {
                        assert(now[a] == before[a]);
                    }
                }
                assert forall|a: int| 0 <= a < now.len() implies ends_at(
                    blobs@,
                    i + 1,
                    (#[trigger] now[a]).0@,
                    now[a].1 as nat,
                ) by {
                    if a == at && now[a].1 == end {
                        assert(is_targeted(blobs@[i as int]));
                    } else {
                        assert(now[a].0@ == before[a].0@ && now[a].1 == before[a].1);
                        assert(ends_at(blobs@, i as int, before[a].0@, before[a].1 as nat));
                        let w = choose|w: int|
                            0 <= w < i && is_targeted(#[trigger] blobs@[w])
                                && blobs@[w].target_file_name@ == before[a].0@ && end_of(blobs@[w])
                                == Some(before[a].1 as nat);
                        assert(is_targeted(blobs@[w]));
                    }
                }
                assert forall|b: int| 0 <= b < i + 1 && is_targeted(#[trigger] blobs@[b]) implies end_of(
                    blobs@[b],
                ) is Some && holds_up_to(
                    now,
                    blobs@[b].target_file_name@,
                    end_of(blobs@[b]).unwrap(),
                ) by {
                    if b == i {
                        assert(now[at].0@ == blobs@[b].target_file_name@);
                    } else {
                        let e = end_of(blobs@[b]).unwrap();
                        assert(holds_up_to(before, blobs@[b].target_file_name@, e));
                        let w = choose|w: int|
                            0 <= w < before.len() && (#[trigger] before[w]).0@
                                == blobs@[b].target_file_name@ && before[w].1 >= e;
                        assert(now[w].0@ == before[w].0@ && now[w].1 >= before[w].1);
                    }
                }
            }
        } else {
            proof {
                assert forall|a: int| 0 <= a < sizes@.len() implies ends_at(
                    blobs@,
                    i + 1,
                    (#[trigger] sizes@[a]).0@,
                    sizes@[a].1 as nat,
                ) by {
                    let w = choose|w: int|
                        0 <= w < i && is_targeted(#[trigger] blobs@[w])
                            && blobs@[w].target_file_name@ == sizes@[a].0@ && end_of(blobs@[w])
                            == Some(sizes@[a].1 as nat);
                    assert(is_targeted(blobs@[w]));
                }
            }
        }
        i = i + 1;
    }
    Ok(sizes)
}

/// Those of the first `upto` blobs that belong into the file `file`: each by its place
/// among the blobs, with its offset for its weight.
pub open spec fn targets_of(blobs: Seq<Descriptor>, file: Seq<char>, upto: int) -> Seq<Entry>
    decreases upto,
{
    if upto <= 0 {
        Seq::empty()
    } else {
        let before = targets_of(blobs, file, upto - 1);
        let blob = blobs[upto - 1];
        if is_targeted(blob) && blob.target_file_name@ == file {
            before.push(
                Entry { index: (upto - 1) as usize, weight: blob.target_offset_in_bytes as u64 },
            )
        } else {
            before
        }
    }
}

/// The blobs that belong into the file `file`, in the order of their offsets, and of two
/// at one offset the one first that the metadata lists first.
pub fn scatter_order(blobs: &Vec<Descriptor>, file: &String) -> (order: Vec<Entry>)
    ensures
        in_order(order@),
        order@.to_multiset() == targets_of(blobs@, file@, blobs@.len() as int).to_multiset(),
{
    let mut wanted: Vec<Entry> = Vec::new();
    let mut i: usize = 0;
    while i < blobs.len()
        invariant
            i <= blobs@.len(),
            wanted@ == targets_of(blobs@, file@, i as int),
        decreases blobs@.len() - i,
    {
        let blob = &blobs[i];
        if blob.target_file_name.as_str().unicode_len() > 0 && blob.target_file_name == *file {
            wanted.push(
                Entry {
                    index: i,
                    weight: #[verifier::truncate] (blob.target_offset_in_bytes as u64),
                },
            );
        }
        i = i + 1;
    }
    sort(&wanted)
}

/// Every one of the blobs of a file is one of the blobs, belongs into the file, and has
/// its offset for its weight.
pub proof fn lemma_targets_are_blobs(blobs: Seq<Descriptor>, file: Seq<char>, upto: int, e: Entry)
    requires
        0 <= upto <= blobs.len(),
        blobs.len() <= usize::MAX,
        targets_of(blobs, file, upto).contains(e),
    ensures
        e.index < upto,
        is_targeted(blobs[e.index as int]),
        blobs[e.index as int].target_file_name@ == file,
        e.weight == blobs[e.index as int].target_offset_in_bytes as u64,
    decreases upto,
{
    if upto > 0 {
        let before = targets_of(blobs, file, upto - 1);
        let blob = blobs[upto - 1];
        if is_targeted(blob) && blob.target_file_name@ == file {
            let last = Entry {
                index: (upto - 1) as usize,
                weight: blob.target_offset_in_bytes as u64,
            };
            let all = before.push(last);
            let k = choose|k: int| 0 <= k < all.len() && all[k] == e;
            if k < before.len() {
                assert(before[k] == e);
                assert(before.contains(e));
                lemma_targets_are_blobs(blobs, file, upto - 1, e);
            }
        } else {
            lemma_targets_are_blobs(blobs, file, upto - 1, e);
        }
    }
}

/// Whether each of the blobs in `order` but the last ends where the next begins.
pub open spec fn chained(blobs: Seq<Descriptor>, order: Seq<Entry>) -> bool {
    forall|k: int|
        0 <= k < order.len() - 1 ==> end_of(blobs[(#[trigger] order[k]).index as int]) == Some(
            order[k + 1].weight as nat,
        )
}

/// Whether the blobs that belong into the file `file` lie in it without a gap and without
/// lying over one another: whether, in the order of their offsets, each ends where the
/// next begins.
///
/// Fails, with [`Error::ShapeMismatch`], where one of them declares no length or ends
/// where it cannot be counted.
pub fn scatter_is_contiguous(blobs: &Vec<Descriptor>, file: &String) -> (r: Result<bool>)
    ensures
        r matches Ok(b) ==> forall|order: Seq<Entry>|
            in_order(order) && #[trigger] order.to_multiset() == targets_of(
                blobs@,
                file@,
                blobs@.len() as int,
            ).to_multiset() ==> b == chained(blobs@, order),
        r is Err ==> r matches Err(Error::ShapeMismatch),
{
    let order = scatter_order(blobs, file);
    let count = blobs.len();
    let ghost targets = targets_of(blobs@, file@, blobs@.len() as int);
    proof {
        order@.to_multiset_ensures();
        targets.to_multiset_ensures();
        assert forall|k: int| 0 <= k < order@.len() implies (#[trigger] order@[k]).index
            < count by {
            let e = order@[k];
            assert(order@.contains(e));
            assert(order@.to_multiset().count(e) > 0);
            assert(targets.to_multiset().count(e) > 0);
            assert(targets.contains(e));
            lemma_targets_are_blobs(blobs@, file@, blobs@.len() as int, e);
        }
    }
    let mut whole = true;
    let mut k: usize = 0;
    let last = if order.len() == 0 {
        0
    } else {
        order.len() - 1
    };
    while k < last
        invariant
            k <= last,
            last == if order@.len() == 0 {
                0
            } else {
                order@.len() - 1
            },
            count == blobs@.len(),
            forall|j: int| 0 <= j < order@.len() ==> (#[trigger] order@[j]).index < count,
            whole == forall|j: int|
                0 <= j < k ==> end_of(blobs@[(#[trigger] order@[j]).index as int]) == Some(
                    order@[j + 1].weight as nat,
                ),
            forall|j: int|
                0 <= j < k ==> end_of(blobs@[(#[trigger] order@[j]).index as int]) is Some,
        decreases last - k,
    {
        let blob = &blobs[order[k].index];
        let len = match len_of(blob) {
            Some(n) => n,
            None => {
                return Err(Error::ShapeMismatch);
            },
        };
        let offset = #[verifier::truncate] (blob.target_offset_in_bytes as u64);
        let end = match offset.checked_add(len as u64) {
            Some(e) => e,
            None => {
                return Err(Error::ShapeMismatch);
            },
        };
        assert(end_of(blobs@[order@[k as int].index as int]) == Some(end as nat));
        if end != order[k + 1].weight {
            whole = false;
        }
        k = k + 1;
    }
    proof {
        assert forall|other: Seq<Entry>|
            in_order(other) && #[trigger] other.to_multiset() == targets.to_multiset() implies whole
            == chained(blobs@, other) by {
            crate::order::lemma_order_is_unique(order@, other);
        }
    }
    Ok(whole)
}

impl Blob {
    /// The descriptor.
    pub closed spec fn descriptor(&self) -> Descriptor {
        self.meta
    }

    /// The chain that the descriptor names.
    pub closed spec fn chain(&self) -> Seq<CompressionStage> {
        self.stages@
    }

    /// Whether the bytes were decoded already.
    pub closed spec fn is_materialized(&self) -> bool {
        self.state is Uncompressed
    }

    /// Whether decoding has failed, so that the blob holds neither chunks nor bytes.
    pub closed spec fn is_lost(&self) -> bool {
        self.state is Invalid
    }

    /// The chunks, while the bytes were not decoded yet.
    pub closed spec fn chunks(&self) -> Seq<Seq<u8>> {
        match self.state {
            BlobState::Chunks(c) => c@,
            _ => Seq::empty(),
        }
    }

    /// The bytes, once they were decoded.
    pub closed spec fn content(&self) -> Seq<u8> {
        match self.state {
            BlobState::Uncompressed(bytes, _) => bytes@,
            _ => Seq::empty(),
        }
    }

    /// How many of the bytes were read.
    pub closed spec fn position(&self) -> nat {
        match self.state {
            BlobState::Uncompressed(_, at) => at as nat,
            _ => 0,
        }
    }

    /// The chain is the one that the descriptor names, the chunks are as many as the
    /// descriptor lists, and no more bytes were read than there are.
    pub closed spec fn wf(&self) -> bool {
        &&& Descriptor::stages_known(self.meta.compression_stages@)
        &&& self.stages@ == Descriptor::stages_of(self.meta.compression_stages@)
        &&& match self.state {
            BlobState::Invalid => true,
            BlobState::Chunks(c) => c.wf() && c@.len() == self.meta.chunk_ids@.len(),
            BlobState::Uncompressed(bytes, at) => at <= bytes@.len() && declared_len(self.meta)
                == Some(bytes@.len()),
        }
    }

    /// The blob with the given descriptor and chunks.
    ///
    /// A descriptor with a tag that names no stage is refused with
    /// [`Error::InvalidStage`], and chunks that are not as many as the descriptor lists
    /// with [`Error::FanOutMismatch`].
    pub fn new(meta: Descriptor, chunks: BufferList) -> (r: Result<Self>)
        requires
            chunks.wf(),
        ensures
            r is Ok <==> Descriptor::stages_known(meta.compression_stages@) && chunks@.len()
                == meta.chunk_ids@.len(),
            r matches Ok(blob) ==> blob.wf() && blob.descriptor() == meta && !blob.is_materialized()
                && !blob.is_lost() && blob.chunks() == chunks@ && blob.chain() == Descriptor::stages_of(
                meta.compression_stages@,
            ),
            !Descriptor::stages_known(meta.compression_stages@) ==> r matches Err(
                Error::InvalidStage,
            ),
            Descriptor::stages_known(meta.compression_stages@) && chunks@.len()
                != meta.chunk_ids@.len() ==> r matches Err(Error::FanOutMismatch),
    {
        let stages = match meta.stages() {
            Some(s) => s,
            None => {
                return Err(Error::InvalidStage);
            },
        };
        if chunks.len() != meta.chunk_ids.len() {
            return Err(Error::FanOutMismatch);
        }
        Ok(Blob { meta, stages, state: BlobState::Chunks(chunks) })
    }

    /// The descriptor.
    pub fn meta(&self) -> (meta: &Descriptor)
        ensures
            *meta == self.descriptor(),
    {
        &self.meta
    }

    /// The file that the blob's bytes belong into, and where in it, if there is one.
    pub fn target_file(&self) -> (t: Option<(&str, u64)>)
        ensures
            t is Some <==> self.descriptor().target_file_name@.len() > 0,
            t matches Some((file, offset)) ==> file@ == self.descriptor().target_file_name@
                && offset == self.descriptor().target_offset_in_bytes as u64,
    {
        if self.meta.target_file_name.as_str().unicode_len() > 0 {
            Some(
                (
                    self.meta.target_file_name.as_str(),
                    #[verifier::truncate] (self.meta.target_offset_in_bytes as u64),
                ),
            )
        } else {
            None
        }
    }

    pub fn name(&self) -> (n: &str)
        ensures
            n@ == self.descriptor().name@,
    {
        self.meta.name.as_str()
    }

    /// The element type, unless the descriptor's tag names none.
    pub fn data_type(&self) -> (dt: Option<DataType>)
        ensures
            dt == DataType::of_tag(self.descriptor().data_type),
    {
        self.meta.element_type()
    }

    /// The extents of the array, unless one of them is negative.
    pub fn shape(&self) -> (shape: Option<Vec<usize>>)
        ensures
            shape is Some <==> countable(self.descriptor().dims@),
            shape matches Some(s) ==> s@ == extents(self.descriptor().dims@),
    {
        shape_of(&self.meta.dims)
    }

    /// The number of bytes that the blob takes when decoded: the product of its extents
    /// times the width of an element. There is none where the element type is unknown,
    /// an extent is negative, or the number cannot be counted.
    pub fn byte_len(&self) -> (len: Option<usize>)
        ensures
            len is Some <==> (declared_len(self.descriptor()) matches Some(n) && n <= usize::MAX),
            len matches Some(n) ==> declared_len(self.descriptor()) == Some(n as nat),
    {
        len_of(&self.meta)
    }

    /// Decodes the bytes from the chunks, unless that was done before.
    ///
    /// Once it has succeeded, the blob holds its bytes and stays as it is however often
    /// this is asked again. The bytes are those that the decode pass of the chain makes of
    /// the chunks with `backend`: the one buffer that the crate states for the chain by
    /// itself, where it states the decoders of all its stages. They are as many as the
    /// descriptor declares. Decoding succeeds exactly where the chunks are as many as the
    /// chain takes, the decode pass takes them, and gives as many bytes as are declared.
    /// Where it fails, or gives another number of bytes than declared, which is
    /// [`Error::LengthMismatch`], the blob is lost: it holds no bytes and no chunks, and
    /// asking again fails with [`Error::Unknown`].
    pub fn get_data<B: Backend>(&mut self, backend: &B) -> (r: Result<()>)
        requires
            old(self).wf(),
        ensures
            final(self).wf(),
            final(self).descriptor() == old(self).descriptor(),
            final(self).chain() == old(self).chain(),
            old(self).is_materialized() ==> r is Ok && final(self).content() == old(self).content()
                && final(self).position() == old(self).position(),
            r is Ok ==> final(self).is_materialized() && declared_len(final(self).descriptor())
                == Some(final(self).content().len()),
            r is Ok && !old(self).is_materialized() ==> final(self).position() == 0
                && (chain_decodes_here(old(self).chain()) ==> seq![final(self).content()]
                == chain_decoded(old(self).chain(), old(self).chunks())),
            !old(self).is_materialized() && !old(self).is_lost() && old(self).chain().len() == 0
                ==> (r is Ok <==> old(self).chunks().len() == 1 && declared_len(
                old(self).descriptor(),
            ) == Some(old(self).chunks()[0].len())),
            !old(self).is_materialized() && !old(self).is_lost() && chain_is_columns(
                old(self).chain(),
            ) ==> (r is Ok <==> old(self).joins_as_declared()),
            !old(self).is_materialized() && declared_len(old(self).descriptor()) is None ==> r
                is Err,
            old(self).is_lost() ==> r matches Err(Error::Unknown),
            r is Err ==> final(self).is_lost(),
            !old(self).is_materialized() && !old(self).is_lost() ==> (r is Ok <==> old(self).decodes_as_declared(backend)),
            r is Ok && !old(self).is_materialized() ==> seq![final(self).content()]
                == chain_decoded_by(
                backend,
                extents(old(self).descriptor().dims@),
                old(self).chain(),
                old(self).chunks(),
            ),
    {
        if let BlobState::Uncompressed(_, _) = &self.state {
            return Ok(());
        }
        let declared = self.byte_len();
        let shape = self.shape();
        let kind = self.data_type();
        let mut state = BlobState::Invalid;
        core::mem::swap(&mut self.state, &mut state);
        let chunks = match state {
            BlobState::Chunks(c) => c,
            _ => {
                return Err(Error::Unknown);
            },
        };
        let held = if chunks.len() == 1 {
            chunks.get(0).len()
        } else {
            0
        };
        let (declared, shape, dt) = match (declared, shape, kind) {
            (Some(d), Some(s), Some(dt)) => (d, s, dt),
            _ => {
                assert(chunks@.len() == 1 ==> held == chunks@[0].len());
                return Err(Error::ShapeMismatch);
            },
        };
        proof {
            if self.stages@.len() == 0 {
                assert(chain_is_columns(self.stages@));
                assert(chain_joins(self.stages@, chunks@));
                assert(chain_fan_out(self.stages@) == 1);
                assert(chain_decodes_here(self.stages@));
                assert(chain_decoded(self.stages@, chunks@) == chunks@);
            }
        }
        let bytes = match decompress(backend, chunks, dt, shape.as_slice(), self.stages.as_slice()) {
            Ok(b) => b,
            Err(e) => {
                return Err(e);
            },
        };
        if bytes.len() != declared {
            return Err(Error::LengthMismatch);
        }
        self.state = BlobState::Uncompressed(bytes, 0);
        Ok(())
    }

    /// Whether the chunks are as many as the chain takes, every split of the chain is given
    /// pairs that match, and the decode pass makes of them as many bytes as are declared,
    /// which are no more than a `usize` can count: what decides the decoding under a chain
    /// of nothing but splits.
    pub open spec fn joins_as_declared(&self) -> bool {
        &&& self.chunks().len() == chain_fan_out(self.chain())
        &&& chain_joins(self.chain(), self.chunks())
        &&& declared_len(self.descriptor()) == Some(
            chain_decoded(self.chain(), self.chunks())[0].len(),
        )
        &&& chain_decoded(self.chain(), self.chunks())[0].len() <= usize::MAX
    }

    /// Whether the chunks are as many as the chain takes, the decode pass of the chain
    /// takes them, and makes of them with `backend` as many bytes as are declared, which
    /// are no more than a `usize` can count: what decides the decoding.
    pub open spec fn decodes_as_declared<B: Backend>(&self, backend: &B) -> bool {
        let shape = extents(self.descriptor().dims@);
        let back = chain_decoded_by(backend, shape, self.chain(), self.chunks());
        &&& countable(self.descriptor().dims@)
        &&& self.chunks().len() == chain_fan_out(self.chain())
        &&& chain_gives_by(backend, shape, self.chain(), self.chunks())
        &&& declared_len(self.descriptor()) == Some(back[0].len())
        &&& back[0].len() <= usize::MAX
    }

    /// Where reading starts: at the byte after the last one read.
    pub open spec fn start(&self) -> nat {
        if self.is_materialized() {
            self.position()
        } else {
            0
        }
    }

    /// Reads up to `max` of the bytes that were not read yet, appending them to `buf`, and
    /// gives their number: `max`, or as many as are left where those are fewer.
    pub fn read<B: Backend>(&mut self, backend: &B, buf: &mut Vec<u8>, max: usize) -> (r: Result<
        usize,
    >)
        requires
            old(self).wf(),
        ensures
            final(self).wf(),
            final(self).descriptor() == old(self).descriptor(),
            final(self).chain() == old(self).chain(),
            r matches Ok(n) ==> {
                &&& final(self).is_materialized()
                &&& old(self).is_materialized() ==> final(self).content() == old(self).content()
                &&& !old(self).is_materialized() && chain_decodes_here(old(self).chain())
                    ==> seq![final(self).content()] == chain_decoded(
                    old(self).chain(),
                    old(self).chunks(),
                )
                &&& old(self).start() <= final(self).content().len() <= usize::MAX
                &&& n == if final(self).content().len() - old(self).start() < max {
                    final(self).content().len() - old(self).start()
                } else {
                    max as int
                }
                &&& final(self).position() == old(self).start() + n
                &&& final(buf)@ == old(buf)@ + final(self).content().subrange(
                    old(self).start() as int,
                    old(self).start() + n,
                )
            },
            r is Err ==> final(buf)@ == old(buf)@,
            old(self).is_materialized() ==> r is Ok,
            old(self).is_lost() ==> r matches Err(Error::Unknown),
            !old(self).is_materialized() && !old(self).is_lost() && chain_is_columns(
                old(self).chain(),
            ) ==> (r is Ok <==> old(self).joins_as_declared()),
            !old(self).is_materialized() && declared_len(old(self).descriptor()) is None ==> r
                is Err,
            r is Err ==> final(self).is_lost(),
            !old(self).is_materialized() && !old(self).is_lost() ==> (r is Ok <==> old(self).decodes_as_declared(backend)),
            r is Ok && !old(self).is_materialized() ==> seq![final(self).content()]
                == chain_decoded_by(
                backend,
                extents(old(self).descriptor().dims@),
                old(self).chain(),
                old(self).chunks(),
            ),
    {
        if let Err(e) = self.get_data(backend) {
            return Err(e);
        }
        match &mut self.state {
            BlobState::Uncompressed(bytes, at) => {
                let total = bytes.len();
                let from = *at;
                let left = total - from;
                let n = if left < max {
                    left
                } else {
                    max
                };
                let mut i: usize = 0;
                assert(buf@ =~= old(buf)@ + bytes@.subrange(from as int, from + 0));
                while i < n
                    invariant
                        total == bytes@.len(),
                        from + n <= total,
                        i <= n,
                        buf@ == old(buf)@ + bytes@.subrange(from as int, from + i),
                    decreases n - i,
                {
                    buf.push(bytes[from + i]);
                    assert(buf@ =~= old(buf)@ + bytes@.subrange(from as int, from + i + 1));
                    i = i + 1;
                }
                *at = from + n;
                Ok(n)
            },
            _ => Err(Error::Unknown),
        }
    }

    /// Reads all of the bytes that were not read yet, appending them to `buf`, and gives
    /// their number.
    pub fn read_to_end<B: Backend>(&mut self, backend: &B, buf: &mut Vec<u8>) -> (r: Result<usize>)
        requires
            old(self).wf(),
        ensures
            final(self).wf(),
            final(self).descriptor() == old(self).descriptor(),
            final(self).chain() == old(self).chain(),
            r matches Ok(n) ==> {
                &&& final(self).is_materialized()
                &&& old(self).is_materialized() ==> final(self).content() == old(self).content()
                &&& !old(self).is_materialized() && chain_decodes_here(old(self).chain())
                    ==> seq![final(self).content()] == chain_decoded(
                    old(self).chain(),
                    old(self).chunks(),
                )
                &&& old(self).start() <= final(self).content().len()
                &&& n == final(self).content().len() - old(self).start()
                &&& final(self).position() == final(self).content().len()
                &&& final(buf)@ == old(buf)@ + final(self).content().subrange(
                    old(self).start() as int,
                    final(self).content().len() as int,
                )
            },
            r is Err ==> final(buf)@ == old(buf)@,
            old(self).is_materialized() ==> r is Ok,
            old(self).is_lost() ==> r matches Err(Error::Unknown),
            !old(self).is_materialized() && !old(self).is_lost() && chain_is_columns(
                old(self).chain(),
            ) ==> (r is Ok <==> old(self).joins_as_declared()),
            !old(self).is_materialized() && declared_len(old(self).descriptor()) is None ==> r
                is Err,
            r is Err ==> final(self).is_lost(),
            !old(self).is_materialized() && !old(self).is_lost() ==> (r is Ok <==> old(self).decodes_as_declared(backend)),
            r is Ok && !old(self).is_materialized() ==> seq![final(self).content()]
                == chain_decoded_by(
                backend,
                extents(old(self).descriptor().dims@),
                old(self).chain(),
                old(self).chunks(),
            ),
    {
        self.read(backend, buf, usize::MAX)
    }
}

} // verus!
