//! Building an archive: which chunks it gets, and what its metadata says.
use crate::backend::Backend;
use crate::chunk::{chunk_id, chunk_id_of, distinct, is_known, known, ChunkWrite};
use crate::chunks::aligned;
use crate::codec::zfp::{byte_length, product};
use crate::codec::BufferList;
use crate::compress::{
    chain_decoded, chain_decoded_by, chain_encoded, chain_encodes_here, chain_fan_out,
    chain_gives_by, chain_is_lossless, lemma_round_trip_bounded, lemma_round_trip_identity,
    round_trip, CompressionStage,
};
use crate::metric::bits_of;
use crate::data_type::DataType;
use crate::deviation::{Deviation, Tolerance};
use crate::meta::{
    lemma_precedes_total, name_precedes, precedes, same_name, sorted_by_name, Blob, Bundle, RawFile,
};
use crate::result::{Error, Result};
use crate::write::consts::candidate_chains;
use crate::write::policy::{
    accepted, lemma_choice_is_best, lemma_choice_is_unique, select_chain, Selection,
};
use vstd::prelude::*;

pub mod consts;
pub mod policy;

verus! {

/// How a blob is to be written.
#[derive(Clone, Debug)]
pub struct BlobWriteOption {
    /// The largest distance between the blob and what a reader gets that is accepted.
    pub error_limit: Tolerance,
    /// The file that the blob's bytes belong into, and where in it.
    pub target_file: Option<(String, u64)>,
}

impl Default for BlobWriteOption {
    /// No distance is accepted, and the blob belongs into no file.
    fn default() -> (opt: Self)
        ensures
            opt.error_limit.bits == 0,
            opt.target_file is None,
    {
        BlobWriteOption { error_limit: Tolerance::from_bits(0), target_file: None }
    }
}

/// An archive in the making: the metadata of what was added, and the identifiers of the
/// chunks that were handed out for writing.
pub struct Builder {
    meta: Bundle,
    chunks: Vec<String>,
}

/// The tags of the stages of a chain.
pub fn tags_of(stages: &Vec<CompressionStage>) -> (tags: Vec<i32>)
    ensures
        tags@.len() == stages@.len(),
        Blob::stages_known(tags@),
        Blob::stages_of(tags@) == stages@,
{
    let mut tags: Vec<i32> = Vec::new();
    let mut i: usize = 0;
    while i < stages.len()
        invariant
            i <= stages@.len(),
            tags@.len() == i,
            forall|j: int|
                0 <= j < i ==> CompressionStage::of_tag(#[trigger] tags@[j]) == Some(stages@[j]),
        decreases stages@.len() - i,
    {
        tags.push(stages[i].tag());
        i = i + 1;
    }
    assert(Blob::stages_of(tags@) =~= stages@);
    tags
}

/// The extents of a shape as the metadata holds them, if they fit.
pub fn dims_of(shape: &[usize]) -> (dims: Option<Vec<i64>>)
    ensures
        dims is Some <==> forall|i: int| 0 <= i < shape@.len() ==> #[trigger] shape@[i] <= i64::MAX,
        dims matches Some(d) ==> d@.len() == shape@.len() && forall|i: int|
            0 <= i < shape@.len() ==> #[trigger] d@[i] == shape@[i],
{
    let mut dims: Vec<i64> = Vec::new();
    let mut i: usize = 0;
    while i < shape.len()
        invariant
            i <= shape@.len(),
            dims@.len() == i,
            forall|j: int| 0 <= j < i ==> #[trigger] shape@[j] <= i64::MAX,
            forall|j: int| 0 <= j < i ==> #[trigger] dims@[j] == shape@[j],
        decreases shape@.len() - i,
    {
        if shape[i] as u64 > 0x7FFF_FFFF_FFFF_FFFF {
            return None;
        }
        dims.push(shape[i] as i64);
        i = i + 1;
    }
    Some(dims)
}

/// An identifier that is among some identifiers is among them and one more, and so is the
/// one more.
pub proof fn lemma_known_push(ids: Seq<String>, id: String, x: Seq<char>)
    ensures
        known(ids, x) ==> known(ids.push(id), x),
        known(ids.push(id), id@),
{
    if known(ids, x) {
        let k = choose|k: int| 0 <= k < ids.len() && (#[trigger] ids[k])@ == x;
        assert(ids.push(id)[k]@ == x);
    }
    assert(ids.push(id)[ids.len() as int]@ == id@);
}

/// Gives each of the outputs its identifier, and hands out for writing those that are not
/// among `chunks` yet, which thereby come to be among them.
fn hand_out(chunks: &mut Vec<String>, outputs: BufferList, deflate: bool) -> (r: (
    Vec<String>,
    Vec<ChunkWrite>,
))
    requires
        distinct(old(chunks)@),
        outputs.wf(),
    ensures
        distinct(final(chunks)@),
        forall|x: Seq<char>| known(old(chunks)@, x) ==> known(final(chunks)@, x),
        r.0@.len() == outputs@.len(),
        forall|j: int| 0 <= j < outputs@.len() ==> (#[trigger] r.0@[j])@ == chunk_id_of(outputs@[j]),
        Builder::hands_out(old(chunks)@, final(chunks)@, r.1@, outputs@, deflate),
{
    let ghost given = outputs@;
    let ghost before = chunks@;
    let mut outputs = outputs;
    let mut ids: Vec<String> = Vec::new();
    let mut writes: Vec<ChunkWrite> = Vec::new();
    let count = outputs.len();
    let mut i: usize = 0;
    while i < count
        invariant
            outputs.wf(),
            count == given.len(),
            outputs@.len() == count,
            i <= count,
            forall|j: int| i <= j < count ==> #[trigger] outputs@[j] == given[j],
            distinct(chunks@),
            forall|x: Seq<char>| known(before, x) ==> known(chunks@, x),
            ids@.len() == i,
            forall|j: int| 0 <= j < i ==> (#[trigger] ids@[j])@ == chunk_id_of(given[j]),
            forall|j: int| 0 <= j < i ==> known(chunks@, chunk_id_of(#[trigger] given[j])),
            chunks@.len() == before.len() + writes@.len(),
            forall|j: int| 0 <= j < before.len() ==> #[trigger] chunks@[j] == before[j],
            forall|j: int|
                0 <= j < writes@.len() ==> (#[trigger] chunks@[before.len() + j])@ == writes@[j].id@,
            forall|j: int|
                0 <= j < writes@.len() ==> {
                    &&& (#[trigger] writes@[j]).deflate == deflate
                    &&& writes@[j].id@ == chunk_id_of(writes@[j].data@)
                    &&& given.contains(writes@[j].data@)
                },
        decreases count - i,
    {
        let id = chunk_id(outputs.get(i).as_slice());
        if !is_known(chunks, &id) {
            let data = outputs.take(i);
            let ghost was = chunks@;
            let ghost written = writes@;
            chunks.push(id.clone());
            writes.push(ChunkWrite { id: id.clone(), data, deflate });
            proof {
                assert(given.contains(given[i as int]));
                assert forall|x: Seq<char>| known(was, x) implies known(chunks@, x) by {
                    lemma_known_push(was, chunks@[was.len() as int], x);
                    assert(chunks@ =~= was.push(chunks@[was.len() as int]));
                }
                lemma_known_push(was, chunks@[was.len() as int], id@);
                assert(chunks@ =~= was.push(chunks@[was.len() as int]));
                assert forall|a: int, b: int| 0 <= a < b < chunks@.len() implies (
                #[trigger] chunks@[a])@ != (#[trigger] chunks@[b])@ by {
                    if b == was.len() {
                        assert(chunks@[a] == was[a]);
                        if was[a]@ == id@ {
                            assert(known(was, id@));
                        }
                    } else {
                        assert(chunks@[a] == was[a] && chunks@[b] == was[b]);
                    }
                }
                assert forall|j: int| 0 <= j < writes@.len() implies (#[trigger] chunks@[before.len()
                    + j])@ == writes@[j].id@ by {
                    if j < written.len() {
                        assert(chunks@[before.len() + j] == was[before.len() + j]);
                        assert(writes@[j] == written[j]);
                    }
                }
                assert forall|j: int| 0 <= j < writes@.len() implies {
                    &&& (#[trigger] writes@[j]).deflate == deflate
                    &&& writes@[j].id@ == chunk_id_of(writes@[j].data@)
                    &&& given.contains(writes@[j].data@)
                } by {
                    if j < written.len() {
                        assert(writes@[j] == written[j]);
                    }
                }
            }
        }
        ids.push(id);
        i = i + 1;
    }
    (ids, writes)
}

impl Builder {
    /// The files that were added, in the order of adding.
    pub closed spec fn files(&self) -> Seq<RawFile> {
        self.meta.raw_files@
    }

    /// The descriptors of the blobs that were added, in the order of their names.
    pub closed spec fn blobs(&self) -> Seq<Blob> {
        self.meta.blobs@
    }

    /// The identifiers of the chunks that were handed out for writing, in that order.
    pub closed spec fn chunks(&self) -> Seq<String> {
        self.chunks@
    }

    /// No chunk was handed out twice, the blobs are in the order of their names with no
    /// name twice, and every chunk of a blob was handed out.
    pub open spec fn wf(&self) -> bool {
        &&& distinct(self.chunks())
        &&& sorted_by_name(self.blobs())
        &&& forall|b: int, i: int|
            0 <= b < self.blobs().len() && 0 <= i < self.blobs()[b].chunk_ids@.len() ==> known(
                self.chunks(),
                #[trigger] self.blobs()[b].chunk_ids@[i]@,
            )
    }

    /// An archive that holds nothing yet.
    pub fn new() -> (b: Self)
        ensures
            b.wf(),
            b.files().len() == 0,
            b.blobs().len() == 0,
            b.chunks().len() == 0,
    {
        Builder { meta: Bundle { raw_files: Vec::new(), blobs: Vec::new() }, chunks: Vec::new() }
    }

    /// The files that were added, in the order of adding.
    pub fn raw_files(&self) -> (files: &Vec<RawFile>)
        ensures
            files@ == self.files(),
    {
        &self.meta.raw_files
    }

    /// The descriptors of the blobs that were added, in the order of their names.
    pub fn blob_list(&self) -> (blobs: &Vec<Blob>)
        ensures
            blobs@ == self.blobs(),
    {
        &self.meta.blobs
    }

    /// The identifiers of the chunks that were handed out for writing, in that order.
    pub fn chunk_ids(&self) -> (ids: &Vec<String>)
        ensures
            ids@ == self.chunks(),
    {
        &self.chunks
    }

    /// Records a file that the archive holds as it is.
    pub fn add_file(&mut self, name: String)
        requires
            old(self).wf(),
        ensures
            final(self).wf(),
            final(self).files() == old(self).files().push(RawFile { name }),
            final(self).blobs() == old(self).blobs(),
            final(self).chunks() == old(self).chunks(),
    {
        self.meta.raw_files.push(RawFile { name });
    }

    /// Where a blob of the given name belongs among the blobs, unless one has that name.
    pub fn place(&self, name: &str) -> (at: Option<usize>)
        requires
            self.wf(),
        ensures
            at is None <==> exists|i: int|
                0 <= i < self.blobs().len() && (#[trigger] self.blobs()[i]).name_bytes()
                    == vstd::utf8::encode_utf8(name@),
            at matches Some(p) ==> {
                &&& p <= self.blobs().len()
                &&& p > 0 ==> precedes(
                    self.blobs()[p - 1].name_bytes(),
                    vstd::utf8::encode_utf8(name@),
                )
                &&& p < self.blobs().len() ==> precedes(
                    vstd::utf8::encode_utf8(name@),
                    self.blobs()[p as int].name_bytes(),
                )
            },
    {
        let mut at: Option<usize> = None;
        let mut i: usize = 0;
        let ghost n = vstd::utf8::encode_utf8(name@);
        while i < self.meta.blobs.len()
            invariant
                i <= self.meta.blobs@.len(),
                n == vstd::utf8::encode_utf8(name@),
                forall|j: int| 0 <= j < i ==> (#[trigger] self.meta.blobs@[j]).name_bytes() != n,
                at matches Some(p) ==> p < i && precedes(n, self.meta.blobs@[p as int].name_bytes())
                    && (p > 0 ==> precedes(self.meta.blobs@[p - 1].name_bytes(), n)),
                at is None ==> (i > 0 ==> precedes(self.meta.blobs@[i - 1].name_bytes(), n)),
            decreases self.meta.blobs@.len() - i,
        {
            let other = self.meta.blobs[i].name.as_str();
            if same_name(other, name) {
                assert(self.blobs()[i as int].name_bytes() == n);
                return None;
            }
            if at.is_none() {
                if name_precedes(name, other) {
                    at = Some(i);
                } else {
                    proof {
                        lemma_precedes_total(n, self.meta.blobs@[i as int].name_bytes());
                    }
                }
            }
            i = i + 1;
        }
        match at {
            Some(p) => Some(p),
            None => Some(self.meta.blobs.len()),
        }
    }

    /// Gives the outputs of a blob's chain their identifiers, records the blob at `at`, its
    /// place by name as [`Builder::place`] finds it, and hands out for writing those chunks
    /// that were not handed out before.
    ///
    /// The descriptor recorded is `blob` with the identifiers of the outputs for its
    /// chunks, in their order. A chunk is handed out exactly where its identifier was not
    /// known before, and once only; afterwards the identifier of every output is known,
    /// and no identifier is known twice. Chunks of the empty chain are to be deflated.
    pub fn write_chunks(&mut self, at: usize, blob: Blob, outputs: BufferList) -> (writes: Vec<
        ChunkWrite,
    >)
        requires
            old(self).wf(),
            outputs.wf(),
            blob.chunk_ids@.len() == 0,
            at <= old(self).blobs().len(),
            at > 0 ==> precedes(old(self).blobs()[at - 1].name_bytes(), blob.name_bytes()),
            at < old(self).blobs().len() ==> precedes(
                blob.name_bytes(),
                old(self).blobs()[at as int].name_bytes(),
            ),
        ensures
            final(self).wf(),
            final(self).files() == old(self).files(),
            final(self).blobs().len() == old(self).blobs().len() + 1,
            final(self).blobs().remove(at as int) == old(self).blobs(),
            Self::records(final(self).blobs()[at as int], blob, outputs@),
            Self::hands_out(
                old(self).chunks(),
                final(self).chunks(),
                writes@,
                outputs@,
                blob.compression_stages@.len() == 0,
            ),
    {
        let ghost asked = blob;
        let ghost before = self.chunks@;
        let mut blob = blob;
        let deflate = blob.compression_stages.len() == 0;
        let (ids, writes) = hand_out(&mut self.chunks, outputs, deflate);
        blob.chunk_ids = ids;
        let ghost listed = self.meta.blobs@;
        self.meta.blobs.insert(at, blob);
        proof {
            let now = self.meta.blobs@;
            assert(now.remove(at as int) =~= listed);
            assert forall|b: int| 0 <= b < now.len() - 1 implies precedes(
                (#[trigger] now[b]).name_bytes(),
                now[b + 1].name_bytes(),
            ) by {
                if b + 1 < at {
                    assert(now[b] == listed[b] && now[b + 1] == listed[b + 1]);
                } else if b + 1 == at {
                    assert(now[b] == listed[b]);
                } else if b == at {
                    assert(now[b + 1] == listed[b]);
                } else {
                    assert(now[b] == listed[b - 1] && now[b + 1] == listed[b]);
                }
            }
            assert forall|b: int, j: int|
                0 <= b < now.len() && 0 <= j < now[b].chunk_ids@.len() implies known(
                self.chunks@,
                #[trigger] now[b].chunk_ids@[j]@,
            ) by {
                if b < at {
                    assert(now[b] == listed[b]);
                    assert(known(before, listed[b].chunk_ids@[j]@));
                } else if b > at {
                    assert(now[b] == listed[b - 1]);
                    assert(known(before, listed[b - 1].chunk_ids@[j]@));
                }
            }
        }
        writes
    }

    /// Whether `recorded` is the descriptor `blob` with the identifiers of `outputs` for
    /// its chunks, in their order.
    pub open spec fn records(recorded: Blob, blob: Blob, outputs: Seq<Seq<u8>>) -> bool {
        &&& recorded.name == blob.name
        &&& recorded.data_type == blob.data_type
        &&& recorded.dims == blob.dims
        &&& recorded.target_file_name == blob.target_file_name
        &&& recorded.target_offset_in_bytes == blob.target_offset_in_bytes
        &&& recorded.compression_stages == blob.compression_stages
        &&& recorded.chunk_ids@.len() == outputs.len()
        &&& forall|j: int|
            0 <= j < outputs.len() ==> (#[trigger] recorded.chunk_ids@[j])@ == chunk_id_of(
                outputs[j],
            )
    }

    /// Whether `writes` are the chunks that a blob with the given outputs adds to those
    /// that were handed out before: the identifiers handed out are now those from before
    /// followed by those of `writes`, every chunk of `writes` is one of the outputs under
    /// its own identifier, and every output is now among the chunks handed out.
    pub open spec fn hands_out(
        before: Seq<String>,
        after: Seq<String>,
        writes: Seq<ChunkWrite>,
        outputs: Seq<Seq<u8>>,
        deflate: bool,
    ) -> bool {
        &&& after.len() == before.len() + writes.len()
        &&& forall|j: int| 0 <= j < before.len() ==> #[trigger] after[j] == before[j]
        &&& forall|j: int|
            0 <= j < writes.len() ==> (#[trigger] after[before.len() + j])@ == writes[j].id@
        &&& forall|j: int|
            0 <= j < writes.len() ==> {
                &&& (#[trigger] writes[j]).deflate == deflate
                &&& writes[j].id@ == chunk_id_of(writes[j].data@)
                &&& outputs.contains(writes[j].data@)
            }
        &&& forall|j: int|
            0 <= j < outputs.len() ==> known(after, chunk_id_of(#[trigger] outputs[j]))
    }

    /// Whether `blob` describes a blob of the given name, element type and shape, written
    /// with the option `opt`.
    pub open spec fn describes(
        blob: Blob,
        name: Seq<char>,
        dt: DataType,
        dims: Seq<usize>,
        target_file: Option<(String, u64)>,
    ) -> bool {
        &&& blob.name@ == name
        &&& DataType::of_tag(blob.data_type) == Some(dt)
        &&& blob.dims@.len() == dims.len()
        &&& forall|i: int| 0 <= i < dims.len() ==> #[trigger] blob.dims@[i] == dims[i]
        &&& match target_file {
            Some((file, offset)) => blob.target_file_name@ == file@
                && blob.target_offset_in_bytes as u64 == offset,
            None => blob.target_file_name@.len() == 0 && blob.target_offset_in_bytes == 0,
        }
    }

    /// Whether the metadata can hold every extent of a shape.
    pub open spec fn recordable(dims: Seq<usize>) -> bool {
        forall|i: int| 0 <= i < dims.len() ==> #[trigger] dims[i] <= i64::MAX
    }

    /// Whether one of the blobs has the given name.
    pub open spec fn has_blob(blobs: Seq<Blob>, name: Seq<char>) -> bool {
        exists|i: int|
            0 <= i < blobs.len() && (#[trigger] blobs[i]).name_bytes() == vstd::utf8::encode_utf8(
                name,
            )
    }

    /// What adding a blob does to the blobs and to the chunks handed out, where the blob is
    /// recorded at `at` and its chain gave `outputs`.
    ///
    /// The blobs are those from before and one more, at `at`. That one is described as
    /// asked, its chain is one that is chosen for its type, and its chunks are the
    /// identifiers of the outputs, in their order. An empty chain leaves the blob as its
    /// one output. The chunks handed out are those of the outputs that were not handed out
    /// before.
    pub open spec fn adds_at(
        blobs_before: Seq<Blob>,
        blobs: Seq<Blob>,
        chunks_before: Seq<String>,
        chunks: Seq<String>,
        writes: Seq<ChunkWrite>,
        name: Seq<char>,
        dt: DataType,
        dims: Seq<usize>,
        target_file: Option<(String, u64)>,
        data: Seq<u8>,
        at: int,
        outputs: Seq<Seq<u8>>,
    ) -> bool {
        &&& 0 <= at < blobs.len()
        &&& blobs.remove(at) == blobs_before
        &&& Self::describes(blobs[at], name, dt, dims, target_file)
        &&& Self::chained(blobs[at], dt)
        &&& outputs.len() == blobs[at].chunk_ids@.len()
        &&& forall|j: int|
            0 <= j < outputs.len() ==> (#[trigger] blobs[at].chunk_ids@[j])@ == chunk_id_of(
                outputs[j],
            )
        &&& Self::hands_out(
            chunks_before,
            chunks,
            writes,
            outputs,
            blobs[at].compression_stages@.len() == 0,
        )
        &&& blobs[at].compression_stages@.len() == 0 ==> outputs == seq![data]
    }

    /// What holds of the chain `stages` that was chosen for a blob `data` of type `dt`
    /// within `limit`, and of the streams `outputs` that it made of the blob.
    ///
    /// The empty chain leaves the blob as its one output. Any other chain gave a round trip
    /// of the whole blob with a distance that the limit admits: the outputs are what the
    /// encode pass of the chain makes of the blob, and the distance is the one between the
    /// blob and what the decode pass makes of the outputs. The outputs are those that the
    /// crate states for the chain by itself, if it states the encoders of all its stages,
    /// and for a lossless chain their decode pass gives the blob. Within a limit that
    /// admits nothing, and for a blob that holds a NaN, the chain is empty. The chain and
    /// the outputs are those of a choice as [`select_chain`] makes it: of the candidates
    /// that did well enough on the head of the blob, in the order of what they made of the
    /// head, the first that stays within the limit on the whole blob.
    pub open spec fn chose<B: Backend>(
        backend: &B,
        stages: Seq<CompressionStage>,
        outputs: Seq<Seq<u8>>,
        data: Seq<u8>,
        dt: DataType,
        dims: Seq<usize>,
        limit: Tolerance,
    ) -> bool {
        &&& stages.len() == 0 ==> outputs == seq![data]
        &&& stages.len() > 0 ==> exists|e: Deviation| #[trigger]
            limit.admits(e) && e.wf() && round_trip(
                backend,
                outputs,
                Some(e),
                data,
                dt,
                dims,
                limit,
                stages,
            )
        &&& chain_encodes_here(stages) ==> outputs == chain_encoded(stages, seq![data])
        &&& chain_is_lossless(stages) ==> chain_decoded(stages, outputs) == seq![data]
        &&& limit.admits_nothing() ==> stages.len() == 0
        &&& dt.is_float() && dt.any_nan(data, data) ==> stages.len() == 0
        &&& exists|s: Selection| #[trigger]
            s.chosen_for(backend, data, dt, dims, limit) && s.stages@ == stages && s.outputs@
                == outputs
    }

    /// A blob has one chain and one list of outputs: what is chosen for it depends on
    /// nothing but the blob, its type and shape, the limit, and what the coder and the
    /// backend make of the blob. So two blobs of the same bytes, written alike, get the
    /// same chain and the same chunks.
    pub proof fn lemma_chosen_is_unique<B: Backend>(
        backend: &B,
        stages_a: Seq<CompressionStage>,
        outputs_a: Seq<Seq<u8>>,
        stages_b: Seq<CompressionStage>,
        outputs_b: Seq<Seq<u8>>,
        data: Seq<u8>,
        dt: DataType,
        dims: Seq<usize>,
        limit: Tolerance,
    )
        requires
            Self::chose(backend, stages_a, outputs_a, data, dt, dims, limit),
            Self::chose(backend, stages_b, outputs_b, data, dt, dims, limit),
        ensures
            stages_a == stages_b,
            outputs_a == outputs_b,
    {
        let a = choose|s: Selection| #[trigger]
            s.chosen_for(backend, data, dt, dims, limit) && s.stages@ == stages_a && s.outputs@
                == outputs_a;
        let b = choose|s: Selection| #[trigger]
            s.chosen_for(backend, data, dt, dims, limit) && s.stages@ == stages_b && s.outputs@
                == outputs_b;
        lemma_choice_is_unique(backend, a, b, data, dt, dims, limit);
    }

    /// The chain that is recorded for a blob does well enough on it: its trial on the head
    /// of the blob and its trial on the whole blob are within the limit. Where no candidate
    /// does well enough, the blob is kept as it is, under the empty chain.
    pub proof fn lemma_chosen_does_well<B: Backend>(
        backend: &B,
        stages: Seq<CompressionStage>,
        outputs: Seq<Seq<u8>>,
        data: Seq<u8>,
        dt: DataType,
        dims: Seq<usize>,
        limit: Tolerance,
    )
        requires
            Self::chose(backend, stages, outputs, data, dt, dims, limit),
        ensures
            stages.len() > 0 ==> accepted(backend, data, dt, dims, limit, stages),
            (forall|i: int|
                0 <= i < candidate_chains(dt).len() ==> !#[trigger] accepted(
                    backend,
                    data,
                    dt,
                    dims,
                    limit,
                    candidate_chains(dt)[i],
                )) ==> stages.len() == 0 && outputs == seq![data],
    {
        let s = choose|s: Selection| #[trigger]
            s.chosen_for(backend, data, dt, dims, limit) && s.stages@ == stages && s.outputs@
                == outputs;
        lemma_choice_is_best(backend, s, data, dt, dims, limit);
        if stages.len() > 0 {
            let k = s.ranked@[s.rejected as int].index as int;
            assert(stages == candidate_chains(dt)[k]);
            assert(accepted(backend, data, dt, dims, limit, candidate_chains(dt)[k]));
        }
    }

    /// What was written for a blob can be read back, and lies within the limit of the blob:
    /// the decode pass of the chain takes the outputs, and what it makes of them is the
    /// blob itself under the empty chain and under a lossless one, and else lies at a
    /// distance from the blob that the limit admits.
    pub proof fn lemma_written_reads_within<B: Backend>(
        backend: &B,
        stages: Seq<CompressionStage>,
        outputs: Seq<Seq<u8>>,
        data: Seq<u8>,
        dt: DataType,
        dims: Seq<usize>,
        limit: Tolerance,
    )
        requires
            Self::chose(backend, stages, outputs, data, dt, dims, limit),
        ensures
            outputs.len() == chain_fan_out(stages),
            chain_gives_by(backend, dims, stages, outputs),
            chain_is_lossless(stages) ==> chain_decoded_by(backend, dims, stages, outputs)
                == seq![data],
            stages.len() > 0 ==> exists|e: Deviation| #[trigger]
                limit.admits(e) && bits_of(Some(e)) == dt.difference_by(
                    backend,
                    data,
                    chain_decoded_by(backend, dims, stages, outputs)[0],
                ),
    {
        if stages.len() > 0 {
            let e = choose|e: Deviation| #[trigger]
                limit.admits(e) && e.wf() && round_trip(
                    backend,
                    outputs,
                    Some(e),
                    data,
                    dt,
                    dims,
                    limit,
                    stages,
                );
            lemma_round_trip_bounded(backend, outputs, Some(e), data, dt, dims, limit, stages);
            if chain_is_lossless(stages) {
                lemma_round_trip_identity(backend, outputs, Some(e), data, dt, dims, limit, stages);
            }
            assert(limit.admits(e) && bits_of(Some(e)) == dt.difference_by(
                backend,
                data,
                chain_decoded_by(backend, dims, stages, outputs)[0],
            ));
        } else {
            assert(chain_fan_out(stages) == 1);
        }
    }

    /// What adding a blob does to the blobs and to the chunks handed out: what [`adds_at`]
    /// says, for some place and some outputs, which the chain recorded at that place made
    /// of the blob as [`chose`] says.
    ///
    /// [`adds_at`]: Builder::adds_at
    /// [`chose`]: Builder::chose
    pub open spec fn adds<B: Backend>(
        backend: &B,
        limit: Tolerance,
        blobs_before: Seq<Blob>,
        blobs: Seq<Blob>,
        chunks_before: Seq<String>,
        chunks: Seq<String>,
        writes: Seq<ChunkWrite>,
        name: Seq<char>,
        dt: DataType,
        dims: Seq<usize>,
        target_file: Option<(String, u64)>,
        data: Seq<u8>,
    ) -> bool {
        exists|at: int, outputs: Seq<Seq<u8>>| #[trigger]
            Self::adds_at(
                blobs_before,
                blobs,
                chunks_before,
                chunks,
                writes,
                name,
                dt,
                dims,
                target_file,
                data,
                at,
                outputs,
            ) && Self::chose(
                backend,
                Blob::stages_of(blobs[at].compression_stages@),
                outputs,
                data,
                dt,
                dims,
                limit,
            )
    }

    /// Adds a blob: chooses its chain, records its descriptor, and gives back the chunks
    /// that are to be written for it.
    ///
    /// Nothing is recorded where this fails. It fails with [`Error::MisalignedInput`] where
    /// `data` is no whole number of elements; else with [`Error::ShapeMismatch`] where the
    /// shape does not take as many bytes as `data` has, or has an extent that the metadata
    /// cannot hold; else with [`Error::DuplicateName`] where a blob has the name already.
    /// It fails nowhere else: where no chain does, the blob is kept as it is.
    ///
    /// Where it succeeds, the blobs are those from before and the new one, at its place by
    /// name. The new one has the chain that [`select_chain`] chose and as many chunks as
    /// that chain fans out to: the identifiers of what the chain made of the blob, which
    /// lies within the limit of the blob when decoded. The chunks handed out are those of
    /// the outputs that were not handed out before, so that no chunk is ever handed out
    /// twice. Within a limit that admits nothing, and for a blob that holds a NaN, the
    /// blob is kept as it is, under the empty chain.
    pub fn add_blob<B: Backend>(
        &mut self,
        backend: &B,
        name: String,
        data: &[u8],
        dt: DataType,
        dims: &[usize],
        opt: BlobWriteOption,
    ) -> (r: Result<Vec<ChunkWrite>>)
        requires
            old(self).wf(),
        ensures
            final(self).wf(),
            r is Err ==> final(self).files() == old(self).files() && final(self).blobs() == old(self).blobs() && final(self).chunks() == old(self).chunks(),
            !aligned(data@.len(), dt.width()) ==> r == Err::<Vec<ChunkWrite>, Error>(
                Error::MisalignedInput,
            ),
            aligned(data@.len(), dt.width()) && (product(dims@) * dt.width() != data@.len()
                || !Self::recordable(dims@)) ==> r == Err::<Vec<ChunkWrite>, Error>(
                Error::ShapeMismatch,
            ),
            aligned(data@.len(), dt.width()) && product(dims@) * dt.width() == data@.len()
                && Self::recordable(dims@) && Self::has_blob(old(self).blobs(), name@) ==> r
                == Err::<Vec<ChunkWrite>, Error>(Error::DuplicateName),
            aligned(data@.len(), dt.width()) && product(dims@) * dt.width() == data@.len()
                && Self::recordable(dims@) && !Self::has_blob(old(self).blobs(), name@) ==> r
                is Ok,
            r is Ok ==> final(self).files() == old(self).files(),
            r matches Ok(writes) ==> Self::adds(
                backend,
                opt.error_limit,
                old(self).blobs(),
                final(self).blobs(),
                old(self).chunks(),
                final(self).chunks(),
                writes@,
                name@,
                dt,
                dims@,
                opt.target_file,
                data@,
            ),
    {
        let w = dt.byte_len();
        if data.len() % w != 0 {
            return Err(Error::MisalignedInput);
        }
        match byte_length(dims, dt) {
            Some(n) => {
                if n != data.len() {
                    return Err(Error::ShapeMismatch);
                }
            },
            None => {
                return Err(Error::ShapeMismatch);
            },
        }
        let extents = match dims_of(dims) {
            Some(d) => d,
            None => {
                return Err(Error::ShapeMismatch);
            },
        };
        let at = match self.place(name.as_str()) {
            Some(p) => p,
            None => {
                return Err(Error::DuplicateName);
            },
        };
        let chosen = match select_chain(backend, data, dt, dims, opt.error_limit) {
            Ok(s) => s,
            Err(e) => {
                return Err(e);
            },
        };
        let ghost target = opt.target_file;
        let (target_file_name, target_offset_in_bytes) = match opt.target_file {
            Some((file, offset)) => {
                proof {
                    lemma_offset_survives(offset);
                }
                (file, #[verifier::truncate] (offset as i64))
            },
            None => (String::new(), 0i64),
        };
        let blob = Blob {
            name,
            data_type: dt.tag(),
            dims: extents,
            target_file_name,
            target_offset_in_bytes,
            compression_stages: tags_of(&chosen.stages),
            chunk_ids: Vec::new(),
        };
        let ghost outputs = chosen.outputs@;
        let ghost stages = chosen.stages@;
        let ghost choice = chosen;
        proof {
            assert(choice.chosen_for(backend, data@, dt, dims@, opt.error_limit)
                && choice.stages@ == stages && choice.outputs@ == outputs);
            assert(Self::chose(backend, stages, outputs, data@, dt, dims@, opt.error_limit)) by {
                if stages.len() > 0 {
                    let e = chosen.error->Some_0;
                    assert(opt.error_limit.admits(e) && e.wf() && round_trip(
                        backend,
                        outputs,
                        Some(e),
                        data@,
                        dt,
                        dims@,
                        opt.error_limit,
                        stages,
                    ));
                }
            }
        }
        let writes = self.write_chunks(at, blob, chosen.outputs);
        proof {
            let recorded = self.meta.blobs@[at as int];
            assert(Self::describes(recorded, name@, dt, dims@, target));
            assert(Blob::stages_of(recorded.compression_stages@) == chosen.stages@);
            assert(Self::chained(recorded, dt));
            assert(outputs.len() == recorded.chunk_ids@.len());
            assert(Self::adds_at(
                old(self).blobs(),
                self.blobs(),
                old(self).chunks(),
                self.chunks(),
                writes@,
                name@,
                dt,
                dims@,
                target,
                data@,
                at as int,
                outputs,
            ));
        }
        Ok(writes)
    }

    /// Whether the chain of a descriptor is one that is chosen for blobs of the type `dt`:
    /// every tag names a stage, the chain is empty or one of the candidates for the type,
    /// and the chunks are as many as the chain fans out to.
    pub open spec fn chained(blob: Blob, dt: DataType) -> bool {
        let stages = Blob::stages_of(blob.compression_stages@);
        &&& Blob::stages_known(blob.compression_stages@)
        &&& blob.chunk_ids@.len() == chain_fan_out(stages)
        &&& stages.len() == 0 || exists|k: int|
            0 <= k < candidate_chains(dt).len() && stages == #[trigger] candidate_chains(dt)[k]
    }

    /// Ends the making of the archive and gives its metadata: the files in the order of
    /// adding, the blobs in the order of their names.
    pub fn finish(self) -> (bundle: Bundle)
        requires
            self.wf(),
        ensures
            bundle.raw_files@ == self.files(),
            bundle.blobs@ == self.blobs(),
            sorted_by_name(bundle.blobs@),
    {
        self.meta
    }
}

/// An offset that is recorded as a signed number is read back as it was.
pub proof fn lemma_offset_survives(offset: u64)
    by (bit_vector)
    ensures
        (offset as i64) as u64 == offset,
{
}

} // verus!
