//! The choice of a chain for a blob.
use crate::backend::Backend;
use crate::chunks::aligned;
use crate::codec::BufferList;
use crate::codec::total_len;
use crate::compress::{
    lemma_round_trip_is_unique, chain_decoded, chain_decodes_here, chain_encoded, chain_encodes_here, chain_fan_out,
    chain_is_columns, chain_is_lossless, chain_passes, chain_splits, compress,
    round_trip, CompressionStage,
};
use crate::metric::bits_of;
use crate::order::{comes_before, in_order, lemma_order_is_unique, sort, Entry};
use crate::data_type::DataType;
use crate::deviation::{Deviation, Tolerance};
use crate::result::{Error, Result};
use crate::write::consts::{candidate_chains, compress_method, holds};
use vstd::prelude::*;

verus! {

/// The number of bytes of a blob that chains are first tried on.
pub const PROBE_LEN: usize = 64 * 1024;

/// A chain that did well enough on the head of a blob: its place among the candidates, and
/// for its weight the number of bytes that it made of the head.
pub type Probe = Entry;

/// The probes in the order in which their chains are tried on the whole blob: the chain
/// that made fewer bytes of the head first, and of two that made equally many the one that
/// comes first among the candidates.
///
/// The order holds the same probes, each as often, and it is the one order of them that
/// [`in_order`] admits: the choice of a chain depends on nothing but the probes.
pub fn rank(probes: &Vec<Probe>) -> (order: Vec<Probe>)
    ensures
        in_order(order@),
        order@.to_multiset() == probes@.to_multiset(),
        order@.len() == probes@.len(),
{
    sort(probes)
}

/// What trying a chain on some bytes gave.
#[derive(PartialEq, Eq, Clone, Copy, Debug)]
pub enum Trial {
    /// The round trip failed.
    Failed,
    /// The round trip made `bytes` bytes, and what they decode to lies `error` away from
    /// what the chain was given, if there is a distance.
    Made { bytes: u64, error: Option<Deviation> },
}

/// The number of bytes in all of the streams, as a trial records it: the largest `usize`
/// where they are more.
pub open spec fn weight_of(outputs: Seq<Seq<u8>>) -> u64 {
    if total_len(outputs) > usize::MAX {
        usize::MAX as u64
    } else {
        total_len(outputs) as u64
    }
}

/// The head of a blob, on which chains are first tried: its first [`PROBE_LEN`] bytes, or
/// all of it where it has no more.
pub open spec fn probe_head(data: Seq<u8>) -> Seq<u8> {
    if data.len() < PROBE_LEN {
        data
    } else {
        data.subrange(0, PROBE_LEN as int)
    }
}

/// The shape that the head of a blob of type `dt` is tried with: its elements in one
/// dimension.
pub open spec fn probe_shape(data: Seq<u8>, dt: DataType) -> Seq<usize> {
    seq![(probe_head(data).len() / dt.width()) as usize]
}

impl Trial {
    /// Whether the trial gave a distance, and one that the limit admits.
    pub open spec fn within(self, limit: Tolerance) -> bool {
        match self {
            Trial::Made { bytes: _, error: Some(e) } => limit.admits(e),
            _ => false,
        }
    }

    /// The number of bytes that the trial made; zero where it failed.
    pub open spec fn weight(self) -> u64 {
        match self {
            Trial::Made { bytes, error: _ } => bytes,
            Trial::Failed => 0,
        }
    }

    /// Whether the trial is one of the chain `chain` on `data`, an array of the given
    /// shape, within the accuracy `prec`: where it made something, there are streams of
    /// that many bytes that are a round trip of `data` through the chain with the distance
    /// of the trial; and it failed only where a pass of the chain does not take what it is
    /// given.
    pub open spec fn tried_on<B: Backend>(
        self,
        backend: &B,
        data: Seq<u8>,
        dt: DataType,
        shape: Seq<usize>,
        prec: Tolerance,
        chain: Seq<CompressionStage>,
    ) -> bool {
        match self {
            Trial::Failed => !(chain_is_columns(chain) && chain_splits(chain, seq![data]))
                && !chain_passes(backend, shape, prec, chain, data),
            Trial::Made { bytes, error } => exists|outputs: Seq<Seq<u8>>| #[trigger]
                round_trip(backend, outputs, error, data, dt, shape, prec, chain) && bytes
                    == weight_of(outputs),
        }
    }

    /// Whether the trial gave a distance, and one that the limit admits.
    pub fn passes(&self, limit: Tolerance) -> (ok: bool)
        ensures
            ok == self.within(limit),
            limit.admits_nothing() ==> !ok,
    {
        match self {
            Trial::Made { bytes: _, error: Some(e) } => limit.accepts(*e),
            _ => false,
        }
    }
}

/// What a round trip gave, as a trial: its failure, or the number of bytes of its streams
/// and its distance.
pub fn trial_of(tried: &Result<(BufferList, Option<Deviation>)>) -> (t: Trial)
    requires
        *tried matches Ok((outputs, _)) ==> outputs.wf(),
    ensures
        *tried is Err ==> t == Trial::Failed,
        *tried matches Ok((outputs, error)) ==> t == (Trial::Made {
            bytes: weight_of(outputs@),
            error,
        }),
{
    match tried {
        Ok((outputs, error)) => Trial::Made { bytes: outputs.total_len() as u64, error: *error },
        Err(_) => Trial::Failed,
    }
}

/// The probes that are kept of the trials of the candidates on the head of a blob: one for
/// each trial that gave a distance within the limit, in the order of the candidates, with
/// the place of its candidate and for its weight the number of bytes that the trial made.
pub open spec fn kept(trials: Seq<Trial>, limit: Tolerance) -> Seq<Probe>
    decreases trials.len(),
{
    if trials.len() == 0 {
        Seq::empty()
    } else {
        let before = kept(trials.drop_last(), limit);
        if trials.last().within(limit) {
            before.push(
                Probe { index: (trials.len() - 1) as usize, weight: trials.last().weight() },
            )
        } else {
            before
        }
    }
}

/// Each probe that is kept stands for a trial that was within the limit, at the place of
/// its candidate and with its weight; and none is kept where no trial was within it.
pub proof fn lemma_kept(trials: Seq<Trial>, limit: Tolerance)
    requires
        trials.len() <= usize::MAX,
    ensures
        forall|k: int|
            0 <= k < kept(trials, limit).len() ==> {
                let p = #[trigger] kept(trials, limit)[k];
                &&& p.index < trials.len()
                &&& trials[p.index as int].within(limit)
                &&& p.weight == trials[p.index as int].weight()
            },
        (forall|i: int| 0 <= i < trials.len() ==> !(#[trigger] trials[i]).within(limit)) ==> kept(
            trials,
            limit,
        ).len() == 0,
        forall|i: int|
            0 <= i < trials.len() && (#[trigger] trials[i]).within(limit) ==> kept(
                trials,
                limit,
            ).contains(Probe { index: i as usize, weight: trials[i].weight() }),
    decreases trials.len(),
{
    if trials.len() > 0 {
        let head = trials.drop_last();
        lemma_kept(head, limit);
        let before = kept(head, limit);
        let all = kept(trials, limit);
        assert forall|k: int| 0 <= k < all.len() implies ({
            let p = #[trigger] all[k];
            &&& p.index < trials.len()
            &&& trials[p.index as int].within(limit)
            &&& p.weight == trials[p.index as int].weight()
        }) by {
            if k < before.len() {
                assert(all[k] == before[k]);
                assert(head[before[k].index as int] == trials[before[k].index as int]);
            }
        }
        if forall|i: int| 0 <= i < trials.len() ==> !(#[trigger] trials[i]).within(limit) {
            assert forall|i: int| 0 <= i < head.len() implies !(#[trigger] head[i]).within(
                limit,
            ) by {
                assert(head[i] == trials[i]);
            }
        }
        assert forall|i: int| 0 <= i < trials.len() && (#[trigger] trials[i]).within(
            limit,
        ) implies all.contains(Probe { index: i as usize, weight: trials[i].weight() }) by {
            let p = Probe { index: i as usize, weight: trials[i].weight() };
            if i < head.len() {
                assert(head[i] == trials[i]);
                assert(before.contains(p));
                let k = choose|k: int| 0 <= k < before.len() && before[k] == p;
                assert(all[k] == p);
            } else {
                assert(all[all.len() - 1] == p);
            }
        }
    }
}

/// The probes that are kept of the trials of the candidates on the head of a blob.
pub fn keep_probes(trials: &Vec<Trial>, limit: Tolerance) -> (probes: Vec<Probe>)
    ensures
        probes@ == kept(trials@, limit),
{
    let mut probes: Vec<Probe> = Vec::new();
    let mut i: usize = 0;
    proof {
        assert(trials@.subrange(0, 0) =~= Seq::<Trial>::empty());
    }
    while i < trials.len()
        invariant
            i <= trials@.len(),
            probes@ == kept(trials@.subrange(0, i as int), limit),
        decreases trials@.len() - i,
    {
        proof {
            let s = trials@.subrange(0, i + 1);
            assert(s.drop_last() =~= trials@.subrange(0, i as int));
            assert(s.last() == trials@[i as int]);
        }
        let t = trials[i];
        if t.passes(limit) {
            let weight = match t {
                Trial::Made { bytes, error: _ } => bytes,
                Trial::Failed => 0,
            };
            probes.push(Probe { index: i, weight });
        }
        i = i + 1;
    }
    proof {
        assert(trials@.subrange(0, trials@.len() as int) =~= trials@);
    }
    probes
}

/// Whether `at` is the place of the first of the trials that is within the limit: none
/// where no trial is within it.
pub open spec fn is_first_within(trials: Seq<Trial>, limit: Tolerance, at: Option<usize>) -> bool {
    match at {
        Some(k) => k < trials.len() && trials[k as int].within(limit) && forall|j: int|
            0 <= j < k ==> !(#[trigger] trials[j]).within(limit),
        None => forall|j: int| 0 <= j < trials.len() ==> !(#[trigger] trials[j]).within(limit),
    }
}

/// The place of the first of the trials that is within the limit, if there is one: the
/// trial of the chain that is chosen, where the trials are those on the whole blob in the
/// order of trying.
pub fn first_within(trials: &Vec<Trial>, limit: Tolerance) -> (at: Option<usize>)
    ensures
        is_first_within(trials@, limit, at),
{
    let mut i: usize = 0;
    while i < trials.len()
        invariant
            i <= trials@.len(),
            forall|j: int| 0 <= j < i ==> !(#[trigger] trials@[j]).within(limit),
        decreases trials@.len() - i,
    {
        if trials[i].passes(limit) {
            return Some(i);
        }
        i = i + 1;
    }
    None
}

/// The chain that was chosen for a blob, with what it made of the blob.
pub struct Selection {
    /// The chain; empty where the blob is kept as it is.
    pub stages: Vec<CompressionStage>,
    /// What the chain made of the blob.
    pub outputs: BufferList,
    /// The distance between the blob and what decoding the outputs gives; none for the
    /// empty chain.
    pub error: Option<Deviation>,
    /// What trying each candidate on the head of the blob gave, in the order of the
    /// candidates.
    pub trials: Vec<Trial>,
    /// The chains that did well enough on the head of the blob, in the order of trying.
    pub ranked: Vec<Probe>,
    /// What trying chains on the whole blob gave, in the order of trying: the chains that
    /// were rejected, and then the one chosen.
    pub fulls: Vec<Trial>,
    /// The number of those chains that were tried on the whole blob and went beyond the
    /// limit there.
    pub rejected: usize,
}

impl Selection {
    /// What holds of the choice of a chain for a blob `data` of type `dt` within `limit`.
    ///
    /// Every candidate for the type was tried on the head of the blob. The chains that
    /// gave a distance within the limit there are listed in the order of trying: the
    /// probes that [`kept`] keeps of the trials, in the one order that [`in_order`]
    /// admits. Those were tried on the whole blob, one after the other: the ones that were
    /// rejected failed there, or gave no distance or one beyond the limit, and the chain
    /// chosen is the
    /// one that comes next, with a distance within the limit: the first within the limit,
    /// as [`first_within`] finds it. It is a candidate for the
    /// type, the outputs are a round trip of the blob through it with the error as its
    /// distance, and they are as many as the chain fans out to. Where none comes next, the
    /// chain is empty and leaves the blob as it is: so it is within a limit that admits
    /// nothing, and for a blob that holds a NaN.
    pub open spec fn chosen_for<B: Backend>(
        &self,
        backend: &B,
        data: Seq<u8>,
        dt: DataType,
        shape: Seq<usize>,
        limit: Tolerance,
    ) -> bool {
        &&& self.outputs.wf()
        &&& self.outputs@.len() == chain_fan_out(self.stages@)
        &&& self.trials@.len() == candidate_chains(dt).len()
        &&& forall|i: int|
            0 <= i < self.trials@.len() ==> (#[trigger] self.trials@[i]).tried_on(
                backend,
                probe_head(data),
                dt,
                probe_shape(data, dt),
                limit,
                candidate_chains(dt)[i],
            )
        &&& in_order(self.ranked@)
        &&& self.ranked@.to_multiset() == kept(self.trials@, limit).to_multiset()
        &&& forall|k: int|
            0 <= k < self.ranked@.len() ==> (#[trigger] self.ranked@[k]).index < candidate_chains(
                dt,
            ).len()
        &&& self.rejected <= self.ranked@.len()
        &&& self.fulls@.len() <= self.ranked@.len()
        &&& forall|j: int|
            0 <= j < self.fulls@.len() ==> (#[trigger] self.fulls@[j]).tried_on(
                backend,
                data,
                dt,
                shape,
                limit,
                candidate_chains(dt)[self.ranked@[j].index as int],
            )
        &&& forall|j: int|
            0 <= j < self.rejected && j < self.fulls@.len() ==> !(#[trigger] self.fulls@[j]).within(
                limit,
            )
        &&& self.stages@.len() == 0 ==> self.outputs@ == seq![data] && self.error is None
            && self.rejected == self.ranked@.len() && self.fulls@.len() == self.rejected
        &&& self.stages@.len() > 0 ==> {
            &&& self.rejected < self.ranked@.len()
            &&& self.fulls@.len() == self.rejected + 1
            &&& self.fulls@[self.rejected as int] == (Trial::Made {
                bytes: weight_of(self.outputs@),
                error: self.error,
            })
            &&& self.stages@ == candidate_chains(dt)[self.ranked@[self.rejected as int].index as int]
            &&& self.error matches Some(e) && e.wf() && limit.admits(e)
            &&& round_trip(
                backend,
                self.outputs@,
                self.error,
                data,
                dt,
                shape,
                limit,
                self.stages@,
            )
        }
        &&& self.stages@.len() > 0 && chain_decodes_here(self.stages@) && !dt.is_float()
            ==> bits_of(self.error) == dt.exact_difference(
            data,
            chain_decoded(self.stages@, self.outputs@)[0],
        )
        &&& chain_encodes_here(self.stages@) ==> self.outputs@ == chain_encoded(
            self.stages@,
            seq![data],
        )
        &&& chain_is_lossless(self.stages@) ==> chain_decoded(self.stages@, self.outputs@)
            == seq![data]
        &&& limit.admits_nothing() ==> self.stages@.len() == 0
        &&& dt.is_float() && dt.any_nan(data, data) ==> self.stages@.len() == 0
        &&& is_first_within(
            self.fulls@,
            limit,
            if self.stages@.len() > 0 {
                Some(self.rejected)
            } else {
                None
            },
        )
    }
}

/// A chain on a blob has one trial: what the chain and the backend make of the blob,
/// whenever it is tried.
pub proof fn lemma_trial_is_unique<B: Backend>(
    backend: &B,
    a: Trial,
    b: Trial,
    data: Seq<u8>,
    dt: DataType,
    shape: Seq<usize>,
    prec: Tolerance,
    chain: Seq<CompressionStage>,
)
    requires
        a.tried_on(backend, data, dt, shape, prec, chain),
        b.tried_on(backend, data, dt, shape, prec, chain),
    ensures
        a == b,
{
    match (a, b) {
        (Trial::Made { bytes: x, error: e }, Trial::Made { bytes: y, error: f }) => {
            let p = choose|p: Seq<Seq<u8>>| #[trigger]
                round_trip(backend, p, e, data, dt, shape, prec, chain) && x == weight_of(p);
            let q = choose|q: Seq<Seq<u8>>| #[trigger]
                round_trip(backend, q, f, data, dt, shape, prec, chain) && y == weight_of(q);
            lemma_round_trip_is_unique(backend, p, q, e, f, data, dt, shape, prec, chain);
        },
        (Trial::Made { bytes: x, error: e }, Trial::Failed) => {
            let p = choose|p: Seq<Seq<u8>>| #[trigger]
                round_trip(backend, p, e, data, dt, shape, prec, chain) && x == weight_of(p);
        },
        (Trial::Failed, Trial::Made { bytes: y, error: f }) => {
            let q = choose|q: Seq<Seq<u8>>| #[trigger]
                round_trip(backend, q, f, data, dt, shape, prec, chain) && y == weight_of(q);
        },
        _ => {},
    }
}

/// A blob has one choice: two choices of a chain for the same blob, type, shape and limit
/// are the same in all that they record. The choice depends on nothing but the blob and
/// what the coder and the backend make of it; chains that make equally much of the head
/// are tried in the order of the candidates.
pub proof fn lemma_choice_is_unique<B: Backend>(
    backend: &B,
    a: Selection,
    b: Selection,
    data: Seq<u8>,
    dt: DataType,
    shape: Seq<usize>,
    limit: Tolerance,
)
    requires
        a.chosen_for(backend, data, dt, shape, limit),
        b.chosen_for(backend, data, dt, shape, limit),
    ensures
        a.stages@ == b.stages@,
        a.outputs@ == b.outputs@,
        a.error == b.error,
        a.trials@ == b.trials@,
        a.ranked@ == b.ranked@,
        a.rejected == b.rejected,
{
    assert(a.trials@ =~= b.trials@) by {
        assert forall|i: int| 0 <= i < a.trials@.len() implies a.trials@[i] == b.trials@[i] by {
            lemma_trial_is_unique(
                backend,
                a.trials@[i],
                b.trials@[i],
                probe_head(data),
                dt,
                probe_shape(data, dt),
                limit,
                candidate_chains(dt)[i],
            );
        }
    }
    lemma_order_is_unique(a.ranked@, b.ranked@);
    let ra = a.rejected as int;
    let rb = b.rejected as int;
    assert forall|j: int| 0 <= j < a.fulls@.len() && j < b.fulls@.len() implies a.fulls@[j]
        == b.fulls@[j] by {
        lemma_trial_is_unique(
            backend,
            a.fulls@[j],
            b.fulls@[j],
            data,
            dt,
            shape,
            limit,
            candidate_chains(dt)[a.ranked@[j].index as int],
        );
    }
    if a.stages@.len() > 0 && b.stages@.len() > 0 {
        if ra < rb {
            assert(a.fulls@[ra] == b.fulls@[ra]);
            assert(!b.fulls@[ra].within(limit));
        }
        if rb < ra {
            assert(a.fulls@[rb] == b.fulls@[rb]);
            assert(!a.fulls@[rb].within(limit));
        }
        assert(ra == rb);
        assert(a.fulls@[ra] == b.fulls@[ra]);
        lemma_round_trip_is_unique(
            backend,
            a.outputs@,
            b.outputs@,
            a.error,
            b.error,
            data,
            dt,
            shape,
            limit,
            a.stages@,
        );
    } else if a.stages@.len() > 0 {
        assert(a.fulls@[ra] == b.fulls@[ra]);
        assert(!b.fulls@[ra].within(limit));
    } else if b.stages@.len() > 0 {
        assert(a.fulls@[rb] == b.fulls@[rb]);
        assert(!a.fulls@[rb].within(limit));
    } else {
        assert(a.stages@ =~= b.stages@);
    }
}

/// The trial of a chain on a blob: what trying the chain on the blob gives.
pub open spec fn trial_for<B: Backend>(
    backend: &B,
    data: Seq<u8>,
    dt: DataType,
    shape: Seq<usize>,
    prec: Tolerance,
    chain: Seq<CompressionStage>,
) -> Trial {
    choose|t: Trial| t.tried_on(backend, data, dt, shape, prec, chain)
}

/// Whether a chain does well enough on a blob within `limit`: its trial on the head of the
/// blob and its trial on the whole blob are both within the limit.
pub open spec fn accepted<B: Backend>(
    backend: &B,
    data: Seq<u8>,
    dt: DataType,
    shape: Seq<usize>,
    limit: Tolerance,
    chain: Seq<CompressionStage>,
) -> bool {
    &&& trial_for(backend, probe_head(data), dt, probe_shape(data, dt), limit, chain).within(limit)
    &&& trial_for(backend, data, dt, shape, limit, chain).within(limit)
}

/// The trials that a choice records are the trials of the chains: those on the head for
/// every candidate, and those on the whole blob for the chains that were tried there.
pub proof fn lemma_trials_recorded<B: Backend>(
    backend: &B,
    s: Selection,
    data: Seq<u8>,
    dt: DataType,
    shape: Seq<usize>,
    limit: Tolerance,
)
    requires
        s.chosen_for(backend, data, dt, shape, limit),
    ensures
        forall|i: int|
            0 <= i < s.trials@.len() ==> #[trigger] s.trials@[i] == trial_for(
                backend,
                probe_head(data),
                dt,
                probe_shape(data, dt),
                limit,
                candidate_chains(dt)[i],
            ),
        forall|j: int|
            0 <= j < s.fulls@.len() ==> #[trigger] s.fulls@[j] == trial_for(
                backend,
                data,
                dt,
                shape,
                limit,
                candidate_chains(dt)[s.ranked@[j].index as int],
            ),
{
    assert forall|i: int| 0 <= i < s.trials@.len() implies #[trigger] s.trials@[i] == trial_for(
        backend,
        probe_head(data),
        dt,
        probe_shape(data, dt),
        limit,
        candidate_chains(dt)[i],
    ) by {
        let c = candidate_chains(dt)[i];
        let t = trial_for(backend, probe_head(data), dt, probe_shape(data, dt), limit, c);
        lemma_trial_is_unique(
            backend,
            s.trials@[i],
            t,
            probe_head(data),
            dt,
            probe_shape(data, dt),
            limit,
            c,
        );
    }
    assert forall|j: int| 0 <= j < s.fulls@.len() implies #[trigger] s.fulls@[j] == trial_for(
        backend,
        data,
        dt,
        shape,
        limit,
        candidate_chains(dt)[s.ranked@[j].index as int],
    ) by {
        let c = candidate_chains(dt)[s.ranked@[j].index as int];
        let t = trial_for(backend, data, dt, shape, limit, c);
        lemma_trial_is_unique(backend, s.fulls@[j], t, data, dt, shape, limit, c);
    }
}

/// The chain that is chosen is the best of those that do well enough: it does well enough
/// itself, and of every candidate that does, it made no more of the head of the blob, and
/// where it made as much, it does not come behind it among the candidates. Where no
/// candidate does well enough, the blob is kept as it is.
pub proof fn lemma_choice_is_best<B: Backend>(
    backend: &B,
    s: Selection,
    data: Seq<u8>,
    dt: DataType,
    shape: Seq<usize>,
    limit: Tolerance,
)
    requires
        s.chosen_for(backend, data, dt, shape, limit),
    ensures
        s.stages@.len() > 0 ==> {
            let best = s.ranked@[s.rejected as int];
            &&& s.stages@ == candidate_chains(dt)[best.index as int]
            &&& accepted(backend, data, dt, shape, limit, s.stages@)
            &&& best.weight == s.trials@[best.index as int].weight()
            &&& forall|i: int|
                0 <= i < candidate_chains(dt).len() && #[trigger] accepted(
                    backend,
                    data,
                    dt,
                    shape,
                    limit,
                    candidate_chains(dt)[i],
                ) ==> best.weight < s.trials@[i].weight() || (best.weight == s.trials@[i].weight()
                    && best.index <= i)
        },
        s.stages@.len() == 0 ==> s.outputs@ == seq![data] && forall|i: int|
            0 <= i < candidate_chains(dt).len() ==> !#[trigger] accepted(
                backend,
                data,
                dt,
                shape,
                limit,
                candidate_chains(dt)[i],
            ),
{
    lemma_trials_recorded(backend, s, data, dt, shape, limit);
    lemma_kept(s.trials@, limit);
    s.ranked@.to_multiset_ensures();
    kept(s.trials@, limit).to_multiset_ensures();
    let rej = s.rejected as int;
    // Every probe that is ranked stands for a trial within the limit.
    assert forall|q: int| 0 <= q < s.ranked@.len() implies s.trials@[(
    #[trigger] s.ranked@[q]).index as int].within(limit) && s.ranked@[q].weight
        == s.trials@[s.ranked@[q].index as int].weight() by {
        let p = s.ranked@[q];
        assert(s.ranked@.contains(p));
        assert(s.ranked@.to_multiset().count(p) > 0);
        assert(kept(s.trials@, limit).contains(p));
        let k = choose|k: int| 0 <= k < kept(s.trials@, limit).len() && kept(s.trials@, limit)[k] == p;
        assert(kept(s.trials@, limit)[k] == p);
    }
    // A candidate that does well enough is ranked, and not among those rejected.
    assert forall|i: int|
        0 <= i < candidate_chains(dt).len() && #[trigger] accepted(
            backend,
            data,
            dt,
            shape,
            limit,
            candidate_chains(dt)[i],
        ) implies s.stages@.len() > 0 && (s.ranked@[rej].weight < s.trials@[i].weight() || (
    s.ranked@[rej].weight == s.trials@[i].weight() && s.ranked@[rej].index <= i)) by {
        assert(s.trials@[i].within(limit));
        let p = Probe { index: i as usize, weight: s.trials@[i].weight() };
        assert(kept(s.trials@, limit).contains(p));
        assert(kept(s.trials@, limit).to_multiset().count(p) > 0);
        assert(s.ranked@.contains(p));
        let q = choose|q: int| 0 <= q < s.ranked@.len() && s.ranked@[q] == p;
        assert(s.ranked@[q] == p);
        if q < s.fulls@.len() {
            assert(s.fulls@[q] == trial_for(
                backend,
                data,
                dt,
                shape,
                limit,
                candidate_chains(dt)[s.ranked@[q].index as int],
            ));
            assert(s.fulls@[q].within(limit));
        }
        if s.stages@.len() > 0 && q > rej {
            assert(comes_before(s.ranked@[rej], s.ranked@[q]) || s.ranked@[rej] == s.ranked@[q]);
        }
    }
    if s.stages@.len() > 0 {
        assert(s.fulls@[rej].within(limit));
    }
}

/// Chooses the chain for a blob.
///
/// Every candidate for the type is tried on the head of the blob, [`probe_head`]. Those
/// whose round trip succeeds there within the limit are tried on the whole blob, in the
/// order that [`rank`] gives the probes that [`keep_probes`] keeps, and the first whose
/// round trip stays within the limit is chosen. A chain whose round trip fails on the
/// whole blob is passed over like one that goes beyond the limit. Where no chain is left,
/// the blob is kept as it is: so it is within a limit that accepts nothing, and for a blob
/// that holds a NaN. The choice never fails.
pub fn select_chain<B: Backend>(
    backend: &B,
    data: &[u8],
    dt: DataType,
    shape: &[usize],
    error_limit: Tolerance,
) -> (r: Result<Selection>)
    requires
        aligned(data@.len(), dt.width()),
    ensures
        r matches Ok(s) && s.chosen_for(backend, data@, dt, shape@, error_limit),
{
    let table = compress_method(dt);
    let head_len = if data.len() < PROBE_LEN {
        data.len()
    } else {
        PROBE_LEN
    };
    let head = vstd::slice::slice_subrange(data, 0, head_len);
    proof {
        assert(head@ =~= probe_head(data@));
    }
    let mut head_shape: Vec<usize> = Vec::new();
    head_shape.push(head_len / dt.byte_len());
    proof {
        assert(head_shape@ =~= probe_shape(data@, dt));
    }
    let mut trials: Vec<Trial> = Vec::new();
    let mut i: usize = 0;
    while i < table.len()
        invariant
            holds(table@, candidate_chains(dt)),
            i <= table@.len(),
            trials@.len() == i,
            head@ == probe_head(data@),
            head_shape@ == probe_shape(data@, dt),
            forall|k: int|
                0 <= k < i ==> (#[trigger] trials@[k]).tried_on(
                    backend,
                    head@,
                    dt,
                    head_shape@,
                    error_limit,
                    candidate_chains(dt)[k],
                ),
        decreases table@.len() - i,
    {
        let tried = compress(
            backend,
            head,
            dt,
            head_shape.as_slice(),
            table[i].as_slice(),
            error_limit,
        );
        let t = trial_of(&tried);
        proof {
            if let Ok((outputs, error)) = tried {
                assert(round_trip(
                    backend,
                    outputs@,
                    error,
                    head@,
                    dt,
                    head_shape@,
                    error_limit,
                    candidate_chains(dt)[i as int],
                ));
            }
            assert(t.tried_on(
                backend,
                head@,
                dt,
                head_shape@,
                error_limit,
                candidate_chains(dt)[i as int],
            ));
        }
        let ghost before = trials@;
        trials.push(t);
        proof {
            assert forall|k: int| 0 <= k < i + 1 implies (#[trigger] trials@[k]).tried_on(
                backend,
                head@,
                dt,
                head_shape@,
                error_limit,
                candidate_chains(dt)[k],
            ) by {
                if k < i {
                    assert(trials@[k] == before[k]);
                }
            }
        }
        i = i + 1;
    }
    let probes = keep_probes(&trials, error_limit);
    let order = rank(&probes);
    proof {
        lemma_kept(trials@, error_limit);
        order@.to_multiset_ensures();
        probes@.to_multiset_ensures();
        assert forall|j: int| 0 <= j < order@.len() implies (#[trigger] order@[j]).index
            < table@.len() by {
            let p = order@[j];
            assert(order@.contains(p));
            assert(order@.to_multiset().count(p) > 0);
            assert(probes@.to_multiset().count(p) > 0);
            assert(probes@.contains(p));
        }
    }
    let mut fulls: Vec<Trial> = Vec::new();
    let mut k: usize = 0;
    while k < order.len()
        invariant
            holds(table@, candidate_chains(dt)),
            k <= order@.len(),
            fulls@.len() == k,
            in_order(order@),
            forall|j: int| 0 <= j < order@.len() ==> (#[trigger] order@[j]).index < table@.len(),
            head@ == probe_head(data@),
            order@.to_multiset() == kept(trials@, error_limit).to_multiset(),
            trials@.len() == candidate_chains(dt).len(),
            head_shape@ == probe_shape(data@, dt),
            forall|j: int|
                0 <= j < trials@.len() ==> (#[trigger] trials@[j]).tried_on(
                    backend,
                    head@,
                    dt,
                    head_shape@,
                    error_limit,
                    candidate_chains(dt)[j],
                ),
            forall|j: int|
                0 <= j < k ==> (#[trigger] fulls@[j]).tried_on(
                    backend,
                    data@,
                    dt,
                    shape@,
                    error_limit,
                    candidate_chains(dt)[order@[j].index as int],
                ) && !fulls@[j].within(error_limit),
        decreases order@.len() - k,
    {
        let index = order[k].index;
        let tried = compress(backend, data, dt, shape, table[index].as_slice(), error_limit);
        let t = trial_of(&tried);
        let ghost before = fulls@;
        match tried {
            Err(_) => {
                proof {
                    assert(t.tried_on(
                        backend,
                        data@,
                        dt,
                        shape@,
                        error_limit,
                        candidate_chains(dt)[index as int],
                    ));
                }
                fulls.push(t);
                proof {
                    assert forall|j: int| 0 <= j < k implies #[trigger] fulls@[j] == before[j] by {}
                }
            },
            Ok((outputs, error)) => {
                proof {
                    assert(round_trip(
                        backend,
                        outputs@,
                        error,
                        data@,
                        dt,
                        shape@,
                        error_limit,
                        candidate_chains(dt)[index as int],
                    ));
                    assert(t.tried_on(
                        backend,
                        data@,
                        dt,
                        shape@,
                        error_limit,
                        candidate_chains(dt)[index as int],
                    ));
                }
                fulls.push(t);
                proof {
                    assert forall|j: int| 0 <= j < k implies #[trigger] fulls@[j] == before[j] by {}
                }
                if t.passes(error_limit) {
                    let rejected = match first_within(&fulls, error_limit) {
                        Some(p) => p,
                        None => k,
                    };
                    assert(rejected == k);
                    let mut table = table;
                    let stages = table.remove(index);
                    proof {
                        assert(stages@ == candidate_chains(dt)[index as int]);
                        assert(stages@.len() > 0);
                    }
                    return Ok(
                        Selection {
                            stages,
                            outputs,
                            error,
                            trials,
                            ranked: order,
                            fulls,
                            rejected,
                        },
                    );
                }
            },
        }
        k = k + 1;
    }
    Ok(
        Selection {
            stages: Vec::new(),
            outputs: BufferList::of(data),
            error: None,
            trials,
            ranked: order,
            fulls,
            rejected: k,
        },
    )
}

} // verus!
