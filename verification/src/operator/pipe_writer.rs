//! The adapter for a stage that is a streaming coder.
use crate::executor::{
    all_empty, at_end, capped, gives, lemma_total_of_empty, total, total_len, Context, Operator,
    PATIENCE,
};
use crate::operator::coder::{all_fresh, none_holds, Coder};
use crate::result::{Error, Result};
use vstd::prelude::*;

verus! {

/// Feeds what each output of its parent gives to a streaming coder of its own, and gives
/// what the coders write.
pub struct PipeWriter<P: Operator> {
    parent: P,
    writers: Vec<Coder>,
    eof: bool,
    fed: Ghost<Seq<Seq<u8>>>,
    given: Ghost<Seq<Seq<u8>>>,
}

/// Whether the stream of every one of the coders was ended.
pub open spec fn all_finished(coders: Seq<Coder>) -> bool {
    forall|i: int| 0 <= i < coders.len() ==> (#[trigger] coders[i]).finished()
}

/// Buffers, of which one holds something, hold no fewer bytes than that one.
pub proof fn lemma_total_holds(bufs: Seq<Vec<u8>>, j: int)
    requires
        0 <= j < bufs.len(),
    ensures
        total(bufs) >= bufs[j]@.len(),
    decreases bufs.len(),
{
    if j < bufs.len() - 1 {
        lemma_total_holds(bufs.drop_last(), j);
    }
}

impl<P: Operator> PipeWriter<P> {
    /// Whether the parent has come to the end of its stream.
    pub closed spec fn ended(&self) -> bool {
        self.eof
    }

    /// What each coder has written and not given yet.
    pub closed spec fn held(&self) -> Seq<Seq<u8>> {
        Seq::new(self.writers@.len(), |i: int| self.writers@[i].holds())
    }

    /// What each coder was fed so far, as the coder has taken note of it: the blocks of its
    /// output of the parent, one behind the other.
    pub closed spec fn fed(&self) -> Seq<Seq<u8>> {
        self.fed@
    }

    /// What the adapter has given so far on each output, as the coder of the output has
    /// taken note of it: its blocks, one behind the other.
    pub closed spec fn given(&self) -> Seq<Seq<u8>> {
        self.given@
    }

    /// Whether the records of the adapter are those of its coders: what each coder was
    /// fed and has given.
    pub closed spec fn noted(&self) -> bool {
        forall|i: int|
            0 <= i < self.writers@.len() ==> (#[trigger] self.writers@[i]).fed() == self.fed@[i]
                && self.writers@[i].given() == self.given@[i]
    }

    /// The coders of the adapter.
    pub closed spec fn coders(&self) -> Seq<Coder> {
        self.writers@
    }

    /// Whether the parent foretells what it has yet to give.
    pub closed spec fn source_foretold(&self) -> bool {
        self.parent.foretold()
    }

    /// What the parent has yet to give, on each output, if it foretells it.
    pub closed spec fn source_rest(&self) -> Seq<Seq<u8>> {
        self.parent.rest()
    }

    /// What each coder is fed in all: what it was fed so far, followed by what the parent
    /// has yet to give on its output, where the parent foretells it.
    pub open spec fn whole(&self) -> Seq<Seq<u8>> {
        Seq::new(self.fed().len(), |i: int| self.fed()[i] + self.source_rest()[i])
    }

    /// Whether the next blocks can be given without asking the parent: its stream has
    /// ended, or some coder has written something.
    pub open spec fn ready(&self) -> bool {
        self.ended() || exists|i: int|
            0 <= i < self.held().len() && (#[trigger] self.held()[i]).len() > 0
    }

    /// The adapter for the outputs of `parent`, with `writers` to feed: one coder for each
    /// output, or [`Error::FanOutMismatch`]. No coder was fed anything yet.
    pub fn new(parent: P, writers: Vec<Coder>) -> (r: Result<Box<Self>>)
        requires
            parent.inv(),
            all_fresh(writers@),
        ensures
            r is Ok <==> writers@.len() == parent.outputs(),
            r matches Ok(op) ==> op.inv() && op.outputs() == parent.outputs() && !op.ended()
                && !op.ready(),
            r matches Ok(op) ==> op.source_foretold() == parent.foretold() && op.source_rest()
                == parent.rest() && op.fed().len() == parent.outputs() && at_end(op.fed()),
            r matches Ok(op) ==> op.given().len() == parent.outputs() && at_end(op.given()),
            r is Err ==> r matches Err(Error::FanOutMismatch),
    {
        if parent.num_outputs() != writers.len() {
            return Err(Error::FanOutMismatch);
        }
        let ghost none = Seq::new(writers@.len(), |i: int| Seq::<u8>::empty());
        let op = Box::new(
            Self { parent, writers, eof: false, fed: Ghost(none), given: Ghost(none) },
        );
        proof {
            assert forall|i: int| 0 <= i < op.held().len() implies (#[trigger] op.held()[i]).len()
                == 0 by {
                assert(op.writers@[i].fresh());
            }
            assert forall|i: int| 0 <= i < op.writers@.len() implies (#[trigger] op.writers@[i]).fed()
                == op.fed@[i] && op.writers@[i].given() == op.given@[i] by {
                assert(op.writers@[i].fresh());
                assert(op.writers@[i].fed() =~= op.fed@[i]);
                assert(op.writers@[i].given() =~= op.given@[i]);
            }
        }
        Ok(op)
    }

    /// What holds of the adapter between two calls: each output has its coder, and the
    /// records of the adapter are those that the coders keep of what they were fed and of
    /// what they have given. Once the parent's stream has ended, the streams of the coders
    /// were ended, the coders hold nothing, and a parent that foretold its streams has
    /// nothing left to give.
    pub proof fn lemma_inv(&self)
        requires
            self.inv(),
        ensures
            self.fed().len() == self.outputs(),
            self.given().len() == self.outputs(),
            self.held().len() == self.outputs(),
            self.coders().len() == self.outputs(),
            forall|i: int|
                0 <= i < self.coders().len() ==> (#[trigger] self.coders()[i]).fed() == self.fed()[i]
                    && self.coders()[i].given() == self.given()[i] && self.coders()[i].holds()
                    == self.held()[i],
            self.ended() ==> all_finished(self.coders()),
            self.ended() && self.source_foretold() ==> at_end(self.source_rest()),
            self.ended() ==> !self.ready() || forall|i: int|
                0 <= i < self.held().len() ==> (#[trigger] self.held()[i]).len() == 0,
    {
        if self.ended() {
            assert forall|i: int| 0 <= i < self.held().len() implies (#[trigger] self.held()[i]).len()
                == 0 by {
                assert(self.writers@[i].holds().len() == 0);
            }
        }
    }

    /// Whether some coder has written something.
    fn any_written(&self) -> (b: bool)
        ensures
            b == !none_holds(self.writers@),
    {
        let mut i: usize = 0;
        while i < self.writers.len()
            invariant
                i <= self.writers@.len(),
                forall|j: int| 0 <= j < i ==> (#[trigger] self.writers@[j]).holds().len() == 0,
            decreases self.writers@.len() - i,
        {
            if self.writers[i].len() > 0 {
                return true;
            }
            i = i + 1;
        }
        false
    }

    /// Feeds each of the blocks to its coder, or ends the coders' streams where the parent
    /// gave the number zero, and takes note of what was fed. Blocks that are all empty are
    /// fed without fail.
    fn feed(&mut self, n: usize, out: &Vec<Vec<u8>>) -> (r: Result<()>)
        requires
            old(self).writers@.len() == out@.len(),
            old(self).fed@.len() == out@.len(),
        ensures
            final(self).parent == old(self).parent,
            final(self).eof == old(self).eof,
            final(self).given == old(self).given,
            final(self).writers@.len() == old(self).writers@.len(),
            final(self).fed@.len() == old(self).fed@.len(),
            forall|j: int|
                0 <= j < out@.len() ==> (#[trigger] old(self).fed@[j]).is_prefix_of(
                    final(self).fed@[j],
                ),
            r is Ok && n > 0 ==> forall|j: int|
                0 <= j < out@.len() ==> #[trigger] final(self).fed@[j] == old(self).fed@[j]
                    + out@[j]@,
            n == 0 ==> final(self).fed@ == old(self).fed@,
            r is Err ==> r matches Err(Error::Io),
            n > 0 && all_empty(out@) ==> r is Ok,
            old(self).noted() ==> final(self).noted(),
            n == 0 && r is Ok ==> all_finished(final(self).writers@),
            forall|j: int|
                0 <= j < out@.len() ==> (#[trigger] old(self).writers@[j]).holds().is_prefix_of(
                    final(self).writers@[j].holds(),
                ),
    {
        let count = out.len();
        let mut i: usize = 0;
        while i < count
            invariant
                self.parent == old(self).parent,
                self.eof == old(self).eof,
                self.given == old(self).given,
                self.writers@.len() == count,
                old(self).writers@.len() == count,
                self.fed@.len() == count,
                old(self).fed@.len() == count,
                out@.len() == count,
                i <= count,
                n == 0 ==> self.fed@ == old(self).fed@,
                forall|j: int| i <= j < count ==> #[trigger] self.fed@[j] == old(self).fed@[j],
                n > 0 ==> forall|j: int|
                    0 <= j < i ==> #[trigger] self.fed@[j] == old(self).fed@[j] + out@[j]@,
                old(self).noted() ==> self.noted(),
                n == 0 ==> forall|j: int| 0 <= j < i ==> (#[trigger] self.writers@[j]).finished(),
                forall|j: int| i <= j < count ==> #[trigger] self.writers@[j] == old(self).writers@[j],
                forall|j: int|
                    0 <= j < count ==> (#[trigger] old(self).writers@[j]).holds().is_prefix_of(
                        self.writers@[j].holds(),
                    ),
            decreases count - i,
        {
            let ghost coders = self.writers@;
            let done = if n == 0 {
                self.writers[i].finish()
            } else {
                self.writers[i].write_all(out[i].as_slice())
            };
            proof {
                assert forall|j: int| 0 <= j < count && j != i implies #[trigger] self.writers@[j]
                    == coders[j] by {}
                assert forall|j: int| 0 <= j < count implies (#[trigger] old(self).writers@[j]).holds().is_prefix_of(
                    self.writers@[j].holds(),
                ) by {
                    if j == i {
                        crate::executor::lemma_prefix_of_prefix(
                            old(self).writers@[j].holds(),
                            coders[j].holds(),
                            self.writers@[j].holds(),
                        );
                    } else {
                        assert(self.writers@[j] == coders[j]);
                    }
                }
                if old(self).noted() && (done is Err || n == 0) {
                    assert forall|j: int| 0 <= j < count implies (#[trigger] self.writers@[j]).fed()
                        == self.fed@[j] && self.writers@[j].given() == self.given@[j] by {
                        assert(coders[j].fed() == self.fed@[j]);
                        if j != i {
                            assert(self.writers@[j] == coders[j]);
                        }
                    }
                }
                if n == 0 && done is Ok {
                    assert forall|j: int| 0 <= j < i + 1 implies (#[trigger] self.writers@[j]).finished() by {
                        if j < i {
                            assert(self.writers@[j] == coders[j]);
                        }
                    }
                }
            }
            if let Err(e) = done {
                proof {
                    assert forall|j: int| 0 <= j < count implies (#[trigger] old(self).fed@[j]).is_prefix_of(
                        self.fed@[j],
                    ) by {
                        if n > 0 && j < i {
                            assert(self.fed@[j] == old(self).fed@[j] + out@[j]@);
                        }
                    }
                }
                return Err(e);
            }
            if n > 0 {
                let ghost was = self.fed@;
                self.fed = Ghost(was.update(i as int, was[i as int] + out@[i as int]@));
                proof {
                    assert forall|j: int| 0 <= j < i + 1 implies #[trigger] self.fed@[j] == old(self).fed@[j] + out@[j]@ by {
                        if j < i {
                            assert(self.fed@[j] == was[j]);
                        }
                    }
                    assert forall|j: int| i + 1 <= j < count implies #[trigger] self.fed@[j] == old(self).fed@[j] by {
                        assert(self.fed@[j] == was[j]);
                    }
                    if old(self).noted() {
                        assert forall|j: int| 0 <= j < count implies (#[trigger] self.writers@[j]).fed()
                            == self.fed@[j] && self.writers@[j].given() == self.given@[j] by {
                            assert(coders[j].fed() == was[j]);
                            if j != i {
                                assert(self.writers@[j] == coders[j]);
                                assert(self.fed@[j] == was[j]);
                            }
                        }
                    }
                }
            }
            i = i + 1;
        }
        proof {
            assert forall|j: int| 0 <= j < count implies (#[trigger] old(self).fed@[j]).is_prefix_of(
                self.fed@[j],
            ) by {
                if n > 0 {
                    assert(self.fed@[j] == old(self).fed@[j] + out@[j]@);
                }
            }
        }
        Ok(())
    }

    /// Gives the next blocks.
    ///
    /// Blocks are asked of the parent and fed to the coders until one of them has written
    /// something; at the end of the parent's stream the coders end theirs. Then each
    /// output gets what its coder has written, in the place of what it held, and the
    /// coders hold nothing. The number given is that of the bytes in all the blocks, or
    /// the largest `usize` where they are more: it is zero only once the parent's stream
    /// has ended, and after that end no output gets anything.
    ///
    /// What each coder was fed is taken note of: it only grows, and where the parent
    /// foretells its streams, what was fed and what the parent has yet to give make up the
    /// same stream after the call as before it. So at the end of a foretold stream each
    /// coder was fed all of its output of the parent. What is given on each output is taken
    /// note of too: the blocks of a call that succeeds come behind those given before.
    ///
    /// Where the parent need not be asked, because its stream has ended or a coder has
    /// written something already, the call succeeds, feeds nothing and gives what the
    /// coders held.
    pub fn pump(&mut self, ctx: &Context, out: &mut Vec<Vec<u8>>) -> (r: Result<usize>)
        requires
            old(self).inv(),
            old(out)@.len() == old(self).outputs(),
        ensures
            final(self).inv(),
            final(self).outputs() == old(self).outputs(),
            final(out)@.len() == old(out)@.len(),
            final(self).held().len() == old(out)@.len(),
            old(self).held().len() == old(out)@.len(),
            old(self).ended() ==> final(self).ended(),
            r matches Ok(n) ==> n == capped(total(final(out)@) as int),
            r matches Ok(n) ==> n == 0 ==> final(self).ended(),
            r is Ok ==> forall|i: int|
                0 <= i < final(self).held().len() ==> (#[trigger] final(self).held()[i]).len() == 0,
            old(self).ready() ==> r is Ok && final(self).ended() == old(self).ended()
                && final(self).fed() == old(self).fed(),
            old(self).ready() ==> forall|i: int|
                0 <= i < final(out)@.len() ==> (#[trigger] final(out)@[i])@ == old(self).held()[i],
            old(self).ended() ==> r == Ok::<usize, Error>(0) && all_empty(final(out)@),
            final(self).fed().len() == old(out)@.len(),
            old(self).fed().len() == old(out)@.len(),
            forall|i: int|
                0 <= i < old(out)@.len() ==> (#[trigger] old(self).fed()[i]).is_prefix_of(
                    final(self).fed()[i],
                ),
            r is Ok ==> final(self).source_foretold() == old(self).source_foretold(),
            r is Ok && old(self).source_foretold() ==> final(self).whole() == old(self).whole(),
            final(self).ended() && final(self).source_foretold() ==> at_end(
                final(self).source_rest(),
            ),
            final(self).given().len() == old(out)@.len(),
            old(self).given().len() == old(out)@.len(),
            r is Ok ==> forall|i: int|
                0 <= i < old(out)@.len() ==> #[trigger] final(self).given()[i] == old(self).given()[i] + final(out)@[i]@,
            r is Err ==> final(self).given() == old(self).given(),
    {
        let count = out.len();
        let mut rounds: usize = 0;
        let mut ended = self.eof;
        while !ended && !self.any_written()
            invariant
                old(self).ready() ==> self.writers@ == old(self).writers@ && ended == old(self).eof
                    && self.fed@ == old(self).fed@ && self.parent == old(self).parent,
                old(self).writers@.len() == count,
                old(self).fed@.len() == count,
                self.fed@.len() == count,
                self.given == old(self).given,
                self.given@.len() == count,
                self.parent.inv(),
                self.parent.outputs() == old(self).parent.outputs(),
                self.writers@.len() == count,
                count == self.parent.outputs(),
                count == old(out)@.len(),
                out@.len() == count,
                self.eof == old(self).eof,
                old(self).eof ==> ended,
                self.eof ==> none_holds(self.writers@),
                self.noted(),
                ended ==> all_finished(self.writers@),
                self.eof && self.parent.foretold() ==> at_end(self.parent.rest()),
                ended && self.parent.foretold() ==> at_end(self.parent.rest()),
                forall|j: int|
                    0 <= j < count ==> (#[trigger] old(self).fed@[j]).is_prefix_of(self.fed@[j]),
                old(self).parent.foretold() ==> self.parent.foretold() && forall|j: int|
                    0 <= j < count ==> #[trigger] self.fed@[j] + self.parent.rest()[j] == old(self).fed@[j] + old(self).parent.rest()[j],
                !old(self).parent.foretold() ==> !self.parent.foretold(),
            decreases PATIENCE - rounds,
        {
            proof {
                if old(self).ready() {
                    assert forall|i: int| 0 <= i < old(self).held().len() implies (
                    #[trigger] old(self).held()[i]).len() == 0 by {
                        assert(self.writers@[i].holds().len() == 0);
                    }
                }
                assert(!old(self).ready());
            }
            if rounds >= PATIENCE {
                return Err(Error::Unknown);
            }
            rounds = rounds + 1;
            let ghost before = self.parent.rest();
            let ghost fed_before = self.fed@;
            let n = match self.parent.next(ctx, out) {
                Ok(n) => n,
                Err(e) => {
                    return Err(e);
                },
            };
            if n == 0 {
                ended = true;
            }
            proof {
                if self.parent.foretold() {
                    assert(gives(before, out@, self.parent.rest()));
                    if n == 0 {
                        assert forall|j: int| 0 <= j < self.parent.rest().len() implies (
                        #[trigger] self.parent.rest()[j]).len() == 0 by {
                            assert(before[j] == out@[j]@ + self.parent.rest()[j]);
                        }
                    }
                }
            }
            let fed = self.feed(n, out);
            proof {
                assert forall|j: int| 0 <= j < count implies (#[trigger] old(self).fed@[j]).is_prefix_of(
                    self.fed@[j],
                ) by {
                    crate::executor::lemma_prefix_of_prefix(
                        old(self).fed@[j],
                        fed_before[j],
                        self.fed@[j],
                    );
                }
            }
            if let Err(e) = fed {
                return Err(e);
            }
            proof {
                if old(self).parent.foretold() {
                    assert forall|j: int| 0 <= j < count implies #[trigger] self.fed@[j]
                        + self.parent.rest()[j] == old(self).fed@[j] + old(self).parent.rest()[j] by {
                        assert(before[j] == out@[j]@ + self.parent.rest()[j]);
                        assert(fed_before[j] + before[j] == old(self).fed@[j] + old(self).parent.rest()[j]);
                        if n > 0 {
                            assert(self.fed@[j] == fed_before[j] + out@[j]@);
                            assert(self.fed@[j] + self.parent.rest()[j] =~= fed_before[j] + (
                            out@[j]@ + self.parent.rest()[j]));
                        } else {
                            assert(before[j].len() == 0);
                            assert(out@[j]@ + self.parent.rest()[j] =~= self.parent.rest()[j]);
                        }
                    }
                }
            }
        }
        let written = self.any_written();
        let mut i: usize = 0;
        let ghost fed = self.writers@;
        let ghost noted = self.fed@;
        let ghost source = self.parent;
        while i < count
            invariant
                old(self).writers@.len() == count,
                self.fed@ == noted,
                self.parent == source,
                self.noted(),
                ended ==> all_finished(self.writers@),
                self.given@.len() == count,
                forall|j: int| i <= j < count ==> #[trigger] self.given@[j] == old(self).given@[j],
                forall|j: int|
                    0 <= j < i ==> #[trigger] self.given@[j] == old(self).given@[j] + out@[j]@,
                self.parent.inv(),
                self.parent.outputs() == old(self).parent.outputs(),
                self.writers@.len() == count,
                fed.len() == count,
                count == self.parent.outputs(),
                count == old(out)@.len(),
                out@.len() == count,
                self.eof == old(self).eof,
                i <= count,
                forall|j: int| 0 <= j < i ==> (#[trigger] self.writers@[j]).holds().len() == 0,
                forall|j: int| i <= j < count ==> #[trigger] self.writers@[j] == fed[j],
                forall|j: int| 0 <= j < i ==> (#[trigger] out@[j])@ == fed[j].holds(),
                old(self).eof ==> none_holds(self.writers@),
                old(self).eof ==> forall|j: int| 0 <= j < i ==> (#[trigger] out@[j])@.len() == 0,
            decreases count - i,
        {
            let mut block: Vec<u8> = Vec::new();
            core::mem::swap(&mut block, &mut out[i]);
            block.clear();
            let ghost before = self.writers@;
            let ghost given = out@;
            self.writers[i].give(&mut block);
            out.set(i, block);
            let ghost handed = self.given@;
            self.given = Ghost(handed.update(i as int, handed[i as int] + out@[i as int]@));
            proof {
                assert forall|j: int| 0 <= j < count && j != i implies #[trigger] self.writers@[j]
                    == before[j] by {}
                assert forall|j: int| 0 <= j < count implies (#[trigger] self.writers@[j]).fed()
                    == self.fed@[j] && self.writers@[j].given() == self.given@[j] by {
                    assert(before[j].fed() == self.fed@[j] && before[j].given() == handed[j]);
                    if j != i {
                        assert(self.writers@[j] == before[j]);
                    }
                }
                if ended {
                    assert forall|j: int| 0 <= j < count implies (#[trigger] self.writers@[j]).finished() by {
                        assert(before[j].finished());
                        if j != i {
                            assert(self.writers@[j] == before[j]);
                        }
                    }
                }
                assert forall|j: int| i + 1 <= j < count implies #[trigger] self.given@[j] == old(self).given@[j] by {
                    assert(self.given@[j] == handed[j]);
                }
                assert forall|j: int| 0 <= j < i + 1 implies #[trigger] self.given@[j] == old(self).given@[j] + out@[j]@ by {
                    if j < i {
                        assert(self.given@[j] == handed[j]);
                        assert(out@[j] == given[j]);
                    }
                }
                assert forall|j: int| 0 <= j < self.writers@.len() && (j < i + 1 || old(self).eof) implies (#[trigger] self.writers@[j]).holds().len() == 0 by {
                    if j != i {
                        assert(self.writers@[j] == before[j]);
                    }
                }
                assert forall|j: int| i + 1 <= j < count implies #[trigger] self.writers@[j]
                    == fed[j] by {
                    assert(self.writers@[j] == before[j]);
                }
                assert forall|j: int| 0 <= j < i + 1 implies (#[trigger] out@[j])@
                    == fed[j].holds() by {
                    if j < i {
                        assert(out@[j] == given[j]);
                    }
                }
            }
            i = i + 1;
        }
        self.eof = ended;
        proof {
            assert forall|j: int| 0 <= j < self.held().len() implies (#[trigger] self.held()[j]).len()
                == 0 by {
                assert(self.writers@[j].holds().len() == 0);
            }
            if old(self).ready() {
                assert forall|j: int| 0 <= j < count implies (#[trigger] out@[j])@ == old(self).held()[j] by {
                    assert(out@[j]@ == fed[j].holds());
                }
            }
            if old(self).eof {
                lemma_total_of_empty(out@);
            }
            if written {
                let j = choose|j: int| 0 <= j < fed.len() && (#[trigger] fed[j]).holds().len() > 0;
                assert(out@[j]@ == fed[j].holds());
                lemma_total_holds(out@, j);
            }
            if old(self).parent.foretold() {
                assert(self.whole() =~= old(self).whole());
            }
        }
        Ok(total_len(out))
    }
}

impl<P: Operator> Operator for PipeWriter<P> {
    closed spec fn inv(&self) -> bool {
        &&& self.parent.inv()
        &&& self.writers@.len() == self.parent.outputs()
        &&& self.fed@.len() == self.parent.outputs()
        &&& self.given@.len() == self.parent.outputs()
        &&& self.noted()
        &&& self.eof ==> all_finished(self.writers@)
        &&& self.eof ==> none_holds(self.writers@)
        &&& self.eof && self.parent.foretold() ==> at_end(self.parent.rest())
    }

    closed spec fn outputs(&self) -> nat {
        self.parent.outputs()
    }

    open spec fn counting(&self) -> bool {
        true
    }

    fn num_outputs(&self) -> (n: usize) {
        self.parent.num_outputs()
    }

    /// The next blocks, as `pump` gives them.
    fn next(&mut self, ctx: &Context, out: &mut Vec<Vec<u8>>) -> (r: Result<usize>)
        ensures
            final(self).held().len() == old(out)@.len(),
            old(self).held().len() == old(out)@.len(),
            old(self).ended() ==> final(self).ended(),
            r matches Ok(n) ==> n == capped(total(final(out)@) as int),
            r matches Ok(n) ==> n == 0 ==> final(self).ended(),
            r is Ok ==> forall|i: int|
                0 <= i < final(self).held().len() ==> (#[trigger] final(self).held()[i]).len() == 0,
            old(self).ready() ==> r is Ok && final(self).ended() == old(self).ended()
                && final(self).fed() == old(self).fed(),
            old(self).ready() ==> forall|i: int|
                0 <= i < final(out)@.len() ==> (#[trigger] final(out)@[i])@ == old(self).held()[i],
            old(self).ended() ==> r == Ok::<usize, Error>(0) && all_empty(final(out)@),
            final(self).fed().len() == old(out)@.len(),
            old(self).fed().len() == old(out)@.len(),
            forall|i: int|
                0 <= i < old(out)@.len() ==> (#[trigger] old(self).fed()[i]).is_prefix_of(
                    final(self).fed()[i],
                ),
            r is Ok ==> final(self).source_foretold() == old(self).source_foretold(),
            r is Ok && old(self).source_foretold() ==> final(self).whole() == old(self).whole(),
            final(self).ended() && final(self).source_foretold() ==> at_end(
                final(self).source_rest(),
            ),
            final(self).given().len() == old(out)@.len(),
            old(self).given().len() == old(out)@.len(),
            r is Ok ==> forall|i: int|
                0 <= i < old(out)@.len() ==> #[trigger] final(self).given()[i] == old(self).given()[i] + final(out)@[i]@,
            r is Err ==> final(self).given() == old(self).given(),
    {
        self.pump(ctx, out)
    }
}

} // verus!
