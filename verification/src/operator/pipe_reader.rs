//! The adapter for a stage that is a streaming decoder.
use crate::executor::{all_empty, at_end, capped, total, total_len, Context, Operator};
use crate::operator::block_align::take_front;
use crate::operator::coder::{all_fresh, Coder};
use crate::operator::pipe_writer::{lemma_total_holds, PipeWriter};
use crate::result::{Error, Result};
use vstd::prelude::*;

verus! {

/// Feeds what each output of its parent gives to a streaming decoder of its own, and gives
/// what the decoders write, in blocks of no more than a given size.
pub struct PipeReader<P: Operator> {
    inner: Box<PipeWriter<P>>,
    blk_size: usize,
    pending: Vec<Vec<u8>>,
    given: Ghost<Seq<Seq<u8>>>,
}

/// The length of the block of no more than `block` bytes that is cut from `held`.
pub open spec fn share_of(block: nat, held: Seq<u8>) -> int {
    if held.len() < block {
        held.len() as int
    } else {
        block as int
    }
}

impl<P: Operator> PipeReader<P> {
    /// The size that no block of the adapter goes beyond.
    pub closed spec fn block(&self) -> nat {
        self.blk_size as nat
    }

    /// Whether the parent has come to the end of its stream.
    pub closed spec fn ended(&self) -> bool {
        self.inner.ended()
    }

    /// What the decoders have written, for each output, and the adapter has not given yet.
    pub closed spec fn pending(&self) -> Seq<Vec<u8>> {
        self.pending@
    }

    /// What each decoder was fed so far: the blocks of its output of the parent, one behind
    /// the other.
    pub closed spec fn fed(&self) -> Seq<Seq<u8>> {
        self.inner.fed()
    }

    /// What the adapter has given so far on each output: its blocks, one behind the other.
    pub closed spec fn given(&self) -> Seq<Seq<u8>> {
        self.given@
    }

    /// What the decoders have written so far, for each output: what the adapter has given
    /// of it, and then what is pending.
    pub closed spec fn decoded(&self) -> Seq<Seq<u8>> {
        self.inner.given()
    }

    /// Whether the parent foretells what it has yet to give.
    pub closed spec fn source_foretold(&self) -> bool {
        self.inner.source_foretold()
    }

    /// What the parent has yet to give, on each output, if it foretells it.
    pub closed spec fn source_rest(&self) -> Seq<Seq<u8>> {
        self.inner.source_rest()
    }

    /// What each decoder is fed in all: what it was fed so far, followed by what the parent
    /// has yet to give on its output, where the parent foretells it.
    pub open spec fn whole(&self) -> Seq<Seq<u8>> {
        Seq::new(self.fed().len(), |i: int| self.fed()[i] + self.source_rest()[i])
    }

    /// Whether something is pending that was not given yet.
    pub open spec fn has_pending(&self) -> bool {
        !all_empty(self.pending())
    }

    /// The length of the block that is cut from `held`.
    pub open spec fn share(&self, held: Seq<u8>) -> int {
        share_of(self.block(), held)
    }

    /// The adapter for the outputs of `parent`, with `readers` to feed: one decoder for
    /// each output, or [`Error::FanOutMismatch`]. No decoder was fed anything yet, and
    /// nothing is pending.
    pub fn new(parent: P, blk_size: usize, readers: Vec<Coder>) -> (r: Result<Box<Self>>)
        requires
            parent.inv(),
            all_fresh(readers@),
        ensures
            r is Ok <==> readers@.len() == parent.outputs(),
            r matches Ok(op) ==> op.inv() && op.outputs() == parent.outputs() && op.block()
                == blk_size && !op.ended() && !op.has_pending(),
            r matches Ok(op) ==> op.source_foretold() == parent.foretold() && op.source_rest()
                == parent.rest() && op.fed().len() == parent.outputs() && at_end(op.fed()),
            r matches Ok(op) ==> op.given().len() == parent.outputs() && at_end(op.given()),
            r is Err ==> r matches Err(Error::FanOutMismatch),
    {
        let count = readers.len();
        match PipeWriter::new(parent, readers) {
            Ok(inner) => {
                let mut pending: Vec<Vec<u8>> = Vec::new();
                let mut i: usize = 0;
                while i < count
                    invariant
                        i <= count,
                        pending@.len() == i,
                        all_empty(pending@),
                    decreases count - i,
                {
                    pending.push(Vec::new());
                    i = i + 1;
                }
                let ghost none = Seq::new(count as nat, |i: int| Seq::<u8>::empty());
                let op = Box::new(Self { inner, blk_size, pending, given: Ghost(none) });
                proof {
                    assert forall|j: int| 0 <= j < count implies #[trigger] op.inner.given()[j]
                        == op.given@[j] + op.pending@[j]@ by {
                        assert(op.inner.given()[j].len() == 0);
                        assert(op.pending@[j]@.len() == 0);
                        assert(op.inner.given()[j] =~= op.given@[j] + op.pending@[j]@);
                    }
                }
                Ok(op)
            },
            Err(e) => Err(e),
        }
    }

    /// Whether something is pending that was not given yet.
    fn any_pending(&self) -> (b: bool)
        ensures
            b == self.has_pending(),
    {
        let mut i: usize = 0;
        while i < self.pending.len()
            invariant
                i <= self.pending@.len(),
                forall|j: int| 0 <= j < i ==> (#[trigger] self.pending@[j])@.len() == 0,
            decreases self.pending@.len() - i,
        {
            if self.pending[i].len() > 0 {
                return true;
            }
            i = i + 1;
        }
        false
    }

    /// Gives the next blocks: for each output, what comes first of what its decoder has
    /// written, and no more of it than the block size.
    ///
    /// Where nothing is pending, the parent is asked and the decoders are fed, as
    /// [`PipeWriter::pump`] does, until one of them has written something or the parent's
    /// stream has ended; what they wrote is pending then. Each block is cut from what is
    /// pending for its output, and the rest stays pending. The number given is that of the
    /// bytes in all the blocks, or the largest `usize` where they are more. With blocks
    /// that may hold something it is zero only once the parent's stream has ended and
    /// nothing is pending any more.
    ///
    /// Where something is pending, the call succeeds and feeds nothing. What each decoder
    /// was fed is taken note of as [`PipeWriter::pump`] does, and so is what the adapter
    /// gives: the blocks of a call that succeeds come behind those given before, and with
    /// what is pending they are what the decoders have written.
    pub fn pump(&mut self, ctx: &Context, out: &mut Vec<Vec<u8>>) -> (r: Result<usize>)
        requires
            old(self).inv(),
            old(out)@.len() == old(self).outputs(),
        ensures
            final(self).inv(),
            final(self).outputs() == old(self).outputs(),
            final(self).block() == old(self).block(),
            final(out)@.len() == old(out)@.len(),
            final(self).pending().len() == old(out)@.len(),
            old(self).pending().len() == old(out)@.len(),
            old(self).ended() ==> final(self).ended(),
            r matches Ok(n) ==> n == capped(total(final(out)@) as int),
            r is Ok ==> forall|i: int|
                0 <= i < final(out)@.len() ==> (#[trigger] final(out)@[i])@.len() <= old(self).block(),
            r matches Ok(n) ==> n == 0 && old(self).block() > 0 ==> final(self).ended()
                && !final(self).has_pending(),
            old(self).has_pending() ==> r is Ok && final(self).ended() == old(self).ended()
                && final(self).fed() == old(self).fed(),
            old(self).has_pending() ==> forall|i: int|
                0 <= i < final(out)@.len() ==> (#[trigger] final(out)@[i])@ == old(self).pending()[i]@.subrange(0, old(self).share(old(self).pending()[i]@))
                    && final(self).pending()[i]@ == old(self).pending()[i]@.subrange(
                    old(self).share(old(self).pending()[i]@),
                    old(self).pending()[i]@.len() as int,
                ),
            old(self).ended() && !old(self).has_pending() ==> r == Ok::<usize, Error>(0)
                && all_empty(final(out)@),
            final(self).fed().len() == old(out)@.len(),
            old(self).fed().len() == old(out)@.len(),
            forall|i: int|
                0 <= i < old(out)@.len() ==> (#[trigger] old(self).fed()[i]).is_prefix_of(
                    final(self).fed()[i],
                ),
            r is Ok ==> final(self).source_foretold() == old(self).source_foretold(),
            r is Ok && old(self).source_foretold() ==> final(self).whole() == old(self).whole(),
            final(self).ended() && final(self).source_foretold() ==> at_end(
                final(self).source_rest(),
            ),
            final(self).given().len() == old(out)@.len(),
            old(self).given().len() == old(out)@.len(),
            final(self).decoded().len() == old(out)@.len(),
            r is Ok ==> forall|i: int|
                0 <= i < old(out)@.len() ==> #[trigger] final(self).given()[i] == old(self).given()[i]
                    + final(out)@[i]@,
            r is Err ==> final(self).given() == old(self).given(),
            forall|i: int|
                0 <= i < old(out)@.len() ==> #[trigger] final(self).decoded()[i] == final(self).given()[i] + final(self).pending()[i]@,
    {
        let count = out.len();
        let waiting = self.any_pending();
        let ghost mut asked: int = 1;
        proof {
            self.inner.lemma_inv();
        }
        let ghost taken = self.given@;
        if !waiting {
            let mut tmp = ctx.allocate(count);
            let given = self.inner.pump(ctx, &mut tmp);
            let n = match given {
                Ok(n) => n,
                Err(e) => {
                    return Err(e);
                },
            };
            let ghost blocks = tmp@;
            let ghost fed_inner = self.inner;
            proof {
                fed_inner.lemma_inv();
                assert forall|j: int| 0 <= j < count implies #[trigger] fed_inner.given()[j]
                    == taken[j] + blocks[j]@ by {
                    assert(old(self).inner.given()[j] == taken[j] + old(self).pending@[j]@);
                    assert(old(self).pending@[j]@.len() == 0);
                    assert(fed_inner.given()[j] == old(self).inner.given()[j] + blocks[j]@);
                    assert(taken[j] + old(self).pending@[j]@ =~= taken[j]);
                }
            }
            proof {
                asked = n as int;
                if old(self).source_foretold() {
                    assert(self.whole() =~= old(self).whole()) by {
                        assert(self.inner.whole() == old(self).inner.whole());
                        assert(self.whole() =~= self.inner.whole());
                        assert(old(self).whole() =~= old(self).inner.whole());
                    }
                }
            }
            let mut i: usize = 0;
            while i < count
                invariant
                    self.inner == fed_inner,
                    self.given@ == taken,
                    self.blk_size == old(self).blk_size,
                    self.pending@.len() == count,
                    tmp@.len() == count,
                    blocks.len() == count,
                    i <= count,
                    forall|j: int| i <= j < count ==> #[trigger] tmp@[j] == blocks[j],
                    forall|j: int| 0 <= j < i ==> #[trigger] self.pending@[j] == blocks[j],
                decreases count - i,
            {
                let ghost was = self.pending@;
                let ghost had = tmp@;
                core::mem::swap(&mut self.pending[i], &mut tmp[i]);
                proof {
                    assert forall|j: int| i + 1 <= j < count implies #[trigger] tmp@[j]
                        == blocks[j] by {
                        assert(tmp@[j] == had[j]);
                    }
                    assert forall|j: int| 0 <= j < i + 1 implies #[trigger] self.pending@[j]
                        == blocks[j] by {
                        if j < i {
                            assert(self.pending@[j] == was[j]);
                        }
                    }
                }
                i = i + 1;
            }
            ctx.release(tmp);
            proof {
                if n == 0 || old(self).inner.ended() {
                    assert forall|j: int| 0 <= j < count implies (#[trigger] self.pending@[j])@.len()
                        == 0 by {
                        lemma_total_holds(blocks, j);
                    }
                }
                if all_empty(self.pending@) {
                    assert forall|j: int| 0 <= j < count implies (#[trigger] blocks[j])@.len()
                        == 0 by {
                        assert(self.pending@[j] == blocks[j]);
                    }
                    crate::executor::lemma_total_of_empty(blocks);
                    assert(n == 0);
                }
            }
        }
        proof {
            assert(asked == 0 ==> self.inner.ended());
            assert(!waiting && all_empty(self.pending@) ==> asked == 0);
            assert(waiting ==> !all_empty(self.pending@));
        }
        let ghost gathered = self.pending@;
        let blk = self.blk_size;
        let mut i: usize = 0;
        let ghost source = self.inner;
        proof {
            assert forall|j: int| 0 <= j < count implies #[trigger] source.given()[j] == taken[j]
                + gathered[j]@ by {
                if waiting {
                    assert(old(self).inner.given()[j] == taken[j] + old(self).pending@[j]@);
                }
            }
        }
        while i < count
            invariant
                self.inner == source,
                blk == self.blk_size,
                old(self).pending@.len() == count,
                taken == old(self).given@,
                taken.len() == count,
                self.given@.len() == count,
                forall|j: int| 0 <= j < count ==> #[trigger] source.given()[j] == taken[j]
                    + gathered[j]@,
                forall|j: int| i <= j < count ==> #[trigger] self.given@[j] == taken[j],
                forall|j: int| 0 <= j < i ==> #[trigger] self.given@[j] == taken[j] + out@[j]@,
                self.blk_size == old(self).blk_size,
                self.pending@.len() == count,
                gathered.len() == count,
                out@.len() == count,
                i <= count,
                forall|j: int| i <= j < count ==> #[trigger] self.pending@[j] == gathered[j],
                forall|j: int|
                    0 <= j < i ==> (#[trigger] out@[j])@ == gathered[j]@.subrange(
                        0,
                        share_of(blk as nat, gathered[j]@),
                    ),
                forall|j: int|
                    0 <= j < i ==> (#[trigger] self.pending@[j])@ == gathered[j]@.subrange(
                        share_of(blk as nat, gathered[j]@),
                        gathered[j]@.len() as int,
                    ),
            decreases count - i,
        {
            let held = self.pending[i].len();
            let n = if held < blk {
                held
            } else {
                blk
            };
            let ghost before = self.pending@;
            let ghost given = out@;
            take_front(&mut self.pending[i], n, &mut out[i]);
            let ghost handed = self.given@;
            self.given = Ghost(handed.update(i as int, handed[i as int] + out@[i as int]@));
            proof {
                assert forall|j: int| i + 1 <= j < count implies #[trigger] self.given@[j]
                    == taken[j] by {
                    assert(self.given@[j] == handed[j]);
                }
                assert forall|j: int| 0 <= j < i + 1 implies #[trigger] self.given@[j] == taken[j]
                    + out@[j]@ by {
                    if j < i {
                        assert(self.given@[j] == handed[j]);
                        assert(out@[j] == given[j]);
                    }
                }
                assert forall|j: int| i + 1 <= j < count implies #[trigger] self.pending@[j]
                    == gathered[j] by {
                    assert(self.pending@[j] == before[j]);
                }
                assert forall|j: int| 0 <= j < i + 1 implies (#[trigger] out@[j])@
                    == gathered[j]@.subrange(0, share_of(blk as nat, gathered[j]@)) by {
                    if j < i {
                        assert(out@[j] == given[j]);
                    } else {
                        assert(before[j] == gathered[j]);
                    }
                }
                assert forall|j: int| 0 <= j < i + 1 implies (#[trigger] self.pending@[j])@
                    == gathered[j]@.subrange(
                    share_of(blk as nat, gathered[j]@),
                    gathered[j]@.len() as int,
                ) by {
                    if j < i {
                        assert(self.pending@[j] == before[j]);
                    } else {
                        assert(before[j] == gathered[j]);
                    }
                }
            }
            i = i + 1;
        }
        let sz = total_len(out);
        proof {
            assert forall|j: int| 0 <= j < count implies #[trigger] self.inner.given()[j]
                == self.given@[j] + self.pending@[j]@ by {
                assert(source.given()[j] == taken[j] + gathered[j]@);
                assert(self.given@[j] == taken[j] + out@[j]@);
                assert(out@[j]@ == gathered[j]@.subrange(0, self.share(gathered[j]@)));
                assert(self.pending@[j]@ == gathered[j]@.subrange(
                    self.share(gathered[j]@),
                    gathered[j]@.len() as int,
                ));
                assert(gathered[j]@ =~= out@[j]@ + self.pending@[j]@);
                assert(taken[j] + gathered[j]@ =~= (taken[j] + out@[j]@) + self.pending@[j]@);
            }
            if sz == 0 && self.blk_size > 0 {
                assert forall|j: int| 0 <= j < count implies (#[trigger] gathered[j])@.len()
                    == 0 by {
                    lemma_total_holds(out@, j);
                    assert(out@[j]@ == gathered[j]@.subrange(0, self.share(gathered[j]@)));
                }
                assert(all_empty(gathered));
                assert(all_empty(self.pending@)) by {
                    assert forall|j: int| 0 <= j < count implies (#[trigger] self.pending@[j])@.len()
                        == 0 by {
                        assert(gathered[j]@.len() == 0);
                        assert(out@[j]@ == gathered[j]@.subrange(0, self.share(gathered[j]@)));
                        assert(self.pending@[j]@ == gathered[j]@.subrange(
                            self.share(gathered[j]@),
                            gathered[j]@.len() as int,
                        ));
                    }
                }
                assert(asked == 0);
            }
            if old(self).ended() && !old(self).has_pending() {
                assert forall|j: int| 0 <= j < count implies (#[trigger] out@[j])@.len() == 0 by {
                    assert(gathered[j]@.len() == 0);
                }
                crate::executor::lemma_total_of_empty(out@);
            }
        }
        Ok(sz)
    }
}

impl<P: Operator> Operator for PipeReader<P> {
    closed spec fn inv(&self) -> bool {
        &&& self.inner.inv()
        &&& self.pending@.len() == self.inner.outputs()
        &&& self.given@.len() == self.inner.outputs()
        &&& forall|j: int|
            0 <= j < self.pending@.len() ==> #[trigger] self.inner.given()[j] == self.given@[j]
                + self.pending@[j]@
    }

    closed spec fn outputs(&self) -> nat {
        self.inner.outputs()
    }

    open spec fn counting(&self) -> bool {
        true
    }

    fn num_outputs(&self) -> (n: usize) {
        self.inner.num_outputs()
    }

    /// The next blocks, as `pump` gives them.
    fn next(&mut self, ctx: &Context, out: &mut Vec<Vec<u8>>) -> (r: Result<usize>)
        ensures
            final(self).block() == old(self).block(),
            final(self).pending().len() == old(out)@.len(),
            old(self).pending().len() == old(out)@.len(),
            old(self).ended() ==> final(self).ended(),
            r matches Ok(n) ==> n == capped(total(final(out)@) as int),
            r is Ok ==> forall|i: int|
                0 <= i < final(out)@.len() ==> (#[trigger] final(out)@[i])@.len() <= old(self).block(),
            r matches Ok(n) ==> n == 0 && old(self).block() > 0 ==> final(self).ended()
                && !final(self).has_pending(),
            old(self).has_pending() ==> r is Ok && final(self).ended() == old(self).ended()
                && final(self).fed() == old(self).fed(),
            old(self).ended() && !old(self).has_pending() ==> r == Ok::<usize, Error>(0)
                && all_empty(final(out)@),
            final(self).fed().len() == old(out)@.len(),
            old(self).fed().len() == old(out)@.len(),
            forall|i: int|
                0 <= i < old(out)@.len() ==> (#[trigger] old(self).fed()[i]).is_prefix_of(
                    final(self).fed()[i],
                ),
            r is Ok ==> final(self).source_foretold() == old(self).source_foretold(),
            r is Ok && old(self).source_foretold() ==> final(self).whole() == old(self).whole(),
            final(self).ended() && final(self).source_foretold() ==> at_end(
                final(self).source_rest(),
            ),
            final(self).given().len() == old(out)@.len(),
            old(self).given().len() == old(out)@.len(),
            final(self).decoded().len() == old(out)@.len(),
            r is Ok ==> forall|i: int|
                0 <= i < old(out)@.len() ==> #[trigger] final(self).given()[i] == old(self).given()[i]
                    + final(out)@[i]@,
            r is Err ==> final(self).given() == old(self).given(),
            forall|i: int|
                0 <= i < old(out)@.len() ==> #[trigger] final(self).decoded()[i] == final(self).given()[i] + final(self).pending()[i]@,
    {
        self.pump(ctx, out)
    }
}

} // verus!
