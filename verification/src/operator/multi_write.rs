//! The sink of a graph.
use crate::executor::{all_empty, capped, gives, grown, paid, total, Context, Operator};
use crate::result::{Error, Result};
use vstd::prelude::*;

verus! {

/// Copies what each output of its parent gives to a writer of its own. It has no output.
pub struct MultiWrite<P: Operator> {
    parent: P,
    write: Vec<Vec<u8>>,
}

impl<P: Operator> MultiWrite<P> {
    /// What was written so far, for each output of the parent.
    pub closed spec fn written(&self) -> Seq<Vec<u8>> {
        self.write@
    }

    /// Whether the parent foretells what it has yet to give.
    pub closed spec fn source_foretold(&self) -> bool {
        self.parent.foretold()
    }

    /// What was written for each output, followed by what the parent has yet to give on
    /// it: what the writers hold in the end, where the parent foretells it.
    pub closed spec fn whole(&self) -> Seq<Seq<u8>> {
        Seq::new(self.write@.len(), |i: int| self.write@[i]@ + self.parent.rest()[i])
    }

    /// A sink for the outputs of `parent`, with `write` to write to: one writer for each
    /// output, or [`Error::FanOutMismatch`].
    pub fn new(parent: P, write: Vec<Vec<u8>>) -> (r: Result<Box<Self>>)
        requires
            parent.inv(),
        ensures
            r is Ok <==> write@.len() == parent.outputs(),
            r matches Ok(sink) ==> sink.inv() && sink.written() == write@ && sink.source_foretold()
                == parent.foretold() && sink.unfailing() == parent.unfailing(),
            r matches Ok(sink) ==> sink.due() == if parent.counting() {
                parent.due()
            } else {
                None
            },
            r is Err ==> r matches Err(Error::FanOutMismatch),
    {
        if parent.num_outputs() != write.len() {
            return Err(Error::FanOutMismatch);
        }
        Ok(Box::new(Self { parent, write }))
    }

    /// The writers, with what was written to them.
    pub fn into_written(self) -> (write: Vec<Vec<u8>>)
        ensures
            write@ == self.written(),
    {
        self.write
    }

    /// Asks the parent for its next blocks and appends each to its writer. The number given
    /// is that of the bytes written, or the largest `usize` where they are more. Where the
    /// parent fails, nothing is written.
    pub fn drain(&mut self, ctx: &Context) -> (r: Result<usize>)
        requires
            old(self).inv(),
        ensures
            final(self).inv(),
            grown(old(self).written(), final(self).written()),
            r is Err ==> final(self).written() == old(self).written(),
            r matches Ok(n) ==> n == capped(total(final(self).written()) - total(old(self).written())),
            r is Ok ==> final(self).source_foretold() == old(self).source_foretold(),
            r is Ok && old(self).source_foretold() ==> final(self).whole() == old(self).whole(),
            old(self).unfailing() ==> r is Ok && final(self).unfailing(),
            r matches Ok(n) ==> paid(old(self).due(), n, final(self).due()),
    {
        let count = self.parent.num_outputs();
        let mut out = ctx.allocate(count);
        let ghost before = self.parent.rest();
        if let Err(e) = self.parent.next(ctx, &mut out) {
            return Err(e);
        }
        let ghost blocks = out@;
        let ghost after = self.parent.rest();
        let sz = self.write_blocks(&mut out);
        proof {
            lemma_total_of_appended(old(self).written(), blocks, self.written());

            if old(self).source_foretold() {
                assert(gives(before, blocks, after));
                assert forall|k: int| 0 <= k < count implies #[trigger] self.whole()[k] == old(self).whole()[k] by {
                    assert(before[k] == blocks[k]@ + after[k]);
                    assert(self.write@[k]@ + after[k] =~= old(self).write@[k]@ + (blocks[k]@
                        + after[k]));
                }
                assert(self.whole() =~= old(self).whole());
            }
        }
        ctx.release(out);
        Ok(sz)
    }

    /// Appends each of the blocks to its writer and leaves the blocks empty. The number
    /// given is that of the bytes of the blocks, or the largest `usize` where they are more.
    pub fn write_blocks(&mut self, blocks: &mut Vec<Vec<u8>>) -> (n: usize)
        requires
            old(blocks)@.len() == old(self).written().len(),
        ensures
            appended(old(self).written(), old(blocks)@, final(self).written()),
            grown(old(self).written(), final(self).written()),
            n == capped(total(old(blocks)@) as int),
            final(blocks)@.len() == old(blocks)@.len(),
            all_empty(final(blocks)@),
            final(self).inv() == old(self).inv(),
            final(self).source_foretold() == old(self).source_foretold(),
            final(self).source_rest() == old(self).source_rest(),
            final(self).unfailing() == old(self).unfailing(),
            final(self).due() == old(self).due(),
    {
        let count = self.write.len();
        let mut sz: usize = 0;
        let mut i: usize = 0;
        proof {
            assert(old(blocks)@.subrange(0, 0) =~= Seq::<Vec<u8>>::empty());
        }
        while i < count
            invariant
                self.parent == old(self).parent,
                blocks@.len() == count,
                self.write@.len() == count,
                old(self).write@.len() == count,
                old(blocks)@.len() == count,
                i <= count,
                sz == capped(total(old(blocks)@.subrange(0, i as int)) as int),
                forall|k: int| i <= k < count ==> #[trigger] blocks@[k] == old(blocks)@[k],
                forall|k: int| 0 <= k < i ==> (#[trigger] blocks@[k])@.len() == 0,
                forall|k: int| i <= k < count ==> #[trigger] self.write@[k] == old(self).write@[k],
                forall|k: int|
                    0 <= k < i ==> (#[trigger] self.write@[k])@ == old(self).write@[k]@ + old(blocks)@[k]@,
            decreases count - i,
        {
            proof {
                let s = old(blocks)@.subrange(0, i + 1);
                assert(s.drop_last() =~= old(blocks)@.subrange(0, i as int));
                assert(s.last() == old(blocks)@[i as int]);
            }
            sz = sz.saturating_add(blocks[i].len());
            self.write[i].append(&mut blocks[i]);
            i = i + 1;
        }
        proof {
            assert(old(blocks)@.subrange(0, count as int) =~= old(blocks)@);
            assert forall|k: int| 0 <= k < count implies (#[trigger] old(self).write@[k])@.is_prefix_of(self.write@[k]@) by {
                assert(self.write@[k]@ == old(self).write@[k]@ + old(blocks)@[k]@);
            }
        }
        sz
    }

    /// What the parent has yet to give, on each output, if it foretells it.
    pub closed spec fn source_rest(&self) -> Seq<Seq<u8>> {
        self.parent.rest()
    }
}

/// Whether each of the buffers `now` holds what the buffer of `before` at its place holds,
/// followed by what the block at that place holds.
pub open spec fn appended(before: Seq<Vec<u8>>, blocks: Seq<Vec<u8>>, now: Seq<Vec<u8>>) -> bool {
    &&& blocks.len() == before.len()
    &&& now.len() == before.len()
    &&& forall|k: int| 0 <= k < before.len() ==> (#[trigger] now[k])@ == before[k]@ + blocks[k]@
}

/// Buffers to which blocks were appended hold the bytes that they held and those of the
/// blocks.
pub proof fn lemma_total_of_appended(before: Seq<Vec<u8>>, blocks: Seq<Vec<u8>>, now: Seq<Vec<u8>>)
    requires
        appended(before, blocks, now),
    ensures
        total(now) == total(before) + total(blocks),
    decreases before.len(),
{
    if before.len() > 0 {
        let last = before.len() - 1;
        assert(now[last]@ == before[last]@ + blocks[last]@);
        lemma_total_of_appended(before.drop_last(), blocks.drop_last(), now.drop_last());
    }
}

impl<P: Operator> Operator for MultiWrite<P> {
    closed spec fn inv(&self) -> bool {
        &&& self.parent.inv()
        &&& self.write@.len() == self.parent.outputs()
    }

    open spec fn outputs(&self) -> nat {
        0
    }

    /// What is due of a sink is what is due of its parent, where the parent gives with
    /// each block the number of its bytes: those are the bytes that the sink writes.
    closed spec fn due(&self) -> Option<nat> {
        if self.parent.counting() {
            self.parent.due()
        } else {
            None
        }
    }

    /// Writing to a buffer never fails: the sink fails where its parent does.
    closed spec fn unfailing(&self) -> bool {
        self.parent.unfailing()
    }

    fn num_outputs(&self) -> (n: usize) {
        0
    }

    /// One step of the sink, as `drain` makes it: the parent's next blocks are written, and
    /// the number given is that of the bytes written.
    fn next(&mut self, ctx: &Context, _out: &mut Vec<Vec<u8>>) -> (r: Result<usize>)
        ensures
            grown(old(self).written(), final(self).written()),
            r is Err ==> final(self).written() == old(self).written(),
            r matches Ok(n) ==> n == capped(total(final(self).written()) - total(old(self).written())),
            r is Ok ==> final(self).source_foretold() == old(self).source_foretold(),
            r is Ok && old(self).source_foretold() ==> final(self).whole() == old(self).whole(),
    {
        self.drain(ctx)
    }
}

} // verus!
