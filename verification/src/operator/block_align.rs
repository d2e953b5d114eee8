//! Blocks of a fixed size.
use crate::executor::{
    at_end, capped, gives, grown, lemma_prefix_of_prefix, lemma_volume_at_end,
    lemma_volume_given, total, volume, Context, Operator, PATIENCE,
};
use crate::chunks::{aligned, all_aligned, lemma_rest_is_aligned};
use crate::result::{Error, Result};
use vstd::prelude::*;

verus! {

/// Gathers what each output of its parent gives and hands it on in blocks of the size
/// declared for the output. Only the last block of an output may be shorter.
pub struct BlockAlign<P: Operator> {
    parent: P,
    params: Vec<usize>,
    buf: Vec<Vec<u8>>,
    eof: bool,
}

/// Moves the first `n` bytes of `held` into `block`, in the place of what it held.
pub fn take_front(held: &mut Vec<u8>, n: usize, block: &mut Vec<u8>)
    requires
        n <= old(held)@.len(),
    ensures
        final(block)@ == old(held)@.subrange(0, n as int),
        final(held)@ == old(held)@.subrange(n as int, old(held)@.len() as int),
        final(block)@ + final(held)@ == old(held)@,
{
    let mut rest = held.split_off(n);
    core::mem::swap(held, &mut rest);
    core::mem::swap(block, &mut rest);
    assert(block@ + held@ =~= old(held)@);
}

/// Whether each of the sizes is a whole number of elements of `width` bytes.
pub open spec fn whole_sizes(sizes: Seq<usize>, width: nat) -> bool {
    forall|i: int| 0 <= i < sizes.len() ==> aligned((#[trigger] sizes[i]) as nat, width)
}

/// Whether each of the streams is a whole number of elements of `width` bytes.
pub open spec fn whole_streams(streams: Seq<Seq<u8>>, width: nat) -> bool {
    forall|i: int| 0 <= i < streams.len() ==> aligned((#[trigger] streams[i]).len(), width)
}

impl<P: Operator> BlockAlign<P> {
    /// What was gathered for each output and not handed on yet.
    pub closed spec fn pending(&self) -> Seq<Vec<u8>> {
        self.buf@
    }

    /// The size of the blocks of each output.
    pub closed spec fn sizes(&self) -> Seq<usize> {
        self.params@
    }

    /// Whether the parent has come to the end of its stream.
    pub closed spec fn ended(&self) -> bool {
        self.eof
    }

    /// The blocks of the outputs of `parent`, in the sizes `v`: one size for each output,
    /// or [`Error::FanOutMismatch`].
    pub fn new(parent: P, v: Vec<usize>) -> (r: Result<Box<Self>>)
        requires
            parent.inv(),
        ensures
            r is Ok <==> v@.len() == parent.outputs(),
            r matches Ok(op) ==> op.inv() && op.sizes() == v@ && !op.ended() && op.outputs()
                == parent.outputs() && op.pending().len() == v@.len() && forall|i: int|
                0 <= i < v@.len() ==> (#[trigger] op.pending()[i])@.len() == 0,
            r matches Ok(op) ==> op.foretold() == (parent.foretold() && forall|i: int|
                0 <= i < v@.len() ==> #[trigger] v@[i] > 0),
            r matches Ok(op) ==> op.rest().len() == v@.len() && forall|i: int|
                0 <= i < v@.len() ==> #[trigger] op.rest()[i] == parent.rest()[i],
            r matches Ok(op) ==> forall|width: nat| #[trigger]
                op.whole(width) == (op.foretold() && whole_sizes(v@, width) && whole_streams(
                    op.rest(),
                    width,
                )),
            r matches Ok(op) ==> op.unfailing() == (parent.unfailing() && parent.counting()
                && parent.foretold() && volume(parent.rest()) < usize::MAX),
            r matches Ok(op) ==> op.due() == if op.foretold() {
                Some(volume(op.rest()))
            } else {
                None
            },
            r is Err ==> r matches Err(Error::FanOutMismatch),
    {
        if parent.num_outputs() != v.len() {
            return Err(Error::FanOutMismatch);
        }
        let mut buf: Vec<Vec<u8>> = Vec::new();
        let mut i: usize = 0;
        while i < v.len()
            invariant
                i <= v@.len(),
                buf@.len() == i,
                forall|j: int| 0 <= j < i ==> (#[trigger] buf@[j])@.len() == 0,
            decreases v@.len() - i,
        {
            buf.push(Vec::new());
            i = i + 1;
        }
        let op = Box::new(Self { parent, params: v, buf, eof: false });
        proof {
            assert(op.params@ == v@);
            assert forall|i: int| 0 <= i < v@.len() implies #[trigger] op.rest()[i]
                == op.parent.rest()[i] by {
                assert(op.buf@[i]@ + op.parent.rest()[i] =~= op.parent.rest()[i]);
            }
        }
        Ok(op)
    }

    /// Asks the parent for its next blocks and gathers them behind what was gathered
    /// before. The number given is the parent's: it is zero at the end of the parent's
    /// stream, which is taken note of, and nothing is gathered then. Where the parent
    /// fails, nothing is gathered either and no end is noted. What is yet to be given stays
    /// what it was.
    fn fill(&mut self, ctx: &Context) -> (r: Result<usize>)
        requires
            old(self).inv(),
            !old(self).ended(),
        ensures
            final(self).inv(),
            final(self).outputs() == old(self).outputs(),
            final(self).sizes() == old(self).sizes(),
            grown(old(self).pending(), final(self).pending()),
            r matches Ok(n) ==> (n == 0 <==> final(self).ended()),
            r is Err ==> !final(self).ended() && final(self).pending() == old(self).pending(),
            final(self).ended() ==> final(self).pending() == old(self).pending(),
            old(self).unfailing() ==> r is Ok && final(self).unfailing(),
            old(self).unfailing() ==> (r matches Ok(n) && n > 0 ==> volume(
                final(self).parent.rest(),
            ) < volume(old(self).parent.rest())),
            r is Ok ==> final(self).foretold() == old(self).foretold(),
            r is Ok && old(self).foretold() ==> final(self).rest() == old(self).rest(),
    {
        let count = self.parent.num_outputs();
        let mut out = ctx.allocate(count);
        let ghost before = self.parent.rest();
        let n = match self.parent.next(ctx, &mut out) {
            Ok(n) => n,
            Err(e) => {
                return Err(e);
            },
        };
        let ghost blocks = out@;
        let ghost after = self.parent.rest();
        let ghost steady = self.parent.unfailing() && self.parent.counting();
        proof {
            if old(self).unfailing() {
                lemma_volume_given(before, blocks, after);
            }
        }
        if n == 0 {
            self.eof = true;
            proof {
                assert(self.params@ == old(self).params@);
                assert(self.parent.foretold() == old(self).parent.foretold());
                assert(self.foretold() == old(self).foretold());
                if self.parent.foretold() {
                    assert forall|k: int| 0 <= k < after.len() implies (#[trigger] after[k]).len()
                        == 0 by {
                        assert(before[k] == blocks[k]@ + after[k]);
                    }
                }
                if old(self).foretold() {
                    assert forall|k: int| 0 <= k < count implies #[trigger] self.rest()[k] == old(self).rest()[k] by {
                        assert(before[k] == blocks[k]@ + after[k]);
                        assert(before[k] =~= after[k]);
                    }
                    assert(self.rest() =~= old(self).rest());
                }
            }
            ctx.release(out);
            return Ok(0);
        }
        let mut i: usize = 0;
        while i < count
            invariant
                self.parent.inv(),
                count == self.parent.outputs(),
                self.parent.outputs() == old(self).parent.outputs(),
                self.parent.rest() == after,
                self.parent.foretold() == old(self).parent.foretold(),
                steady == (self.parent.unfailing() && self.parent.counting()),
                self.params@ == old(self).params@,
                self.eof == old(self).eof,
                !self.eof,
                out@.len() == count,
                self.buf@.len() == count,
                old(self).buf@.len() == count,
                self.params@.len() == count,
                i <= count,
                grown(old(self).buf@, self.buf@),
                forall|k: int| i <= k < count ==> #[trigger] out@[k] == blocks[k],
                forall|k: int| i <= k < count ==> #[trigger] self.buf@[k] == old(self).buf@[k],
                forall|k: int|
                    0 <= k < i ==> (#[trigger] self.buf@[k])@ == old(self).buf@[k]@ + blocks[k]@,
            decreases count - i,
        {
            let ghost held = self.buf@;
            let ghost was = self.buf@[i as int]@;
            self.buf[i].append(&mut out[i]);
            proof {
                assert(was.is_prefix_of(self.buf@[i as int]@));
                assert forall|k: int| 0 <= k < count implies (#[trigger] old(self).buf@[k])@.is_prefix_of(
                    self.buf@[k]@,
                ) by {
                    if k == i {
                        lemma_prefix_of_prefix(old(self).buf@[k]@, was, self.buf@[k]@);
                    } else {
                        assert(self.buf@[k] == held[k]);
                    }
                }
            }
            i = i + 1;
        }
        proof {
            if old(self).foretold() {
                assert forall|k: int| 0 <= k < count implies #[trigger] self.rest()[k] == old(self).rest()[k] by {
                    assert(before[k] == blocks[k]@ + after[k]);
                    assert(self.buf@[k]@ + after[k] =~= old(self).buf@[k]@ + (blocks[k]@
                        + after[k]));
                }
                assert(self.rest() =~= old(self).rest());
            }
        }
        ctx.release(out);
        Ok(n)
    }

    /// Whether the next blocks can be given without asking the parent: its stream has
    /// ended, or enough is pending for a whole block of each output.
    pub open spec fn ready(&self) -> bool {
        self.ended() || forall|i: int|
            0 <= i < self.pending().len() ==> (#[trigger] self.pending()[i])@.len()
                >= self.sizes()[i]
    }

    /// The length of the block that is cut from `held` for an output of block size `size`.
    pub open spec fn share(held: Seq<u8>, size: usize) -> int {
        if held.len() < size {
            held.len() as int
        } else {
            size as int
        }
    }

    /// Whether `block` is what comes first of `pending_before`, as long as the block size
    /// allows, and `pending` is what comes behind it.
    pub open spec fn cut_from(
        block: Seq<u8>,
        size: usize,
        pending_before: Seq<u8>,
        pending: Seq<u8>,
    ) -> bool {
        &&& block == pending_before.subrange(0, Self::share(pending_before, size))
        &&& pending == pending_before.subrange(
            Self::share(pending_before, size),
            pending_before.len() as int,
        )
    }

    /// What holds of the block of one output: it is no longer than declared, it is shorter
    /// only at the end of the parent's stream and when nothing is left pending, and with
    /// what is still pending behind it, it begins with what was pending before.
    pub open spec fn handed_on(
        block: Seq<u8>,
        size: usize,
        pending_before: Seq<u8>,
        pending: Seq<u8>,
        ended: bool,
    ) -> bool {
        &&& block.len() <= size
        &&& block.len() < size ==> ended && pending.len() == 0
        &&& pending_before.is_prefix_of(block + pending)
    }

    /// Gives the next block of each output: as many bytes as are declared for the output,
    /// or what is left of it at the end of the parent's stream. The number given is that
    /// of the bytes in all the blocks, or the largest `usize` where they are more.
    ///
    /// The parent is asked only while too little is pending for a block. Where it need not
    /// be asked, the call succeeds, and each block is cut from what was pending.
    pub fn align(&mut self, ctx: &Context, out: &mut Vec<Vec<u8>>) -> (r: Result<usize>)
        requires
            old(self).inv(),
            old(out)@.len() == old(self).outputs(),
        ensures
            final(self).inv(),
            final(self).outputs() == old(self).outputs(),
            final(self).sizes() == old(self).sizes(),
            final(out)@.len() == old(out)@.len(),
            final(self).pending().len() == old(self).pending().len(),
            old(self).pending().len() == old(out)@.len(),
            old(self).sizes().len() == old(out)@.len(),
            old(self).ended() ==> final(self).ended(),
            old(self).ready() ==> r is Ok && final(self).ended() == old(self).ended(),
            old(self).ready() ==> forall|i: int|
                0 <= i < final(out)@.len() ==> Self::cut_from(
                    (#[trigger] final(out)@[i])@,
                    old(self).sizes()[i],
                    old(self).pending()[i]@,
                    final(self).pending()[i]@,
                ),
            r matches Ok(n) ==> n == capped(total(final(out)@) as int),
            old(self).unfailing() ==> r is Ok && final(self).unfailing(),
            r is Ok ==> forall|i: int|
                0 <= i < final(out)@.len() ==> Self::handed_on(
                    (#[trigger] final(out)@[i])@,
                    final(self).sizes()[i],
                    old(self).pending()[i]@,
                    final(self).pending()[i]@,
                    final(self).ended(),
                ),
            r is Ok ==> final(self).foretold() == old(self).foretold(),
            r is Ok && old(self).foretold() ==> gives(
                old(self).rest(),
                final(out)@,
                final(self).rest(),
            ),
            r matches Ok(n) ==> n == 0 && old(self).foretold() ==> at_end(old(self).rest()),
    {
        let count = out.len();
        let mut sz: usize = 0;
        let mut i: usize = 0;
        let ghost rest = self.rest();
        proof {
            assert(out@.subrange(0, 0) =~= Seq::<Vec<u8>>::empty());
        }
        while i < count
            invariant
                self.inv(),
                self.outputs() == old(self).outputs(),
                self.params@ == old(self).params@,
                out@.len() == count,
                count == old(out)@.len(),
                count == self.buf@.len(),
                count == old(self).buf@.len(),
                i <= count,
                old(self).eof ==> self.eof,
                rest == old(self).rest(),
                self.foretold() == old(self).foretold(),
                forall|k: int|
                    i <= k < count ==> (#[trigger] old(self).buf@[k])@.is_prefix_of(self.buf@[k]@),
                forall|k: int|
                    0 <= k < i ==> Self::handed_on(
                        (#[trigger] out@[k])@,
                        self.params@[k],
                        old(self).buf@[k]@,
                        self.buf@[k]@,
                        self.eof,
                    ),
                old(self).foretold() ==> forall|k: int|
                    0 <= k < i ==> #[trigger] rest[k] == out@[k]@ + self.rest()[k],
                old(self).foretold() ==> forall|k: int|
                    i <= k < count ==> #[trigger] rest[k] == self.rest()[k],
                old(self).foretold() && sz == 0 ==> forall|k: int|
                    0 <= k < i ==> (#[trigger] out@[k])@.len() == 0,
                sz == capped(total(out@.subrange(0, i as int)) as int),
                old(self).unfailing() ==> self.unfailing(),
                old(self).ready() ==> self.eof == old(self).eof,
                old(self).ready() ==> forall|k: int|
                    i <= k < count ==> #[trigger] self.buf@[k] == old(self).buf@[k],
                old(self).ready() ==> forall|k: int|
                    0 <= k < i ==> Self::cut_from(
                        (#[trigger] out@[k])@,
                        self.params@[k],
                        old(self).buf@[k]@,
                        self.buf@[k]@,
                    ),
            decreases count - i,
        {
            let mut rounds: usize = 0;
            while !self.eof && self.buf[i].len() < self.params[i]
                invariant
                    self.inv(),
                    self.outputs() == old(self).outputs(),
                    self.params@ == old(self).params@,
                    out@.len() == count,
                    count == old(out)@.len(),
                    count == self.buf@.len(),
                    count == old(self).buf@.len(),
                    i < count,
                    old(self).eof ==> self.eof,
                    rest == old(self).rest(),
                    self.foretold() == old(self).foretold(),
                    forall|k: int|
                        i <= k < count ==> (#[trigger] old(self).buf@[k])@.is_prefix_of(
                            self.buf@[k]@,
                        ),
                    forall|k: int|
                        0 <= k < i ==> Self::handed_on(
                            (#[trigger] out@[k])@,
                            self.params@[k],
                            old(self).buf@[k]@,
                            self.buf@[k]@,
                            self.eof,
                        ),
                    old(self).foretold() ==> forall|k: int|
                        0 <= k < i ==> #[trigger] rest[k] == out@[k]@ + self.rest()[k],
                    old(self).foretold() ==> forall|k: int|
                        i <= k < count ==> #[trigger] rest[k] == self.rest()[k],
                    old(self).foretold() && sz == 0 ==> forall|k: int|
                        0 <= k < i ==> (#[trigger] out@[k])@.len() == 0,
                    sz == capped(total(out@.subrange(0, i as int)) as int),
                    old(self).unfailing() ==> self.unfailing(),
                    old(self).unfailing() ==> self.eof || rounds + volume(self.parent.rest())
                        < usize::MAX,
                    old(self).ready() ==> self.eof == old(self).eof,
                    old(self).ready() ==> forall|k: int|
                        i <= k < count ==> #[trigger] self.buf@[k] == old(self).buf@[k],
                    old(self).ready() ==> forall|k: int|
                        0 <= k < i ==> Self::cut_from(
                            (#[trigger] out@[k])@,
                            self.params@[k],
                            old(self).buf@[k]@,
                            self.buf@[k]@,
                        ),
                decreases PATIENCE - rounds,
            {
                proof {
                    if old(self).ready() {
                        assert(self.buf@[i as int] == old(self).buf@[i as int]);
                        assert(old(self).pending()[i as int]@.len() >= old(self).sizes()[i as int]);
                    }
                    assert(!old(self).ready());
                }
                if rounds >= PATIENCE {
                    return Err(Error::Unknown);
                }
                rounds = rounds + 1;
                let ghost before = self.buf@;
                if let Err(e) = self.fill(ctx) {
                    return Err(e);
                }
                proof {
                    assert forall|k: int| i <= k < count implies (#[trigger] old(self).buf@[k])@.is_prefix_of(
                        self.buf@[k]@,
                    ) by {
                        assert(before[k]@.is_prefix_of(self.buf@[k]@));
                        lemma_prefix_of_prefix(old(self).buf@[k]@, before[k]@, self.buf@[k]@);
                    }
                    assert forall|k: int| 0 <= k < i implies Self::handed_on(
                        (#[trigger] out@[k])@,
                        self.params@[k],
                        old(self).buf@[k]@,
                        self.buf@[k]@,
                        self.eof,
                    ) by {
                        assert(Self::handed_on(
                            out@[k]@,
                            self.params@[k],
                            old(self).buf@[k]@,
                            before[k]@,
                            false,
                        ));
                        assert(before[k]@.is_prefix_of(self.buf@[k]@));
                        assert((out@[k]@ + before[k]@).is_prefix_of(out@[k]@ + self.buf@[k]@)) by {
                            assert((out@[k]@ + self.buf@[k]@).subrange(
                                0,
                                (out@[k]@ + before[k]@).len() as int,
                            ) =~= out@[k]@ + before[k]@);
                        }
                        lemma_prefix_of_prefix(
                            old(self).buf@[k]@,
                            out@[k]@ + before[k]@,
                            out@[k]@ + self.buf@[k]@,
                        );
                    }
                }
            }
            let held_len = self.buf[i].len();
            let n = if held_len < self.params[i] {
                held_len
            } else {
                self.params[i]
            };
            let ghost before = self.buf@;
            let ghost given = out@;
            let ghost left = self.rest();
            take_front(&mut self.buf[i], n, &mut out[i]);
            proof {
                assert forall|k: int| 0 <= k < i + 1 implies Self::handed_on(
                    (#[trigger] out@[k])@,
                    self.params@[k],
                    old(self).buf@[k]@,
                    self.buf@[k]@,
                    self.eof,
                ) by {
                    if k < i {
                        assert(out@[k] == given[k]);
                        assert(self.buf@[k] == before[k]);
                    }
                }
                assert forall|k: int| i + 1 <= k < count implies (#[trigger] old(self).buf@[k])@.is_prefix_of(
                    self.buf@[k]@,
                ) by {
                    assert(self.buf@[k] == before[k]);
                }
                if old(self).foretold() {
                    assert forall|k: int| 0 <= k < count implies #[trigger] left[k] == (if k == i {
                        out@[k]@ + self.rest()[k]
                    } else {
                        self.rest()[k]
                    }) by {
                        if k == i {
                            assert(before[k]@ + self.parent.rest()[k] =~= out@[k]@ + (
                            self.buf@[k]@ + self.parent.rest()[k]));
                        } else {
                            assert(self.buf@[k] == before[k]);
                        }
                    }
                    assert forall|k: int| 0 <= k < i + 1 implies #[trigger] rest[k] == out@[k]@
                        + self.rest()[k] by {
                        if k < i {
                            assert(out@[k] == given[k]);
                            assert(rest[k] == given[k]@ + left[k]);
                        } else {
                            assert(rest[k] == left[k]);
                        }
                    }
                    assert forall|k: int| i + 1 <= k < count implies #[trigger] rest[k]
                        == self.rest()[k] by {
                        assert(rest[k] == left[k]);
                    }
                }
            }
            sz = sz.saturating_add(n);
            proof {
                let s = out@.subrange(0, i + 1);
                assert(s.drop_last() =~= given.subrange(0, i as int));
                assert(s.last() == out@[i as int]);
                if old(self).ready() {
                    assert forall|k: int| 0 <= k < i + 1 implies Self::cut_from(
                        (#[trigger] out@[k])@,
                        self.params@[k],
                        old(self).buf@[k]@,
                        self.buf@[k]@,
                    ) by {
                        if k < i {
                            assert(out@[k] == given[k]);
                            assert(self.buf@[k] == before[k]);
                        } else {
                            assert(before[k] == old(self).buf@[k]);
                        }
                    }
                    assert forall|k: int| i + 1 <= k < count implies #[trigger] self.buf@[k]
                        == old(self).buf@[k] by {
                        assert(self.buf@[k] == before[k]);
                    }
                }
                if old(self).foretold() && sz == 0 {
                    assert forall|k: int| 0 <= k < i + 1 implies (#[trigger] out@[k])@.len()
                        == 0 by {
                        if k < i {
                            assert(out@[k] == given[k]);
                        }
                    }
                }
            }
            i = i + 1;
        }
        proof {
            assert(out@.subrange(0, count as int) =~= out@);
            if old(self).foretold() && sz == 0 {
                assert forall|k: int| 0 <= k < rest.len() implies (#[trigger] rest[k]).len()
                    == 0 by {
                    assert(Self::handed_on(
                        out@[k]@,
                        self.params@[k],
                        old(self).buf@[k]@,
                        self.buf@[k]@,
                        self.eof,
                    ));
                    assert(self.params@[k] > 0);
                    assert(rest[k] == out@[k]@ + self.rest()[k]);
                    assert(self.parent.rest()[k].len() == 0);
                }
            }
        }
        Ok(sz)
    }
}

impl<P: Operator> Operator for BlockAlign<P> {
    closed spec fn inv(&self) -> bool {
        &&& self.parent.inv()
        &&& self.params@.len() == self.parent.outputs()
        &&& self.buf@.len() == self.parent.outputs()
        &&& self.eof && self.parent.foretold() ==> at_end(self.parent.rest())
            && self.parent.rest().len() == self.buf@.len()
    }

    closed spec fn outputs(&self) -> nat {
        self.parent.outputs()
    }

    /// Blocks of sizes above zero are foretold where the parent's are.
    closed spec fn foretold(&self) -> bool {
        &&& self.parent.foretold()
        &&& forall|i: int| 0 <= i < self.params@.len() ==> #[trigger] self.params@[i] > 0
    }

    /// What is pending, followed by what the parent has yet to give.
    closed spec fn rest(&self) -> Seq<Seq<u8>> {
        Seq::new(self.buf@.len(), |i: int| self.buf@[i]@ + self.parent.rest()[i])
    }

    open spec fn counting(&self) -> bool {
        true
    }

    /// Blocks are given without fail where the parent never fails, counts the bytes of its
    /// blocks and foretells fewer bytes than `usize::MAX`: it is then never asked too
    /// often.
    closed spec fn unfailing(&self) -> bool {
        &&& self.parent.unfailing()
        &&& self.parent.counting()
        &&& self.parent.foretold()
        &&& volume(self.parent.rest()) < usize::MAX
    }

    /// What is due of blocks that are foretold is the bytes that are yet to be given.
    closed spec fn due(&self) -> Option<nat> {
        if self.foretold() {
            Some(volume(self.rest()))
        } else {
            None
        }
    }

    /// Blocks of whole elements are cut where every block size is a whole number of
    /// elements, and so is what each output has yet to give.
    closed spec fn whole(&self, width: nat) -> bool {
        &&& self.foretold()
        &&& whole_sizes(self.params@, width)
        &&& whole_streams(self.rest(), width)
    }

    fn num_outputs(&self) -> (n: usize) {
        self.parent.num_outputs()
    }

    /// The next block of each output, as `align` gives it.
    fn next(&mut self, ctx: &Context, out: &mut Vec<Vec<u8>>) -> (r: Result<usize>)
        ensures
            final(self).sizes() == old(self).sizes(),
            final(self).pending().len() == old(self).pending().len(),
            old(self).pending().len() == old(out)@.len(),
            old(self).sizes().len() == old(out)@.len(),
            old(self).ended() ==> final(self).ended(),
            old(self).ready() ==> r is Ok && final(self).ended() == old(self).ended(),
            old(self).ready() ==> forall|i: int|
                0 <= i < final(out)@.len() ==> Self::cut_from(
                    (#[trigger] final(out)@[i])@,
                    old(self).sizes()[i],
                    old(self).pending()[i]@,
                    final(self).pending()[i]@,
                ),
            r matches Ok(n) ==> n == capped(total(final(out)@) as int),
            r is Ok ==> forall|i: int|
                0 <= i < final(out)@.len() ==> Self::handed_on(
                    (#[trigger] final(out)@[i])@,
                    final(self).sizes()[i],
                    old(self).pending()[i]@,
                    final(self).pending()[i]@,
                    final(self).ended(),
                ),
    {
        let r = self.align(ctx, out);
        proof {
            if r is Ok && old(self).foretold() {
                lemma_volume_given(old(self).rest(), out@, self.rest());
                if r.unwrap() == 0 {
                    lemma_volume_at_end(old(self).rest());
                }
            }
            if r is Ok {
                assert forall|width: nat| #[trigger] old(self).whole(width) implies self.whole(
                    width,
                ) && all_aligned(out@, width) by {
                    assert(self.rest().len() == out@.len());
                    assert forall|i: int| 0 <= i < out@.len() implies aligned(
                        (#[trigger] out@[i])@.len(),
                        width,
                    ) by {
                        assert(Self::handed_on(
                            out@[i]@,
                            self.sizes()[i],
                            old(self).pending()[i]@,
                            self.pending()[i]@,
                            self.ended(),
                        ));
                        assert(old(self).rest()[i] == out@[i]@ + self.rest()[i]);
                        assert(aligned(old(self).rest()[i].len(), width));
                        assert(aligned(self.params@[i] as nat, width));
                        if out@[i]@.len() < self.params@[i] {
                            assert(self.parent.rest()[i].len() == 0);
                            assert(self.rest()[i].len() == 0);
                        }
                        lemma_rest_is_aligned(old(self).rest()[i].len(), out@[i]@.len(), width);
                    }
                    assert forall|i: int| 0 <= i < self.rest().len() implies aligned(
                        (#[trigger] self.rest()[i]).len(),
                        width,
                    ) by {
                        assert(Self::handed_on(
                            out@[i]@,
                            self.sizes()[i],
                            old(self).pending()[i]@,
                            self.pending()[i]@,
                            self.ended(),
                        ));
                        assert(old(self).rest()[i] == out@[i]@ + self.rest()[i]);
                        assert(aligned(old(self).rest()[i].len(), width));
                        assert(aligned(self.params@[i] as nat, width));
                        if out@[i]@.len() < self.params@[i] {
                            assert(self.parent.rest()[i].len() == 0);
                            assert(self.rest()[i].len() == 0);
                        }
                        lemma_rest_is_aligned(old(self).rest()[i].len(), out@[i]@.len(), width);
                    }
                }
            }
        }
        r
    }
}

} // verus!
