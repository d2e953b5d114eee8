//! Counting the bytes that pass.
use crate::chunks::all_aligned;
use crate::executor::{at_end, capped, gives, paid, total, total_len, Context, Operator};
use crate::result::Result;
use vstd::prelude::*;

verus! {

/// Hands on what its parent gives and counts the bytes of it.
pub struct ByteCount<P: Operator> {
    parent: P,
    cnt: usize,
}

impl<P: Operator> ByteCount<P> {
    /// The number of bytes that passed, or the largest `usize` where they were more.
    pub closed spec fn counted(&self) -> nat {
        self.cnt as nat
    }

    pub fn new(parent: P) -> (r: Box<Self>)
        requires
            parent.inv(),
        ensures
            r.inv(),
            r.counted() == 0,
            r.outputs() == parent.outputs(),
            r.foretold() == parent.foretold(),
            r.rest() == parent.rest(),
            r.unfailing() == parent.unfailing(),
            r.counting() == parent.counting(),
            forall|width: nat| #[trigger] r.whole(width) == parent.whole(width),
            r.due() == parent.due(),
    {
        Box::new(Self { parent, cnt: 0 })
    }

    /// The number of bytes that passed, or the largest `usize` where they were more.
    pub fn count(&self) -> (n: usize)
        ensures
            n == self.counted(),
    {
        self.cnt
    }

    /// The count after `bytes` more bytes have passed.
    pub open spec fn counted_after(counted: nat, bytes: nat) -> nat {
        if counted + bytes > usize::MAX {
            usize::MAX as nat
        } else {
            counted + bytes
        }
    }

    /// Asks the parent for its next blocks, counts their bytes and hands them on.
    pub fn pass(&mut self, ctx: &Context, out: &mut Vec<Vec<u8>>) -> (r: Result<usize>)
        requires
            old(self).inv(),
            old(out)@.len() == old(self).outputs(),
        ensures
            final(self).inv(),
            final(self).outputs() == old(self).outputs(),
            final(out)@.len() == old(out)@.len(),
            r is Ok ==> final(self).counted() == Self::counted_after(
                old(self).counted(),
                total(final(out)@),
            ),
            r is Err ==> final(self).counted() == old(self).counted(),
            r is Ok ==> final(self).foretold() == old(self).foretold(),
            r is Ok && old(self).foretold() ==> gives(
                old(self).rest(),
                final(out)@,
                final(self).rest(),
            ),
            r matches Ok(n) ==> n == 0 && old(self).foretold() ==> at_end(old(self).rest()),
            old(self).unfailing() ==> r is Ok && final(self).unfailing(),
            r is Ok && old(self).counting() ==> final(self).counting(),
            r matches Ok(n) ==> old(self).counting() ==> n == capped(total(final(out)@) as int),
            r is Ok ==> forall|width: nat| #[trigger]
                old(self).whole(width) ==> final(self).whole(width) && all_aligned(
                    final(out)@,
                    width,
                ),
            r matches Ok(n) ==> paid(old(self).due(), n, final(self).due()),
    {
        let given = self.parent.next(ctx, out);
        self.tally(given, out)
    }

    /// What is made of the parent's answer `given` and of the blocks `out` that came with
    /// it: the answer is handed on as it is, and where it is a success the bytes of the
    /// blocks are counted.
    pub fn tally(&mut self, given: Result<usize>, out: &Vec<Vec<u8>>) -> (r: Result<usize>)
        ensures
            r == given,
            final(self).counted() == if given is Ok {
                Self::counted_after(old(self).counted(), total(out@))
            } else {
                old(self).counted()
            },
            final(self).inv() == old(self).inv(),
            final(self).outputs() == old(self).outputs(),
            final(self).foretold() == old(self).foretold(),
            final(self).rest() == old(self).rest(),
            final(self).unfailing() == old(self).unfailing(),
            final(self).counting() == old(self).counting(),
            forall|width: nat| #[trigger] final(self).whole(width) == old(self).whole(width),
            final(self).due() == old(self).due(),
    {
        match given {
            Ok(n) => {
                self.cnt = self.cnt.saturating_add(total_len(out));
                Ok(n)
            },
            Err(e) => Err(e),
        }
    }
}

impl<P: Operator> Operator for ByteCount<P> {
    closed spec fn inv(&self) -> bool {
        self.parent.inv()
    }

    closed spec fn outputs(&self) -> nat {
        self.parent.outputs()
    }

    closed spec fn foretold(&self) -> bool {
        self.parent.foretold()
    }

    closed spec fn rest(&self) -> Seq<Seq<u8>> {
        self.parent.rest()
    }

    /// Counting never fails: the counter fails where its parent does.
    closed spec fn unfailing(&self) -> bool {
        self.parent.unfailing()
    }

    closed spec fn counting(&self) -> bool {
        self.parent.counting()
    }

    closed spec fn whole(&self, width: nat) -> bool {
        self.parent.whole(width)
    }

    closed spec fn due(&self) -> Option<nat> {
        self.parent.due()
    }

    fn num_outputs(&self) -> (n: usize) {
        self.parent.num_outputs()
    }

    /// The parent's next blocks, handed on and counted, as `pass` gives them.
    fn next(&mut self, ctx: &Context, out: &mut Vec<Vec<u8>>) -> (r: Result<usize>)
        ensures
            r is Ok ==> final(self).counted() == Self::counted_after(
                old(self).counted(),
                total(final(out)@),
            ),
            r is Err ==> final(self).counted() == old(self).counted(),
    {
        self.pass(ctx, out)
    }
}

} // verus!
