//! The source of a graph: a byte stream cut into blocks.
use crate::chunks::{aligned, all_aligned, lemma_rest_is_aligned};
use crate::executor::{at_end, gives, total, Context, Operator};
use crate::result::Result;
use vstd::prelude::*;

verus! {

/// The block size that is used where none is asked for.
pub const BLOCK_SIZE: usize = 128 * 1024;

/// A source that gives the bytes of `reader` in blocks of `block_size` bytes, the last one
/// as long as what is left.
pub struct ReadBlock<'p> {
    block_size: usize,
    reader: &'p [u8],
    at: usize,
}

impl<'p> ReadBlock<'p> {
    /// The bytes that the source has yet to give.
    pub closed spec fn left(&self) -> Seq<u8> {
        self.reader@.subrange(self.at as int, self.reader@.len() as int)
    }

    /// The size of the blocks.
    pub closed spec fn block(&self) -> nat {
        self.block_size as nat
    }

    pub fn new(reader: &'p [u8], block_size: usize) -> (r: Box<Self>)
        ensures
            r.inv(),
            r.left() == reader@,
            r.block() == block_size,
    {
        assert(reader@.subrange(0, reader@.len() as int) =~= reader@);
        Box::new(Self { block_size, reader, at: 0 })
    }

    /// The next block: the first `block()` bytes of what is left, or all of it where that
    /// is less, put in the place of what the one buffer of `out` held. The number given is
    /// the length of the block.
    pub fn next_block(&mut self, out: &mut Vec<Vec<u8>>) -> (n: usize)
        requires
            old(self).inv(),
            old(out)@.len() == 1,
        ensures
            final(self).inv(),
            final(self).block() == old(self).block(),
            final(out)@.len() == 1,
            n == if old(self).left().len() < old(self).block() {
                old(self).left().len()
            } else {
                old(self).block()
            },
            final(out)@[0]@ == old(self).left().subrange(0, n as int),
            old(self).left() == final(out)@[0]@ + final(self).left(),
            final(self).left() == old(self).left().subrange(n as int, old(self).left().len() as int),
    {
        let left = self.reader.len() - self.at;
        let n = if left < self.block_size {
            left
        } else {
            self.block_size
        };
        let mut buf: Vec<u8> = Vec::new();
        core::mem::swap(&mut buf, &mut out[0]);
        buf.clear();
        let from = self.at;
        let total = self.reader.len();
        let mut i: usize = 0;
        while i < n
            invariant
                total == self.reader@.len(),
                from + n <= total,
                i <= n,
                buf@ == self.reader@.subrange(from as int, from + i),
            decreases n - i,
        {
            buf.push(self.reader[from + i]);
            assert(buf@ =~= self.reader@.subrange(from as int, from + i + 1));
            i = i + 1;
        }
        out.set(0, buf);
        self.at = from + n;
        proof {
            let rest = self.reader@.subrange(from as int, self.reader@.len() as int);
            assert(out@[0]@ =~= rest.subrange(0, n as int));
            assert(self.left() =~= rest.subrange(n as int, rest.len() as int));
            assert(rest =~= out@[0]@ + self.left());
        }
        n
    }
}

impl<'p> Operator for ReadBlock<'p> {
    closed spec fn inv(&self) -> bool {
        self.at <= self.reader@.len()
    }

    open spec fn outputs(&self) -> nat {
        1
    }

    /// A source with blocks that are not empty foretells what it has yet to give.
    open spec fn foretold(&self) -> bool {
        self.block() > 0
    }

    open spec fn rest(&self) -> Seq<Seq<u8>> {
        seq![self.left()]
    }

    /// Bytes that are at hand can always be given.
    open spec fn unfailing(&self) -> bool {
        true
    }

    open spec fn counting(&self) -> bool {
        true
    }

    /// What is due of a source with blocks that are not empty is what is left of its
    /// stream.
    open spec fn due(&self) -> Option<nat> {
        if self.block() > 0 {
            Some(self.left().len())
        } else {
            None
        }
    }

    /// Blocks of whole elements are cut from a stream of whole elements.
    open spec fn whole(&self, width: nat) -> bool {
        aligned(self.block(), width) && aligned(self.left().len(), width)
    }

    fn num_outputs(&self) -> (n: usize) {
        1
    }

    /// The next block, as `next_block` gives it: a source of bytes that are at hand never
    /// fails.
    fn next(&mut self, _ctx: &Context, out: &mut Vec<Vec<u8>>) -> (r: Result<usize>)
        ensures
            final(self).block() == old(self).block(),
            r matches Ok(n) && n == if old(self).left().len() < old(self).block() {
                old(self).left().len()
            } else {
                old(self).block()
            } && final(out)@[0]@ == old(self).left().subrange(0, n as int) && final(self).left()
                == old(self).left().subrange(n as int, old(self).left().len() as int),
    {
        let n = self.next_block(out);
        proof {
            assert(out@.drop_last() =~= Seq::<Vec<u8>>::empty());
            assert(total(out@.drop_last()) == 0);
            assert(out@.last() == out@[0]);
            assert(total(out@) == out@[0]@.len());
            assert forall|width: nat| #[trigger] old(self).whole(width) implies self.whole(width)
                && all_aligned(out@, width) by {
                lemma_rest_is_aligned(old(self).left().len(), n as nat, width);
            }
        }
        Ok(n)
    }
}

} // verus!
