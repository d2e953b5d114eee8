//! The streaming graph: operators that hand on a stream block by block.
use crate::chunks::all_aligned;
use crate::result::{Error, Result};
use object_pool::Pool;
use vstd::prelude::*;

verus! {

/// The number of buffers that a context keeps for use again.
pub const POOL_SIZE: usize = 4;

/// The room that a fresh buffer is made with.
pub const BUFFER_SIZE: usize = 4096;

/// The most blocks that an operator asks of its parent for one block of its own, and that
/// a stream is run for: more than any stream has.
pub const PATIENCE: usize = usize::MAX;

/// `object_pool::Pool`: a pool of values to be used again. Nothing is said of what it
/// keeps.
#[verifier::external_type_specification]
#[verifier::external_body]
#[verifier::reject_recursive_types(T)]
pub struct ExPool<T>(Pool<T>);

/// An empty buffer with room for `cap` bytes.
pub fn fresh_buffer(cap: usize) -> (buf: Vec<u8>)
    ensures
        buf@.len() == 0,
{
    Vec::with_capacity(cap)
}

/// `Pool::new`: a pool that keeps `cap` buffers, each made with room for `room` bytes.
#[verifier::external_body]
fn pool_new(cap: usize, room: usize) -> Pool<Vec<u8>> {
    Pool::new(cap, || fresh_buffer(room))
}

/// `Pool::pull`, with the buffer taken out of its guard: a buffer that the pool kept, or a
/// fresh one where it keeps none. Nothing is said of what the buffer holds.
#[verifier::external_body]
fn pool_pull(pool: &Pool<Vec<u8>>, room: usize) -> Vec<u8> {
    pool.pull(|| fresh_buffer(room)).detach().1
}

/// `Pool::attach`: gives a buffer to the pool to keep.
#[verifier::external_body]
fn pool_attach(pool: &Pool<Vec<u8>>, buf: Vec<u8>) {
    pool.attach(buf)
}

/// What the operators of one run share: a pool of buffers.
pub struct Context {
    pool: Pool<Vec<u8>>,
}

impl Context {
    pub fn new() -> Self {
        Context { pool: pool_new(POOL_SIZE, BUFFER_SIZE) }
    }

    /// `cnt` empty buffers, from the pool as far as it has any.
    pub fn allocate(&self, cnt: usize) -> (bufs: Vec<Vec<u8>>)
        ensures
            bufs@.len() == cnt,
            forall|i: int| 0 <= i < cnt ==> (#[trigger] bufs@[i])@.len() == 0,
    {
        let mut bufs: Vec<Vec<u8>> = Vec::new();
        let mut i: usize = 0;
        while i < cnt
            invariant
                i <= cnt,
                bufs@.len() == i,
                forall|j: int| 0 <= j < i ==> (#[trigger] bufs@[j])@.len() == 0,
            decreases cnt - i,
        {
            let mut buf = pool_pull(&self.pool, BUFFER_SIZE);
            buf.clear();
            bufs.push(buf);
            i = i + 1;
        }
        bufs
    }

    /// Gives buffers back to the pool.
    pub fn release(&self, bufs: Vec<Vec<u8>>) {
        let mut bufs = bufs;
        while bufs.len() > 0
            decreases bufs@.len(),
        {
            match bufs.pop() {
                Some(buf) => {
                    pool_attach(&self.pool, buf);
                },
                None => {},
            }
        }
    }
}

/// Whether each of the buffers `now` begins with what the buffer of `before` at its place
/// holds.
pub open spec fn grown(before: Seq<Vec<u8>>, now: Seq<Vec<u8>>) -> bool {
    &&& now.len() == before.len()
    &&& forall|i: int| 0 <= i < before.len() ==> (#[trigger] before[i])@.is_prefix_of(now[i]@)
}

/// What begins a byte string begins what that byte string begins.
pub proof fn lemma_prefix_of_prefix(a: Seq<u8>, b: Seq<u8>, c: Seq<u8>)
    requires
        a.is_prefix_of(b),
        b.is_prefix_of(c),
    ensures
        a.is_prefix_of(c),
{
    assert(a =~= c.subrange(0, a.len() as int)) by {
        assert(b =~= c.subrange(0, b.len() as int));
        assert(a =~= b.subrange(0, a.len() as int));
    }
}

/// Whether every one of the buffers is empty.
pub open spec fn all_empty(bufs: Seq<Vec<u8>>) -> bool {
    forall|i: int| 0 <= i < bufs.len() ==> (#[trigger] bufs[i])@.len() == 0
}

/// The number of bytes in all of the buffers.
pub open spec fn total(bufs: Seq<Vec<u8>>) -> nat
    decreases bufs.len(),
{
    if bufs.len() == 0 {
        0
    } else {
        total(bufs.drop_last()) + bufs.last()@.len()
    }
}

/// The number `n` as a `usize` holds it: the largest `usize` where `n` is more, and zero
/// where it is less than that.
pub open spec fn capped(n: int) -> nat {
    if n > usize::MAX {
        usize::MAX as nat
    } else if n < 0 {
        0
    } else {
        n as nat
    }
}

/// The number of bytes in all of the buffers, or the largest `usize` where they are more.
pub fn total_len(bufs: &Vec<Vec<u8>>) -> (n: usize)
    ensures
        n == capped(total(bufs@) as int),
{
    let mut n: usize = 0;
    let mut i: usize = 0;
    proof {
        assert(bufs@.subrange(0, 0) =~= Seq::<Vec<u8>>::empty());
    }
    while i < bufs.len()
        invariant
            i <= bufs@.len(),
            n == if total(bufs@.subrange(0, i as int)) > usize::MAX {
                usize::MAX as nat
            } else {
                total(bufs@.subrange(0, i as int))
            },
        decreases bufs@.len() - i,
    {
        proof {
            let s = bufs@.subrange(0, i + 1);
            assert(s.drop_last() =~= bufs@.subrange(0, i as int));
            assert(s.last() == bufs@[i as int]);
        }
        n = n.saturating_add(bufs[i].len());
        i = i + 1;
    }
    proof {
        assert(bufs@.subrange(0, bufs@.len() as int) =~= bufs@);
    }
    n
}

/// Buffers that are all empty hold no bytes.
pub proof fn lemma_total_of_empty(bufs: Seq<Vec<u8>>)
    requires
        all_empty(bufs),
    ensures
        total(bufs) == 0,
    decreases bufs.len(),
{
    if bufs.len() > 0 {
        assert(bufs.last() == bufs[bufs.len() - 1]);
        assert forall|i: int| 0 <= i < bufs.drop_last().len() implies (#[trigger] bufs.drop_last()[i])@.len()
            == 0 by {
            assert(bufs.drop_last()[i] == bufs[i]);
        }
        lemma_total_of_empty(bufs.drop_last());
    }
}

/// Buffers that are as long as others, each as the one at its place, hold as many bytes.
pub proof fn lemma_total_of_lengths(a: Seq<Vec<u8>>, b: Seq<Vec<u8>>)
    requires
        a.len() == b.len(),
        forall|i: int| 0 <= i < a.len() ==> (#[trigger] a[i])@.len() == b[i]@.len(),
    ensures
        total(a) == total(b),
    decreases a.len(),
{
    if a.len() > 0 {
        assert(a.last()@.len() == b.last()@.len()) by {
            assert(a[a.len() - 1]@.len() == b[a.len() - 1]@.len());
        }
        assert forall|i: int| 0 <= i < a.drop_last().len() implies (#[trigger] a.drop_last()[i])@.len()
            == b.drop_last()[i]@.len() by {
            assert(a[i]@.len() == b[i]@.len());
        }
        lemma_total_of_lengths(a.drop_last(), b.drop_last());
    }
}

/// Empties every one of the buffers.
pub fn clear_all(bufs: &mut Vec<Vec<u8>>)
    ensures
        final(bufs)@.len() == old(bufs)@.len(),
        all_empty(final(bufs)@),
{
    let mut i: usize = 0;
    while i < bufs.len()
        invariant
            bufs@.len() == old(bufs)@.len(),
            i <= bufs@.len(),
            forall|j: int| 0 <= j < i ==> (#[trigger] bufs@[j])@.len() == 0,
        decreases bufs@.len() - i,
    {
        let mut buf: Vec<u8> = Vec::new();
        core::mem::swap(&mut buf, &mut bufs[i]);
        buf.clear();
        bufs.set(i, buf);
        i = i + 1;
    }
}

/// Whether the blocks `out` are what comes first of the streams `before`, and `after` is
/// what comes behind them: output by output.
pub open spec fn gives(before: Seq<Seq<u8>>, out: Seq<Vec<u8>>, after: Seq<Seq<u8>>) -> bool {
    &&& before.len() == out.len()
    &&& after.len() == out.len()
    &&& forall|i: int| 0 <= i < out.len() ==> #[trigger] before[i] == out[i]@ + after[i]
}

/// Whether each of the streams is at its end.
pub open spec fn at_end(streams: Seq<Seq<u8>>) -> bool {
    forall|i: int| 0 <= i < streams.len() ==> (#[trigger] streams[i]).len() == 0
}

/// The number of bytes in all of the streams.
pub open spec fn volume(streams: Seq<Seq<u8>>) -> nat
    decreases streams.len(),
{
    if streams.len() == 0 {
        0
    } else {
        volume(streams.drop_last()) + streams.last().len()
    }
}

/// Streams hold the bytes of the blocks that come first of them and those that are left
/// behind the blocks.
pub proof fn lemma_volume_given(before: Seq<Seq<u8>>, out: Seq<Vec<u8>>, after: Seq<Seq<u8>>)
    requires
        gives(before, out, after),
    ensures
        volume(before) == total(out) + volume(after),
    decreases out.len(),
{
    if out.len() > 0 {
        let last = out.len() - 1;
        assert(before[last] == out[last]@ + after[last]);
        assert forall|i: int| 0 <= i < last implies #[trigger] before.drop_last()[i]
            == out.drop_last()[i]@ + after.drop_last()[i] by {
            assert(before[i] == out[i]@ + after[i]);
        }
        lemma_volume_given(before.drop_last(), out.drop_last(), after.drop_last());
    }
}

/// Streams that are all at their end hold no bytes.
pub proof fn lemma_volume_at_end(streams: Seq<Seq<u8>>)
    requires
        at_end(streams),
    ensures
        volume(streams) == 0,
    decreases streams.len(),
{
    if streams.len() > 0 {
        assert(streams.last() == streams[streams.len() - 1]);
        assert forall|i: int| 0 <= i < streams.drop_last().len() implies (
        #[trigger] streams.drop_last()[i]).len() == 0 by {
            assert(streams.drop_last()[i] == streams[i]);
        }
        lemma_volume_at_end(streams.drop_last());
    }
}

/// Whether the number `n` is what an operator of which `before` was due has given, and
/// `after` is due of it now: the number is how much less is due, it is zero only when
/// nothing was due, and an operator that said what was due says what is due now. The
/// number is the largest `usize` where it would be more.
pub open spec fn paid(before: Option<nat>, n: usize, after: Option<nat>) -> bool {
    match before {
        Some(d) => match after {
            Some(e) => e <= d && n == capped(d - e) && (n == 0 ==> d == 0),
            None => false,
        },
        None => true,
    }
}

/// A node of the streaming graph: it gives a stream block by block, on one or more outputs.
///
/// An operator may foretell what it has yet to give. The blocks of an operator that does
/// are then held to it: each call gives what comes first of what was left, and a call that
/// gives the number zero leaves nothing. An operator that foretells nothing, as one must
/// that works through a coder of which this crate knows no more than that it is lossless,
/// is held to the number of its outputs only.
///
/// An operator may also say that it never fails, that the number it gives is that of the
/// bytes in its blocks, that its blocks are whole numbers of elements of some width, and
/// what the numbers that it has yet to give add up to. Each call is then held to what it
/// said. What runs an operator that never fails and says what is due of it can tell how
/// the run ends: with success, and with the sum that was due.
pub trait Operator {
    /// What holds of the operator between two calls. Nothing, unless the operator says
    /// otherwise.
    open spec fn inv(&self) -> bool {
        true
    }

    /// The number of outputs. One, unless the operator says otherwise.
    open spec fn outputs(&self) -> nat {
        1
    }

    /// Whether the operator foretells what it has yet to give. It does not, unless it
    /// says otherwise.
    open spec fn foretold(&self) -> bool {
        false
    }

    /// What the operator has yet to give, on each output, if it foretells it.
    open spec fn rest(&self) -> Seq<Seq<u8>> {
        Seq::empty()
    }

    /// Whether the operator never fails. It may, unless it says otherwise.
    open spec fn unfailing(&self) -> bool {
        false
    }

    /// Whether the number that the operator gives is that of the bytes in its blocks, or
    /// the largest `usize` where they are more. It need not be, unless the operator says
    /// otherwise.
    open spec fn counting(&self) -> bool {
        false
    }

    /// Whether every block that the operator has yet to give is a whole number of elements
    /// of `width` bytes. It need not be, unless the operator says otherwise.
    open spec fn whole(&self, width: nat) -> bool {
        false
    }

    /// The sum of the numbers that the operator has yet to give, if it says so: for an
    /// operator that gives with each block the number of its bytes, the bytes that it has
    /// yet to give.
    open spec fn due(&self) -> Option<nat> {
        None
    }

    fn num_outputs(&self) -> (n: usize)
        requires
            self.inv(),
        ensures
            n == self.outputs(),
    ;

    /// Puts the next block of each output into the buffer of `out` at its place, and gives a
    /// number that is zero at the end of the stream.
    fn next(&mut self, ctx: &Context, out: &mut Vec<Vec<u8>>) -> (r: Result<usize>)
        requires
            old(self).inv(),
            old(out)@.len() == old(self).outputs(),
        ensures
            final(self).inv(),
            final(self).outputs() == old(self).outputs(),
            final(out)@.len() == old(out)@.len(),
            r is Ok ==> final(self).foretold() == old(self).foretold(),
            r is Ok && old(self).foretold() ==> gives(
                old(self).rest(),
                final(out)@,
                final(self).rest(),
            ),
            r matches Ok(n) ==> n == 0 && old(self).foretold() ==> at_end(old(self).rest()),
            old(self).unfailing() ==> r is Ok && final(self).unfailing(),
            r is Ok && old(self).counting() ==> final(self).counting(),
            r matches Ok(n) ==> old(self).counting() ==> n == capped(total(final(out)@) as int),
            r is Ok ==> forall|width: nat| #[trigger]
                old(self).whole(width) ==> final(self).whole(width) && all_aligned(
                    final(out)@,
                    width,
                ),
            r matches Ok(n) ==> paid(old(self).due(), n, final(self).due()),
    ;
}

/// Runs an operator to the end of its stream, dropping what it gives, and adds up the
/// numbers that it gave: the largest `usize` where the sum is more.
///
/// The first failure of the operator ends the run. A run of more than [`PATIENCE`] blocks
/// is given up with [`Error::Unknown`]. After a run that has succeeded, an operator that
/// foretold what it had to give has nothing left; where it counts the bytes of its blocks,
/// the sum is the number of bytes that it had to give. An operator that does both and
/// never fails is run with success, unless it has `usize::MAX` bytes to give or more.
/// Likewise for an operator that says what is due of it: the sum is what was due, and the
/// run succeeds where the operator never fails and less than `usize::MAX` was due.
pub fn execute_discard<Op: Operator>(op: &mut Op) -> (r: Result<usize>)
    requires
        old(op).inv(),
    ensures
        final(op).inv(),
        final(op).outputs() == old(op).outputs(),
        r is Ok && old(op).foretold() ==> final(op).foretold() && at_end(final(op).rest()),
        r matches Ok(n) ==> old(op).foretold() && old(op).counting() ==> n == capped(
            volume(old(op).rest()) as int,
        ),
        old(op).foretold() && old(op).counting() && old(op).unfailing() && volume(old(op).rest())
            < usize::MAX ==> r is Ok,
        r is Ok && old(op).unfailing() ==> final(op).unfailing(),
        r is Ok && old(op).counting() ==> final(op).counting(),
        r matches Ok(n) ==> (old(op).due() matches Some(d) ==> n == capped(d as int)
            && final(op).due() == Some(0nat)),
        old(op).unfailing() && (old(op).due() matches Some(d) && d < usize::MAX) ==> r is Ok,
{
    let ctx = Context::new();
    let mut sum: usize = 0;
    let mut out_buffer = ctx.allocate(op.num_outputs());
    let mut rounds: usize = 0;
    let ghost whole = volume(op.rest());
    while rounds < PATIENCE
        invariant
            op.inv(),
            op.outputs() == old(op).outputs(),
            out_buffer@.len() == op.outputs(),
            old(op).foretold() ==> op.foretold(),
            old(op).unfailing() ==> op.unfailing(),
            old(op).counting() ==> op.counting(),
            whole == volume(old(op).rest()),
            old(op).foretold() && old(op).counting() ==> volume(op.rest()) <= whole && sum
                == capped(whole - volume(op.rest())) && rounds <= whole - volume(op.rest()),
            old(op).due() matches Some(d) ==> (op.due() matches Some(e) && e <= d && sum == capped(
                d - e,
            ) && rounds <= d - e),
        decreases PATIENCE - rounds,
    {
        let ghost before = op.rest();
        match op.next(&ctx, &mut out_buffer) {
            Err(e) => {
                return Err(e);
            },
            Ok(n) => {
                proof {
                    if old(op).foretold() {
                        lemma_volume_given(before, out_buffer@, op.rest());
                    }
                }
                if n == 0 {
                    proof {
                        if old(op).foretold() {
                            assert forall|i: int| 0 <= i < op.rest().len() implies (
                            #[trigger] op.rest()[i]).len() == 0 by {
                                assert(before[i] == out_buffer@[i]@ + op.rest()[i]);
                            }
                            lemma_volume_at_end(before);
                        }
                    }
                    ctx.release(out_buffer);
                    return Ok(sum);
                }
                sum = sum.saturating_add(n);
            },
        }
        clear_all(&mut out_buffer);
        rounds = rounds + 1;
    }
    Err(Error::Unknown)
}

/// A reader of the one output of an operator.
pub struct ExecReader<Op: Operator> {
    op: Op,
    ctx: Context,
    buf: Vec<u8>,
    at: usize,
}

impl<Op: Operator> ExecReader<Op> {
    /// The operator has one output, and what was read of the block at hand lies in it.
    pub closed spec fn wf(&self) -> bool {
        &&& self.op.inv()
        &&& self.op.outputs() == 1
        &&& self.at <= self.buf@.len()
    }

    /// The bytes of the block at hand that were not read yet.
    pub closed spec fn held(&self) -> Seq<u8> {
        self.buf@.subrange(self.at as int, self.buf@.len() as int)
    }

    /// Whether the operator foretells what it has yet to give.
    pub closed spec fn foretold(&self) -> bool {
        self.op.foretold()
    }

    /// The bytes that are yet to be read, where the operator foretells what it has yet to
    /// give: those that are held, and then the operator's.
    pub closed spec fn stream(&self) -> Seq<u8> {
        self.held() + self.op.rest()[0]
    }

    /// Whether the operator never fails and gives with each block the number of its bytes.
    pub closed spec fn steady(&self) -> bool {
        self.op.unfailing() && self.op.counting()
    }

    /// Reads up to `max` bytes of the stream.
    ///
    /// The call succeeds where bytes are held, and where the operator is steady.
    ///
    /// Bytes that are held from the block at hand are given first, as many as asked for
    /// and there are. Where none is held, blocks are asked of the operator until one holds
    /// something; nothing is given at the end of the stream. Where the stream is foretold,
    /// the bytes given are what comes first of it, and nothing is given only where nothing
    /// is asked for or left.
    pub fn read(&mut self, max: usize) -> (r: Result<Vec<u8>>)
        requires
            old(self).wf(),
        ensures
            final(self).wf(),
            r matches Ok(bytes) ==> bytes@.len() <= max,
            r matches Ok(bytes) ==> old(self).held().len() > 0 ==> {
                &&& bytes@ == old(self).held().subrange(
                    0,
                    if old(self).held().len() < max {
                        old(self).held().len() as int
                    } else {
                        max as int
                    },
                )
                &&& final(self).held() == old(self).held().subrange(
                    bytes@.len() as int,
                    old(self).held().len() as int,
                )
            },
            r matches Ok(bytes) ==> old(self).foretold() ==> {
                &&& final(self).foretold()
                &&& old(self).stream() == bytes@ + final(self).stream()
                &&& bytes@.len() == 0 && max > 0 ==> old(self).stream().len() == 0
            },
            old(self).held().len() > 0 || old(self).steady() ==> r is Ok,
            r is Ok && old(self).steady() ==> final(self).steady(),
    {
        let mut rounds: usize = 0;
        while self.at >= self.buf.len()
            invariant
                self.wf(),
                old(self).steady() ==> self.steady(),
                old(self).steady() ==> rounds == 0 || self.at < self.buf@.len(),
                old(self).held().len() > 0 ==> self.held() == old(self).held() && self.op.rest()
                    == old(self).op.rest(),
                old(self).foretold() ==> self.foretold() && self.stream() == old(self).stream(),
            decreases PATIENCE - rounds,
        {
            assert(self.held() =~= Seq::<u8>::empty());
            if rounds >= PATIENCE {
                return Err(Error::Unknown);
            }
            rounds = rounds + 1;
            let mut m = self.ctx.allocate(1);
            let ghost before = self.op.rest();
            match self.op.next(&self.ctx, &mut m) {
                Err(e) => {
                    return Err(e);
                },
                Ok(n) => {
                    proof {
                        assert(m@.drop_last() =~= Seq::<Vec<u8>>::empty());
                        assert(total(m@.drop_last()) == 0);
                        assert(m@.last() == m@[0]);
                        assert(total(m@) == m@[0]@.len());
                    }
                    if n == 0 {
                        proof {
                            if old(self).foretold() {
                                assert(before[0] == m@[0]@ + self.op.rest()[0]);
                                assert(self.held() =~= Seq::<u8>::empty());
                                assert(self.stream() =~= Seq::<u8>::empty());
                                assert(old(self).stream().len() == 0);
                                assert(old(self).stream() =~= Seq::<u8>::empty() + self.stream());
                            }
                        }
                        self.ctx.release(m);
                        return Ok(Vec::new());
                    }
                },
            }
            core::mem::swap(&mut self.buf, &mut m[0]);
            self.at = 0;
            proof {
                assert(self.held() =~= self.buf@);
                if old(self).foretold() {
                    assert(before[0] == self.buf@ + self.op.rest()[0]);
                }
            }
            self.ctx.release(m);
        }
        let left = self.buf.len() - self.at;
        let n = if left < max {
            left
        } else {
            max
        };
        let from = self.at;
        let total = self.buf.len();
        let mut bytes: Vec<u8> = Vec::new();
        let mut i: usize = 0;
        let ghost entered = self.stream();
        let ghost holding = self.held();
        while i < n
            invariant
                total == self.buf@.len(),
                from + n <= total,
                self.at == from,
                self.wf(),
                i <= n,
                bytes@ == self.buf@.subrange(from as int, from + i),
                self.held() == holding,
                self.stream() == entered,
                old(self).foretold() ==> self.foretold(),
                old(self).steady() ==> self.steady(),
            decreases n - i,
        {
            bytes.push(self.buf[from + i]);
            assert(bytes@ =~= self.buf@.subrange(from as int, from + i + 1));
            i = i + 1;
        }
        self.at = from + n;
        proof {
            let held = self.buf@.subrange(from as int, total as int);
            assert(bytes@ =~= held.subrange(0, n as int));
            assert(self.held() =~= held.subrange(n as int, held.len() as int));
            assert(held =~= bytes@ + self.held());
            assert(entered =~= bytes@ + self.stream());
        }
        Ok(bytes)
    }

    /// Reads the stream to its end, appending to `buf`, and gives the number of bytes
    /// read: all of the stream, where it is foretold.
    ///
    /// A stream that takes more than [`PATIENCE`] reads, or that `buf` has no room for, is
    /// given up with [`Error::Unknown`]. A foretold stream of a steady operator is read
    /// with success, unless `buf` would come to hold `usize::MAX` bytes or more.
    pub fn read_to_end(&mut self, buf: &mut Vec<u8>) -> (r: Result<usize>)
        requires
            old(self).wf(),
        ensures
            final(self).wf(),
            r matches Ok(n) ==> final(buf)@.len() == old(buf)@.len() + n,
            r matches Ok(n) ==> final(buf)@.subrange(0, old(buf)@.len() as int) == old(buf)@,
            r is Ok && old(self).foretold() ==> final(buf)@ == old(buf)@ + old(self).stream(),
            r is Ok && old(self).foretold() ==> final(self).foretold() && final(self).stream().len()
                == 0,
            old(self).foretold() && old(self).steady() && old(buf)@.len() + old(self).stream().len()
                < usize::MAX ==> r is Ok,
            r is Ok && old(self).steady() ==> final(self).steady(),
    {
        let mut sum: usize = 0;
        let mut rounds: usize = 0;
        assert(buf@.subrange(0, buf@.len() as int) =~= buf@);
        while rounds < PATIENCE
            invariant
                self.wf(),
                old(self).steady() ==> self.steady(),
                rounds <= sum,
                buf@.len() == old(buf)@.len() + sum,
                buf@.subrange(0, old(buf)@.len() as int) == old(buf)@,
                old(self).foretold() ==> self.foretold() && buf@ + self.stream() == old(buf)@
                    + old(self).stream(),
            decreases PATIENCE - rounds,
        {
            let room = usize::MAX - buf.len();
            if room == 0 {
                return Err(Error::Unknown);
            }
            let part = match self.read(if room < BUFFER_SIZE {
                room
            } else {
                BUFFER_SIZE
            }) {
                Ok(p) => p,
                Err(e) => {
                    return Err(e);
                },
            };
            if part.len() == 0 {
                proof {
                    if old(self).foretold() {
                        assert(buf@ + Seq::<u8>::empty() =~= buf@);
                    }
                }
                return Ok(sum);
            }
            let ghost was = buf@;
            let ghost read = part@;
            let ghost left = self.stream();
            let mut part = part;
            sum = sum + part.len();
            buf.append(&mut part);
            proof {
                assert(buf@.subrange(0, old(buf)@.len() as int) =~= was.subrange(
                    0,
                    old(buf)@.len() as int,
                ));
                if old(self).foretold() {
                    assert(buf@ + left =~= was + (read + left));
                }
            }
            rounds = rounds + 1;
        }
        Err(Error::Unknown)
    }
}

/// A reader of the one output of an operator; [`Error::FanOutMismatch`] for an operator
/// with another number of outputs.
pub fn execute_reader<Op: Operator>(op: Op) -> (r: Result<ExecReader<Op>>)
    requires
        op.inv(),
    ensures
        r is Ok <==> op.outputs() == 1,
        r matches Ok(reader) ==> reader.wf() && reader.held().len() == 0 && reader.foretold()
            == op.foretold() && (op.foretold() ==> reader.stream() == op.rest()[0]),
        r matches Ok(reader) ==> reader.steady() == (op.unfailing() && op.counting()),
        r is Err ==> r matches Err(Error::FanOutMismatch),
{
    if op.num_outputs() != 1 {
        return Err(Error::FanOutMismatch);
    }
    let ghost rest = op.rest();
    let reader = ExecReader { op, ctx: Context::new(), buf: Vec::new(), at: 0 };
    proof {
        assert(reader.held() =~= Seq::<u8>::empty());
        assert(reader.stream() =~= rest[0]);
    }
    Ok(reader)
}

} // verus!
