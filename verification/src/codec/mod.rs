use smallvec::SmallVec;
use vstd::prelude::*;

pub mod compress;
pub mod convert;
pub mod split;
pub mod zfp;

pub use compress::Compress;
pub use convert::Convert;
pub use split::Split;

verus! {

/// The buffers of a [`BufferList`]: a small vector that keeps up to four of them inline.
#[verifier::external_body]
pub struct Buffers {
    inner: SmallVec<[Vec<u8>; 4]>,
}

/// The byte strings that a `Buffers` holds, in order.
pub uninterp spec fn buffers_of(b: Buffers) -> Seq<Seq<u8>>;

/// `SmallVec::new`: a vector that holds nothing.
#[verifier::external_body]
fn buffers_new() -> (b: Buffers)
    ensures
        buffers_of(b) == Seq::<Seq<u8>>::empty(),
{
    Buffers { inner: SmallVec::new() }
}

/// `SmallVec::len`: the number of buffers held.
#[verifier::external_body]
fn buffers_len(b: &Buffers) -> (n: usize)
    ensures
        n == buffers_of(*b).len(),
{
    b.inner.len()
}

/// `SmallVec::push`: appends one buffer and leaves the others as they are.
#[verifier::external_body]
fn buffers_push(b: &mut Buffers, buf: Vec<u8>)
    ensures
        buffers_of(*final(b)) == buffers_of(*old(b)).push(buf@),
{
    b.inner.push(buf)
}

/// Indexing a `SmallVec` (through its `Deref` to a slice): the buffer at `i`.
#[verifier::external_body]
fn buffers_get(b: &Buffers, i: usize) -> (buf: &Vec<u8>)
    requires
        i < buffers_of(*b).len(),
    ensures
        buf@ == buffers_of(*b)[i as int],
{
    &b.inner[i]
}

/// Mutable indexing of a `SmallVec` (through its `DerefMut` to a slice): the buffer at
/// `i`, to be changed in place; the other buffers stay as they are.
#[verifier::external_body]
fn buffers_slot(b: &mut Buffers, i: usize) -> (buf: &mut Vec<u8>)
    requires
        i < buffers_of(*old(b)).len(),
    ensures
        buf@ == buffers_of(*old(b))[i as int],
        buffers_of(*final(b)) == buffers_of(*old(b)).update(i as int, final(buf)@),
{
    &mut b.inner[i]
}

/// `SmallVec::clone`: a vector that holds copies of the same buffers.
#[verifier::external_body]
fn buffers_clone(b: &Buffers) -> (c: Buffers)
    ensures
        buffers_of(c) == buffers_of(*b),
{
    Buffers { inner: b.inner.clone() }
}

/// The number of bytes in all of the buffers.
pub open spec fn total_len(buffers: Seq<Seq<u8>>) -> nat
    decreases buffers.len(),
{
    if buffers.len() == 0 {
        0
    } else {
        total_len(buffers.drop_last()) + buffers.last().len()
    }
}

/// An ordered list of byte buffers: what a stage takes and what it gives.
///
/// The list keeps buffers that it no longer shows, so that a later [`BufferList::reset`]
/// can use them again.
pub struct BufferList {
    inner: Buffers,
    n: usize,
}

impl View for BufferList {
    type V = Seq<Seq<u8>>;

    /// The buffers of the list, in order.
    closed spec fn view(&self) -> Seq<Seq<u8>> {
        buffers_of(self.inner).subrange(0, self.n as int)
    }
}

impl BufferList {
    /// The list shows no more buffers than it keeps.
    pub closed spec fn wf(&self) -> bool {
        self.n <= buffers_of(self.inner).len()
    }

    /// A list of no buffers.
    pub fn new() -> (list: Self)
        ensures
            list.wf(),
            list@ == Seq::<Seq<u8>>::empty(),
    {
        BufferList { inner: buffers_new(), n: 0 }
    }

    /// The number of buffers in the list.
    pub fn len(&self) -> (n: usize)
        requires
            self.wf(),
        ensures
            n == self@.len(),
    {
        self.n
    }

    /// Makes the list hold `n` empty buffers.
    pub fn reset(&mut self, n: usize)
        requires
            old(self).wf(),
        ensures
            final(self).wf(),
            final(self)@ == Seq::new(n as nat, |i: int| Seq::<u8>::empty()),
    {
        let mut have = buffers_len(&self.inner);
        while have < n
            invariant
                have == buffers_of(self.inner).len(),
                self.n <= have,
            decreases n - have,
        {
            buffers_push(&mut self.inner, Vec::new());
            have = have + 1;
        }
        self.n = n;
        let mut i: usize = 0;
        while i < have
            invariant
                have == buffers_of(self.inner).len(),
                self.n == n,
                n <= have,
                i <= have,
                forall|j: int| 0 <= j < i ==> #[trigger] buffers_of(self.inner)[j] == Seq::<u8>::empty(),
            decreases have - i,
        {
            let slot = buffers_slot(&mut self.inner, i);
            slot.clear();
            i = i + 1;
        }
        assert(self@ =~= Seq::new(n as nat, |i: int| Seq::<u8>::empty()));
    }

    /// The buffer at position `i`.
    pub fn get(&self, i: usize) -> (buf: &Vec<u8>)
        requires
            self.wf(),
            i < self@.len(),
        ensures
            buf@ == self@[i as int],
    {
        buffers_get(&self.inner, i)
    }

    /// The buffer at position `i`, to be filled in place.
    pub fn slot(&mut self, i: usize) -> (buf: &mut Vec<u8>)
        requires
            old(self).wf(),
            i < old(self)@.len(),
        ensures
            buf@ == old(self)@[i as int],
            final(self).wf(),
            final(self)@ == old(self)@.update(i as int, final(buf)@),
    {
        buffers_slot(&mut self.inner, i)
    }
}

impl BufferList {
    /// The buffers of the list as slices, in order.
    pub fn iter_slice(&self) -> (slices: Vec<&[u8]>)
        requires
            self.wf(),
        ensures
            slices@.len() == self@.len(),
            forall|i: int| 0 <= i < self@.len() ==> (#[trigger] slices@[i])@ == self@[i],
    {
        let mut slices: Vec<&[u8]> = Vec::new();
        let count = self.len();
        let mut i: usize = 0;
        while i < count
            invariant
                self.wf(),
                count == self@.len(),
                i <= count,
                slices@.len() == i,
                forall|j: int| 0 <= j < i ==> (#[trigger] slices@[j])@ == self@[j],
            decreases count - i,
        {
            slices.push(self.get(i).as_slice());
            i = i + 1;
        }
        slices
    }

    /// Puts `buf` in the place of the buffer at `i`, which is dropped.
    pub fn put(&mut self, i: usize, buf: Vec<u8>)
        requires
            old(self).wf(),
            i < old(self)@.len(),
        ensures
            final(self).wf(),
            final(self)@ == old(self)@.update(i as int, buf@),
    {
        let slot = self.slot(i);
        *slot = buf;
    }

    /// Takes the buffer at `i` out of the list and leaves an empty one in its place.
    pub fn take(&mut self, i: usize) -> (buf: Vec<u8>)
        requires
            old(self).wf(),
            i < old(self)@.len(),
        ensures
            final(self).wf(),
            buf@ == old(self)@[i as int],
            final(self)@ == old(self)@.update(i as int, Seq::<u8>::empty()),
    {
        let mut buf = Vec::new();
        let slot = self.slot(i);
        core::mem::swap(slot, &mut buf);
        buf
    }

    /// The number of bytes in all the buffers, or the largest `usize` where they are more.
    pub fn total_len(&self) -> (n: usize)
        requires
            self.wf(),
        ensures
            n == if total_len(self@) > usize::MAX {
                usize::MAX as nat
            } else {
                total_len(self@)
            },
    {
        let mut n: usize = 0;
        let mut i: usize = 0;
        let count = self.len();
        proof {
            assert(self@.subrange(0, 0) =~= Seq::<Seq<u8>>::empty());
        }
        while i < count
            invariant
                self.wf(),
                count == self@.len(),
                i <= count,
                n == if total_len(self@.subrange(0, i as int)) > usize::MAX {
                    usize::MAX as nat
                } else {
                    total_len(self@.subrange(0, i as int))
                },
            decreases count - i,
        {
            proof {
                let s = self@.subrange(0, i + 1);
                assert(s.drop_last() =~= self@.subrange(0, i as int));
                assert(s.last() == self@[i as int]);
            }
            n = n.saturating_add(self.get(i).len());
            i = i + 1;
        }
        proof {
            assert(self@.subrange(0, count as int) =~= self@);
        }
        n
    }

    /// A list of the one buffer that holds a copy of `data`.
    pub fn of(data: &[u8]) -> (list: Self)
        ensures
            list.wf(),
            list@ == seq![data@],
    {
        let mut list = BufferList::new();
        list.reset(1);
        list.put(0, vstd::slice::slice_to_vec(data));
        assert(list@ =~= seq![data@]);
        list
    }
}

impl BufferList {
    /// A walk over the buffers, from the first.
    pub fn iter(&self) -> (it: BufferListIter<'_>)
        requires
            self.wf(),
        ensures
            it.wf(),
            it.rest() == self@,
    {
        assert(self@.subrange(0, self@.len() as int) =~= self@);
        BufferListIter { list: self, at: 0 }
    }
}

/// A walk over the buffers of a list.
pub struct BufferListIter<'a> {
    list: &'a BufferList,
    at: usize,
}

impl<'a> BufferListIter<'a> {
    /// The walk has not left the list.
    pub closed spec fn wf(&self) -> bool {
        self.list.wf() && self.at <= self.list@.len()
    }

    /// The buffers that the walk has yet to come to.
    pub closed spec fn rest(&self) -> Seq<Seq<u8>> {
        self.list@.subrange(self.at as int, self.list@.len() as int)
    }

    /// The next buffer, if the walk has not come to the end.
    pub fn next(&mut self) -> (buf: Option<&'a Vec<u8>>)
        requires
            old(self).wf(),
        ensures
            final(self).wf(),
            buf is Some <==> old(self).rest().len() > 0,
            buf matches Some(b) ==> b@ == old(self).rest()[0] && final(self).rest() == old(self).rest().drop_first(),
            buf is None ==> final(self).rest() == old(self).rest(),
    {
        if self.at < self.list.len() {
            let buf = self.list.get(self.at);
            self.at = self.at + 1;
            assert(self.rest() =~= old(self).rest().drop_first());
            Some(buf)
        } else {
            None
        }
    }

    /// The number of buffers that the walk has yet to come to, as both bounds of it.
    pub fn size_hint(&self) -> (hint: (usize, Option<usize>))
        requires
            self.wf(),
        ensures
            hint.0 == self.rest().len(),
            hint.1 == Some(hint.0),
    {
        let n = self.list.len() - self.at;
        (n, Some(n))
    }
}

impl Clone for BufferList {
    fn clone(&self) -> (list: Self)
        ensures
            list.wf() == self.wf(),
            list@ == self@,
    {
        BufferList { inner: buffers_clone(&self.inner), n: self.n }
    }
}

} // verus!
