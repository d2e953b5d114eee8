//! Narrowing of floating-point elements, and widening them back.
use crate::backend::Backend;
use crate::bits::{bytes, load, max_word, store, word};
use crate::chunks::{
    aligned, every_chunk, lemma_chunk_step, lemma_map_chunks_append, lemma_map_chunks_undone,
    map_chunks,
};
use crate::codec::BufferList;
use crate::result::{Error, Result};
use vstd::prelude::*;

verus! {

/// Which wide floating-point type is narrowed to which.
#[derive(PartialEq, Eq, Structural, Copy, Clone, Debug)]
pub enum Convert {
    Float32ToBfloat16,
    Float32ToFloat16,
    Float64ToBfloat16,
    Float64ToFloat16,
    Float64ToFloat32,
}

/// The bfloat16 nearest to the single-precision number `x`, ties going to the even one.
/// A NaN keeps its sign and the high bits of its payload and becomes a quiet NaN.
pub open spec fn bf16_of_single(x: u32) -> u16 {
    if x & 0x7FFF_FFFF > 0x7F80_0000 {
        ((x >> 16) | 0x0040) as u16
    } else if x & 0x8000 != 0 && x & 0x1_7FFF != 0 {
        (((x >> 16) as u16) + 1) as u16
    } else {
        (x >> 16) as u16
    }
}

/// The single-precision number equal to the bfloat16 `b`. A NaN becomes a quiet NaN.
pub open spec fn single_of_bf16(b: u16) -> u32 {
    if b & 0x7FFF > 0x7F80 {
        ((b as u32) | 0x0040) << 16
    } else {
        (b as u32) << 16
    }
}

proof fn lemma_narrowing_facts(x: u32)
    by (bit_vector)
    ensures
        !(x & 0x7FFF_FFFF > 0x7F80_0000) && x & 0x8000 != 0 ==> ((x >> 16) as u16) < 0xFFFF,
        (x >> 16) <= 0xFFFF,
        ((x >> 16) | 0x0040) <= 0xFFFF,
{
}

/// Narrows one single-precision number to bfloat16.
pub fn single_to_bf16(x: u32) -> (r: u16)
    ensures
        r == bf16_of_single(x),
{
    proof {
        lemma_narrowing_facts(x);
    }
    if x & 0x7FFF_FFFF > 0x7F80_0000 {
        ((x >> 16) | 0x0040) as u16
    } else if x & 0x8000 != 0 && x & 0x1_7FFF != 0 {
        ((x >> 16) as u16) + 1
    } else {
        (x >> 16) as u16
    }
}

/// Narrowing rounds to nearest, ties to even: a number that is no NaN keeps its sign, and
/// its magnitude moves by at most half a step of the narrow format, by exactly half a step
/// only onto an even pattern.
pub proof fn lemma_bf16_is_nearest(x: u32)
    by (bit_vector)
    requires
        x & 0x7FFF_FFFF <= 0x7F80_0000,
    ensures
        ({
            let r = bf16_of_single(x);
            let wide = (r as u32) << 16;
            let was = x & 0x7FFF_FFFF;
            let is = wide & 0x7FFF_FFFF;
            let moved = if is >= was {
                (is - was) as u32
            } else {
                (was - is) as u32
            };
            &&& wide & 0x8000_0000 == x & 0x8000_0000
            &&& is <= 0x7F80_0000
            &&& moved <= 0x8000
            &&& moved == 0x8000 ==> r & 1 == 0
        }),
{
}

/// Widening what was narrowed from it gives a bfloat16 back unchanged, but for a NaN,
/// which comes back as the quiet NaN of the same sign and payload.
pub proof fn lemma_bf16_survives(b: u16)
    by (bit_vector)
    ensures
        bf16_of_single(single_of_bf16(b)) == if b & 0x7FFF > 0x7F80 {
            b | 0x0040
        } else {
            b
        },
{
}

/// Whether bfloat16 holds the single-precision number `x` exactly: the low half of its
/// pattern is clear, and it is no NaN.
pub open spec fn exact_in_bf16(x: u32) -> bool {
    x & 0xFFFF == 0 && x & 0x7FFF_FFFF <= 0x7F80_0000
}

/// A number that bfloat16 holds exactly comes back from it as it was.
pub proof fn lemma_exact_survives(x: u32)
    by (bit_vector)
    requires
        x & 0xFFFF == 0 && x & 0x7FFF_FFFF <= 0x7F80_0000,
    ensures
        bf16_of_single(x) == (x >> 16) as u16,
        single_of_bf16((x >> 16) as u16) == x,
{
}

/// Whether bfloat16 holds every single-precision element of `data` exactly.
pub open spec fn all_exact_in_bf16(data: Seq<u8>) -> bool {
    every_chunk(data, 4, |c: Seq<u8>| exact_in_bf16(word(c) as u32))
}

/// Widens one bfloat16 to single precision: it becomes the high half of the pattern, with
/// the quiet bit set in a NaN.
pub fn bf16_to_single(b: u16) -> (r: u32)
    ensures
        r == single_of_bf16(b),
{
    if b & 0x7FFF > 0x7F80 {
        ((b as u32) | 0x0040) << 16
    } else {
        (b as u32) << 16
    }
}

/// The double-precision pattern that `half::bf16::to_f64` gives for a bfloat16 pattern.
pub uninterp spec fn double_of_bf16(b: u16) -> u64;

/// `half::bf16::to_f64`, from bits to bits.
#[verifier::external_body]
fn bf16_to_double(b: u16) -> (r: u64)
    ensures
        r == double_of_bf16(b),
{
    half::bf16::from_bits(b).to_f64().to_bits()
}

/// Single-precision elements that bfloat16 holds exactly come back from the narrowing as
/// they were: widening what was narrowed of them gives the same bytes.
pub proof fn lemma_exact_comes_back<B: Backend>(backend: &B, data: Seq<u8>)
    requires
        aligned(data.len(), 4),
        all_exact_in_bf16(data),
    ensures
        map_chunks(
            map_chunks(data, 4, Convert::Float32ToBfloat16.narrowing_by(backend)),
            2,
            Convert::Float32ToBfloat16.widening_by(backend),
        ) == data,
{
    let c = Convert::Float32ToBfloat16;
    let f = c.narrowing_by(backend);
    let g = c.widening_by(backend);
    let p = |c: Seq<u8>| exact_in_bf16(word(c) as u32);
    assert forall|run: Seq<u8>| run.len() == 4 implies (#[trigger] f(run)).len() == 2 by {}
    assert forall|run: Seq<u8>| run.len() == 4 && #[trigger] p(run) implies g(f(run)) == run by {
        let x = word(run);
        crate::bits::lemma_bytes_of_word(run);
        assert(x <= 0xffff_ffff);
        lemma_exact_survives(x as u32);
        let y = bf16_of_single(x as u32);
        crate::bits::lemma_word_of_bytes(y as u64, 2);
        assert(c.narrowed_by(backend, x) == y as u64);
        assert(word(f(run)) == y as u64);
        assert(c.widened_by(backend, y as u64) == single_of_bf16(y) as u64);
        assert(single_of_bf16(y) == x as u32);
        assert(g(f(run)) == bytes(x, 4));
    }
    lemma_map_chunks_undone(data, 4, f, 2, g, p);
}

impl Convert {
    /// Width of the wide type, in bytes.
    pub open spec fn wide(self) -> nat {
        match self {
            Convert::Float32ToBfloat16 | Convert::Float32ToFloat16 => 4,
            _ => 8,
        }
    }

    /// Width of the narrow type, in bytes.
    pub open spec fn narrow(self) -> nat {
        match self {
            Convert::Float64ToFloat32 => 4,
            _ => 2,
        }
    }

    /// Whether this crate narrows by itself, and not through the backend.
    pub open spec fn narrows_here(self) -> bool {
        self == Convert::Float32ToBfloat16
    }

    /// Whether this crate widens by itself, and not through the backend.
    pub open spec fn widens_here(self) -> bool {
        self == Convert::Float32ToBfloat16 || self == Convert::Float64ToBfloat16
    }

    /// The narrow pattern for the wide pattern `x`, where the crate narrows by itself.
    pub open spec fn narrowed(self, x: u64) -> u64 {
        bf16_of_single(x as u32) as u64
    }

    /// The wide pattern for the narrow pattern `x`, where the crate widens by itself.
    pub open spec fn widened(self, x: u64) -> u64 {
        match self {
            Convert::Float32ToBfloat16 => single_of_bf16(x as u16) as u64,
            _ => double_of_bf16(x as u16),
        }
    }

    /// The narrow pattern for the wide pattern `x`: the crate's own where it narrows by
    /// itself, and else the backend's answer.
    pub open spec fn narrowed_by<B: Backend>(self, backend: &B, x: u64) -> u64 {
        if self.narrows_here() {
            self.narrowed(x)
        } else {
            backend.narrowed(self, x)
        }
    }

    /// The wide pattern for the narrow pattern `x`: the crate's own where it widens by
    /// itself, and else the backend's answer.
    pub open spec fn widened_by<B: Backend>(self, backend: &B, x: u64) -> u64 {
        if self.widens_here() {
            self.widened(x)
        } else {
            backend.widened(self, x)
        }
    }

    /// What narrowing with `backend` makes of the bytes of one wide element.
    pub open spec fn narrowing_by<B: Backend>(self, backend: &B) -> spec_fn(Seq<u8>) -> Seq<u8> {
        |c: Seq<u8>| bytes(self.narrowed_by(backend, word(c)), self.narrow())
    }

    /// What widening with `backend` makes of the bytes of one narrow element.
    pub open spec fn widening_by<B: Backend>(self, backend: &B) -> spec_fn(Seq<u8>) -> Seq<u8> {
        |c: Seq<u8>| bytes(self.widened_by(backend, word(c)), self.wide())
    }

    /// What narrowing makes of the bytes of one wide element.
    pub open spec fn narrowing(self) -> spec_fn(Seq<u8>) -> Seq<u8> {
        |c: Seq<u8>| bytes(self.narrowed(word(c)), self.narrow())
    }

    /// What widening makes of the bytes of one narrow element.
    pub open spec fn widening(self) -> spec_fn(Seq<u8>) -> Seq<u8> {
        |c: Seq<u8>| bytes(self.widened(word(c)), self.wide())
    }

    /// Width of the wide type, in bytes.
    pub fn wide_len(&self) -> (n: usize)
        ensures
            n == self.wide(),
    {
        match self {
            Convert::Float32ToBfloat16 | Convert::Float32ToFloat16 => 4,
            _ => 8,
        }
    }

    /// Width of the narrow type, in bytes.
    pub fn narrow_len(&self) -> (n: usize)
        ensures
            n == self.narrow(),
    {
        match self {
            Convert::Float64ToFloat32 => 4,
            _ => 2,
        }
    }

    fn narrow_element<B: Backend>(self, backend: &B, x: u64) -> (y: u64)
        requires
            x <= max_word(self.wide()),
        ensures
            self.narrows_here() ==> y == self.narrowed(x),
            y == self.narrowed_by(backend, x),
    {
        match self {
            Convert::Float32ToBfloat16 => single_to_bf16(x as u32) as u64,
            _ => backend.narrow(self, x),
        }
    }

    fn widen_element<B: Backend>(self, backend: &B, x: u64) -> (y: u64)
        requires
            x <= max_word(self.narrow()),
        ensures
            self.widens_here() ==> y == self.widened(x),
            y == self.widened_by(backend, x),
    {
        match self {
            Convert::Float32ToBfloat16 => bf16_to_single(x as u16) as u64,
            Convert::Float64ToBfloat16 => bf16_to_double(x as u16),
            _ => backend.widen(self, x),
        }
    }

    /// Narrows the elements of one buffer, appending them to the empty `out`.
    pub(crate) fn narrow_buffer<B: Backend>(self, backend: &B, input: &[u8], out: &mut Vec<u8>)
        requires
            aligned(input@.len(), self.wide()),
            old(out)@.len() == 0,
        ensures
            final(out)@.len() == (input@.len() / self.wide()) * self.narrow(),
            self.narrows_here() ==> final(out)@ == map_chunks(
                input@,
                self.wide(),
                self.narrowing(),
            ),
            final(out)@ == map_chunks(input@, self.wide(), self.narrowing_by(backend)),
    {
        let ns = self.wide_len();
        let nd = self.narrow_len();
        let len = input.len();
        let mut at: usize = 0;
        proof {
            vstd::arithmetic::div_mod::lemma_basic_div(0, ns as int);
            assert(input@.subrange(0, 0) =~= Seq::<u8>::empty());
        }
        while at < len
            invariant
                ns == self.wide(),
                nd == self.narrow(),
                len == input@.len(),
                at <= len,
                at as int % ns as int == 0,
                len as int % ns as int == 0,
                out@.len() == (at as int / ns as int) * nd,
                self.narrows_here() ==> out@ == map_chunks(
                    input@.subrange(0, at as int),
                    ns as nat,
                    self.narrowing(),
                ),
                out@ == map_chunks(
                    input@.subrange(0, at as int),
                    ns as nat,
                    self.narrowing_by(backend),
                ),
            decreases len - at,
        {
            proof {
                lemma_chunk_step(at as int, len as int, ns as int, nd as int);
            }
            let x = load(input, at, ns);
            let y = self.narrow_element(backend, x);
            store(out, y, nd);
            proof {
                let a = input@.subrange(0, at as int);
                let c = input@.subrange(at as int, at + ns);
                if self.narrows_here() {
                    lemma_map_chunks_append(a, c, ns as nat, self.narrowing());
                }
                lemma_map_chunks_append(a, c, ns as nat, self.narrowing_by(backend));
                assert(a + c =~= input@.subrange(0, at + ns));
            }
            at = at + ns;
        }
        assert(input@.subrange(0, len as int) =~= input@);
    }

    /// Widens the elements of one buffer, appending them to the empty `out`.
    pub(crate) fn widen_buffer<B: Backend>(self, backend: &B, input: &[u8], out: &mut Vec<u8>)
        requires
            aligned(input@.len(), self.narrow()),
            old(out)@.len() == 0,
        ensures
            final(out)@.len() == (input@.len() / self.narrow()) * self.wide(),
            self.widens_here() ==> final(out)@ == map_chunks(
                input@,
                self.narrow(),
                self.widening(),
            ),
            final(out)@ == map_chunks(input@, self.narrow(), self.widening_by(backend)),
    {
        let ns = self.narrow_len();
        let nd = self.wide_len();
        let len = input.len();
        let mut at: usize = 0;
        proof {
            vstd::arithmetic::div_mod::lemma_basic_div(0, ns as int);
            assert(input@.subrange(0, 0) =~= Seq::<u8>::empty());
        }
        while at < len
            invariant
                ns == self.narrow(),
                nd == self.wide(),
                len == input@.len(),
                at <= len,
                at as int % ns as int == 0,
                len as int % ns as int == 0,
                out@.len() == (at as int / ns as int) * nd,
                self.widens_here() ==> out@ == map_chunks(
                    input@.subrange(0, at as int),
                    ns as nat,
                    self.widening(),
                ),
                out@ == map_chunks(
                    input@.subrange(0, at as int),
                    ns as nat,
                    self.widening_by(backend),
                ),
            decreases len - at,
        {
            proof {
                lemma_chunk_step(at as int, len as int, ns as int, nd as int);
            }
            let x = load(input, at, ns);
            let y = self.widen_element(backend, x);
            store(out, y, nd);
            proof {
                let a = input@.subrange(0, at as int);
                let c = input@.subrange(at as int, at + ns);
                if self.widens_here() {
                    lemma_map_chunks_append(a, c, ns as nat, self.widening());
                }
                lemma_map_chunks_append(a, c, ns as nat, self.widening_by(backend));
                assert(a + c =~= input@.subrange(0, at + ns));
            }
            at = at + ns;
        }
        assert(input@.subrange(0, len as int) =~= input@);
    }

    /// Narrows every buffer of `data` into the buffer of `out` at the same place.
    ///
    /// Fails, with [`Error::MisalignedInput`], exactly where some buffer is not a whole
    /// number of wide elements.
    pub fn encode<B: Backend>(&self, backend: &B, data: &BufferList, out: &mut BufferList) -> (r:
        Result<()>)
        requires
            data.wf(),
            old(out).wf(),
        ensures
            final(out).wf(),
            r is Ok <==> forall|i: int|
                0 <= i < data@.len() ==> aligned((#[trigger] data@[i]).len(), self.wide()),
            r is Err ==> r == Err::<(), Error>(Error::MisalignedInput),
            r is Ok ==> final(out)@.len() == data@.len(),
            r is Ok ==> forall|i: int|
                0 <= i < data@.len() ==> (#[trigger] final(out)@[i]).len() == (data@[i].len()
                    / self.wide()) * self.narrow(),
            r is Ok && self.narrows_here() ==> forall|i: int|
                0 <= i < data@.len() ==> #[trigger] final(out)@[i] == map_chunks(
                    data@[i],
                    self.wide(),
                    self.narrowing(),
                ),
            r is Ok ==> forall|i: int|
                0 <= i < data@.len() ==> #[trigger] final(out)@[i] == map_chunks(
                    data@[i],
                    self.wide(),
                    self.narrowing_by(backend),
                ),
    {
        let n = data.len();
        let ns = self.wide_len();
        out.reset(n);
        let mut i: usize = 0;
        while i < n
            invariant
                data.wf(),
                out.wf(),
                n == data@.len(),
                out@.len() == n,
                ns == self.wide(),
                i <= n,
                forall|j: int| i <= j < n ==> (#[trigger] out@[j]).len() == 0,
                forall|j: int| 0 <= j < i ==> aligned((#[trigger] data@[j]).len(), self.wide()),
                forall|j: int|
                    0 <= j < i ==> (#[trigger] out@[j]).len() == (data@[j].len() / self.wide())
                        * self.narrow(),
                self.narrows_here() ==> forall|j: int|
                    0 <= j < i ==> #[trigger] out@[j] == map_chunks(
                        data@[j],
                        self.wide(),
                        self.narrowing(),
                    ),
                forall|j: int|
                    0 <= j < i ==> #[trigger] out@[j] == map_chunks(
                        data@[j],
                        self.wide(),
                        self.narrowing_by(backend),
                    ),
            decreases n - i,
        {
            let input = data.get(i);
            if input.len() % ns != 0 {
                assert(!aligned(data@[i as int].len(), self.wide()));
                return Err(Error::MisalignedInput);
            }
            let slot = out.slot(i);
            self.narrow_buffer(backend, input.as_slice(), slot);
            i = i + 1;
        }
        Ok(())
    }

    /// Widens every buffer of `data` into the buffer of `out` at the same place.
    ///
    /// Fails, with [`Error::MisalignedInput`], exactly where some buffer is not a whole
    /// number of narrow elements.
    pub fn decode<B: Backend>(&self, backend: &B, data: &BufferList, out: &mut BufferList) -> (r:
        Result<()>)
        requires
            data.wf(),
            old(out).wf(),
        ensures
            final(out).wf(),
            r is Ok <==> forall|i: int|
                0 <= i < data@.len() ==> aligned((#[trigger] data@[i]).len(), self.narrow()),
            r is Err ==> r == Err::<(), Error>(Error::MisalignedInput),
            r is Ok ==> final(out)@.len() == data@.len(),
            r is Ok ==> forall|i: int|
                0 <= i < data@.len() ==> (#[trigger] final(out)@[i]).len() == (data@[i].len()
                    / self.narrow()) * self.wide(),
            r is Ok && self.widens_here() ==> forall|i: int|
                0 <= i < data@.len() ==> #[trigger] final(out)@[i] == map_chunks(
                    data@[i],
                    self.narrow(),
                    self.widening(),
                ),
            r is Ok ==> forall|i: int|
                0 <= i < data@.len() ==> #[trigger] final(out)@[i] == map_chunks(
                    data@[i],
                    self.narrow(),
                    self.widening_by(backend),
                ),
    {
        let n = data.len();
        let ns = self.narrow_len();
        out.reset(n);
        let mut i: usize = 0;
        while i < n
            invariant
                data.wf(),
                out.wf(),
                n == data@.len(),
                out@.len() == n,
                ns == self.narrow(),
                i <= n,
                forall|j: int| i <= j < n ==> (#[trigger] out@[j]).len() == 0,
                forall|j: int| 0 <= j < i ==> aligned((#[trigger] data@[j]).len(), self.narrow()),
                forall|j: int|
                    0 <= j < i ==> (#[trigger] out@[j]).len() == (data@[j].len() / self.narrow())
                        * self.wide(),
                self.widens_here() ==> forall|j: int|
                    0 <= j < i ==> #[trigger] out@[j] == map_chunks(
                        data@[j],
                        self.narrow(),
                        self.widening(),
                    ),
                forall|j: int|
                    0 <= j < i ==> #[trigger] out@[j] == map_chunks(
                        data@[j],
                        self.narrow(),
                        self.widening_by(backend),
                    ),
            decreases n - i,
        {
            let input = data.get(i);
            if input.len() % ns != 0 {
                assert(!aligned(data@[i as int].len(), self.narrow()));
                return Err(Error::MisalignedInput);
            }
            let slot = out.slot(i);
            self.widen_buffer(backend, input.as_slice(), slot);
            i = i + 1;
        }
        Ok(())
    }
}

} // verus!
