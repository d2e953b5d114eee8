//! The columnar split of floating-point elements into exponents and mantissas.
use crate::bits::{
    bytes, lemma_bytes_of_word, lemma_word_of_bytes, load, max_word, store, word,
};
use crate::chunks::{
    aligned, lemma_chunk_step, lemma_map_chunks_append, lemma_runs_ordered,
    lemma_zip_chunks_append, lemma_zip_of_maps, map_chunks, zip_chunks,
};
use crate::codec::BufferList;
use crate::result::{Error, Result};
use vstd::prelude::*;

verus! {

/// The floating-point format whose elements are split.
#[derive(PartialEq, Eq, Structural, Copy, Clone, Debug)]
pub enum Split {
    Bfloat16,
    Float16,
    Float32,
    Float64,
}

impl Split {
    /// Width of one element, in bytes.
    pub open spec fn width(self) -> nat {
        match self {
            Split::Bfloat16 | Split::Float16 => 2,
            Split::Float32 => 4,
            Split::Float64 => 8,
        }
    }

    /// Bytes that the exponent of one element takes in the first stream.
    pub open spec fn exponent_width(self) -> nat {
        match self {
            Split::Float64 => 2,
            _ => 1,
        }
    }

    /// Bytes that sign and mantissa of one element take in the second stream.
    pub open spec fn mantissa_width(self) -> nat {
        match self {
            Split::Bfloat16 => 1,
            Split::Float16 => 2,
            Split::Float32 => 3,
            Split::Float64 => 7,
        }
    }

    /// The biased exponent of the element with bit pattern `x`.
    pub open spec fn exponent(self, x: u64) -> u64 {
        match self {
            Split::Bfloat16 => (x >> 7) & 0xff,
            Split::Float16 => (x >> 10) & 0x1f,
            Split::Float32 => (x >> 23) & 0xff,
            Split::Float64 => (x >> 52) & 0x7ff,
        }
    }

    /// The mantissa of the element with bit pattern `x`, with the sign in the bit above it.
    pub open spec fn mantissa(self, x: u64) -> u64 {
        match self {
            Split::Bfloat16 => (((x >> 15) & 1) << 7) | (x & 0x7f),
            Split::Float16 => (((x >> 15) & 1) << 10) | (x & 0x3ff),
            Split::Float32 => (((x >> 31) & 1) << 23) | (x & 0x7f_ffff),
            Split::Float64 => (((x >> 63) & 1) << 52) | (x & 0xf_ffff_ffff_ffff),
        }
    }

    /// The bit pattern put together from an exponent `e` and a mantissa with sign `m`.
    /// Bits of `e` above the exponent's width move up with it and are cut off at the
    /// element's width.
    pub open spec fn joined(self, e: u64, m: u64) -> u64 {
        match self {
            Split::Bfloat16 => ((e << 7) & 0xffff) | (m & 0x7f) | ((m & 0x80) << 8),
            Split::Float16 => ((e << 10) & 0xffff) | (m & 0x3ff) | ((m & 0x400) << 5),
            Split::Float32 => ((e << 23) & 0xffff_ffff) | (m & 0x7f_ffff) | ((m & 0x80_0000) << 8),
            Split::Float64 => (e << 52) | (m & 0xf_ffff_ffff_ffff) | ((m & 0x10_0000_0000_0000)
                << 11),
        }
    }

    /// The bytes of the first stream for the bytes of one element.
    pub open spec fn exponent_bytes(self) -> spec_fn(Seq<u8>) -> Seq<u8> {
        |c: Seq<u8>| bytes(self.exponent(word(c)), self.exponent_width())
    }

    /// The bytes of the second stream for the bytes of one element.
    pub open spec fn mantissa_bytes(self) -> spec_fn(Seq<u8>) -> Seq<u8> {
        |c: Seq<u8>| bytes(self.mantissa(word(c)), self.mantissa_width())
    }

    /// The bytes of one element for its bytes in the two streams.
    pub open spec fn joined_bytes(self) -> spec_fn(Seq<u8>, Seq<u8>) -> Seq<u8> {
        |e: Seq<u8>, m: Seq<u8>| bytes(self.joined(word(e), word(m)), self.width())
    }

    /// Width of one element, in bytes.
    pub fn width_len(&self) -> (n: usize)
        ensures
            n == self.width(),
    {
        match self {
            Split::Bfloat16 | Split::Float16 => 2,
            Split::Float32 => 4,
            Split::Float64 => 8,
        }
    }

    /// Bytes that the exponent of one element takes in the first stream.
    pub fn exponent_len(&self) -> (n: usize)
        ensures
            n == self.exponent_width(),
    {
        match self {
            Split::Float64 => 2,
            _ => 1,
        }
    }

    /// Bytes that sign and mantissa of one element take in the second stream.
    pub fn mantissa_len(&self) -> (n: usize)
        ensures
            n == self.mantissa_width(),
    {
        match self {
            Split::Bfloat16 => 1,
            Split::Float16 => 2,
            Split::Float32 => 3,
            Split::Float64 => 7,
        }
    }

    /// Exponent, and mantissa with sign, of the element with bit pattern `x`.
    pub fn split_bits(&self, x: u64) -> (r: (u64, u64))
        ensures
            r.0 == self.exponent(x),
            r.1 == self.mantissa(x),
    {
        match self {
            Split::Bfloat16 => ((x >> 7) & 0xff, (((x >> 15) & 1) << 7) | (x & 0x7f)),
            Split::Float16 => ((x >> 10) & 0x1f, (((x >> 15) & 1) << 10) | (x & 0x3ff)),
            Split::Float32 => ((x >> 23) & 0xff, (((x >> 31) & 1) << 23) | (x & 0x7f_ffff)),
            Split::Float64 => (
                (x >> 52) & 0x7ff,
                (((x >> 63) & 1) << 52) | (x & 0xf_ffff_ffff_ffff),
            ),
        }
    }

    /// The bit pattern put together from an exponent and a mantissa with sign.
    pub fn join_bits(&self, e: u64, m: u64) -> (x: u64)
        ensures
            x == self.joined(e, m),
    {
        match self {
            Split::Bfloat16 => ((e << 7) & 0xffff) | (m & 0x7f) | ((m & 0x80) << 8),
            Split::Float16 => ((e << 10) & 0xffff) | (m & 0x3ff) | ((m & 0x400) << 5),
            Split::Float32 => ((e << 23) & 0xffff_ffff) | (m & 0x7f_ffff) | ((m & 0x80_0000) << 8),
            Split::Float64 => (e << 52) | (m & 0xf_ffff_ffff_ffff) | ((m & 0x10_0000_0000_0000)
                << 11),
        }
    }

    /// Splitting and joining again gives every bit pattern of the element's width back:
    /// sign, exponent and mantissa, and with them every NaN and its payload. The two parts
    /// fit their streams.
    pub proof fn lemma_join_split(self, x: u64)
        requires
            x <= max_word(self.width()),
        ensures
            self.exponent(x) <= max_word(self.exponent_width()),
            self.mantissa(x) <= max_word(self.mantissa_width()),
            self.joined(self.exponent(x), self.mantissa(x)) == x,
    {
        match self {
            Split::Bfloat16 => lemma_join_split_bfloat16(x),
            Split::Float16 => lemma_join_split_float16(x),
            Split::Float32 => lemma_join_split_float32(x),
            Split::Float64 => lemma_join_split_float64(x),
        }
    }

    /// The two streams of a buffer of whole elements join to that buffer again.
    pub proof fn lemma_decode_encode(self, input: Seq<u8>)
        requires
            aligned(input.len(), self.width()),
        ensures
            zip_chunks(
                map_chunks(input, self.width(), self.exponent_bytes()),
                self.exponent_width(),
                map_chunks(input, self.width(), self.mantissa_bytes()),
                self.mantissa_width(),
                self.joined_bytes(),
            ) == input,
    {
        let n = self.width();
        let f0 = self.exponent_bytes();
        let f1 = self.mantissa_bytes();
        let g = self.joined_bytes();
        assert forall|c: Seq<u8>| c.len() == n implies (#[trigger] f0(c)).len()
            == self.exponent_width() by {}
        assert forall|c: Seq<u8>| c.len() == n implies (#[trigger] f1(c)).len()
            == self.mantissa_width() by {}
        assert forall|c: Seq<u8>| c.len() == n implies g(#[trigger] f0(c), f1(c)) == c by {
            lemma_bytes_of_word(c);
            let x = word(c);
            self.lemma_join_split(x);
            lemma_word_of_bytes(self.exponent(x), self.exponent_width());
            lemma_word_of_bytes(self.mantissa(x), self.mantissa_width());
        }
        lemma_zip_of_maps(input, n, f0, self.exponent_width(), f1, self.mantissa_width(), g);
    }

    /// Appends one stream of a buffer of whole elements to the empty `out`: the exponents
    /// with `mantissas` false, the mantissas with it true.
    pub(crate) fn split_buffer(self, mantissas: bool, input: &[u8], out: &mut Vec<u8>)
        requires
            aligned(input@.len(), self.width()),
            old(out)@.len() == 0,
        ensures
            final(out)@ == map_chunks(
                input@,
                self.width(),
                if mantissas {
                    self.mantissa_bytes()
                } else {
                    self.exponent_bytes()
                },
            ),
    {
        let ns = self.width_len();
        let nd = if mantissas {
            self.mantissa_len()
        } else {
            self.exponent_len()
        };
        let ghost f = if mantissas {
            self.mantissa_bytes()
        } else {
            self.exponent_bytes()
        };
        let len = input.len();
        let mut at: usize = 0;
        proof {
            assert(input@.subrange(0, 0) =~= Seq::<u8>::empty());
        }
        while at < len
            invariant
                ns == self.width(),
                nd == if mantissas {
                    self.mantissa_width()
                } else {
                    self.exponent_width()
                },
                f == if mantissas {
                    self.mantissa_bytes()
                } else {
                    self.exponent_bytes()
                },
                len == input@.len(),
                at <= len,
                at as int % ns as int == 0,
                len as int % ns as int == 0,
                out@ == map_chunks(input@.subrange(0, at as int), ns as nat, f),
            decreases len - at,
        {
            proof {
                lemma_chunk_step(at as int, len as int, ns as int, nd as int);
            }
            let x = load(input, at, ns);
            let (e, m) = self.split_bits(x);
            store(
                out,
                if mantissas {
                    m
                } else {
                    e
                },
                nd,
            );
            proof {
                let a = input@.subrange(0, at as int);
                let c = input@.subrange(at as int, at + ns);
                lemma_map_chunks_append(a, c, ns as nat, f);
                assert(a + c =~= input@.subrange(0, at + ns));
            }
            at = at + ns;
        }
        assert(input@.subrange(0, len as int) =~= input@);
    }

    /// Joins two streams of equally many whole elements, appending to the empty `out`.
    pub(crate) fn join_buffers(self, exponents: &[u8], mantissas: &[u8], out: &mut Vec<u8>)
        requires
            self.streams_match(exponents@, mantissas@),
            old(out)@.len() == 0,
        ensures
            final(out)@ == zip_chunks(
                exponents@,
                self.exponent_width(),
                mantissas@,
                self.mantissa_width(),
                self.joined_bytes(),
            ),
    {
        let ne = self.exponent_len();
        let nm = self.mantissa_len();
        let n = self.width_len();
        let len = exponents.len();
        let other_len = mantissas.len();
        let mut at: usize = 0;
        let mut other: usize = 0;
        proof {
            assert(exponents@.subrange(0, 0) =~= Seq::<u8>::empty());
            assert(mantissas@.subrange(0, 0) =~= Seq::<u8>::empty());
            vstd::arithmetic::div_mod::lemma_basic_div(0, ne as int);
            vstd::arithmetic::div_mod::lemma_basic_div(0, nm as int);
        }
        while at < len
            invariant
                ne == self.exponent_width(),
                nm == self.mantissa_width(),
                n == self.width(),
                len == exponents@.len(),
                self.streams_match(exponents@, mantissas@),
                at <= len,
                other_len == mantissas@.len(),
                other <= other_len,
                at as int % ne as int == 0,
                other as int % nm as int == 0,
                at as int / ne as int == other as int / nm as int,
                out@ == zip_chunks(
                    exponents@.subrange(0, at as int),
                    ne as nat,
                    mantissas@.subrange(0, other as int),
                    nm as nat,
                    self.joined_bytes(),
                ),
            decreases len - at,
        {
            proof {
                lemma_runs_ordered(at as int, len as int, ne as int);
                assert(other < other_len);
                lemma_chunk_step(at as int, len as int, ne as int, 1);
                lemma_chunk_step(other as int, mantissas@.len() as int, nm as int, 1);
            }
            let e = load(exponents, at, ne);
            let m = load(mantissas, other, nm);
            let x = self.join_bits(e, m);
            store(out, x, n);
            proof {
                let a = exponents@.subrange(0, at as int);
                let ca = exponents@.subrange(at as int, at + ne);
                let b = mantissas@.subrange(0, other as int);
                let cb = mantissas@.subrange(other as int, other + nm);
                lemma_zip_chunks_append(a, ca, ne as nat, b, cb, nm as nat, self.joined_bytes());
                assert(a + ca =~= exponents@.subrange(0, at + ne));
                assert(b + cb =~= mantissas@.subrange(0, other + nm));
            }
            at = at + ne;
            other = other + nm;
        }
        proof {
            if other < mantissas@.len() {
                lemma_runs_ordered(other as int, mantissas@.len() as int, nm as int);
            }
            assert(exponents@.subrange(0, len as int) =~= exponents@);
            assert(mantissas@.subrange(0, other as int) =~= mantissas@);
        }
    }

    /// Whether two streams hold the exponents and the mantissas of equally many elements.
    pub open spec fn streams_match(self, exponents: Seq<u8>, mantissas: Seq<u8>) -> bool {
        &&& aligned(exponents.len(), self.exponent_width())
        &&& aligned(mantissas.len(), self.mantissa_width())
        &&& exponents.len() / self.exponent_width() == mantissas.len() / self.mantissa_width()
    }

    /// Whether every buffer of `data` is a whole number of elements.
    pub open spec fn splits(self, data: Seq<Seq<u8>>) -> bool {
        forall|i: int| 0 <= i < data.len() ==> aligned((#[trigger] data[i]).len(), self.width())
    }

    /// Whether `data` is pairs of streams that match.
    pub open spec fn joins(self, data: Seq<Seq<u8>>) -> bool {
        &&& data.len() % 2 == 0
        &&& forall|i: int|
            0 <= i < data.len() / 2 ==> self.streams_match(
                #[trigger] data[2 * i],
                data[2 * i + 1],
            )
    }

    /// The streams that the buffers of `data` split into: for the buffer at `i`, its
    /// exponents at `2 * i` and its mantissas at `2 * i + 1`.
    pub open spec fn encoded(self, data: Seq<Seq<u8>>) -> Seq<Seq<u8>> {
        Seq::new(
            2 * data.len(),
            |k: int|
                map_chunks(
                    data[k / 2],
                    self.width(),
                    if k % 2 == 0 {
                        self.exponent_bytes()
                    } else {
                        self.mantissa_bytes()
                    },
                ),
        )
    }

    /// The buffers that the pairs of streams of `data` join to.
    pub open spec fn decoded(self, data: Seq<Seq<u8>>) -> Seq<Seq<u8>> {
        Seq::new(
            data.len() / 2,
            |i: int|
                zip_chunks(
                    data[2 * i],
                    self.exponent_width(),
                    data[2 * i + 1],
                    self.mantissa_width(),
                    self.joined_bytes(),
                ),
        )
    }

    /// Splits every buffer of `data` into two streams of `out`.
    ///
    /// Fails where the streams would be too many to count, with [`Error::FanOutMismatch`],
    /// and else where some buffer is not a whole number of elements, with
    /// [`Error::MisalignedInput`].
    pub fn encode(&self, data: &BufferList, out: &mut BufferList) -> (r: Result<()>)
        requires
            data.wf(),
            old(out).wf(),
        ensures
            final(out).wf(),
            r is Ok <==> 2 * data@.len() <= usize::MAX && self.splits(data@),
            r is Ok ==> final(out)@ == self.encoded(data@),
            2 * data@.len() > usize::MAX ==> r == Err::<(), Error>(Error::FanOutMismatch),
            2 * data@.len() <= usize::MAX && !self.splits(data@) ==> r == Err::<(), Error>(
                Error::MisalignedInput,
            ),
    {
        let n = data.len();
        if n > usize::MAX / 2 {
            return Err(Error::FanOutMismatch);
        }
        let ns = self.width_len();
        out.reset(2 * n);
        let mut i: usize = 0;
        while i < n
            invariant
                data.wf(),
                out.wf(),
                n == data@.len(),
                2 * n <= usize::MAX,
                out@.len() == 2 * n,
                ns == self.width(),
                i <= n,
                forall|k: int| 2 * i <= k < 2 * n ==> (#[trigger] out@[k]).len() == 0,
                forall|j: int| 0 <= j < i ==> aligned((#[trigger] data@[j]).len(), self.width()),
                forall|k: int| 0 <= k < 2 * i ==> #[trigger] out@[k] == self.encoded(data@)[k],
            decreases n - i,
        {
            let input = data.get(i);
            if input.len() % ns != 0 {
                assert(!aligned(data@[i as int].len(), self.width()));
                return Err(Error::MisalignedInput);
            }
            let slot = out.slot(2 * i);
            self.split_buffer(false, input.as_slice(), slot);
            let slot = out.slot(2 * i + 1);
            self.split_buffer(true, input.as_slice(), slot);
            i = i + 1;
        }
        assert(out@ =~= self.encoded(data@));
        Ok(())
    }

    /// Joins every pair of streams of `data` into one buffer of `out`.
    ///
    /// Fails where the streams are odd in number, with [`Error::FanOutMismatch`], and else
    /// where the streams of some pair do not match, with [`Error::MisalignedInput`].
    pub fn decode(&self, data: &BufferList, out: &mut BufferList) -> (r: Result<()>)
        requires
            data.wf(),
            old(out).wf(),
        ensures
            final(out).wf(),
            r is Ok <==> self.joins(data@),
            r is Ok ==> final(out)@ == self.decoded(data@),
            data@.len() % 2 != 0 ==> r == Err::<(), Error>(Error::FanOutMismatch),
            data@.len() % 2 == 0 && !self.joins(data@) ==> r == Err::<(), Error>(
                Error::MisalignedInput,
            ),
    {
        let total = data.len();
        if total % 2 != 0 {
            return Err(Error::FanOutMismatch);
        }
        let n = total / 2;
        let ne = self.exponent_len();
        let nm = self.mantissa_len();
        out.reset(n);
        let mut i: usize = 0;
        while i < n
            invariant
                data.wf(),
                out.wf(),
                total == data@.len(),
                total == 2 * n,
                out@.len() == n,
                ne == self.exponent_width(),
                nm == self.mantissa_width(),
                i <= n,
                forall|j: int| i <= j < n ==> (#[trigger] out@[j]).len() == 0,
                forall|j: int|
                    0 <= j < i ==> self.streams_match(#[trigger] data@[2 * j], data@[2 * j + 1]),
                forall|j: int| 0 <= j < i ==> #[trigger] out@[j] == self.decoded(data@)[j],
            decreases n - i,
        {
            let exponents = data.get(2 * i);
            let mantissas = data.get(2 * i + 1);
            if exponents.len() % ne != 0 || mantissas.len() % nm != 0 || exponents.len() / ne
                != mantissas.len() / nm {
                assert(!self.streams_match(data@[2 * i], data@[2 * i + 1]));
                return Err(Error::MisalignedInput);
            }
            let slot = out.slot(i);
            self.join_buffers(exponents.as_slice(), mantissas.as_slice(), slot);
            i = i + 1;
        }
        assert(out@ =~= self.decoded(data@));
        Ok(())
    }

    /// Joining what a list of buffers of whole elements was split into gives the list
    /// back.
    pub proof fn lemma_decoded_encoded(self, data: Seq<Seq<u8>>)
        requires
            self.splits(data),
        ensures
            self.joins(self.encoded(data)),
            self.decoded(self.encoded(data)) == data,
    {
        let enc = self.encoded(data);
        assert forall|i: int| 0 <= i < enc.len() / 2 implies self.streams_match(
            #[trigger] enc[2 * i],
            enc[2 * i + 1],
        ) && self.decoded(enc)[i] == data[i] by {
            let input = data[i];
            assert(aligned(input.len(), self.width()));
            assert(enc[2 * i] == map_chunks(input, self.width(), self.exponent_bytes()));
            assert(enc[2 * i + 1] == map_chunks(input, self.width(), self.mantissa_bytes()));
            let f0 = self.exponent_bytes();
            let f1 = self.mantissa_bytes();
            assert forall|c: Seq<u8>| c.len() == self.width() implies (#[trigger] f0(c)).len()
                == self.exponent_width() by {}
            assert forall|c: Seq<u8>| c.len() == self.width() implies (#[trigger] f1(c)).len()
                == self.mantissa_width() by {}
            crate::chunks::lemma_map_chunks_len(input, self.width(), f0, self.exponent_width());
            crate::chunks::lemma_map_chunks_len(input, self.width(), f1, self.mantissa_width());
            let q = (input.len() / self.width()) as int;
            vstd::arithmetic::div_mod::lemma_div_multiples_vanish(
                q,
                self.exponent_width() as int,
            );
            vstd::arithmetic::div_mod::lemma_div_multiples_vanish(
                q,
                self.mantissa_width() as int,
            );
            assert(q * self.exponent_width() == self.exponent_width() * q) by (nonlinear_arith);
            assert(q * self.mantissa_width() == self.mantissa_width() * q) by (nonlinear_arith);
            self.lemma_decode_encode(input);
        }
        assert(self.decoded(enc) =~= data);
    }
}

proof fn lemma_join_split_bfloat16(x: u64)
    by (bit_vector)
    requires
        x <= 0xffff,
    ensures
        (x >> 7) & 0xff <= 0xff,
        (((x >> 15) & 1) << 7) | (x & 0x7f) <= 0xff,
        ({
            let e = (x >> 7) & 0xff;
            let m = (((x >> 15) & 1) << 7) | (x & 0x7f);
            ((e << 7) & 0xffff) | (m & 0x7f) | ((m & 0x80) << 8) == x
        }),
{
}

proof fn lemma_join_split_float16(x: u64)
    by (bit_vector)
    requires
        x <= 0xffff,
    ensures
        (x >> 10) & 0x1f <= 0xff,
        (((x >> 15) & 1) << 10) | (x & 0x3ff) <= 0xffff,
        ({
            let e = (x >> 10) & 0x1f;
            let m = (((x >> 15) & 1) << 10) | (x & 0x3ff);
            ((e << 10) & 0xffff) | (m & 0x3ff) | ((m & 0x400) << 5) == x
        }),
{
}

proof fn lemma_join_split_float32(x: u64)
    by (bit_vector)
    requires
        x <= 0xffff_ffff,
    ensures
        (x >> 23) & 0xff <= 0xff,
        (((x >> 31) & 1) << 23) | (x & 0x7f_ffff) <= 0xff_ffff,
        ({
            let e = (x >> 23) & 0xff;
            let m = (((x >> 31) & 1) << 23) | (x & 0x7f_ffff);
            ((e << 23) & 0xffff_ffff) | (m & 0x7f_ffff) | ((m & 0x80_0000) << 8) == x
        }),
{
}

proof fn lemma_join_split_float64(x: u64)
    by (bit_vector)
    ensures
        (x >> 52) & 0x7ff <= 0xffff,
        (((x >> 63) & 1) << 52) | (x & 0xf_ffff_ffff_ffff) <= 0xff_ffff_ffff_ffff,
        ({
            let e = (x >> 52) & 0x7ff;
            let m = (((x >> 63) & 1) << 52) | (x & 0xf_ffff_ffff_ffff);
            (e << 52) | (m & 0xf_ffff_ffff_ffff) | ((m & 0x10_0000_0000_0000) << 11) == x
        }),
{
}

} // verus!
