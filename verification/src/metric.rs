//! How far two buffers of one element type lie apart.
use crate::backend::Backend;
use crate::bits::{load, max_word, word};
use crate::chunks::{aligned, lemma_chunk_step};
use crate::data_type::DataType;
use crate::deviation::{double_of, Deviation, INFINITY_BITS};
use vstd::prelude::*;

verus! {

/// The number of bits that are set in `x`.
pub open spec fn bit_count(x: u8) -> nat {
    (((x >> 0) & 1) + ((x >> 1) & 1) + ((x >> 2) & 1) + ((x >> 3) & 1) + ((x >> 4) & 1) + ((x >> 5)
        & 1) + ((x >> 6) & 1) + ((x >> 7) & 1)) as nat
}

/// The number of bits in which two byte strings of one length differ.
pub open spec fn bit_difference(src: Seq<u8>, targ: Seq<u8>) -> nat
    decreases src.len(),
{
    if src.len() == 0 || targ.len() != src.len() {
        0
    } else {
        bit_difference(src.drop_last(), targ.drop_last()) + bit_count(src.last() ^ targ.last())
    }
}

/// The bit pattern of a distance, if there is one.
pub open spec fn bits_of(d: Option<Deviation>) -> Option<nat> {
    match d {
        Some(v) => Some(v.spec_bits() as nat),
        None => None,
    }
}

/// `n`, or the largest 64-bit number where `n` is above it.
pub open spec fn capped(n: nat) -> nat {
    if n > u64::MAX {
        u64::MAX as nat
    } else {
        n
    }
}

proof fn lemma_bits_are_bits(x: u8)
    by (bit_vector)
    ensures
        (x >> 0) & 1 <= 1,
        (x >> 1) & 1 <= 1,
        (x >> 2) & 1 <= 1,
        (x >> 3) & 1 <= 1,
        (x >> 4) & 1 <= 1,
        (x >> 5) & 1 <= 1,
        (x >> 6) & 1 <= 1,
        (x >> 7) & 1 <= 1,
{
}

proof fn lemma_no_bits_differ(x: u8)
    by (bit_vector)
    ensures
        ((x ^ x) >> 0) & 1 == 0,
        ((x ^ x) >> 1) & 1 == 0,
        ((x ^ x) >> 2) & 1 == 0,
        ((x ^ x) >> 3) & 1 == 0,
        ((x ^ x) >> 4) & 1 == 0,
        ((x ^ x) >> 5) & 1 == 0,
        ((x ^ x) >> 6) & 1 == 0,
        ((x ^ x) >> 7) & 1 == 0,
{
}

/// No bit of a byte string differs from itself.
pub proof fn lemma_no_bit_difference(x: Seq<u8>)
    ensures
        bit_difference(x, x) == 0,
    decreases x.len(),
{
    if x.len() > 0 {
        lemma_no_bit_difference(x.drop_last());
        lemma_no_bits_differ(x.last());
    }
}

/// The number of bits that are set in `x`.
pub fn count_bits(x: u8) -> (n: u64)
    ensures
        n == bit_count(x),
        n <= 8,
{
    proof {
        lemma_bits_are_bits(x);
    }
    let n: u8 = ((x >> 0) & 1) + ((x >> 1) & 1) + ((x >> 2) & 1) + ((x >> 3) & 1) + ((x >> 4) & 1)
        + ((x >> 5) & 1) + ((x >> 6) & 1) + ((x >> 7) & 1);
    n as u64
}

impl DataType {
    /// Whether the elements are floating-point numbers.
    pub open spec fn is_float(self) -> bool {
        self is Float16 || self is Bfloat16 || self is Float32 || self is Float64
    }

    /// Whether the elements are integers in two's complement.
    pub open spec fn is_signed(self) -> bool {
        self is Int8 || self is Int16 || self is Int32 || self is Int64
    }

    /// The integer that the pattern `x` of an element stands for.
    pub open spec fn int_value(self, x: u64) -> int {
        if self.is_signed() && x > max_word(self.width()) / 2 {
            x - max_word(self.width()) - 1
        } else {
            x as int
        }
    }

    /// The pattern of positive infinity among floating-point elements.
    pub open spec fn infinity(self) -> u64 {
        match self {
            DataType::Float16 => 0x7C00,
            DataType::Bfloat16 => 0x7F80,
            DataType::Float32 => 0x7F80_0000,
            _ => 0x7FF0_0000_0000_0000,
        }
    }

    /// The pattern `x` of a floating-point element without its sign.
    pub open spec fn magnitude(self, x: u64) -> int {
        if x > max_word(self.width()) / 2 {
            x - max_word(self.width()) / 2 - 1
        } else {
            x as int
        }
    }

    /// Whether the pattern `x` of a floating-point element is a NaN.
    pub open spec fn is_nan(self, x: u64) -> bool {
        self.magnitude(x) > self.infinity()
    }

    /// A whole number that orders the floating-point patterns that are no NaN as the
    /// numbers they stand for: the magnitude, negated under a negative sign. Both zeros
    /// have the rank zero.
    pub open spec fn rank(self, x: u64) -> int {
        if x > max_word(self.width()) / 2 {
            -self.magnitude(x)
        } else {
            self.magnitude(x)
        }
    }

    /// The largest distance between the integers of `src` and those of `targ` at the same
    /// place, for two buffers of one length.
    pub open spec fn max_gap(self, src: Seq<u8>, targ: Seq<u8>) -> nat
        decreases src.len(),
    {
        let w = self.width();
        if src.len() < w || targ.len() != src.len() {
            0
        } else {
            let n = src.len() - w;
            let before = self.max_gap(src.subrange(0, n), targ.subrange(0, n));
            let a = self.int_value(word(src.subrange(n, src.len() as int)));
            let b = self.int_value(word(targ.subrange(n, src.len() as int)));
            let gap = if a >= b {
                a - b
            } else {
                b - a
            };
            if before >= gap {
                before
            } else {
                gap as nat
            }
        }
    }

    /// Whether a NaN is among the floating-point elements of two buffers of one length.
    pub open spec fn any_nan(self, src: Seq<u8>, targ: Seq<u8>) -> bool
        decreases src.len(),
    {
        let w = self.width();
        if src.len() < w || targ.len() != src.len() {
            false
        } else {
            let n = src.len() - w;
            ||| self.any_nan(src.subrange(0, n), targ.subrange(0, n))
            ||| self.is_nan(word(src.subrange(n, src.len() as int)))
            ||| self.is_nan(word(targ.subrange(n, src.len() as int)))
        }
    }

    /// Whether the floating-point elements of two buffers of one length stand for the same
    /// numbers, place by place.
    pub open spec fn same_numbers(self, src: Seq<u8>, targ: Seq<u8>) -> bool
        decreases src.len(),
    {
        let w = self.width();
        if src.len() < w || targ.len() != src.len() {
            true
        } else {
            let n = src.len() - w;
            &&& self.same_numbers(src.subrange(0, n), targ.subrange(0, n))
            &&& self.rank(word(src.subrange(n, src.len() as int))) == self.rank(
                word(targ.subrange(n, src.len() as int)),
            )
        }
    }

    /// The difference that `backend` gives for two floating-point patterns that are no NaN
    /// and stand for different numbers: that of the larger number and the smaller.
    pub open spec fn number_gap<B: Backend>(self, backend: &B, x: u64, y: u64) -> u64 {
        if self.rank(x) > self.rank(y) {
            backend.distance(self, x, y)
        } else {
            backend.distance(self, y, x)
        }
    }

    /// The largest of the differences that `backend` gives for the floating-point elements
    /// of two buffers of one length that differ at one place, as the bit pattern of a
    /// double-precision number: zero where none differs. There is none where an element is
    /// a NaN, or a difference is no distance.
    pub open spec fn float_gap<B: Backend>(self, backend: &B, src: Seq<u8>, targ: Seq<u8>) -> Option<
        nat,
    >
        decreases src.len(),
    {
        let w = self.width();
        if src.len() < w || targ.len() != src.len() {
            Some(0nat)
        } else {
            let n = src.len() - w;
            let x = word(src.subrange(n, src.len() as int));
            let y = word(targ.subrange(n, src.len() as int));
            match self.float_gap(backend, src.subrange(0, n), targ.subrange(0, n)) {
                None => None,
                Some(most) => if self.is_nan(x) || self.is_nan(y) {
                    None
                } else if self.rank(x) == self.rank(y) {
                    Some(most)
                } else {
                    let gap = self.number_gap(backend, x, y);
                    if gap > INFINITY_BITS {
                        None
                    } else if most >= gap {
                        Some(most)
                    } else {
                        Some(gap as nat)
                    }
                },
            }
        }
    }

    /// The distance between two buffers of elements of this type, as the bit pattern of a
    /// double-precision number, if there is one: exact between bytes and between integers,
    /// and between floating-point numbers the largest difference that `backend` gives.
    pub open spec fn difference_by<B: Backend>(self, backend: &B, src: Seq<u8>, targ: Seq<u8>) -> Option<
        nat,
    > {
        if !self.is_float() {
            self.exact_difference(src, targ)
        } else if src.len() != targ.len() || !aligned(src.len(), self.width()) {
            None
        } else {
            self.float_gap(backend, src, targ)
        }
    }

    /// The distance between two buffers whose elements are no floating-point numbers, as
    /// the bit pattern of a double-precision number; nothing where the buffers differ in
    /// length or are no whole number of elements.
    ///
    /// For bytes it is the number of bits that differ, for integers the largest distance
    /// between two elements at one place.
    pub open spec fn exact_difference(self, src: Seq<u8>, targ: Seq<u8>) -> Option<nat> {
        if src.len() != targ.len() || !aligned(src.len(), self.width()) {
            None
        } else if self is Byte {
            Some(double_of(capped(bit_difference(src, targ))))
        } else {
            Some(double_of(self.max_gap(src, targ)))
        }
    }

    fn byte_difference(src: &[u8], targ: &[u8]) -> (d: Deviation)
        requires
            src@.len() == targ@.len(),
        ensures
            d.wf(),
            d.spec_bits() == double_of(capped(bit_difference(src@, targ@))),
    {
        let len = src.len();
        let mut total: u64 = 0;
        let mut at: usize = 0;
        proof {
            assert(src@.subrange(0, 0) =~= Seq::<u8>::empty());
        }
        while at < len
            invariant
                len == src@.len(),
                len == targ@.len(),
                at <= len,
                total == capped(
                    bit_difference(src@.subrange(0, at as int), targ@.subrange(0, at as int)),
                ),
            decreases len - at,
        {
            let c = count_bits(src[at] ^ targ[at]);
            proof {
                let a = src@.subrange(0, at + 1);
                let b = targ@.subrange(0, at + 1);
                assert(a.drop_last() =~= src@.subrange(0, at as int));
                assert(b.drop_last() =~= targ@.subrange(0, at as int));
                assert(a.last() == src@[at as int]);
                assert(b.last() == targ@[at as int]);
            }
            total = total.saturating_add(c);
            at = at + 1;
        }
        proof {
            assert(src@.subrange(0, len as int) =~= src@);
            assert(targ@.subrange(0, len as int) =~= targ@);
        }
        Deviation::from_count(total)
    }

    /// A number that orders the integer patterns as the integers they stand for, and keeps
    /// their distances.
    fn int_key(&self, x: u64) -> (k: u64)
        requires
            !self.is_float(),
            x <= max_word(self.width()),
        ensures
            k == self.int_value(x) + if self.is_signed() {
                max_word(self.width()) / 2 + 1
            } else {
                0
            },
    {
        let half: u64 = match self {
            DataType::Int8 => 0x80,
            DataType::Int16 => 0x8000,
            DataType::Int32 => 0x8000_0000,
            DataType::Int64 => 0x8000_0000_0000_0000,
            _ => 0,
        };
        if half == 0 {
            x
        } else if x >= half {
            x - half
        } else {
            x + half
        }
    }

    fn int_difference(&self, src: &[u8], targ: &[u8]) -> (d: Deviation)
        requires
            !self.is_float(),
            src@.len() == targ@.len(),
            aligned(src@.len(), self.width()),
        ensures
            d.wf(),
            d.spec_bits() == double_of(self.max_gap(src@, targ@)),
    {
        let w = self.byte_len();
        let len = src.len();
        let mut most: u64 = 0;
        let mut at: usize = 0;
        proof {
            assert(src@.subrange(0, 0) =~= Seq::<u8>::empty());
        }
        while at < len
            invariant
                !self.is_float(),
                w == self.width(),
                len == src@.len(),
                len == targ@.len(),
                at <= len,
                at as int % w as int == 0,
                len as int % w as int == 0,
                most == self.max_gap(src@.subrange(0, at as int), targ@.subrange(0, at as int)),
            decreases len - at,
        {
            proof {
                lemma_chunk_step(at as int, len as int, w as int, 1);
            }
            let a = self.int_key(load(src, at, w));
            let b = self.int_key(load(targ, at, w));
            let gap = if a >= b {
                a - b
            } else {
                b - a
            };
            proof {
                let s = src@.subrange(0, at + w);
                let t = targ@.subrange(0, at + w);
                assert(s.subrange(0, at as int) =~= src@.subrange(0, at as int));
                assert(t.subrange(0, at as int) =~= targ@.subrange(0, at as int));
                assert(s.subrange(at as int, s.len() as int) =~= src@.subrange(at as int, at + w));
                assert(t.subrange(at as int, s.len() as int) =~= targ@.subrange(
                    at as int,
                    at + w,
                ));
            }
            if gap > most {
                most = gap;
            }
            at = at + w;
        }
        proof {
            assert(src@.subrange(0, len as int) =~= src@);
            assert(targ@.subrange(0, len as int) =~= targ@);
        }
        Deviation::from_count(most)
    }

    /// The pattern `x` of a floating-point element without its sign, and whether the sign
    /// is negative.
    fn sign_and_magnitude(&self, x: u64) -> (r: (bool, u64))
        requires
            self.is_float(),
            x <= max_word(self.width()),
        ensures
            r.0 == (x > max_word(self.width()) / 2),
            r.1 == self.magnitude(x),
    {
        let sign: u64 = match self {
            DataType::Float64 => 0x8000_0000_0000_0000,
            DataType::Float32 => 0x8000_0000,
            _ => 0x8000,
        };
        if x >= sign {
            (true, x - sign)
        } else {
            (false, x)
        }
    }

    fn infinity_bits(&self) -> (b: u64)
        requires
            self.is_float(),
        ensures
            b == self.infinity(),
    {
        match self {
            DataType::Float16 => 0x7C00,
            DataType::Bfloat16 => 0x7F80,
            DataType::Float32 => 0x7F80_0000,
            _ => 0x7FF0_0000_0000_0000,
        }
    }

    fn float_difference<B: Backend>(&self, backend: &B, src: &[u8], targ: &[u8]) -> (d: Option<
        Deviation,
    >)
        requires
            self.is_float(),
            src@.len() == targ@.len(),
            aligned(src@.len(), self.width()),
        ensures
            d matches Some(v) ==> v.wf(),
            self.any_nan(src@, targ@) ==> d is None,
            !self.any_nan(src@, targ@) && self.same_numbers(src@, targ@) ==> d == Some(
                Deviation::zero_value(),
            ),
            bits_of(d) == self.float_gap(backend, src@, targ@),
    {
        let w = self.byte_len();
        let inf = self.infinity_bits();
        let len = src.len();
        let mut most = Deviation::zero();
        let mut at: usize = 0;
        proof {
            assert(src@.subrange(0, 0) =~= Seq::<u8>::empty());
        }
        while at < len
            invariant
                self.is_float(),
                w == self.width(),
                inf == self.infinity(),
                len == src@.len(),
                len == targ@.len(),
                at <= len,
                at as int % w as int == 0,
                len as int % w as int == 0,
                most.wf(),
                !self.any_nan(src@.subrange(0, at as int), targ@.subrange(0, at as int)),
                self.same_numbers(src@.subrange(0, at as int), targ@.subrange(0, at as int))
                    ==> most == Deviation::zero_value(),
                self.float_gap(
                    backend,
                    src@.subrange(0, at as int),
                    targ@.subrange(0, at as int),
                ) == Some(most.spec_bits() as nat),
            decreases len - at,
        {
            proof {
                lemma_chunk_step(at as int, len as int, w as int, 1);
            }
            let x = load(src, at, w);
            let y = load(targ, at, w);
            let (x_negative, x_magnitude) = self.sign_and_magnitude(x);
            let (y_negative, y_magnitude) = self.sign_and_magnitude(y);
            proof {
                let s = src@.subrange(0, at + w);
                let t = targ@.subrange(0, at + w);
                assert(s.subrange(0, at as int) =~= src@.subrange(0, at as int));
                assert(t.subrange(0, at as int) =~= targ@.subrange(0, at as int));
                assert(s.subrange(at as int, s.len() as int) =~= src@.subrange(at as int, at + w));
                assert(t.subrange(at as int, s.len() as int) =~= targ@.subrange(
                    at as int,
                    at + w,
                ));
            }
            if x_magnitude > inf || y_magnitude > inf {
                proof {
                    self.lemma_nan_stays(src@, targ@, at + w);
                    self.lemma_no_gap_stays(backend, src@, targ@, at + w);
                }
                return None;
            }
            let same = (x_magnitude == 0 && y_magnitude == 0) || (x_negative == y_negative
                && x_magnitude == y_magnitude);
            if !same {
                let x_above = if x_negative != y_negative {
                    y_negative
                } else if x_negative {
                    x_magnitude < y_magnitude
                } else {
                    x_magnitude > y_magnitude
                };
                let bits = if x_above {
                    backend.difference(*self, x, y)
                } else {
                    backend.difference(*self, y, x)
                };
                proof {
                    self.lemma_nan_stays(src@, targ@, at + w);
                    assert(x_above == (self.rank(x) > self.rank(y)));
                    assert(bits == self.number_gap(backend, x, y));
                }
                match most.join(bits) {
                    Some(d) => {
                        most = d;
                    },
                    None => {
                        proof {
                            self.lemma_no_gap_stays(backend, src@, targ@, at + w);
                        }
                        return None;
                    },
                }
            }
            at = at + w;
        }
        proof {
            assert(src@.subrange(0, len as int) =~= src@);
            assert(targ@.subrange(0, len as int) =~= targ@);
        }
        Some(most)
    }

    /// Where the first elements of two buffers have no distance, the buffers have none.
    proof fn lemma_no_gap_stays<B: Backend>(self, backend: &B, src: Seq<u8>, targ: Seq<u8>, upto: int)
        requires
            src.len() == targ.len(),
            aligned(src.len(), self.width()),
            0 <= upto <= src.len(),
            upto % (self.width() as int) == 0,
            self.float_gap(backend, src.subrange(0, upto), targ.subrange(0, upto)) is None,
        ensures
            self.float_gap(backend, src, targ) is None,
        decreases src.len() - upto,
    {
        let w = self.width() as int;
        if upto < src.len() {
            lemma_chunk_step(upto, src.len() as int, w, 1);
            let s = src.subrange(0, upto + w);
            let t = targ.subrange(0, upto + w);
            assert(s.subrange(0, upto) =~= src.subrange(0, upto));
            assert(t.subrange(0, upto) =~= targ.subrange(0, upto));
            self.lemma_no_gap_stays(backend, src, targ, upto + w);
        } else {
            assert(src.subrange(0, upto) =~= src);
            assert(targ.subrange(0, upto) =~= targ);
        }
    }

    /// A NaN among the first elements of two buffers is a NaN among all of them, and so
    /// is a difference.
    pub proof fn lemma_nan_stays(self, src: Seq<u8>, targ: Seq<u8>, upto: int)
        requires
            src.len() == targ.len(),
            aligned(src.len(), self.width()),
            0 <= upto <= src.len(),
            upto % (self.width() as int) == 0,
        ensures
            self.any_nan(src.subrange(0, upto), targ.subrange(0, upto)) ==> self.any_nan(
                src,
                targ,
            ),
            !self.same_numbers(src.subrange(0, upto), targ.subrange(0, upto))
                ==> !self.same_numbers(src, targ),
        decreases src.len() - upto,
    {
        let w = self.width() as int;
        if upto < src.len() {
            lemma_chunk_step(upto, src.len() as int, w, 1);
            let s = src.subrange(0, upto + w);
            let t = targ.subrange(0, upto + w);
            assert(s.subrange(0, upto) =~= src.subrange(0, upto));
            assert(t.subrange(0, upto) =~= targ.subrange(0, upto));
            self.lemma_nan_stays(src, targ, upto + w);
        } else {
            assert(src.subrange(0, upto) =~= src);
            assert(targ.subrange(0, upto) =~= targ);
        }
    }

    /// A NaN in a buffer is a NaN among the elements of that buffer and of any other of its
    /// length.
    pub proof fn lemma_nan_of_source(self, src: Seq<u8>, targ: Seq<u8>)
        requires
            src.len() == targ.len(),
            self.any_nan(src, src),
        ensures
            self.any_nan(src, targ),
        decreases src.len(),
    {
        let w = self.width();
        if src.len() >= w {
            let n = src.len() - w;
            if self.any_nan(src.subrange(0, n), src.subrange(0, n)) {
                self.lemma_nan_of_source(src.subrange(0, n), targ.subrange(0, n));
            }
        }
    }

    /// A buffer lies at no distance from itself: no integer of it differs from itself, and
    /// its floating-point elements stand for the same numbers as themselves.
    pub proof fn lemma_same_buffer(self, x: Seq<u8>)
        ensures
            self.max_gap(x, x) == 0,
            self.same_numbers(x, x),
            !self.is_float() && aligned(x.len(), self.width()) ==> self.exact_difference(x, x)
                == Some(0nat),
        decreases x.len(),
    {
        let w = self.width();
        if x.len() >= w {
            self.lemma_same_buffer(x.subrange(0, x.len() - w));
        }
        lemma_no_bit_difference(x);
    }

    /// The distance between two buffers of elements of this type.
    ///
    /// There is none where the buffers differ in length, where they are no whole number of
    /// elements, and where a floating-point element is a NaN. Between bytes it is the
    /// number of bits that differ, between integers the largest distance of two elements
    /// at one place, and both are exact. Between floating-point numbers it is the largest
    /// of the differences that the backend gives for the elements that differ, each of the
    /// larger number and the smaller; it is zero where none differs, and there is none
    /// where the backend gives a difference that is no distance.
    pub fn max_difference<B: Backend>(&self, backend: &B, src: &[u8], targ: &[u8]) -> (d: Option<
        Deviation,
    >)
        ensures
            d matches Some(v) ==> v.wf(),
            src@.len() != targ@.len() || !aligned(src@.len(), self.width()) ==> d is None,
            !self.is_float() ==> bits_of(d) == self.exact_difference(src@, targ@),
            self.is_float() && src@.len() == targ@.len() && aligned(src@.len(), self.width())
                ==> {
                &&& self.any_nan(src@, targ@) ==> d is None
                &&& !self.any_nan(src@, targ@) && self.same_numbers(src@, targ@) ==> d == Some(
                    Deviation::zero_value(),
                )
            },
            bits_of(d) == self.difference_by(backend, src@, targ@),
    {
        if src.len() != targ.len() {
            return None;
        }
        let w = self.byte_len();
        if src.len() % w != 0 {
            return None;
        }
        match self {
            DataType::Byte => Some(Self::byte_difference(src, targ)),
            DataType::Float16 | DataType::Bfloat16 | DataType::Float32 | DataType::Float64 => {
                self.float_difference(backend, src, targ)
            },
            _ => Some(self.int_difference(src, targ)),
        }
    }
}

} // verus!
