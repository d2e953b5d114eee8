//! Predictors: each element is replaced by what it adds to the one before it.
use crate::backend::Backend;
use crate::bits::{bytes, lemma_bytes_of_word, lemma_word_of_bytes, load, max_word, store, word};
use crate::chunks::{
    aligned, all_aligned, lemma_chunk_step, lemma_rest_is_aligned, lemma_shorter_by_a_run,
};
use crate::data_type::DataType;
use crate::executor::{at_end, gives, lemma_total_of_lengths, Context, Operator};
use crate::result::{Error, Result};
use vstd::prelude::*;

verus! {

/// The predictor and the type of the elements.
#[derive(PartialEq, Eq, Structural, Copy, Clone, Debug)]
pub enum DeltaEncodeMode {
    DiffBfloat16,
    DiffFloat32,
    DiffFloat64,
    DiffDiffBfloat16,
    DiffDiffFloat32,
    DiffDiffFloat64,
    XorUint64,
    XorUint32,
    XorUint16,
    XorUint8,
}

/// What a predictor carries from one block to the next: the last element, and for a second
/// difference the last first difference, both as bit patterns. At the start both are zero.
#[derive(PartialEq, Eq, Structural, Copy, Clone, Debug)]
pub struct Carry {
    pub diff: u64,
    pub last: u64,
}

impl Default for Carry {
    fn default() -> (c: Self)
        ensures
            c.diff == 0,
            c.last == 0,
    {
        Carry { diff: 0, last: 0 }
    }
}

impl DeltaEncodeMode {
    /// The type of the elements.
    pub open spec fn element(self) -> DataType {
        match self {
            DeltaEncodeMode::DiffBfloat16 | DeltaEncodeMode::DiffDiffBfloat16 => DataType::Bfloat16,
            DeltaEncodeMode::DiffFloat32 | DeltaEncodeMode::DiffDiffFloat32 => DataType::Float32,
            DeltaEncodeMode::DiffFloat64 | DeltaEncodeMode::DiffDiffFloat64 => DataType::Float64,
            DeltaEncodeMode::XorUint64 => DataType::Uint64,
            DeltaEncodeMode::XorUint32 => DataType::Uint32,
            DeltaEncodeMode::XorUint16 => DataType::Uint16,
            DeltaEncodeMode::XorUint8 => DataType::Uint8,
        }
    }

    /// Whether the predictor is the exclusive or, which the crate computes by itself.
    pub open spec fn is_xor(self) -> bool {
        self is XorUint64 || self is XorUint32 || self is XorUint16 || self is XorUint8
    }

    /// Whether the predictor is a second difference.
    pub open spec fn is_second(self) -> bool {
        self is DiffDiffBfloat16 || self is DiffDiffFloat32 || self is DiffDiffFloat64
    }

    /// The type of the elements.
    pub fn element_type(&self) -> (dt: DataType)
        ensures
            dt == self.element(),
    {
        match self {
            DeltaEncodeMode::DiffBfloat16 | DeltaEncodeMode::DiffDiffBfloat16 => DataType::Bfloat16,
            DeltaEncodeMode::DiffFloat32 | DeltaEncodeMode::DiffDiffFloat32 => DataType::Float32,
            DeltaEncodeMode::DiffFloat64 | DeltaEncodeMode::DiffDiffFloat64 => DataType::Float64,
            DeltaEncodeMode::XorUint64 => DataType::Uint64,
            DeltaEncodeMode::XorUint32 => DataType::Uint32,
            DeltaEncodeMode::XorUint16 => DataType::Uint16,
            DeltaEncodeMode::XorUint8 => DataType::Uint8,
        }
    }
}

/// The last element of `input`, a string of elements of `w` bytes, or `carry` where it has
/// none.
pub open spec fn last_word(w: nat, carry: u64, input: Seq<u8>) -> u64 {
    if w == 0 || input.len() < w {
        carry
    } else {
        word(input.subrange(input.len() - w, input.len() as int))
    }
}

/// The elements of `input`, each combined by exclusive or with the one before it, the first
/// with `carry`.
#[verifier::opaque]
pub open spec fn xor_encoded(w: nat, carry: u64, input: Seq<u8>) -> Seq<u8>
    decreases input.len(),
{
    if w == 0 || input.len() < w {
        Seq::empty()
    } else {
        let before = input.subrange(0, input.len() - w);
        xor_encoded(w, carry, before) + bytes(
            word(input.subrange(input.len() - w, input.len() as int)) ^ last_word(
                w,
                carry,
                before,
            ),
            w,
        )
    }
}

/// The elements that `coded` was made of by [`xor_encoded`]: each is what its place holds,
/// combined by exclusive or with the element before it, the first with `carry`.
#[verifier::opaque]
pub open spec fn xor_decoded(w: nat, carry: u64, coded: Seq<u8>) -> Seq<u8>
    decreases coded.len(),
{
    if w == 0 || coded.len() < w {
        Seq::empty()
    } else {
        let before = xor_decoded(w, carry, coded.subrange(0, coded.len() - w));
        before + bytes(
            word(coded.subrange(coded.len() - w, coded.len() as int)) ^ last_word(
                w,
                carry,
                before,
            ),
            w,
        )
    }
}

proof fn lemma_xor_facts(a: u64, b: u64)
    by (bit_vector)
    ensures
        (a ^ b) ^ b == a,
        a <= 0xff && b <= 0xff ==> a ^ b <= 0xff,
        a <= 0xffff && b <= 0xffff ==> a ^ b <= 0xffff,
        a <= 0xffff_ffff && b <= 0xffff_ffff ==> a ^ b <= 0xffff_ffff,
{
}

/// What the exclusive or makes of a string with one more element behind it, and of a
/// string that holds no element.
pub proof fn lemma_xor_encoded_step(w: nat, carry: u64, before: Seq<u8>, tail: Seq<u8>)
    requires
        w > 0,
        tail.len() == w,
    ensures
        xor_encoded(w, carry, before + tail) == xor_encoded(w, carry, before) + bytes(
            word(tail) ^ last_word(w, carry, before),
            w,
        ),
        before.len() < w ==> xor_encoded(w, carry, before) == Seq::<u8>::empty(),
{
    reveal(xor_encoded);
    let all = before + tail;
    assert(all.subrange(0, all.len() - w) =~= before);
    assert(all.subrange(all.len() - w, all.len() as int) =~= tail);
}

/// What decoding makes of a coded string with one more coded element behind it, and of a
/// string that holds no element.
pub proof fn lemma_xor_decoded_step(w: nat, carry: u64, coded: Seq<u8>, tail: Seq<u8>)
    requires
        w > 0,
        tail.len() == w,
    ensures
        xor_decoded(w, carry, coded + tail) == xor_decoded(w, carry, coded) + bytes(
            word(tail) ^ last_word(w, carry, xor_decoded(w, carry, coded)),
            w,
        ),
        coded.len() < w ==> xor_decoded(w, carry, coded) == Seq::<u8>::empty(),
{
    reveal(xor_decoded);
    let all = coded + tail;
    assert(all.subrange(0, all.len() - w) =~= coded);
    assert(all.subrange(all.len() - w, all.len() as int) =~= tail);
}

/// The exclusive or keeps the length of a string of whole elements.
pub proof fn lemma_xor_encoded_len(w: nat, carry: u64, input: Seq<u8>)
    requires
        aligned(input.len(), w),
    ensures
        xor_encoded(w, carry, input).len() == input.len(),
    decreases input.len(),
{
    if input.len() >= w {
        lemma_shorter_by_a_run(input.len() as int, w as int);
        let before = input.subrange(0, input.len() - w);
        let tail = input.subrange(input.len() - w, input.len() as int);
        lemma_xor_encoded_len(w, carry, before);
        lemma_xor_encoded_step(w, carry, before, tail);
        assert(before + tail =~= input);
    } else {
        vstd::arithmetic::div_mod::lemma_small_mod(input.len(), w);
        lemma_xor_encoded_step(w, carry, input, Seq::new(w, |i: int| 0u8));
    }
}

/// The last element of a string with one more element behind it is that element, and it
/// fits its width.
proof fn lemma_last_word_of_tail(w: nat, carry: u64, before: Seq<u8>, tail: Seq<u8>)
    requires
        1 <= w <= 8,
        tail.len() == w,
    ensures
        last_word(w, carry, before + tail) == word(tail),
        word(tail) <= max_word(w),
        bytes(word(tail), w) == tail,
{
    let all = before + tail;
    assert(all.subrange(all.len() - w, all.len() as int) =~= tail);
    lemma_bytes_of_word(tail);
}

/// The exclusive or predictor is undone exactly: decoding gives back every string of whole
/// elements of one, two, four or eight bytes.
pub proof fn lemma_xor_decoded_encoded(w: nat, carry: u64, input: Seq<u8>)
    requires
        w == 1 || w == 2 || w == 4 || w == 8,
        aligned(input.len(), w),
        carry <= max_word(w),
    ensures
        xor_decoded(w, carry, xor_encoded(w, carry, input)) == input,
    decreases input.len(),
{
    if input.len() >= w {
        let n = input.len() - w;
        let before = input.subrange(0, n);
        let tail = input.subrange(n, input.len() as int);
        assert(before + tail =~= input);
        lemma_shorter_by_a_run(input.len() as int, w as int);
        lemma_xor_decoded_encoded(w, carry, before);
        let prev = last_word(w, carry, before);
        let x = word(tail);
        lemma_last_word_of_tail(w, carry, before, tail);
        assert(prev <= max_word(w)) by {
            if before.len() >= w {
                let m = before.len() - w;
                assert(before.subrange(0, m) + before.subrange(m, before.len() as int)
                    =~= before);
                lemma_last_word_of_tail(
                    w,
                    carry,
                    before.subrange(0, m),
                    before.subrange(m, before.len() as int),
                );
            }
        }
        let y = x ^ prev;
        lemma_xor_facts(x, prev);
        lemma_word_of_bytes(y, w);
        lemma_xor_encoded_step(w, carry, before, tail);
        lemma_xor_decoded_step(w, carry, xor_encoded(w, carry, before), bytes(y, w));
    } else {
        vstd::arithmetic::div_mod::lemma_small_mod(input.len(), w);
        assert(input =~= Seq::<u8>::empty());
        lemma_xor_encoded_step(w, carry, input, Seq::new(w, |i: int| 0u8));
        lemma_xor_decoded_step(w, carry, Seq::<u8>::empty(), Seq::new(w, |i: int| 0u8));
    }
}

/// The exclusive or of a string of whole elements that is followed by another: the second
/// is coded with the last element of the first carried on.
#[verifier::rlimit(60)]
#[verifier::spinoff_prover]
pub proof fn lemma_xor_encoded_concat(w: nat, carry: u64, a: Seq<u8>, b: Seq<u8>)
    requires
        aligned(a.len(), w),
        aligned(b.len(), w),
    ensures
        xor_encoded(w, carry, a + b) == xor_encoded(w, carry, a) + xor_encoded(
            w,
            last_word(w, carry, a),
            b,
        ),
    decreases b.len(),
{
    let carried = last_word(w, carry, a);
    if b.len() >= w {
        let short = b.subrange(0, b.len() - w);
        let tail = b.subrange(b.len() - w, b.len() as int);
        assert(short + tail =~= b);
        assert((a + short) + tail =~= a + b);
        lemma_shorter_by_a_run(b.len() as int, w as int);
        lemma_xor_encoded_concat(w, carry, a, short);
        lemma_xor_encoded_step(w, carry, a + short, tail);
        lemma_xor_encoded_step(w, carried, short, tail);
        assert(last_word(w, carry, a + short) == last_word(w, carried, short)) by {
            if short.len() >= w {
                assert((a + short).subrange((a + short).len() - w, (a + short).len() as int)
                    =~= short.subrange(short.len() - w, short.len() as int));
            } else {
                vstd::arithmetic::div_mod::lemma_small_mod(short.len(), w);
                assert(a + short =~= a);
            }
        }
        let e = bytes(word(tail) ^ last_word(w, carried, short), w);
        assert(xor_encoded(w, carry, a) + xor_encoded(w, carried, short) + e =~= xor_encoded(
            w,
            carry,
            a,
        ) + (xor_encoded(w, carried, short) + e));
    } else {
        vstd::arithmetic::div_mod::lemma_small_mod(b.len(), w);
        assert(a + b =~= a);
        lemma_xor_encoded_step(w, carried, b, Seq::new(w, |i: int| 0u8));
        assert(xor_encoded(w, carry, a) + Seq::<u8>::empty() =~= xor_encoded(w, carry, a));
    }
}

/// What the predictor makes of the element `x` behind what is carried: the exclusive or
/// with the last element, or what `backend` gives for the difference from the last
/// element, and for a second difference for the difference of that from the last first
/// difference.
pub open spec fn predicted<B: Backend>(backend: &B, mode: DeltaEncodeMode, carry: Carry, x: u64) -> u64 {
    if mode.is_xor() {
        x ^ carry.last
    } else if mode.is_second() {
        backend.remainder(
            mode.element(),
            backend.remainder(mode.element(), x, carry.last),
            carry.diff,
        )
    } else {
        backend.remainder(mode.element(), x, carry.last)
    }
}

/// What is carried behind the element `x`: the element itself, and for a second
/// difference its first difference.
pub open spec fn carried_on<B: Backend>(backend: &B, mode: DeltaEncodeMode, carry: Carry, x: u64) -> Carry {
    Carry {
        last: x,
        diff: if mode.is_second() {
            backend.remainder(mode.element(), x, carry.last)
        } else {
            carry.diff
        },
    }
}

/// What is carried behind the elements of `input`, where `carry` was carried before them.
#[verifier::opaque]
pub open spec fn carried<B: Backend>(
    backend: &B,
    mode: DeltaEncodeMode,
    carry: Carry,
    input: Seq<u8>,
) -> Carry
    decreases input.len(),
{
    let w = mode.element().width();
    if w == 0 || input.len() < w {
        carry
    } else {
        carried_on(
            backend,
            mode,
            carried(backend, mode, carry, input.subrange(0, input.len() - w)),
            word(input.subrange(input.len() - w, input.len() as int)),
        )
    }
}

/// What the predictor makes of the elements of `input`, one after the other, where `carry`
/// was carried before them.
#[verifier::opaque]
pub open spec fn delta_encoded<B: Backend>(
    backend: &B,
    mode: DeltaEncodeMode,
    carry: Carry,
    input: Seq<u8>,
) -> Seq<u8>
    decreases input.len(),
{
    let w = mode.element().width();
    if w == 0 || input.len() < w {
        Seq::empty()
    } else {
        let before = input.subrange(0, input.len() - w);
        delta_encoded(backend, mode, carry, before) + bytes(
            predicted(
                backend,
                mode,
                carried(backend, mode, carry, before),
                word(input.subrange(input.len() - w, input.len() as int)),
            ),
            w,
        )
    }
}

/// What a predictor makes of a string with one more element behind it, and carries behind
/// it; and of a string that holds no element.
pub proof fn lemma_delta_step<B: Backend>(
    backend: &B,
    mode: DeltaEncodeMode,
    carry: Carry,
    before: Seq<u8>,
    tail: Seq<u8>,
)
    requires
        tail.len() == mode.element().width(),
        tail.len() > 0,
    ensures
        delta_encoded(backend, mode, carry, before + tail) == delta_encoded(
            backend,
            mode,
            carry,
            before,
        ) + bytes(
            predicted(backend, mode, carried(backend, mode, carry, before), word(tail)),
            mode.element().width(),
        ),
        carried(backend, mode, carry, before + tail) == carried_on(
            backend,
            mode,
            carried(backend, mode, carry, before),
            word(tail),
        ),
        before.len() < tail.len() ==> delta_encoded(backend, mode, carry, before) == Seq::<
            u8,
        >::empty() && carried(backend, mode, carry, before) == carry,
{
    reveal(delta_encoded);
    reveal(carried);
    let w = mode.element().width();
    let all = before + tail;
    assert(all.subrange(0, all.len() - w) =~= before);
    assert(all.subrange(all.len() - w, all.len() as int) =~= tail);
}

/// A predictor keeps the length of a string of whole elements.
pub proof fn lemma_delta_len<B: Backend>(
    backend: &B,
    mode: DeltaEncodeMode,
    carry: Carry,
    input: Seq<u8>,
)
    requires
        aligned(input.len(), mode.element().width()),
    ensures
        delta_encoded(backend, mode, carry, input).len() == input.len(),
    decreases input.len(),
{
    let w = mode.element().width();
    if input.len() >= w {
        lemma_shorter_by_a_run(input.len() as int, w as int);
        let before = input.subrange(0, input.len() - w);
        let tail = input.subrange(input.len() - w, input.len() as int);
        lemma_delta_len(backend, mode, carry, before);
        lemma_delta_step(backend, mode, carry, before, tail);
        assert(before + tail =~= input);
    } else {
        vstd::arithmetic::div_mod::lemma_small_mod(input.len(), w);
        lemma_delta_step(backend, mode, carry, input, Seq::new(w, |i: int| 0u8));
    }
}

/// What a predictor makes of a string of whole elements that is followed by another: the
/// second is predicted from what is carried behind the first.
pub proof fn lemma_delta_concat<B: Backend>(
    backend: &B,
    mode: DeltaEncodeMode,
    carry: Carry,
    a: Seq<u8>,
    b: Seq<u8>,
)
    requires
        aligned(a.len(), mode.element().width()),
        aligned(b.len(), mode.element().width()),
    ensures
        delta_encoded(backend, mode, carry, a + b) == delta_encoded(backend, mode, carry, a)
            + delta_encoded(backend, mode, carried(backend, mode, carry, a), b),
        carried(backend, mode, carry, a + b) == carried(
            backend,
            mode,
            carried(backend, mode, carry, a),
            b,
        ),
    decreases b.len(),
{
    let w = mode.element().width();
    let mid = carried(backend, mode, carry, a);
    if b.len() >= w {
        let short = b.subrange(0, b.len() - w);
        let tail = b.subrange(b.len() - w, b.len() as int);
        assert(short + tail =~= b);
        assert((a + short) + tail =~= a + b);
        lemma_shorter_by_a_run(b.len() as int, w as int);
        lemma_delta_concat(backend, mode, carry, a, short);
        lemma_delta_step(backend, mode, carry, a + short, tail);
        lemma_delta_step(backend, mode, mid, short, tail);
        let e = bytes(
            predicted(backend, mode, carried(backend, mode, mid, short), word(tail)),
            w,
        );
        assert(delta_encoded(backend, mode, carry, a) + delta_encoded(backend, mode, mid, short)
            + e =~= delta_encoded(backend, mode, carry, a) + (delta_encoded(
            backend,
            mode,
            mid,
            short,
        ) + e));
    } else {
        vstd::arithmetic::div_mod::lemma_small_mod(b.len(), w);
        assert(a + b =~= a);
        lemma_delta_step(backend, mode, mid, b, Seq::new(w, |i: int| 0u8));
        assert(delta_encoded(backend, mode, carry, a) + Seq::<u8>::empty() =~= delta_encoded(
            backend,
            mode,
            carry,
            a,
        ));
    }
}

/// The element that is carried behind a string is its last, or the one that was carried
/// before it where it holds none.
pub proof fn lemma_carried_last<B: Backend>(
    backend: &B,
    mode: DeltaEncodeMode,
    carry: Carry,
    input: Seq<u8>,
)
    ensures
        carried(backend, mode, carry, input).last == last_word(
            mode.element().width(),
            carry.last,
            input,
        ),
{
    reveal(carried);
}

/// Replaces the elements of `buf` by what the predictor makes of them, and carries on.
///
/// Fails, with [`Error::MisalignedInput`] and all as it was, exactly where `buf` is not a
/// whole number of elements. Else `buf` holds, in the place of each element, what the
/// predictor makes of it and of what was carried up to it, and what is carried behind the
/// last element is carried on: the last element itself, and for a second difference its
/// first difference. The exclusive or is the crate's own; a difference is the backend's
/// answer, element by element.
pub fn encode<B: Backend>(
    backend: &B,
    mode: DeltaEncodeMode,
    buf: &mut Vec<u8>,
    curr_vec: &mut Carry,
) -> (r: Result<()>)
    ensures
        r is Ok <==> aligned(old(buf)@.len(), mode.element().width()),
        r is Err ==> (r matches Err(Error::MisalignedInput)) && final(buf)@ == old(buf)@
            && *final(curr_vec) == *old(curr_vec),
        r is Ok ==> final(buf)@.len() == old(buf)@.len(),
        r is Ok && mode.is_xor() && old(curr_vec).last <= max_word(mode.element().width()) ==> {
            &&& final(buf)@ == xor_encoded(mode.element().width(), old(curr_vec).last, old(buf)@)
            &&& final(curr_vec).last == last_word(
                mode.element().width(),
                old(curr_vec).last,
                old(buf)@,
            )
            &&& final(curr_vec).last <= max_word(mode.element().width())
            &&& final(curr_vec).diff == old(curr_vec).diff
        },
        r is Ok ==> final(buf)@ == delta_encoded(backend, mode, *old(curr_vec), old(buf)@),
        r is Ok ==> *final(curr_vec) == carried(backend, mode, *old(curr_vec), old(buf)@),
        r is Ok ==> final(curr_vec).last == last_word(
            mode.element().width(),
            old(curr_vec).last,
            old(buf)@,
        ),
{
    let dt = mode.element_type();
    let w = dt.byte_len();
    let len = buf.len();
    if len % w != 0 {
        return Err(Error::MisalignedInput);
    }
    let xor = match mode {
        DeltaEncodeMode::XorUint64
        | DeltaEncodeMode::XorUint32
        | DeltaEncodeMode::XorUint16
        | DeltaEncodeMode::XorUint8 => true,
        _ => false,
    };
    let second = match mode {
        DeltaEncodeMode::DiffDiffBfloat16
        | DeltaEncodeMode::DiffDiffFloat32
        | DeltaEncodeMode::DiffDiffFloat64 => true,
        _ => false,
    };
    let mut out: Vec<u8> = Vec::new();
    let mut prev = curr_vec.last;
    let mut prev_diff = curr_vec.diff;
    let mut at: usize = 0;
    let ghost carry = curr_vec.last;
    proof {
        assert(buf@.subrange(0, 0) =~= Seq::<u8>::empty());
        lemma_xor_encoded_step(w as nat, carry, Seq::<u8>::empty(), Seq::new(w as nat, |i: int| 0u8));
        lemma_delta_step(
            backend,
            mode,
            *old(curr_vec),
            Seq::<u8>::empty(),
            Seq::new(w as nat, |i: int| 0u8),
        );
    }
    while at < len
        invariant
            w == mode.element().width(),
            xor == mode.is_xor(),
            second == mode.is_second(),
            len == buf@.len(),
            buf@ == old(buf)@,
            at <= len,
            at as int % w as int == 0,
            len as int % w as int == 0,
            out@.len() == at,
            xor ==> prev_diff == old(curr_vec).diff,
            dt == mode.element(),
            *curr_vec == *old(curr_vec),
            out@ == delta_encoded(backend, mode, *old(curr_vec), buf@.subrange(0, at as int)),
            (Carry { diff: prev_diff, last: prev }) == carried(
                backend,
                mode,
                *old(curr_vec),
                buf@.subrange(0, at as int),
            ),
            xor && carry <= max_word(w as nat) ==> {
                &&& out@ == xor_encoded(w as nat, carry, buf@.subrange(0, at as int))
                &&& prev == last_word(w as nat, carry, buf@.subrange(0, at as int))
                &&& prev <= max_word(w as nat)
            },
        decreases len - at,
    {
        proof {
            lemma_chunk_step(at as int, len as int, w as int, 1);
        }
        let x = load(buf.as_slice(), at, w);
        let y = if xor {
            x ^ prev
        } else if second {
            let d = backend.subtract(dt, x, prev);
            let y = backend.subtract(dt, d, prev_diff);
            prev_diff = d;
            y
        } else {
            backend.subtract(dt, x, prev)
        };
        store(&mut out, y, w);
        proof {
            let before = buf@.subrange(0, at as int);
            let tail = buf@.subrange(at as int, at + w);
            assert(before + tail =~= buf@.subrange(0, at + w));
            lemma_xor_encoded_step(w as nat, carry, before, tail);
            lemma_delta_step(backend, mode, *old(curr_vec), before, tail);
            if xor && carry <= max_word(w as nat) {
                lemma_last_word_of_tail(w as nat, carry, before, tail);
            }
        }
        prev = x;
        at = at + w;
    }
    proof {
        assert(buf@.subrange(0, len as int) =~= buf@);
        lemma_carried_last(backend, mode, *old(curr_vec), buf@);
    }
    *buf = out;
    curr_vec.last = prev;
    curr_vec.diff = prev_diff;
    Ok(())
}

/// Runs a predictor over what its parent gives.
pub struct DeltaEncode<P: Operator, B: Backend> {
    parent: P,
    mode: DeltaEncodeMode,
    curr: Carry,
    backend: B,
}

impl<P: Operator, B: Backend> DeltaEncode<P, B> {
    pub fn new(parent: P, mode: DeltaEncodeMode, backend: B) -> (r: Box<Self>)
        requires
            parent.inv(),
        ensures
            r.inv(),
            r.outputs() == parent.outputs(),
            r.source_unfailing() == parent.unfailing(),
            r.due() == parent.due(),
            r.counting() == parent.counting(),
            r.unfailing() == (parent.unfailing() && parent.whole(mode.element().width())),
            r.foretold() == (parent.foretold() && parent.outputs() == 1 && aligned(
                parent.rest()[0].len(),
                mode.element().width(),
            )),
            r.rest() == if mode.is_xor() {
                seq![xor_encoded(mode.element().width(), 0, parent.rest()[0])]
            } else {
                seq![
                    delta_encoded(&backend, mode, (Carry { diff: 0, last: 0 }), parent.rest()[0]),
                ]
            },
    {
        Box::new(Self { parent, mode, curr: Carry { diff: 0, last: 0 }, backend })
    }

    /// Whether the parent never fails.
    pub closed spec fn source_unfailing(&self) -> bool {
        self.parent.unfailing()
    }
}

impl<P: Operator, B: Backend> Operator for DeltaEncode<P, B> {
    closed spec fn inv(&self) -> bool {
        &&& self.parent.inv()
        &&& self.mode.is_xor() ==> self.curr.last <= max_word(self.mode.element().width())
    }

    closed spec fn outputs(&self) -> nat {
        self.parent.outputs()
    }

    /// The numbers given are the parent's.
    closed spec fn due(&self) -> Option<nat> {
        self.parent.due()
    }

    /// A block keeps its length, so the bytes of the blocks are counted where the parent
    /// counts them.
    closed spec fn counting(&self) -> bool {
        self.parent.counting()
    }

    /// A predictor over the one output of a parent that foretells whole elements foretells
    /// what it has yet to give.
    closed spec fn foretold(&self) -> bool {
        &&& self.parent.foretold()
        &&& self.parent.outputs() == 1
        &&& aligned(self.parent.rest()[0].len(), self.mode.element().width())
    }

    /// What the predictor makes of what the parent has yet to give: for the exclusive or,
    /// each element combined with the one before it.
    closed spec fn rest(&self) -> Seq<Seq<u8>> {
        if self.mode.is_xor() {
            seq![xor_encoded(self.mode.element().width(), self.curr.last, self.parent.rest()[0])]
        } else {
            seq![delta_encoded(&self.backend, self.mode, self.curr, self.parent.rest()[0])]
        }
    }

    /// A predictor never fails where its parent never does and gives blocks of whole
    /// elements.
    closed spec fn unfailing(&self) -> bool {
        self.parent.unfailing() && self.parent.whole(self.mode.element().width())
    }

    fn num_outputs(&self) -> (n: usize) {
        self.parent.num_outputs()
    }

    /// The parent's next blocks, predicted: the parent's failure where it fails, and else
    /// what `predict_blocks` makes of its blocks, with the parent's number. So where the
    /// parent never fails, the one failure is a block that is not a whole number of
    /// elements.
    fn next(&mut self, ctx: &Context, out: &mut Vec<Vec<u8>>) -> (r: Result<usize>)
        ensures
            old(self).source_unfailing() && r is Err ==> r matches Err(Error::MisalignedInput),
            r is Ok && old(self).source_unfailing() ==> final(self).source_unfailing(),
    {
        let ghost before = self.parent.rest();
        let n = match self.parent.next(ctx, out) {
            Ok(n) => n,
            Err(e) => {
                return Err(e);
            },
        };
        let ghost blocks = out@;
        let ghost after = self.parent.rest();
        let ghost w = self.mode.element().width();
        let ghost carry = self.curr.last;
        let ghost carried_in = self.curr;
        if let Err(e) = predict_blocks(&self.backend, self.mode, out, &mut self.curr) {
            return Err(e);
        }
        proof {
            lemma_total_of_lengths(out@, blocks);
            if self.parent.foretold() && self.parent.outputs() == 1 {
                assert(gives(before, blocks, after));
                assert(before[0] == blocks[0]@ + after[0]);
                assert(aligned(blocks[0]@.len(), w));
                lemma_rest_is_aligned(before[0].len(), blocks[0]@.len(), w);
            }
            if old(self).foretold() {
                if self.mode.is_xor() {
                    lemma_xor_encoded_concat(w, carry, blocks[0]@, after[0]);
                    if n == 0 {
                        assert(before[0].len() == 0);
                        lemma_xor_encoded_len(w, carry, before[0]);
                    }
                } else {
                    lemma_delta_concat(&self.backend, self.mode, carried_in, blocks[0]@, after[0]);
                    if n == 0 {
                        assert(before[0].len() == 0);
                        lemma_delta_len(&self.backend, self.mode, carried_in, before[0]);
                    }
                }
                assert(old(self).rest()[0] == out@[0]@ + self.rest()[0]);
            }
        }
        Ok(n)
    }
}

/// Replaces the elements of each of the blocks by what the predictor makes of them, block
/// after block, and carries on from each to the next.
///
/// Fails, with [`Error::MisalignedInput`], exactly where one of the blocks is not a whole
/// number of elements. Else each block keeps its length. Where there is the one block, the
/// exclusive or makes of it and of what is carried what [`encode`] states.
pub fn predict_blocks<B: Backend>(
    backend: &B,
    mode: DeltaEncodeMode,
    blocks: &mut Vec<Vec<u8>>,
    carry: &mut Carry,
) -> (r: Result<()>)
    ensures
        final(blocks)@.len() == old(blocks)@.len(),
        r is Ok <==> all_aligned(old(blocks)@, mode.element().width()),
        r is Err ==> r matches Err(Error::MisalignedInput),
        r is Ok ==> forall|j: int|
            0 <= j < old(blocks)@.len() ==> (#[trigger] final(blocks)@[j])@.len() == old(blocks)@[j]@.len(),
        mode.is_xor() && old(carry).last <= max_word(mode.element().width()) ==> final(carry).last
            <= max_word(mode.element().width()),
        old(blocks)@.len() == 0 ==> *final(carry) == *old(carry),
        r is Ok && mode.is_xor() && old(carry).last <= max_word(mode.element().width()) && old(blocks)@.len() == 1 ==> {
            &&& final(blocks)@[0]@ == xor_encoded(
                mode.element().width(),
                old(carry).last,
                old(blocks)@[0]@,
            )
            &&& final(carry).last == last_word(
                mode.element().width(),
                old(carry).last,
                old(blocks)@[0]@,
            )
        },
        r is Ok && old(blocks)@.len() == 1 ==> final(blocks)@[0]@ == delta_encoded(
            backend,
            mode,
            *old(carry),
            old(blocks)@[0]@,
        ) && *final(carry) == carried(backend, mode, *old(carry), old(blocks)@[0]@),
{
    let ghost w = mode.element().width();
    let mut i: usize = 0;
    while i < blocks.len()
        invariant
            w == mode.element().width(),
            blocks@.len() == old(blocks)@.len(),
            i <= blocks@.len(),
            forall|j: int| i <= j < blocks@.len() ==> #[trigger] blocks@[j] == old(blocks)@[j],
            forall|j: int| 0 <= j < i ==> aligned((#[trigger] old(blocks)@[j])@.len(), w),
            forall|j: int|
                0 <= j < i ==> (#[trigger] blocks@[j])@.len() == old(blocks)@[j]@.len(),
            mode.is_xor() && old(carry).last <= max_word(w) ==> carry.last <= max_word(w),
            i == 0 ==> *carry == *old(carry),
            i == 1 && mode.is_xor() && old(carry).last <= max_word(w) ==> {
                &&& blocks@[0]@ == xor_encoded(w, old(carry).last, old(blocks)@[0]@)
                &&& carry.last == last_word(w, old(carry).last, old(blocks)@[0]@)
            },
            i == 1 ==> blocks@[0]@ == delta_encoded(backend, mode, *old(carry), old(blocks)@[0]@)
                && *carry == carried(backend, mode, *old(carry), old(blocks)@[0]@),
            i > 1 ==> blocks@.len() > 1,
        decreases blocks@.len() - i,
    {
        let done = encode(backend, mode, &mut blocks[i], carry);
        if let Err(e) = done {
            assert(!aligned(old(blocks)@[i as int]@.len(), w));
            return Err(e);
        }
        i = i + 1;
    }
    Ok(())
}

} // verus!
