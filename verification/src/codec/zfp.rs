//! The fixed-accuracy tensor coder: what surrounds the call into the backend.
use crate::backend::Backend;
use crate::codec::BufferList;
use crate::data_type::DataType;
use crate::deviation::Tolerance;
use crate::result::{Error, Result};
use vstd::prelude::*;

verus! {

/// The product of the numbers of `s`.
pub open spec fn product(s: Seq<usize>) -> nat
    decreases s.len(),
{
    if s.len() == 0 {
        1
    } else {
        product(s.drop_last()) * (s.last() as nat)
    }
}

/// Extent `k` of the array of `dims` dimensions that an array of the given shape is coded
/// as: the leading extents are kept, all from the last kept one on are multiplied into it,
/// and an extent that the shape lacks is one.
pub open spec fn collapsed(shape: Seq<usize>, dims: nat, k: nat) -> nat {
    if k + 1 < dims {
        if k < shape.len() {
            shape[k as int] as nat
        } else {
            1
        }
    } else if k + 1 == dims && k < shape.len() {
        product(shape.subrange(k as int, shape.len() as int))
    } else {
        1
    }
}

/// Whether an element type is one that the tensor coder takes.
pub open spec fn codable(dt: DataType) -> bool {
    dt is Float32 || dt is Float64 || dt is Int32 || dt is Int64
}

/// Whether every extent of a shape is positive.
pub open spec fn positive(shape: Seq<usize>) -> bool {
    forall|i: int| 0 <= i < shape.len() ==> #[trigger] shape[i] >= 1
}

/// The four extents that an array of the given shape is coded with in `dims` dimensions,
/// if `dims` is from one to four, every extent of the shape is positive and those of the
/// coded array fit in 32 bits.
pub fn collapse_shape(shape: &[usize], dims: usize) -> (field: Option<[u32; 4]>)
    ensures
        field is Some <==> 1 <= dims <= 4 && positive(shape@) && forall|k: nat|
            k < 4 ==> #[trigger] collapsed(shape@, dims as nat, k) <= u32::MAX,
        field matches Some(f) ==> forall|k: nat|
            k < 4 ==> f@[k as int] == #[trigger] collapsed(shape@, dims as nat, k),
{
    if dims < 1 || dims > 4 {
        return None;
    }
    let len = shape.len();
    let mut e0: u32 = 1;
    let mut e1: u32 = 1;
    let mut e2: u32 = 1;
    let mut last: u32 = 1;
    let mut i: usize = 0;
    while i < len
        invariant
            1 <= dims <= 4,
            len == shape@.len(),
            i <= len,
            positive(shape@.subrange(0, i as int)),
            e0 == (if 0 < i && 1 < dims {
                shape@[0] as nat
            } else {
                1
            }),
            e1 == (if 1 < i && 2 < dims {
                shape@[1] as nat
            } else {
                1
            }),
            e2 == (if 2 < i && 3 < dims {
                shape@[2] as nat
            } else {
                1
            }),
            last == (if dims - 1 < i {
                product(shape@.subrange(dims - 1, i as int))
            } else {
                1
            }),
        decreases len - i,
    {
        let s = shape[i];
        if s == 0 {
            return None;
        }
        proof {
            assert forall|j: int| 0 <= j < i + 1 implies #[trigger] shape@.subrange(
                0,
                i + 1,
            )[j] >= 1 by {
                if j < i {
                    assert(shape@.subrange(0, i as int)[j] >= 1);
                }
            }
        }
        if i + 1 < dims {
            if s > u32::MAX as usize {
                assert(collapsed(shape@, dims as nat, i as nat) == s);
                return None;
            }
            if i == 0 {
                e0 = s as u32;
            } else if i == 1 {
                e1 = s as u32;
            } else {
                e2 = s as u32;
            }
        } else {
            proof {
                lemma_product_last(shape@, dims - 1, i as int + 1);
                if i == dims - 1 {
                    assert(shape@.subrange(dims - 1, i as int) =~= Seq::<usize>::empty());
                }
            }
            let fits = if s > u32::MAX as usize {
                None
            } else {
                last.checked_mul(s as u32)
            };
            match fits {
                Some(v) => {
                    last = v;
                },
                None => {
                    proof {
                        let sofar = product(shape@.subrange(dims - 1, i as int));
                        if positive(shape@) {
                            lemma_product_grows(shape@, dims - 1, i as int, len as int);
                            lemma_product_grows(shape@, dims - 1, i as int + 1, len as int);
                            assert(sofar * (s as nat) > u32::MAX) by (nonlinear_arith)
                                requires
                                    sofar >= 1,
                                    s > u32::MAX || sofar * (s as nat) > u32::MAX,
                            ;
                            assert(collapsed(shape@, dims as nat, (dims - 1) as nat) > u32::MAX);
                        }
                    }
                    return None;
                },
            }
        }
        i = i + 1;
    }
    let field = if dims == 1 {
        [last, 1, 1, 1]
    } else if dims == 2 {
        [e0, last, 1, 1]
    } else if dims == 3 {
        [e0, e1, last, 1]
    } else {
        [e0, e1, e2, last]
    };
    proof {
        assert(shape@.subrange(0, len as int) =~= shape@);
        assert forall|k: nat| k < 4 implies field@[k as int] == #[trigger] collapsed(
            shape@,
            dims as nat,
            k,
        ) by {
            if k + 1 == dims && !(k < len) {
                assert(last == 1);
            }
        }
    }
    Some(field)
}

/// The product over a run of extents, with one more extent at its end.
pub proof fn lemma_product_last(shape: Seq<usize>, from: int, to: int)
    requires
        0 <= from < to <= shape.len(),
    ensures
        product(shape.subrange(from, to)) == product(shape.subrange(from, to - 1)) * (shape[to
            - 1] as nat),
{
    let s = shape.subrange(from, to);
    assert(s.drop_last() =~= shape.subrange(from, to - 1));
    assert(s.last() == shape[to - 1]);
}

/// Among positive extents a product is at least one and does not fall with more of them.
pub proof fn lemma_product_grows(shape: Seq<usize>, from: int, mid: int, to: int)
    requires
        0 <= from <= mid <= to <= shape.len(),
        positive(shape),
    ensures
        product(shape.subrange(from, to)) >= product(shape.subrange(from, mid)) >= 1,
    decreases to - from,
{
    if mid < to {
        lemma_product_grows(shape, from, mid, to - 1);
        lemma_product_last(shape, from, to);
        let a = product(shape.subrange(from, to - 1));
        let b = shape[to - 1] as nat;
        assert(a * b >= a) by (nonlinear_arith)
            requires
                a >= 1,
                b >= 1,
        ;
    } else if from < mid {
        lemma_product_grows(shape, from, mid - 1, mid - 1);
        lemma_product_last(shape, from, mid);
        let a = product(shape.subrange(from, mid - 1));
        let b = shape[mid - 1] as nat;
        assert(a * b >= 1) by (nonlinear_arith)
            requires
                a >= 1,
                b >= 1,
        ;
    } else {
        assert(shape.subrange(from, mid) =~= Seq::<usize>::empty());
    }
}

/// The number of bytes that an array of the given shape and element type takes, if it can
/// be counted.
pub fn byte_length(shape: &[usize], dt: DataType) -> (len: Option<usize>)
    ensures
        len is Some <==> product(shape@) * dt.width() <= usize::MAX,
        len matches Some(n) ==> n == product(shape@) * dt.width(),
{
    let mut count: usize = 1;
    let mut zero = false;
    let mut i: usize = 0;
    proof {
        assert(shape@.subrange(0, 0) =~= Seq::<usize>::empty());
    }
    while i < shape.len()
        invariant
            i <= shape@.len(),
            count == product(shape@.subrange(0, i as int)),
        decreases shape@.len() - i,
    {
        proof {
            lemma_product_last(shape@, 0, i as int + 1);
        }
        match count.checked_mul(shape[i]) {
            Some(v) => {
                count = v;
            },
            None => {
                // the count is too large unless a later extent is zero
                let mut j: usize = i + 1;
                while j < shape.len()
                    invariant
                        i < j <= shape@.len(),
                        forall|k: int| i < k < j ==> #[trigger] shape@[k] >= 1,
                    decreases shape@.len() - j,
                {
                    if shape[j] == 0 {
                        proof {
                            lemma_product_zero(shape@, j as int);
                            assert(product(shape@) * dt.width() == 0) by (nonlinear_arith)
                                requires
                                    product(shape@) == 0,
                            ;
                        }
                        return Some(0);
                    }
                    j = j + 1;
                }
                proof {
                    lemma_product_tail(shape@, i as int + 1);
                    assert(shape@.subrange(0, shape@.len() as int) =~= shape@);
                    let big = product(shape@.subrange(0, i as int + 1));
                    assert(product(shape@) * dt.width() > usize::MAX) by (nonlinear_arith)
                        requires
                            product(shape@) >= big,
                            big > usize::MAX,
                            dt.width() >= 1,
                    ;
                }
                return None;
            },
        }
        i = i + 1;
    }
    proof {
        assert(shape@.subrange(0, shape@.len() as int) =~= shape@);
    }
    count.checked_mul(dt.byte_len())
}

/// A shape with an extent of zero has the product zero.
pub proof fn lemma_product_zero(shape: Seq<usize>, at: int)
    requires
        0 <= at < shape.len(),
        shape[at] == 0,
    ensures
        product(shape) == 0,
    decreases shape.len(),
{
    if at == shape.len() - 1 {
        assert(product(shape.drop_last()) * 0 == 0) by (nonlinear_arith);
    } else {
        lemma_product_zero(shape.drop_last(), at);
        assert(0 * (shape.last() as nat) == 0) by (nonlinear_arith);
    }
}

/// A product does not fall with more extents that are all positive.
pub proof fn lemma_product_tail(shape: Seq<usize>, from: int)
    requires
        0 <= from <= shape.len(),
        forall|k: int| from <= k < shape.len() ==> #[trigger] shape[k] >= 1,
    ensures
        product(shape) >= product(shape.subrange(0, from)),
    decreases shape.len() - from,
{
    if from < shape.len() {
        let s = shape.drop_last();
        assert(s.subrange(0, from) =~= shape.subrange(0, from)) by {
            if from == shape.len() {
            }
        }
        if from < shape.len() - 1 {
            lemma_product_tail(s, from);
            assert(s.subrange(0, from) =~= shape.subrange(0, from));
        } else {
            assert(s =~= shape.subrange(0, from));
        }
        let a = product(s);
        let b = shape.last() as nat;
        assert(a * b >= a) by (nonlinear_arith)
            requires
                a >= 0,
                b >= 1,
        ;
    } else {
        assert(shape.subrange(0, from) =~= shape);
    }
}

/// Whether the coder can be asked at all about arrays of the given type and shape in
/// `dims` dimensions: the element type is one it takes, and the shape gives four extents.
pub open spec fn tensor_usable(dt: DataType, dims: usize, shape: Seq<usize>) -> bool {
    &&& codable(dt)
    &&& 1 <= dims <= 4
    &&& positive(shape)
    &&& forall|k: nat| k < 4 ==> #[trigger] collapsed(shape, dims as nat, k) <= u32::MAX
}

/// Whether `field` holds the four extents that an array of the given shape is coded with
/// in `dims` dimensions.
pub open spec fn field_is(field: [u32; 4], shape: Seq<usize>, dims: usize) -> bool {
    forall|k: nat| k < 4 ==> field@[k as int] == #[trigger] collapsed(shape, dims as nat, k)
}

/// What `backend` answers when it is asked to code the array `data`: the bytes, if it
/// gives any.
pub open spec fn tensor_coded_of<B: Backend>(
    backend: &B,
    data: Seq<u8>,
    dt: DataType,
    dims: usize,
    shape: Seq<usize>,
    prec: Tolerance,
) -> Option<Seq<u8>> {
    let d = choose|d: &[u8]| d@ == data;
    let f = choose|f: [u32; 4]| field_is(f, shape, dims);
    match backend.tensor_coded(d, dt, dims, f, prec) {
        Some(v) => Some(v@),
        None => None,
    }
}

/// What `backend` answers when it is asked to decode `data` to an array of `len` bytes:
/// the bytes, if it gives any.
pub open spec fn tensor_decoded_of<B: Backend>(
    backend: &B,
    data: Seq<u8>,
    dt: DataType,
    dims: usize,
    shape: Seq<usize>,
    len: usize,
) -> Option<Seq<u8>> {
    let d = choose|d: &[u8]| d@ == data;
    let f = choose|f: [u32; 4]| field_is(f, shape, dims);
    match backend.tensor_decoded(d, dt, dims, f, len) {
        Some(v) => Some(v@),
        None => None,
    }
}

/// The array of the given shape that `backend` decodes `data` to, if it gives one, and one
/// of as many bytes as the shape takes.
pub open spec fn tensor_array_of<B: Backend>(
    backend: &B,
    data: Seq<u8>,
    dt: DataType,
    dims: usize,
    shape: Seq<usize>,
) -> Option<Seq<u8>> {
    let len = product(shape) * dt.width();
    if len > usize::MAX {
        None
    } else {
        match tensor_decoded_of(backend, data, dt, dims, shape, len as usize) {
            Some(v) => if v.len() == len {
                Some(v)
            } else {
                None
            },
            None => None,
        }
    }
}

/// What is asked of the backend is a matter of the bytes and of the extents alone.
pub proof fn lemma_tensor_asked<B: Backend>(
    backend: &B,
    data: &[u8],
    dt: DataType,
    dims: usize,
    shape: Seq<usize>,
    field: [u32; 4],
    prec: Tolerance,
    len: usize,
)
    requires
        field_is(field, shape, dims),
    ensures
        tensor_coded_of(backend, data@, dt, dims, shape, prec) == match backend.tensor_coded(
            data,
            dt,
            dims,
            field,
            prec,
        ) {
            Some(v) => Some(v@),
            None => None,
        },
        tensor_decoded_of(backend, data@, dt, dims, shape, len) == match backend.tensor_decoded(
            data,
            dt,
            dims,
            field,
            len,
        ) {
            Some(v) => Some(v@),
            None => None,
        },
{
    let d = choose|d: &[u8]| d@ == data@;
    assert(d@ == data@);
    assert(d =~= data);
    let f = choose|f: [u32; 4]| field_is(f, shape, dims);
    assert(field_is(f, shape, dims));
    assert forall|i: int| 0 <= i < 4 implies f@[i] == field@[i] by {
        assert(f@[i] == collapsed(shape, dims as nat, i as nat));
        assert(field@[i] == collapsed(shape, dims as nat, i as nat));
    }
    assert(f =~= field);
}

/// The fixed-accuracy tensor coder for arrays of one element type and shape.
pub struct Zfp<'a> {
    pub dt: DataType,
    pub dim: usize,
    pub shape: &'a [usize],
    pub prec: Tolerance,
}

impl<'a> Zfp<'a> {
    pub fn new(dt: DataType, dim: usize, shape: &'a [usize], prec: Tolerance) -> (z: Self)
        ensures
            z.dt == dt,
            z.dim == dim,
            z.shape@ == shape@,
            z.prec == prec,
    {
        Self { dt, dim, shape, prec }
    }

    /// Whether the coder can be asked at all: the element type is one it takes, and the
    /// shape gives four extents.
    pub open spec fn usable(self) -> bool {
        tensor_usable(self.dt, self.dim, self.shape@)
    }

    /// The bytes that `backend` codes the array `data` to, if it gives any.
    pub open spec fn coded_by<B: Backend>(self, backend: &B, data: Seq<u8>) -> Option<Seq<u8>> {
        tensor_coded_of(backend, data, self.dt, self.dim, self.shape@, self.prec)
    }

    /// The array that `backend` decodes `data` to, if it gives one, and one of as many
    /// bytes as the shape takes.
    pub open spec fn decoded_by<B: Backend>(self, backend: &B, data: Seq<u8>) -> Option<Seq<u8>> {
        tensor_array_of(backend, data, self.dt, self.dim, self.shape@)
    }

    fn takes(dt: DataType) -> (b: bool)
        ensures
            b == codable(dt),
    {
        match dt {
            DataType::Float32 | DataType::Float64 | DataType::Int32 | DataType::Int64 => true,
            _ => false,
        }
    }

    /// Codes the one buffer of `data` into the one buffer of `out`.
    ///
    /// Fails with [`Error::FanOutMismatch`] unless `data` is one buffer, else with
    /// [`Error::InvalidDataType`] for an element type that the coder does not take, else
    /// with [`Error::ShapeMismatch`] for a shape that gives no four extents, and else,
    /// with [`Error::ZPFUnknown`], where the backend gives nothing.
    pub fn encode<B: Backend>(&self, backend: &B, data: &BufferList, out: &mut BufferList) -> (r:
        Result<()>)
        requires
            data.wf(),
            old(out).wf(),
        ensures
            final(out).wf(),
            r is Ok ==> data@.len() == 1 && self.usable() && final(out)@.len() == 1,
            data@.len() != 1 ==> r == Err::<(), Error>(Error::FanOutMismatch),
            data@.len() == 1 && !codable(self.dt) ==> r == Err::<(), Error>(
                Error::InvalidDataType,
            ),
            data@.len() == 1 && codable(self.dt) && !self.usable() ==> r == Err::<(), Error>(
                Error::ShapeMismatch,
            ),
            r is Err && data@.len() == 1 && self.usable() ==> r == Err::<(), Error>(
                Error::ZPFUnknown,
            ),
            data@.len() == 1 && self.usable() ==> (r is Ok <==> self.coded_by(backend, data@[0])
                is Some),
            r is Ok ==> Some(final(out)@[0]) == self.coded_by(backend, data@[0]),
    {
        if data.len() != 1 {
            return Err(Error::FanOutMismatch);
        }
        if !Self::takes(self.dt) {
            return Err(Error::InvalidDataType);
        }
        let field = match collapse_shape(self.shape, self.dim) {
            Some(f) => f,
            None => {
                return Err(Error::ShapeMismatch);
            },
        };
        let input = data.get(0).as_slice();
        proof {
            lemma_tensor_asked(backend, input, self.dt, self.dim, self.shape@, field, self.prec, 0);
        }
        match backend.tensor_encode(input, self.dt, self.dim, field, self.prec) {
            Some(v) => {
                out.reset(1);
                out.put(0, v);
                Ok(())
            },
            None => Err(Error::ZPFUnknown),
        }
    }

    /// Decodes the one buffer of `data` into the one buffer of `out`.
    ///
    /// Fails as [`Zfp::encode`] does, with [`Error::ShapeMismatch`] also where the bytes
    /// of the array cannot be counted, and with [`Error::LengthMismatch`] where the
    /// backend gives another number of bytes than the array takes.
    pub fn decode<B: Backend>(&self, backend: &B, data: &BufferList, out: &mut BufferList) -> (r:
        Result<()>)
        requires
            data.wf(),
            old(out).wf(),
        ensures
            final(out).wf(),
            r is Ok ==> data@.len() == 1 && self.usable() && final(out)@.len() == 1
                && final(out)@[0].len() == product(self.shape@) * self.dt.width(),
            data@.len() != 1 ==> r == Err::<(), Error>(Error::FanOutMismatch),
            data@.len() == 1 && !codable(self.dt) ==> r == Err::<(), Error>(
                Error::InvalidDataType,
            ),
            data@.len() == 1 && codable(self.dt) && (!self.usable() || product(self.shape@)
                * self.dt.width() > usize::MAX) ==> r == Err::<(), Error>(Error::ShapeMismatch),
            data@.len() == 1 && self.usable() ==> (r is Ok <==> self.decoded_by(
                backend,
                data@[0],
            ) is Some),
            r is Ok ==> Some(final(out)@[0]) == self.decoded_by(backend, data@[0]),
    {
        if data.len() != 1 {
            return Err(Error::FanOutMismatch);
        }
        if !Self::takes(self.dt) {
            return Err(Error::InvalidDataType);
        }
        let field = match collapse_shape(self.shape, self.dim) {
            Some(f) => f,
            None => {
                return Err(Error::ShapeMismatch);
            },
        };
        let len = match byte_length(self.shape, self.dt) {
            Some(n) => n,
            None => {
                return Err(Error::ShapeMismatch);
            },
        };
        let input = data.get(0).as_slice();
        proof {
            lemma_tensor_asked(
                backend,
                input,
                self.dt,
                self.dim,
                self.shape@,
                field,
                self.prec,
                len,
            );
        }
        match backend.tensor_decode(input, self.dt, self.dim, field, len) {
            Some(v) => {
                if v.len() != len {
                    return Err(Error::LengthMismatch);
                }
                out.reset(1);
                out.put(0, v);
                Ok(())
            },
            None => Err(Error::ZPFUnknown),
        }
    }
}

} // verus!
