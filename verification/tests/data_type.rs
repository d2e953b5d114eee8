use tsar::backend::Backend;
use tsar::codec::convert::Convert;
use tsar::data_type::DataType;
use tsar::deviation::{Deviation, Tolerance};

struct Floats;

fn double_of(dt: DataType, bits: u64) -> f64 {
    match dt {
        DataType::Float16 => half::f16::from_bits(bits as u16).to_f64(),
        DataType::Bfloat16 => half::bf16::from_bits(bits as u16).to_f64(),
        DataType::Float32 => f32::from_bits(bits as u32) as f64,
        _ => f64::from_bits(bits),
    }
}

impl Backend for Floats {
    fn tensor_coded(
        &self,
        data: &[u8],
        dt: DataType,
        dims: usize,
        field: [u32; 4],
        accuracy: Tolerance,
    ) -> Option<Vec<u8>> {
        self.tensor_encode(data, dt, dims, field, accuracy)
    }

    fn tensor_decoded(
        &self,
        data: &[u8],
        dt: DataType,
        dims: usize,
        field: [u32; 4],
        len: usize,
    ) -> Option<Vec<u8>> {
        self.tensor_decode(data, dt, dims, field, len)
    }

    fn narrowed(&self, mode: Convert, bits: u64) -> u64 {
        self.narrow(mode, bits)
    }

    fn widened(&self, mode: Convert, bits: u64) -> u64 {
        self.widen(mode, bits)
    }

    fn distance(&self, dt: DataType, hi: u64, lo: u64) -> u64 {
        self.difference(dt, hi, lo)
    }

    fn remainder(&self, dt: DataType, a: u64, b: u64) -> u64 {
        self.subtract(dt, a, b)
    }

    fn narrow(&self, mode: Convert, bits: u64) -> u64 {
        match mode {
            Convert::Float32ToBfloat16 => {
                half::bf16::from_f32(f32::from_bits(bits as u32)).to_bits() as u64
            }
            Convert::Float32ToFloat16 => {
                half::f16::from_f32(f32::from_bits(bits as u32)).to_bits() as u64
            }
            Convert::Float64ToBfloat16 => half::bf16::from_f64(f64::from_bits(bits)).to_bits() as u64,
            Convert::Float64ToFloat16 => half::f16::from_f64(f64::from_bits(bits)).to_bits() as u64,
            Convert::Float64ToFloat32 => (f64::from_bits(bits) as f32).to_bits() as u64,
        }
    }

    fn widen(&self, mode: Convert, bits: u64) -> u64 {
        match mode {
            Convert::Float32ToBfloat16 => {
                half::bf16::from_bits(bits as u16).to_f32().to_bits() as u64
            }
            Convert::Float32ToFloat16 => half::f16::from_bits(bits as u16).to_f32().to_bits() as u64,
            Convert::Float64ToBfloat16 => half::bf16::from_bits(bits as u16).to_f64().to_bits(),
            Convert::Float64ToFloat16 => half::f16::from_bits(bits as u16).to_f64().to_bits(),
            Convert::Float64ToFloat32 => (f32::from_bits(bits as u32) as f64).to_bits(),
        }
    }

    fn difference(&self, dt: DataType, hi: u64, lo: u64) -> u64 {
        (double_of(dt, hi) - double_of(dt, lo)).to_bits()
    }

    fn subtract(&self, dt: DataType, a: u64, b: u64) -> u64 {
        match dt {
            DataType::Bfloat16 => {
                (half::bf16::from_bits(a as u16) - half::bf16::from_bits(b as u16)).to_bits() as u64
            }
            DataType::Float16 => {
                (half::f16::from_bits(a as u16) - half::f16::from_bits(b as u16)).to_bits() as u64
            }
            DataType::Float32 => {
                (f32::from_bits(a as u32) - f32::from_bits(b as u32)).to_bits() as u64
            }
            _ => (f64::from_bits(a) - f64::from_bits(b)).to_bits(),
        }
    }

    fn tensor_encode(
        &self,
        _data: &[u8],
        _dt: DataType,
        _dims: usize,
        _field: [u32; 4],
        _accuracy: Tolerance,
    ) -> Option<Vec<u8>> {
        None
    }

    fn tensor_decode(
        &self,
        _data: &[u8],
        _dt: DataType,
        _dims: usize,
        _field: [u32; 4],
        _len: usize,
    ) -> Option<Vec<u8>> {
        None
    }
}

fn number(d: Option<Deviation>) -> Option<f64> {
    d.map(|d| f64::from_bits(d.bits()))
}

#[test]
fn data_type_byte_diff() {
    let src = vec![0x00, 0x01, 0x02, 0x03, 0x04, 0x05, 0x06, 0x07, 0x08, 0x09];
    let targ = vec![0x00, 0x01, 0x02, 0x03, 0x04, 0x05, 0x06, 0x07, 0x08, 0x09];
    assert_eq!(number(DataType::Byte.max_difference(&Floats, &src, &targ)), Some(0.0));
    let targ = vec![0x00, 0x01, 0x02, 0x03, 0x04, 0x05, 0x06, 0x07, 0x08];
    assert_eq!(number(DataType::Byte.max_difference(&Floats, &src, &targ)), None);
    let targ = vec![0x00, 0x01, 0x02, 0x00, 0x04, 0x05, 0x06, 0x07, 0x08, 0x00];
    assert_eq!(number(DataType::Byte.max_difference(&Floats, &src, &targ)), Some(4.0));
}

#[test]
fn data_type_f32_diff() {
    let write = |f: &[f32]| {
        let mut buf = vec![];
        for &f in f {
            buf.extend_from_slice(&f.to_le_bytes());
        }
        buf
    };
    let src = write(&[0.0, 1.0, 2.0, -3.0, 4.0, 5.0, 6.0]);
    let targ = write(&[0.0, 1.0, 2.0, -3.0, 4.0, 5.0, 6.0]);
    assert_eq!(number(DataType::Float32.max_difference(&Floats, &src, &targ)), Some(0.0));
    let targ = write(&[0.0, 1.0, 2.0, -3.0, 4.0, 5.0]);
    assert_eq!(number(DataType::Float32.max_difference(&Floats, &src, &targ)), None);
    let targ = write(&[0.0, 1.0, 2.0, -2.0, 4.0, 5.0, 3.0]);
    assert_eq!(number(DataType::Float32.max_difference(&Floats, &src, &targ)), Some(3.0));
}

#[test]
fn data_type_f64_diff() {
    let write = |f: &[f64]| {
        let mut buf = vec![];
        for &f in f {
            buf.extend_from_slice(&f.to_le_bytes());
        }
        buf
    };
    let src = write(&[1.0, 2.0, -3.0, 4.0, 5.0, 6.0]);
    let targ = write(&[1.0, 2.0, -3.0, 4.0, 5.0, 6.0]);
    assert_eq!(number(DataType::Float64.max_difference(&Floats, &src, &targ)), Some(0.0));
    let targ = write(&[1.0, 2.0, -3.0, 4.0, 5.0]);
    assert_eq!(number(DataType::Float64.max_difference(&Floats, &src, &targ)), None);
    let targ = write(&[1.0, 2.0, -1.0, 4.0, 5.0, 3.0]);
    assert_eq!(number(DataType::Float64.max_difference(&Floats, &src, &targ)), Some(3.0));
}

#[test]
fn data_type_i64_diff() {
    let write = |f: &[i64]| {
        let mut buf = vec![];
        for &f in f {
            buf.extend_from_slice(&f.to_le_bytes());
        }
        buf
    };
    let src = write(&[1, 2, 3, 4, 5, 6]);
    let targ = write(&[1, 2, 3, 4, 5, 6]);
    assert_eq!(number(DataType::Int64.max_difference(&Floats, &src, &targ)), Some(0.0));
    let targ = write(&[1, 2, 3, 4, 5]);
    assert_eq!(number(DataType::Int64.max_difference(&Floats, &src, &targ)), None);
    let targ = write(&[1, 2, 1, 4, 5, 3]);
    assert_eq!(number(DataType::Int64.max_difference(&Floats, &src, &targ)), Some(3.0));
}

#[test]
fn data_type_u64_diff() {
    let write = |f: &[u64]| {
        let mut buf = vec![];
        for &f in f {
            buf.extend_from_slice(&f.to_le_bytes());
        }
        buf
    };
    let src = write(&[1, 2, 3, 4, 5, 6]);
    let targ = write(&[1, 2, 3, 4, 5, 6]);
    assert_eq!(number(DataType::Uint64.max_difference(&Floats, &src, &targ)), Some(0.0));
    let targ = write(&[1, 2, 3, 4, 5]);
    assert_eq!(number(DataType::Uint64.max_difference(&Floats, &src, &targ)), None);
    let targ = write(&[1, 2, 1, 4, 5, 3]);
    assert_eq!(number(DataType::Uint64.max_difference(&Floats, &src, &targ)), Some(3.0));
}

#[test]
fn byte_len_of_every_type() {
    let widths = [
        (DataType::Byte, 1),
        (DataType::Float32, 4),
        (DataType::Float64, 8),
        (DataType::Float16, 2),
        (DataType::Bfloat16, 2),
        (DataType::Int8, 1),
        (DataType::Uint8, 1),
        (DataType::Int16, 2),
        (DataType::Uint16, 2),
        (DataType::Int32, 4),
        (DataType::Uint32, 4),
        (DataType::Int64, 8),
        (DataType::Uint64, 8),
    ];
    for (dt, w) in widths {
        assert_eq!(dt.byte_len(), w);
        assert_eq!(DataType::from_tag(dt.tag()), Ok(dt));
    }
    assert_eq!(DataType::from_tag(0), Err(0));
    assert_eq!(DataType::from_tag(14), Err(14));
}

#[test]
fn counts_become_the_nearest_doubles() {
    for n in [
        0u64,
        1,
        2,
        3,
        255,
        1 << 52,
        (1 << 53) - 1,
        1 << 53,
        (1 << 53) + 1,
        (1 << 53) + 2,
        (1 << 53) + 3,
        (1 << 54) + 2,
        (1 << 54) + 6,
        u64::MAX - 1024,
        u64::MAX - 1023,
        u64::MAX,
    ] {
        assert_eq!(Deviation::from_count(n).bits(), (n as f64).to_bits(), "{n}");
    }
    assert_eq!(Deviation::from_count(3).bits(), 0x4008_0000_0000_0000);
}

#[test]
fn signed_integers_differ_across_zero() {
    let src = (-100i8).to_le_bytes().to_vec();
    let targ = 100i8.to_le_bytes().to_vec();
    assert_eq!(number(DataType::Int8.max_difference(&Floats, &src, &targ)), Some(200.0));
    let src = i64::MIN.to_le_bytes().to_vec();
    let targ = i64::MAX.to_le_bytes().to_vec();
    assert_eq!(
        number(DataType::Int64.max_difference(&Floats, &src, &targ)),
        Some(18446744073709551615.0)
    );
    let src = 7u16.to_le_bytes().to_vec();
    let targ = 65535u16.to_le_bytes().to_vec();
    assert_eq!(number(DataType::Uint16.max_difference(&Floats, &src, &targ)), Some(65528.0));
}

#[test]
fn a_nan_has_no_distance() {
    let src = f32::NAN.to_le_bytes().to_vec();
    assert_eq!(number(DataType::Float32.max_difference(&Floats, &src, &src)), None);
    let zero = 0.0f32.to_le_bytes().to_vec();
    let minus_zero = (-0.0f32).to_le_bytes().to_vec();
    assert_eq!(number(DataType::Float32.max_difference(&Floats, &zero, &minus_zero)), Some(0.0));
    let a = f32::INFINITY.to_le_bytes().to_vec();
    let b = f32::NEG_INFINITY.to_le_bytes().to_vec();
    assert_eq!(
        number(DataType::Float32.max_difference(&Floats, &a, &b)),
        Some(f64::INFINITY)
    );
    assert_eq!(number(DataType::Float32.max_difference(&Floats, &a, &a)), Some(0.0));
}

#[test]
fn misaligned_buffers_have_no_distance() {
    assert_eq!(number(DataType::Float32.max_difference(&Floats, &[0; 6], &[0; 6])), None);
    assert_eq!(number(DataType::Int16.max_difference(&Floats, &[0; 3], &[0; 3])), None);
    assert_eq!(number(DataType::Int16.max_difference(&Floats, &[], &[])), Some(0.0));
}

#[test]
fn a_bound_accepts_what_lies_under_it() {
    let d = |x: f64| Deviation::from_bits(x.to_bits()).unwrap();
    let t = |x: f64| Tolerance::from_bits(x.to_bits());
    assert!(t(0.0).accepts(d(0.0)));
    assert!(!t(0.0).accepts(d(1e-300)));
    assert!(t(1e-2).accepts(d(1e-2)));
    assert!(t(1e-2).accepts(d(0.0)));
    assert!(!t(1e-2).accepts(d(0.011)));
    assert!(t(-0.0).accepts(d(0.0)));
    assert!(!t(-1.0).accepts(d(0.0)));
    assert!(!t(f64::NAN).accepts(d(0.0)));
    assert!(t(f64::INFINITY).accepts(d(f64::INFINITY)));
    assert!(Deviation::from_bits((-1.0f64).to_bits()).is_none());
    assert!(Deviation::from_bits(f64::NAN.to_bits()).is_none());
    assert_eq!(Tolerance::default(), t(0.0));
}
