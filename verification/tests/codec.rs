use tsar::backend::Backend;
use tsar::codec::compress::Compress;
use tsar::codec::convert::{single_to_bf16, Convert};
use tsar::codec::split::Split;
use tsar::codec::zfp::{byte_length, collapse_shape, Zfp};
use tsar::codec::BufferList;
use tsar::compress::{compress, decompress, do_decode, do_encode, fan_out, CompressionStage};
use tsar::data_type::DataType;
use tsar::deviation::Tolerance;
use tsar::result::Error;

const F32_DATA: [f32; 12] = [
    0.0,
    123.4,
    -123.4,
    1e30,
    1e-30,
    f32::NAN,
    f32::EPSILON,
    std::f32::consts::PI,
    std::f32::consts::LN_2,
    std::f32::consts::E,
    f32::INFINITY,
    f32::NEG_INFINITY,
];

const F64_DATA: [f64; 12] = [
    0.0,
    123.4,
    -123.4,
    1e30,
    1e-30,
    f64::NAN,
    f64::EPSILON,
    std::f64::consts::PI,
    std::f64::consts::LN_2,
    std::f64::consts::E,
    f64::INFINITY,
    f64::NEG_INFINITY,
];

struct Floats;

fn double_of(dt: DataType, bits: u64) -> f64 {
    match dt {
        DataType::Float16 => half::f16::from_bits(bits as u16).to_f64(),
        DataType::Bfloat16 => half::bf16::from_bits(bits as u16).to_f64(),
        DataType::Float32 => f32::from_bits(bits as u32) as f64,
        _ => f64::from_bits(bits),
    }
}

impl Backend for Floats {
    fn tensor_coded(
        &self,
        data: &[u8],
        dt: DataType,
        dims: usize,
        field: [u32; 4],
        accuracy: Tolerance,
    ) -> Option<Vec<u8>> {
        self.tensor_encode(data, dt, dims, field, accuracy)
    }

    fn tensor_decoded(
        &self,
        data: &[u8],
        dt: DataType,
        dims: usize,
        field: [u32; 4],
        len: usize,
    ) -> Option<Vec<u8>> {
        self.tensor_decode(data, dt, dims, field, len)
    }

    fn narrowed(&self, mode: Convert, bits: u64) -> u64 {
        self.narrow(mode, bits)
    }

    fn widened(&self, mode: Convert, bits: u64) -> u64 {
        self.widen(mode, bits)
    }

    fn distance(&self, dt: DataType, hi: u64, lo: u64) -> u64 {
        self.difference(dt, hi, lo)
    }

    fn remainder(&self, dt: DataType, a: u64, b: u64) -> u64 {
        self.subtract(dt, a, b)
    }

    fn narrow(&self, mode: Convert, bits: u64) -> u64 {
        match mode {
            Convert::Float32ToBfloat16 => {
                half::bf16::from_f32(f32::from_bits(bits as u32)).to_bits() as u64
            }
            Convert::Float32ToFloat16 => {
                half::f16::from_f32(f32::from_bits(bits as u32)).to_bits() as u64
            }
            Convert::Float64ToBfloat16 => half::bf16::from_f64(f64::from_bits(bits)).to_bits() as u64,
            Convert::Float64ToFloat16 => half::f16::from_f64(f64::from_bits(bits)).to_bits() as u64,
            Convert::Float64ToFloat32 => (f64::from_bits(bits) as f32).to_bits() as u64,
        }
    }

    fn widen(&self, mode: Convert, bits: u64) -> u64 {
        match mode {
            Convert::Float32ToBfloat16 => {
                half::bf16::from_bits(bits as u16).to_f32().to_bits() as u64
            }
            Convert::Float32ToFloat16 => half::f16::from_bits(bits as u16).to_f32().to_bits() as u64,
            Convert::Float64ToBfloat16 => half::bf16::from_bits(bits as u16).to_f64().to_bits(),
            Convert::Float64ToFloat16 => half::f16::from_bits(bits as u16).to_f64().to_bits(),
            Convert::Float64ToFloat32 => (f32::from_bits(bits as u32) as f64).to_bits(),
        }
    }

    fn difference(&self, dt: DataType, hi: u64, lo: u64) -> u64 {
        (double_of(dt, hi) - double_of(dt, lo)).to_bits()
    }

    fn subtract(&self, dt: DataType, a: u64, b: u64) -> u64 {
        match dt {
            DataType::Bfloat16 => {
                (half::bf16::from_bits(a as u16) - half::bf16::from_bits(b as u16)).to_bits() as u64
            }
            DataType::Float16 => {
                (half::f16::from_bits(a as u16) - half::f16::from_bits(b as u16)).to_bits() as u64
            }
            DataType::Float32 => {
                (f32::from_bits(a as u32) - f32::from_bits(b as u32)).to_bits() as u64
            }
            _ => (f64::from_bits(a) - f64::from_bits(b)).to_bits(),
        }
    }

    fn tensor_encode(
        &self,
        _data: &[u8],
        _dt: DataType,
        _dims: usize,
        _field: [u32; 4],
        _accuracy: Tolerance,
    ) -> Option<Vec<u8>> {
        None
    }

    fn tensor_decode(
        &self,
        _data: &[u8],
        _dt: DataType,
        _dims: usize,
        _field: [u32; 4],
        _len: usize,
    ) -> Option<Vec<u8>> {
        None
    }
}

fn f32_bytes(values: &[f32]) -> Vec<u8> {
    let mut buf = vec![];
    for f in values {
        buf.extend_from_slice(&f.to_le_bytes());
    }
    buf
}

fn f64_bytes(values: &[f64]) -> Vec<u8> {
    let mut buf = vec![];
    for f in values {
        buf.extend_from_slice(&f.to_le_bytes());
    }
    buf
}

#[test]
fn zstd_compress() {
    let mut out = BufferList::new();
    let mut decomp = BufferList::new();
    Compress::Zstd(9).encode(&BufferList::of("hello world".as_bytes()), &mut out).unwrap();
    Compress::Zstd(9).decode(&out, &mut decomp).unwrap();
    assert_eq!(decomp.get(0).as_slice(), "hello world".as_bytes());
    assert_ne!(out.get(0).as_slice(), "hello world".as_bytes());
    assert_eq!(&out.get(0)[..4], &[0x28, 0xb5, 0x2f, 0xfd]);
}

#[test]
fn zstd_refuses_what_is_no_frame() {
    let mut out = BufferList::new();
    let r = Compress::Zstd(9).decode(&BufferList::of(&[1, 2, 3, 4, 5]), &mut out);
    assert_eq!(r, Err(Error::Io));
}

#[test]
fn convert_f32_to_bf16() {
    let orig = f32_bytes(&F32_DATA);
    let mut out_1 = BufferList::new();
    let mut out_2 = BufferList::new();
    Convert::Float32ToBfloat16.encode(&Floats, &BufferList::of(&orig), &mut out_1).unwrap();
    Convert::Float32ToBfloat16.decode(&Floats, &out_1, &mut out_2).unwrap();
    for (i, &f) in F32_DATA.iter().enumerate() {
        let bf16 = half::bf16::from_bits(u16::from_le_bytes(
            out_1.get(0)[2 * i..2 * i + 2].try_into().unwrap(),
        ));
        let fp32 = f32::from_le_bytes(out_2.get(0)[4 * i..4 * i + 4].try_into().unwrap());
        assert_eq!(bf16.to_le_bytes(), half::bf16::from_f32(f).to_le_bytes());
        assert_eq!(fp32.to_le_bytes(), f32::from(half::bf16::from_f32(f)).to_le_bytes());
    }
}

#[test]
fn convert_f64_to_bf16() {
    let orig = f64_bytes(&F64_DATA);
    let mut out_1 = BufferList::new();
    let mut out_2 = BufferList::new();
    Convert::Float64ToBfloat16.encode(&Floats, &BufferList::of(&orig), &mut out_1).unwrap();
    Convert::Float64ToBfloat16.decode(&Floats, &out_1, &mut out_2).unwrap();
    for (i, &f) in F64_DATA.iter().enumerate() {
        let bf16 = half::bf16::from_bits(u16::from_le_bytes(
            out_1.get(0)[2 * i..2 * i + 2].try_into().unwrap(),
        ));
        let fp64 = f64::from_le_bytes(out_2.get(0)[8 * i..8 * i + 8].try_into().unwrap());
        assert_eq!(bf16.to_le_bytes(), half::bf16::from_f64(f).to_le_bytes());
        assert_eq!(fp64.to_le_bytes(), f64::from(half::bf16::from_f64(f)).to_le_bytes());
    }
}

#[test]
fn f64_to_f32() {
    let orig = f64_bytes(&F64_DATA);
    let mut out_1 = BufferList::new();
    let mut out_2 = BufferList::new();
    Convert::Float64ToFloat32.encode(&Floats, &BufferList::of(&orig), &mut out_1).unwrap();
    Convert::Float64ToFloat32.decode(&Floats, &out_1, &mut out_2).unwrap();
    for (i, &f) in F64_DATA.iter().enumerate() {
        let fp32 = f32::from_le_bytes(out_1.get(0)[4 * i..4 * i + 4].try_into().unwrap());
        let fp64 = f64::from_le_bytes(out_2.get(0)[8 * i..8 * i + 8].try_into().unwrap());
        assert_eq!(fp32.to_le_bytes(), (f as f32).to_le_bytes());
        assert_eq!(fp64.to_le_bytes(), (f as f32 as f64).to_le_bytes());
    }
}

#[test]
fn narrowing_agrees_with_half_on_awkward_patterns() {
    let mut patterns: Vec<u32> = vec![
        0x0000_0000,
        0x8000_0000,
        0x0000_0001,
        0x0000_7fff,
        0x0000_8000,
        0x0000_8001,
        0x0001_8000,
        0x0001_7fff,
        0x3f80_8000,
        0x3f81_8000,
        0x7f7f_ffff,
        0x7f7f_8000,
        0x7f80_0000,
        0xff80_0000,
        0x7f80_0001,
        0x7fc0_0000,
        0xffff_ffff,
        0x7fff_8000,
    ];
    let mut x: u32 = 0x1234_5678;
    for _ in 0..10_000 {
        x = x.wrapping_mul(1_664_525).wrapping_add(1_013_904_223);
        patterns.push(x);
    }
    for p in patterns {
        assert_eq!(
            single_to_bf16(p),
            half::bf16::from_f32(f32::from_bits(p)).to_bits(),
            "{p:#x}"
        );
    }
    assert_eq!(single_to_bf16(0x3f80_8000), 0x3f80);
    assert_eq!(single_to_bf16(0x3f81_8000), 0x3f82);
}

#[test]
fn widening_goes_through_half() {
    let mut out = BufferList::new();
    let narrow: Vec<u8> = vec![0x80, 0x3f, 0x49, 0x40, 0x81, 0x7f];
    Convert::Float32ToBfloat16.decode(&Floats, &BufferList::of(&narrow), &mut out).unwrap();
    assert_eq!(
        out.get(0).as_slice(),
        &[0, 0, 0x80, 0x3f, 0, 0, 0x49, 0x40, 0, 0, 0xc1, 0x7f]
    );
    Convert::Float64ToBfloat16.decode(&Floats, &BufferList::of(&narrow[..2]), &mut out).unwrap();
    assert_eq!(out.get(0).as_slice(), &1.0f64.to_le_bytes());
}

#[test]
fn convert_refuses_misaligned_buffers() {
    let mut out = BufferList::new();
    let r = Convert::Float32ToBfloat16.encode(&Floats, &BufferList::of(&[0; 7]), &mut out);
    assert_eq!(r, Err(Error::MisalignedInput));
    let r = Convert::Float32ToBfloat16.decode(&Floats, &BufferList::of(&[0; 3]), &mut out);
    assert_eq!(r, Err(Error::MisalignedInput));
}

#[test]
fn split_lays_out_the_streams() {
    let mut out = BufferList::new();
    // 1.0 and -2.0 in single precision
    let data = f32_bytes(&[1.0, -2.0]);
    Split::Float32.encode(&BufferList::of(&data), &mut out).unwrap();
    assert_eq!(out.len(), 2);
    assert_eq!(out.get(0).as_slice(), &[0x7f, 0x80]);
    assert_eq!(out.get(1).as_slice(), &[0, 0, 0, 0, 0, 0x80]);

    let data = f64_bytes(&[1.0, -2.0]);
    Split::Float64.encode(&BufferList::of(&data), &mut out).unwrap();
    assert_eq!(out.get(0).as_slice(), &[0xff, 0x03, 0x00, 0x04]);
    assert_eq!(out.get(1).as_slice(), &[0, 0, 0, 0, 0, 0, 0, 0, 0, 0, 0, 0, 0, 0x10]);

    let data: Vec<u8> = vec![0x80, 0x3f, 0x00, 0xc0];
    Split::Bfloat16.encode(&BufferList::of(&data), &mut out).unwrap();
    assert_eq!(out.get(0).as_slice(), &[0x7f, 0x80]);
    assert_eq!(out.get(1).as_slice(), &[0x00, 0x80]);

    // 1.0 and -2.0 in half precision
    let data: Vec<u8> = vec![0x00, 0x3c, 0x00, 0xc0];
    Split::Float16.encode(&BufferList::of(&data), &mut out).unwrap();
    assert_eq!(out.get(0).as_slice(), &[0x0f, 0x10]);
    assert_eq!(out.get(1).as_slice(), &[0x00, 0x00, 0x00, 0x04]);
}

#[test]
fn split_is_undone_for_every_format() {
    let mut x: u64 = 0x9e37_79b9_7f4a_7c15;
    let mut data = vec![];
    for _ in 0..1024 {
        x = x.wrapping_mul(6_364_136_223_846_793_005).wrapping_add(1_442_695_040_888_963_407);
        data.extend_from_slice(&x.to_le_bytes());
    }
    data.extend_from_slice(&f64_bytes(&F64_DATA));
    data.extend_from_slice(&f32_bytes(&F32_DATA));
    for format in [Split::Bfloat16, Split::Float16, Split::Float32, Split::Float64] {
        let mut streams = BufferList::new();
        let mut back = BufferList::new();
        format.encode(&BufferList::of(&data), &mut streams).unwrap();
        assert_eq!(streams.len(), 2);
        format.decode(&streams, &mut back).unwrap();
        assert_eq!(back.len(), 1);
        assert_eq!(back.get(0), &data);
    }
}

#[test]
fn split_refuses_what_does_not_fit() {
    let mut out = BufferList::new();
    assert_eq!(
        Split::Float32.encode(&BufferList::of(&[0; 6]), &mut out),
        Err(Error::MisalignedInput)
    );
    assert_eq!(
        Split::Float32.decode(&BufferList::of(&[0; 4]), &mut out),
        Err(Error::FanOutMismatch)
    );
    let mut pair = BufferList::new();
    pair.reset(2);
    pair.put(0, vec![0x7f, 0x7f]);
    pair.put(1, vec![0, 0, 0]);
    assert_eq!(Split::Float32.decode(&pair, &mut out), Err(Error::MisalignedInput));
}

#[test]
fn buffer_lists_keep_their_buffers() {
    let mut list = BufferList::new();
    assert_eq!(list.len(), 0);
    list.reset(3);
    assert_eq!(list.len(), 3);
    list.slot(1).extend_from_slice(&[1, 2, 3]);
    list.put(2, vec![9]);
    assert_eq!(list.total_len(), 4);
    let copy = list.clone();
    assert_eq!(list.take(1), vec![1, 2, 3]);
    assert_eq!(list.get(1).len(), 0);
    assert_eq!(copy.get(1).as_slice(), &[1, 2, 3]);
    list.reset(1);
    assert_eq!(list.len(), 1);
    assert_eq!(list.get(0).len(), 0);
    list.reset(2);
    assert_eq!(list.get(1).len(), 0);
}

#[test]
fn lossless_chains_give_the_bytes_back() {
    let data = f32_bytes(&F32_DATA);
    let chains: [&[CompressionStage]; 4] = [
        &[],
        &[CompressionStage::Zstd],
        &[CompressionStage::SplitMantissaFloat32, CompressionStage::Zstd],
        &[
            CompressionStage::SplitMantissaFloat32,
            CompressionStage::SplitMantissaBfloat16,
            CompressionStage::Zstd,
        ],
    ];
    for (chain, streams) in chains.iter().zip([1usize, 1, 2, 4]) {
        let (outputs, _) =
            compress(&Floats, &data, DataType::Byte, &[48], chain, Tolerance::from_bits(0))
                .unwrap();
        assert_eq!(outputs.len(), streams);
        assert_eq!(fan_out(chain), Some(streams));
        let back = decompress(&Floats, outputs, DataType::Byte, &[48], chain).unwrap();
        assert_eq!(back, data);
    }
}

#[test]
fn a_lossless_round_trip_has_no_error() {
    let data = f32_bytes(&[0.0, 1.0, 2.0, 3.0, 4.0, 5.0, 6.0, 7.0]);
    let chain = [CompressionStage::SplitMantissaFloat32, CompressionStage::Zstd];
    let (_, error) =
        compress(&Floats, &data, DataType::Float32, &[8], &chain, Tolerance::from_bits(0))
            .unwrap();
    assert_eq!(error.map(|e| e.bits()), Some(0));
    let with_nan = f32_bytes(&F32_DATA);
    let (_, error) =
        compress(&Floats, &with_nan, DataType::Float32, &[12], &chain, Tolerance::from_bits(0))
            .unwrap();
    assert_eq!(error, None);
}

#[test]
fn a_narrowing_chain_reports_what_it_loses() {
    let data = f32_bytes(&[0.0, 1.0, std::f32::consts::PI]);
    let chain = [
        CompressionStage::ConvertFloat32ToBfloat16,
        CompressionStage::SplitMantissaBfloat16,
        CompressionStage::Zstd,
    ];
    let (outputs, error) =
        compress(&Floats, &data, DataType::Float32, &[3], &chain, Tolerance::from_bits(0))
            .unwrap();
    assert_eq!(outputs.len(), 2);
    let narrowed = f32::from(half::bf16::from_f32(std::f32::consts::PI));
    let lost = (std::f32::consts::PI as f64 - narrowed as f64).abs();
    assert_eq!(error.map(|e| f64::from_bits(e.bits())), Some(lost));
    let back = decompress(&Floats, outputs, DataType::Float32, &[3], &chain).unwrap();
    assert_eq!(back, f32_bytes(&[0.0, 1.0, narrowed]));
}

#[test]
fn stages_fail_as_they_say() {
    let mut out = BufferList::new();
    let data = BufferList::of(&[0; 8]);
    let zero = Tolerance::from_bits(0);
    assert_eq!(
        do_encode(&Floats, CompressionStage::InvalidStage, &data, &[2], zero, &mut out),
        Err(Error::InvalidStage)
    );
    assert_eq!(
        do_decode(&Floats, CompressionStage::InvalidStage, &data, &[2], &mut out),
        Err(Error::InvalidStage)
    );
    assert_eq!(
        do_encode(&Floats, CompressionStage::ZfpFloat32OneD, &data, &[2], zero, &mut out),
        Err(Error::ZPFUnknown)
    );
    assert_eq!(
        do_encode(&Floats, CompressionStage::ZfpFloat32OneD, &data, &[0], zero, &mut out),
        Err(Error::ShapeMismatch)
    );
    let two = {
        let mut l = BufferList::new();
        l.reset(2);
        l
    };
    assert_eq!(
        do_encode(&Floats, CompressionStage::ZfpFloat32OneD, &two, &[2], zero, &mut out),
        Err(Error::FanOutMismatch)
    );
    assert_eq!(
        Zfp::new(DataType::Float16, 1, &[2], zero).encode(&Floats, &data, &mut out),
        Err(Error::InvalidDataType)
    );
    let three = {
        let mut l = BufferList::new();
        l.reset(3);
        l
    };
    assert_eq!(
        decompress(
            &Floats,
            three,
            DataType::Float32,
            &[2],
            &[CompressionStage::SplitMantissaFloat32]
        ),
        Err(Error::FanOutMismatch)
    );
}

#[test]
fn stage_tags_are_those_of_the_archive() {
    let stages = [
        CompressionStage::InvalidStage,
        CompressionStage::Zstd,
        CompressionStage::ConvertFloat32ToBfloat16,
        CompressionStage::ConvertFloat64ToBfloat16,
        CompressionStage::ConvertFloat64ToFloat32,
        CompressionStage::SplitMantissaBfloat16,
        CompressionStage::SplitMantissaFloat32,
        CompressionStage::SplitMantissaFloat64,
        CompressionStage::ZfpFloat32OneD,
        CompressionStage::ZfpFloat64OneD,
    ];
    for (i, s) in stages.iter().enumerate() {
        assert_eq!(s.tag(), i as i32);
        assert_eq!(CompressionStage::from_tag(i as i32), Ok(*s));
    }
    assert_eq!(CompressionStage::from_tag(10), Err(Error::InvalidStage));
    assert_eq!(CompressionStage::from_tag(-1), Err(Error::InvalidStage));
}

#[test]
fn shapes_collapse_into_the_last_extent() {
    assert_eq!(collapse_shape(&[2, 3, 4], 1), Some([24, 1, 1, 1]));
    assert_eq!(collapse_shape(&[2, 3, 4], 2), Some([2, 12, 1, 1]));
    assert_eq!(collapse_shape(&[2, 3, 4], 3), Some([2, 3, 4, 1]));
    assert_eq!(collapse_shape(&[2, 3, 4], 4), Some([2, 3, 4, 1]));
    assert_eq!(collapse_shape(&[2, 3, 4, 5, 6], 4), Some([2, 3, 4, 30]));
    assert_eq!(collapse_shape(&[], 2), Some([1, 1, 1, 1]));
    assert_eq!(collapse_shape(&[2, 3], 0), None);
    assert_eq!(collapse_shape(&[2, 3], 5), None);
    assert_eq!(collapse_shape(&[2, 0], 1), None);
    assert_eq!(collapse_shape(&[65536, 65536], 1), None);
    assert_eq!(collapse_shape(&[65536, 65535], 1), Some([4294901760, 1, 1, 1]));
    assert_eq!(byte_length(&[2, 3, 4], DataType::Float32), Some(96));
    assert_eq!(byte_length(&[], DataType::Float64), Some(8));
    assert_eq!(byte_length(&[usize::MAX, 2], DataType::Byte), None);
    assert_eq!(byte_length(&[usize::MAX, 2, 0], DataType::Byte), Some(0));
}

#[test]
fn a_chain_with_the_invalid_stage_fails() {
    let data = [1u8, 2, 3, 4];
    let none = Tolerance::from_bits(0);
    assert!(matches!(
        compress(&Floats, &data, DataType::Byte, &[4], &[CompressionStage::InvalidStage], none),
        Err(Error::InvalidStage)
    ));
    assert!(compress(
        &Floats,
        &data,
        DataType::Byte,
        &[4],
        &[CompressionStage::SplitMantissaFloat32, CompressionStage::InvalidStage],
        none
    )
    .is_err());
    assert_eq!(
        decompress(
            &Floats,
            BufferList::of(&data),
            DataType::Byte,
            &[4],
            &[CompressionStage::InvalidStage]
        ),
        Err(Error::InvalidStage)
    );
}

#[test]
fn the_coder_takes_no_buffers_without_fail() {
    let none = BufferList::new();
    let mut out = BufferList::of(&[1, 2, 3]);
    assert_eq!(Compress::Zstd(9).encode(&none, &mut out), Ok(()));
    assert_eq!(out.len(), 0);
    let mut back = BufferList::of(&[1, 2, 3]);
    assert_eq!(Compress::Zstd(9).decode(&none, &mut back), Ok(()));
    assert_eq!(back.len(), 0);
}

#[test]
fn a_round_trip_over_a_nan_has_no_distance() {
    let data = f32_bytes(&[1.0, f32::NAN, 2.0]);
    for chain in [
        &[CompressionStage::Zstd][..],
        &[CompressionStage::ConvertFloat32ToBfloat16][..],
        &[][..],
    ] {
        let (_, error) =
            compress(&Floats, &data, DataType::Float32, &[3], chain, Tolerance::from_bits(0))
                .unwrap();
        assert_eq!(error, None);
    }
}

#[test]
fn a_buffer_list_shows_its_buffers_as_slices() {
    let mut list = BufferList::new();
    assert_eq!(list.iter_slice().len(), 0);
    list.reset(3);
    list.put(0, vec![1, 2]);
    list.put(2, vec![3]);
    let slices = list.iter_slice();
    assert_eq!(slices, vec![&[1u8, 2][..], &[][..], &[3][..]]);
    list.reset(1);
    assert_eq!(list.iter_slice(), vec![&[][..]]);
}

#[test]
fn numbers_that_the_narrow_type_holds_come_back() {
    let data = f32_bytes(&[0.0, 1.0, 2.0, 3.0, 4.0, 5.0, 6.0, 7.0]);
    let chain = [
        CompressionStage::ConvertFloat32ToBfloat16,
        CompressionStage::SplitMantissaBfloat16,
        CompressionStage::Zstd,
    ];
    let within = Tolerance::from_bits(1e-2f64.to_bits());
    let (outputs, error) =
        compress(&Floats, &data, DataType::Float32, &[8], &chain, within).unwrap();
    assert_eq!(error.map(|e| e.bits()), Some(0));
    let back = decompress(&Floats, outputs, DataType::Float32, &[8], &chain).unwrap();
    assert_eq!(back.len(), 32);
    assert_eq!(back, data);
}
