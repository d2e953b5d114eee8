use tsar::backend::Backend;
use tsar::codec::convert::Convert;
use tsar::codec::split::Split;
use tsar::data_type::DataType;
use tsar::deviation::Tolerance;
use tsar::executor::{execute_discard, execute_reader, Context, Operator};
use tsar::operator::block_align::BlockAlign;
use tsar::operator::byte_count::ByteCount;
use tsar::operator::column_split::{split_blocks, ColumnarSplit, ColumnarSplitMode};
use tsar::operator::compress::{new_compress, new_decompress, CompressMode};
use tsar::operator::data_convert::{
    encode as convert_block, narrow_blocks, DataConvert, DataConvertMode,
};
use tsar::operator::delta_encode::{
    encode as delta_block, predict_blocks, Carry, DeltaEncode, DeltaEncodeMode,
};
use tsar::operator::multi_write::MultiWrite;
use tsar::operator::pipe_reader::PipeReader;
use tsar::operator::coder::Coder;
use tsar::operator::read_block::ReadBlock;
use tsar::result::{Error, Result};

const F32_DATA: [f32; 12] = [
    0.0,
    123.4,
    -123.4,
    1e30,
    1e-30,
    f32::NAN,
    f32::EPSILON,
    std::f32::consts::PI,
    std::f32::consts::LN_2,
    std::f32::consts::E,
    f32::INFINITY,
    f32::NEG_INFINITY,
];

const F64_DATA: [f64; 12] = [
    0.0,
    123.4,
    -123.4,
    1e30,
    1e-30,
    f64::NAN,
    f64::EPSILON,
    std::f64::consts::PI,
    std::f64::consts::LN_2,
    std::f64::consts::E,
    f64::INFINITY,
    f64::NEG_INFINITY,
];

struct Floats;

fn double_of(dt: DataType, bits: u64) -> f64 {
    match dt {
        DataType::Float16 => half::f16::from_bits(bits as u16).to_f64(),
        DataType::Bfloat16 => half::bf16::from_bits(bits as u16).to_f64(),
        DataType::Float32 => f32::from_bits(bits as u32) as f64,
        _ => f64::from_bits(bits),
    }
}

impl Backend for Floats {
    fn tensor_coded(
        &self,
        data: &[u8],
        dt: DataType,
        dims: usize,
        field: [u32; 4],
        accuracy: Tolerance,
    ) -> Option<Vec<u8>> {
        self.tensor_encode(data, dt, dims, field, accuracy)
    }

    fn tensor_decoded(
        &self,
        data: &[u8],
        dt: DataType,
        dims: usize,
        field: [u32; 4],
        len: usize,
    ) -> Option<Vec<u8>> {
        self.tensor_decode(data, dt, dims, field, len)
    }

    fn narrowed(&self, mode: Convert, bits: u64) -> u64 {
        self.narrow(mode, bits)
    }

    fn widened(&self, mode: Convert, bits: u64) -> u64 {
        self.widen(mode, bits)
    }

    fn distance(&self, dt: DataType, hi: u64, lo: u64) -> u64 {
        self.difference(dt, hi, lo)
    }

    fn remainder(&self, dt: DataType, a: u64, b: u64) -> u64 {
        self.subtract(dt, a, b)
    }

    fn narrow(&self, mode: Convert, bits: u64) -> u64 {
        match mode {
            Convert::Float32ToBfloat16 => {
                half::bf16::from_f32(f32::from_bits(bits as u32)).to_bits() as u64
            }
            Convert::Float32ToFloat16 => {
                half::f16::from_f32(f32::from_bits(bits as u32)).to_bits() as u64
            }
            Convert::Float64ToBfloat16 => half::bf16::from_f64(f64::from_bits(bits)).to_bits() as u64,
            Convert::Float64ToFloat16 => half::f16::from_f64(f64::from_bits(bits)).to_bits() as u64,
            Convert::Float64ToFloat32 => (f64::from_bits(bits) as f32).to_bits() as u64,
        }
    }

    fn widen(&self, mode: Convert, bits: u64) -> u64 {
        match mode {
            Convert::Float32ToBfloat16 => {
                half::bf16::from_bits(bits as u16).to_f32().to_bits() as u64
            }
            Convert::Float32ToFloat16 => half::f16::from_bits(bits as u16).to_f32().to_bits() as u64,
            Convert::Float64ToBfloat16 => half::bf16::from_bits(bits as u16).to_f64().to_bits(),
            Convert::Float64ToFloat16 => half::f16::from_bits(bits as u16).to_f64().to_bits(),
            Convert::Float64ToFloat32 => (f32::from_bits(bits as u32) as f64).to_bits(),
        }
    }

    fn difference(&self, dt: DataType, hi: u64, lo: u64) -> u64 {
        (double_of(dt, hi) - double_of(dt, lo)).to_bits()
    }

    fn subtract(&self, dt: DataType, a: u64, b: u64) -> u64 {
        match dt {
            DataType::Bfloat16 => {
                (half::bf16::from_bits(a as u16) - half::bf16::from_bits(b as u16)).to_bits() as u64
            }
            DataType::Float16 => {
                (half::f16::from_bits(a as u16) - half::f16::from_bits(b as u16)).to_bits() as u64
            }
            DataType::Float32 => {
                (f32::from_bits(a as u32) - f32::from_bits(b as u32)).to_bits() as u64
            }
            _ => (f64::from_bits(a) - f64::from_bits(b)).to_bits(),
        }
    }

    fn tensor_encode(
        &self,
        _data: &[u8],
        _dt: DataType,
        _dims: usize,
        _field: [u32; 4],
        _accuracy: Tolerance,
    ) -> Option<Vec<u8>> {
        None
    }

    fn tensor_decode(
        &self,
        _data: &[u8],
        _dt: DataType,
        _dims: usize,
        _field: [u32; 4],
        _len: usize,
    ) -> Option<Vec<u8>> {
        None
    }
}

struct Generator {
    cnt: u8,
}

impl Operator for Generator {
    fn num_outputs(&self) -> usize {
        1
    }

    fn next(&mut self, _ctx: &Context, out: &mut Vec<Vec<u8>>) -> Result<usize> {
        out[0].push(self.cnt);
        self.cnt -= 1;
        if self.cnt == 0 {
            Ok(0)
        } else {
            Ok(1)
        }
    }
}

#[test]
fn execute() {
    let g = Generator { cnt: 64 };
    let mut buf = vec![];
    execute_reader(g).unwrap().read_to_end(&mut buf).unwrap();
    assert_eq!(buf.len(), 63);
    assert_eq!(buf[0], 64);
    assert_eq!(buf[62], 2);
}

#[test]
fn a_run_adds_up_what_the_operator_gives() {
    let mut g = Generator { cnt: 64 };
    assert_eq!(execute_discard(&mut g), Ok(63));
    let data = [7u8; 1000];
    let mut source = ReadBlock::new(&data, 300);
    assert_eq!(execute_discard(&mut *source), Ok(1000));
}

#[test]
fn a_reader_gives_what_it_holds_first() {
    let data: Vec<u8> = (0..10).collect();
    let mut reader = execute_reader(*ReadBlock::new(&data, 4)).unwrap();
    assert_eq!(reader.read(3), Ok(vec![0, 1, 2]));
    assert_eq!(reader.read(3), Ok(vec![3]));
    assert_eq!(reader.read(100), Ok(vec![4, 5, 6, 7]));
    assert_eq!(reader.read(1), Ok(vec![8]));
    assert_eq!(reader.read(1), Ok(vec![9]));
    assert_eq!(reader.read(1), Ok(vec![]));
    let two = ColumnarSplit::new(*ReadBlock::new(&data, 4), ColumnarSplitMode::Bfloat16).unwrap();
    assert!(matches!(execute_reader(*two), Err(Error::FanOutMismatch)));
}

#[test]
fn column_split_split_bf16() {
    for f in [
        half::bf16::from_f32_const(0.0),
        half::bf16::from_f32_const(123.4),
        half::bf16::from_f32_const(-123.4),
        half::bf16::from_f32_const(1e30),
        half::bf16::from_f32_const(1e-30),
        half::bf16::NAN,
        half::bf16::EPSILON,
        half::bf16::from_f32_const(std::f32::consts::PI),
        half::bf16::from_f32_const(std::f32::consts::LN_2),
        half::bf16::from_f32_const(std::f32::consts::E),
        half::bf16::INFINITY,
        half::bf16::NEG_INFINITY,
    ] {
        let (e, m) = Split::Bfloat16.split_bits(f.to_bits() as u64);
        let b = half::bf16::from_bits(Split::Bfloat16.join_bits(e, m) as u16);
        if f.to_bits() == b.to_bits() {
            // ok
        } else if f == f {
            assert_eq!(f, b);
        } else {
            assert_ne!(b, b);
        }
        assert_eq!(f.to_bits(), b.to_bits());
    }
}

#[test]
fn data_convert_f32_to_bf16() {
    let mut wtr = vec![];
    for &f in F32_DATA.iter() {
        wtr.extend_from_slice(&f.to_le_bytes());
    }
    convert_block(&Floats, DataConvertMode::Float32ToBfloat16, &mut wtr).unwrap();
    assert_eq!(wtr.len(), 24);
    for (i, &f) in F32_DATA.iter().enumerate() {
        let bf16 = half::bf16::from_bits(u16::from_le_bytes([wtr[2 * i], wtr[2 * i + 1]]));
        assert_eq!(bf16.to_bits(), half::bf16::from_f32(f).to_bits());
    }
}

#[test]
fn data_convert_f64_to_bf16() {
    let mut wtr = vec![];
    for &f in F64_DATA.iter() {
        wtr.extend_from_slice(&f.to_le_bytes());
    }
    convert_block(&Floats, DataConvertMode::Float64ToBfloat16, &mut wtr).unwrap();
    assert_eq!(wtr.len(), 24);
    for (i, &f) in F64_DATA.iter().enumerate() {
        let bf16 = half::bf16::from_bits(u16::from_le_bytes([wtr[2 * i], wtr[2 * i + 1]]));
        assert_eq!(bf16.to_bits(), half::bf16::from_f64(f).to_bits());
    }
}

#[test]
fn f64_to_f64() {
    let mut wtr = vec![];
    for &f in F64_DATA.iter() {
        wtr.extend_from_slice(&f.to_le_bytes());
    }
    convert_block(&Floats, DataConvertMode::Float64ToFloat32, &mut wtr).unwrap();
    assert_eq!(wtr.len(), 48);
    for (i, &f) in F64_DATA.iter().enumerate() {
        let ff = f32::from_bits(u32::from_le_bytes(wtr[4 * i..4 * i + 4].try_into().unwrap()));
        assert_eq!(ff.to_bits(), (f as f32).to_bits());
    }
}

#[test]
fn data_convert_leaves_misaligned_blocks() {
    let mut wtr = vec![1, 2, 3, 4, 5];
    assert_eq!(
        convert_block(&Floats, DataConvertMode::Float32ToBfloat16, &mut wtr),
        Err(Error::MisalignedInput)
    );
    assert_eq!(wtr, vec![1, 2, 3, 4, 5]);
    assert_eq!(DataConvertMode::Float64ToFloat32.codec(), Convert::Float64ToFloat32);
}

#[test]
fn xor_u8() {
    let mut buf = vec![1, 2, 3, 127];
    delta_block(&Floats, DeltaEncodeMode::XorUint8, &mut buf, &mut Default::default()).unwrap();
    assert_eq!(buf, vec![1, 1 ^ 2, 2 ^ 3, 3 ^ 127]);
}

#[test]
fn xor_carries_the_last_element_on() {
    let mut carry = Carry::default();
    let mut first = vec![0x01, 0x02, 0x03, 0x04];
    delta_block(&Floats, DeltaEncodeMode::XorUint16, &mut first, &mut carry).unwrap();
    assert_eq!(first, vec![0x01, 0x02, 0x02, 0x06]);
    assert_eq!(carry, Carry { diff: 0, last: 0x0403 });
    let mut second = vec![0x03, 0x04, 0xff, 0xff];
    delta_block(&Floats, DeltaEncodeMode::XorUint16, &mut second, &mut carry).unwrap();
    assert_eq!(second, vec![0x00, 0x00, 0xfc, 0xfb]);
    assert_eq!(carry.last, 0xffff);
    let mut odd = vec![1, 2, 3];
    assert_eq!(
        delta_block(&Floats, DeltaEncodeMode::XorUint16, &mut odd, &mut carry),
        Err(Error::MisalignedInput)
    );
    assert_eq!(odd, vec![1, 2, 3]);
    assert_eq!(carry.last, 0xffff);
    let mut wide = 0x0102_0304_0506_0708u64.to_le_bytes().to_vec();
    wide.extend_from_slice(&0x0102_0304_0506_0709u64.to_le_bytes());
    delta_block(&Floats, DeltaEncodeMode::XorUint64, &mut wide, &mut Carry::default()).unwrap();
    assert_eq!(&wide[8..], &1u64.to_le_bytes());
}

#[test]
fn differences_are_the_backend_s() {
    let mut buf = vec![];
    for f in [1.0f32, 3.0, 6.0, 10.0] {
        buf.extend_from_slice(&f.to_le_bytes());
    }
    let mut once = buf.clone();
    delta_block(&Floats, DeltaEncodeMode::DiffFloat32, &mut once, &mut Carry::default()).unwrap();
    let expect: Vec<u8> = [1.0f32, 2.0, 3.0, 4.0].iter().flat_map(|f| f.to_le_bytes()).collect();
    assert_eq!(once, expect);
    let mut carry = Carry::default();
    delta_block(&Floats, DeltaEncodeMode::DiffDiffFloat32, &mut buf, &mut carry).unwrap();
    let expect: Vec<u8> = [1.0f32, 1.0, 1.0, 1.0].iter().flat_map(|f| f.to_le_bytes()).collect();
    assert_eq!(buf, expect);
    assert_eq!(carry, Carry { diff: 4.0f32.to_bits() as u64, last: 10.0f32.to_bits() as u64 });
    assert_eq!(DeltaEncodeMode::DiffDiffBfloat16.element_type(), DataType::Bfloat16);
}

#[test]
fn a_source_cuts_its_stream_into_blocks() {
    let data: Vec<u8> = (0..10).collect();
    let ctx = Context::new();
    let mut source = ReadBlock::new(&data, 4);
    assert_eq!(source.num_outputs(), 1);
    let mut out = ctx.allocate(1);
    assert_eq!(source.next(&ctx, &mut out), Ok(4));
    assert_eq!(out[0], vec![0, 1, 2, 3]);
    assert_eq!(source.next(&ctx, &mut out), Ok(4));
    assert_eq!(out[0], vec![4, 5, 6, 7]);
    assert_eq!(source.next(&ctx, &mut out), Ok(2));
    assert_eq!(out[0], vec![8, 9]);
    assert_eq!(source.next(&ctx, &mut out), Ok(0));
    assert_eq!(out[0], Vec::<u8>::new());
    ctx.release(out);
    assert_eq!(ctx.allocate(3), vec![Vec::<u8>::new(); 3]);
}

#[test]
fn bytes_are_counted_as_they_pass() {
    let data = [1u8; 10];
    let ctx = Context::new();
    let mut counter = ByteCount::new(*ReadBlock::new(&data, 4));
    let mut out = ctx.allocate(1);
    assert_eq!(counter.count(), 0);
    assert_eq!(counter.next(&ctx, &mut out), Ok(4));
    assert_eq!(counter.count(), 4);
    assert_eq!(counter.next(&ctx, &mut out), Ok(4));
    assert_eq!(counter.next(&ctx, &mut out), Ok(2));
    assert_eq!(counter.count(), 10);
    assert_eq!(counter.next(&ctx, &mut out), Ok(0));
    assert_eq!(counter.count(), 10);
}

#[test]
fn blocks_come_in_the_declared_size() {
    let data: Vec<u8> = (0..10).collect();
    let ctx = Context::new();
    assert!(matches!(
        BlockAlign::new(*ReadBlock::new(&data, 3), vec![4, 4]),
        Err(Error::FanOutMismatch)
    ));
    let mut aligned = BlockAlign::new(*ReadBlock::new(&data, 3), vec![4]).unwrap();
    let mut out = ctx.allocate(1);
    assert_eq!(aligned.next(&ctx, &mut out), Ok(4));
    assert_eq!(out[0], vec![0, 1, 2, 3]);
    assert_eq!(aligned.next(&ctx, &mut out), Ok(4));
    assert_eq!(out[0], vec![4, 5, 6, 7]);
    assert_eq!(aligned.next(&ctx, &mut out), Ok(2));
    assert_eq!(out[0], vec![8, 9]);
    assert_eq!(aligned.next(&ctx, &mut out), Ok(0));
    assert_eq!(out[0], Vec::<u8>::new());
}

#[test]
fn a_split_doubles_the_outputs() {
    let mut data = vec![];
    for f in [1.0f32, -2.0, 0.5] {
        data.extend_from_slice(&f.to_le_bytes());
    }
    let ctx = Context::new();
    let mut split = ColumnarSplit::new(*ReadBlock::new(&data, 8), ColumnarSplitMode::Float32)
        .unwrap();
    assert_eq!(split.num_outputs(), 2);
    let mut out = ctx.allocate(2);
    assert_eq!(split.next(&ctx, &mut out), Ok(8));
    assert_eq!(out[0], vec![0x7f, 0x80]);
    assert_eq!(out[1], vec![0, 0, 0, 0, 0, 0x80]);
    assert_eq!(split.next(&ctx, &mut out), Ok(4));
    assert_eq!(out[0], vec![0x7e]);
    assert_eq!(out[1], vec![0, 0, 0]);
    assert_eq!(split.next(&ctx, &mut out), Ok(0));

    let mut two = vec![vec![9], vec![9, 9]];
    assert_eq!(
        split_blocks(ColumnarSplitMode::Float32, &vec![vec![0; 5]], &mut two),
        Err(Error::MisalignedInput)
    );
    let mut odd = ColumnarSplit::new(*ReadBlock::new(&data, 6), ColumnarSplitMode::Float32)
        .unwrap();
    assert_eq!(odd.next(&ctx, &mut out), Err(Error::MisalignedInput));
}

#[test]
fn converting_and_predicting_operators_work_on_each_block() {
    let mut data = vec![];
    for f in [1.0f32, -2.0, 0.5, 3.0] {
        data.extend_from_slice(&f.to_le_bytes());
    }
    let ctx = Context::new();
    let mut narrow =
        DataConvert::new(*ReadBlock::new(&data, 8), DataConvertMode::Float32ToBfloat16, Floats);
    let mut out = ctx.allocate(1);
    assert_eq!(narrow.next(&ctx, &mut out), Ok(8));
    assert_eq!(out[0], vec![0x80, 0x3f, 0x00, 0xc0]);
    assert_eq!(narrow.next(&ctx, &mut out), Ok(8));
    assert_eq!(out[0], vec![0x00, 0x3f, 0x40, 0x40]);

    let bytes = [1u8, 2, 3, 4, 5];
    let mut xor = DeltaEncode::new(*ReadBlock::new(&bytes, 2), DeltaEncodeMode::XorUint8, Floats);
    assert_eq!(xor.next(&ctx, &mut out), Ok(2));
    assert_eq!(out[0], vec![1, 3]);
    assert_eq!(xor.next(&ctx, &mut out), Ok(2));
    assert_eq!(out[0], vec![1, 7]);
    assert_eq!(xor.next(&ctx, &mut out), Ok(1));
    assert_eq!(out[0], vec![1]);
}

#[test]
fn a_sink_gathers_every_output() {
    let mut data = vec![];
    for f in [1.0f32, -2.0, 0.5] {
        data.extend_from_slice(&f.to_le_bytes());
    }
    let split = ColumnarSplit::new(*ReadBlock::new(&data, 4), ColumnarSplitMode::Float32).unwrap();
    assert!(matches!(
        MultiWrite::new(*ReadBlock::new(&data, 4), vec![vec![], vec![]]),
        Err(Error::FanOutMismatch)
    ));
    let mut sink = MultiWrite::new(*split, vec![vec![0xaa], vec![]]).unwrap();
    assert_eq!(sink.num_outputs(), 0);
    assert_eq!(execute_discard(&mut *sink), Ok(12));
    let written = sink.into_written();
    assert_eq!(written[0], vec![0xaa, 0x7f, 0x80, 0x7e]);
    assert_eq!(written[1], vec![0, 0, 0, 0, 0, 0x80, 0, 0, 0]);
}

#[test]
fn streams_go_through_the_entropy_coder_and_back() {
    let mut data = vec![];
    for i in 0..100_000u32 {
        data.extend_from_slice(&(i / 7).to_le_bytes());
    }
    let coded = {
        let packer = new_compress(*ReadBlock::new(&data, 4096), CompressMode::Zstd(9)).unwrap();
        let mut sink = MultiWrite::new(*packer, vec![vec![]]).unwrap();
        let mut total = 0;
        loop {
            let ctx = Context::new();
            match sink.next(&ctx, &mut vec![]).unwrap() {
                0 => break,
                n => total += n,
            }
        }
        let written = sink.into_written();
        assert_eq!(written[0].len(), total);
        written.into_iter().next().unwrap()
    };
    assert!(coded.len() < data.len() / 4);
    assert_eq!(zstd::stream::decode_all(coded.as_slice()).unwrap(), data);

    let unpacker = new_decompress(*ReadBlock::new(&coded, 1000), CompressMode::Zstd(9)).unwrap();
    let mut back = vec![];
    execute_reader(*unpacker).unwrap().read_to_end(&mut back).unwrap();
    assert_eq!(back, data);
}

#[test]
fn a_counter_tallies_what_its_parent_answered() {
    let data = [1u8; 4];
    let mut counter = ByteCount::new(*ReadBlock::new(&data, 4));
    assert_eq!(counter.tally(Ok(3), &vec![vec![0; 2], vec![0; 5]]), Ok(3));
    assert_eq!(counter.count(), 7);
    assert_eq!(counter.tally(Err(Error::Io), &vec![vec![0; 2]]), Err(Error::Io));
    assert_eq!(counter.count(), 7);
    assert_eq!(counter.tally(Ok(0), &vec![vec![]]), Ok(0));
    assert_eq!(counter.count(), 7);
}

#[test]
fn a_counted_source_runs_to_its_end() {
    let data = [3u8; 1000];
    let mut counter = ByteCount::new(*ReadBlock::new(&data, 64));
    assert_eq!(execute_discard(&mut *counter), Ok(1000));
    assert_eq!(counter.count(), 1000);
    let none: [u8; 0] = [];
    let mut empty = ByteCount::new(*ReadBlock::new(&none, 64));
    assert_eq!(execute_discard(&mut *empty), Ok(0));
    let mut reader = execute_reader(*ReadBlock::new(&data, 64)).unwrap();
    let mut back = vec![9];
    assert_eq!(reader.read_to_end(&mut back), Ok(1000));
    assert_eq!(back.len(), 1001);
    assert_eq!(back[0], 9);
    assert_eq!(reader.read(5), Ok(vec![]));
}

#[test]
fn a_sink_appends_blocks_to_its_writers() {
    let data = [1u8; 4];
    let mut sink = MultiWrite::new(*ReadBlock::new(&data, 3), vec![vec![9]]).unwrap();
    let mut blocks = vec![vec![1, 2, 3]];
    assert_eq!(sink.write_blocks(&mut blocks), 3);
    assert_eq!(blocks, vec![Vec::<u8>::new()]);
    let ctx = Context::new();
    assert_eq!(sink.drain(&ctx), Ok(3));
    assert_eq!(sink.drain(&ctx), Ok(1));
    assert_eq!(sink.drain(&ctx), Ok(0));
    assert_eq!(sink.into_written(), vec![vec![9, 1, 2, 3, 1, 1, 1, 1]]);
}

#[test]
fn blocks_are_narrowed_and_predicted_one_after_the_other() {
    let mut blocks = vec![1.0f32.to_le_bytes().to_vec(), vec![0; 8]];
    assert_eq!(
        narrow_blocks(&Floats, DataConvertMode::Float32ToBfloat16, &mut blocks),
        Ok(())
    );
    assert_eq!(blocks, vec![vec![0x80, 0x3f], vec![0; 4]]);
    let mut odd = vec![vec![0; 4], vec![0; 5]];
    assert_eq!(
        narrow_blocks(&Floats, DataConvertMode::Float32ToBfloat16, &mut odd),
        Err(Error::MisalignedInput)
    );

    let mut carry = Carry { diff: 0, last: 0 };
    let mut bytes = vec![vec![1u8, 2, 3]];
    assert_eq!(
        predict_blocks(&Floats, DeltaEncodeMode::XorUint8, &mut bytes, &mut carry),
        Ok(())
    );
    assert_eq!(bytes, vec![vec![1, 3, 1]]);
    assert_eq!(carry.last, 3);
    let mut two = vec![vec![4u8], vec![5u8]];
    assert_eq!(
        predict_blocks(&Floats, DeltaEncodeMode::XorUint8, &mut two, &mut carry),
        Ok(())
    );
    assert_eq!(two, vec![vec![7], vec![1]]);
    assert_eq!(carry.last, 5);
    let mut words = vec![vec![0u8; 3]];
    assert_eq!(
        predict_blocks(&Floats, DeltaEncodeMode::XorUint16, &mut words, &mut carry),
        Err(Error::MisalignedInput)
    );
    assert_eq!(words, vec![vec![0u8; 3]]);
    assert_eq!(carry.last, 5);
}

#[test]
fn aligned_blocks_are_cut_from_what_is_pending() {
    let data: Vec<u8> = (0..10).collect();
    let ctx = Context::new();
    let mut aligned = BlockAlign::new(*ReadBlock::new(&data, 10), vec![4]).unwrap();
    let mut out = ctx.allocate(1);
    assert_eq!(aligned.align(&ctx, &mut out), Ok(4));
    assert_eq!(out[0], vec![0, 1, 2, 3]);
    assert_eq!(aligned.align(&ctx, &mut out), Ok(4));
    assert_eq!(out[0], vec![4, 5, 6, 7]);
    assert_eq!(aligned.align(&ctx, &mut out), Ok(2));
    assert_eq!(out[0], vec![8, 9]);
    assert_eq!(aligned.align(&ctx, &mut out), Ok(0));
    assert_eq!(aligned.align(&ctx, &mut out), Ok(0));
    assert_eq!(out[0], Vec::<u8>::new());
}

#[test]
fn a_coder_gives_nothing_after_the_end() {
    let data = [5u8; 1000];
    let mut packer = new_compress(*ReadBlock::new(&data, 64), CompressMode::Zstd(3)).unwrap();
    let ctx = Context::new();
    let mut out = ctx.allocate(1);
    let mut coded = vec![];
    loop {
        let n = packer.pump(&ctx, &mut out).unwrap();
        assert_eq!(n, out[0].len());
        if n == 0 {
            break;
        }
        coded.extend_from_slice(&out[0]);
    }
    assert_eq!(packer.pump(&ctx, &mut out), Ok(0));
    assert_eq!(out[0], Vec::<u8>::new());
    assert_eq!(packer.next(&ctx, &mut out), Ok(0));
    assert_eq!(zstd::stream::decode_all(coded.as_slice()).unwrap(), data.to_vec());

    let mut unpacker = new_decompress(*ReadBlock::new(&coded, 7), CompressMode::Zstd(3)).unwrap();
    let mut back = vec![];
    loop {
        let n = unpacker.pump(&ctx, &mut out).unwrap();
        assert_eq!(n, out[0].len());
        back.extend_from_slice(&out[0]);
        if n == 0 {
            break;
        }
    }
    assert_eq!(back, data.to_vec());
    assert_eq!(unpacker.pump(&ctx, &mut out), Ok(0));
    assert_eq!(unpacker.next(&ctx, &mut out), Ok(0));
}

#[test]
fn a_coder_takes_no_data_as_it_is() {
    let mut coder = Coder::encoder(3).unwrap();
    assert_eq!(coder.write_all(&[]), Ok(()));
    assert_eq!(coder.len(), 0);
    assert_eq!(coder.write_all(&[1, 2, 3]), Ok(()));
    assert_eq!(coder.finish(), Ok(()));
    let mut frame = vec![];
    coder.give(&mut frame);
    assert_eq!(coder.len(), 0);
    assert_eq!(zstd::stream::decode_all(frame.as_slice()).unwrap(), vec![1, 2, 3]);
    let mut decoder = Coder::decoder().unwrap();
    assert_eq!(decoder.write_all(&[]), Ok(()));
    assert_eq!(decoder.write_all(&[1, 2, 3, 4, 5, 6, 7, 8]), Err(Error::Io));
}

#[test]
fn aligned_blocks_are_whole_elements_for_what_follows() {
    let mut data = vec![];
    for i in 0..5u32 {
        data.extend_from_slice(&(i * 0x01010101).to_le_bytes());
    }
    let ctx = Context::new();
    let mut out = ctx.allocate(1);
    let mut ragged =
        DeltaEncode::new(*ReadBlock::new(&data, 7), DeltaEncodeMode::XorUint32, Floats);
    assert_eq!(ragged.next(&ctx, &mut out), Err(Error::MisalignedInput));

    let aligned = BlockAlign::new(*ReadBlock::new(&data, 7), vec![8]).unwrap();
    let mut xor = DeltaEncode::new(*aligned, DeltaEncodeMode::XorUint32, Floats);
    assert_eq!(xor.next(&ctx, &mut out), Ok(8));
    assert_eq!(out[0], vec![0, 0, 0, 0, 1, 1, 1, 1]);
    assert_eq!(xor.next(&ctx, &mut out), Ok(8));
    assert_eq!(out[0], vec![3, 3, 3, 3, 1, 1, 1, 1]);
    assert_eq!(xor.next(&ctx, &mut out), Ok(4));
    assert_eq!(out[0], vec![7, 7, 7, 7]);
    assert_eq!(xor.next(&ctx, &mut out), Ok(0));
    assert_eq!(out[0], Vec::<u8>::new());
}

#[test]
fn a_run_into_a_sink_gives_the_bytes_written() {
    let mut data = vec![];
    for i in 0..5u32 {
        data.extend_from_slice(&(i * 0x01010101).to_le_bytes());
    }
    let aligned = BlockAlign::new(*ReadBlock::new(&data, 7), vec![8]).unwrap();
    let xor = DeltaEncode::new(*aligned, DeltaEncodeMode::XorUint32, Floats);
    let mut sink = MultiWrite::new(*xor, vec![vec![]]).unwrap();
    assert_eq!(execute_discard(&mut *sink), Ok(20));
    assert_eq!(execute_discard(&mut *sink), Ok(0));
    assert_eq!(
        sink.into_written(),
        vec![vec![0, 0, 0, 0, 1, 1, 1, 1, 3, 3, 3, 3, 1, 1, 1, 1, 7, 7, 7, 7]]
    );
}

#[test]
fn decoded_blocks_are_cut_to_size() {
    let data: Vec<u8> = (0..100u8).collect();
    let coded = zstd::stream::encode_all(data.as_slice(), 3).unwrap();
    let ctx = Context::new();
    let mut unpacker =
        PipeReader::new(*ReadBlock::new(&coded, 1000), 30, vec![Coder::decoder().unwrap()])
            .unwrap();
    let mut out = ctx.allocate(1);
    let mut back = vec![];
    let mut sizes = vec![];
    loop {
        let n = unpacker.pump(&ctx, &mut out).unwrap();
        assert_eq!(n, out[0].len());
        if n == 0 {
            break;
        }
        sizes.push(n);
        back.extend_from_slice(&out[0]);
    }
    assert_eq!(sizes, vec![30, 30, 30, 10]);
    assert_eq!(back, data);
    assert_eq!(unpacker.pump(&ctx, &mut out), Ok(0));
    assert!(matches!(
        PipeReader::new(*ReadBlock::new(&coded, 1000), 30, vec![]),
        Err(Error::FanOutMismatch)
    ));
}

#[test]
fn coders_are_made_for_no_output_without_fail() {
    let data = [1u8, 2, 3];
    let sink = MultiWrite::new(*ReadBlock::new(&data, 2), vec![vec![]]).unwrap();
    let packer = new_compress(*sink, CompressMode::Zstd(3)).unwrap();
    assert_eq!(packer.num_outputs(), 0);
    let sink = MultiWrite::new(*ReadBlock::new(&data, 2), vec![vec![]]).unwrap();
    let unpacker = new_decompress(*sink, CompressMode::Zstd(3)).unwrap();
    assert_eq!(unpacker.num_outputs(), 0);
}
