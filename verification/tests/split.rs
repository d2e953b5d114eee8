use tsar::codec::split::Split;
use tsar::transform::{Bfloat16, Binary32, Binary64, SplitFloat};

const F32_DATA: [f32; 12] = [
    0.0,
    123.4,
    -123.4,
    1e30,
    1e-30,
    f32::NAN,
    f32::EPSILON,
    std::f32::consts::PI,
    std::f32::consts::LN_2,
    std::f32::consts::E,
    f32::INFINITY,
    f32::NEG_INFINITY,
];

const F64_DATA: [f64; 12] = [
    0.0,
    123.4,
    -123.4,
    1e30,
    1e-30,
    f64::NAN,
    f64::EPSILON,
    std::f64::consts::PI,
    std::f64::consts::LN_2,
    std::f64::consts::E,
    f64::INFINITY,
    f64::NEG_INFINITY,
];

#[test]
fn transform_split_f32() {
    for f in [
        0.0,
        123.4,
        -123.4,
        1e30,
        1e-30,
        f32::NAN,
        f32::EPSILON,
        std::f32::consts::PI,
        f32::INFINITY,
        f32::NEG_INFINITY,
    ] {
        let (e, m) = Binary32(f.to_bits()).to_split_bits();
        let b = f32::from_bits(Binary32::from_split_bits(e, m).0);
        if f == f {
            assert_eq!(f, b);
        }
        assert_eq!(f.to_bits(), b.to_bits());
    }
}

#[test]
fn transform_split_f64() {
    for f in [
        0.0,
        123.4,
        -123.4,
        1e30,
        1e-30,
        f64::NAN,
        f64::EPSILON,
        std::f64::consts::PI,
        f64::INFINITY,
        f64::NEG_INFINITY,
    ] {
        let (e, m) = Binary64(f.to_bits()).to_split_bits();
        let b = f64::from_bits(Binary64::from_split_bits(e, m).0);
        if f == f {
            assert_eq!(f, b);
        }
        assert_eq!(f.to_bits(), b.to_bits());
    }
}

#[test]
fn transform_split_bf16() {
    for f in [
        half::bf16::from_f32(0.0),
        half::bf16::from_f32(123.4),
        half::bf16::from_f32(-123.4),
        half::bf16::from_f32(1e30),
        half::bf16::from_f32(1e-30),
        half::bf16::NAN,
        half::bf16::EPSILON,
        half::bf16::from_f32(std::f32::consts::PI),
        half::bf16::INFINITY,
        half::bf16::NEG_INFINITY,
    ] {
        let (e, m) = Bfloat16(f.to_bits()).to_split_bits();
        let b = half::bf16::from_bits(Bfloat16::from_split_bits(e, m).0);
        if f == f {
            assert_eq!(f, b);
        }
        assert_eq!(f.to_bits(), b.to_bits());
    }
}

#[test]
fn column_split_split_f32() {
    for f in F32_DATA {
        let (e, m) = Split::Float32.split_bits(f.to_bits() as u64);
        let b = f32::from_bits(Split::Float32.join_bits(e, m) as u32);
        if f.to_bits() == b.to_bits() {
            // ok
        } else if f == f {
            assert_eq!(f, b);
        } else {
            assert_ne!(b, b);
        }
        assert_eq!(f.to_bits(), b.to_bits());
    }
}

#[test]
fn column_split_split_f64() {
    for f in F64_DATA {
        let (e, m) = Split::Float64.split_bits(f.to_bits());
        let b = f64::from_bits(Split::Float64.join_bits(e, m));
        if f.to_bits() == b.to_bits() {
            // ok
        } else if f == f {
            assert_eq!(f, b);
        } else {
            assert_ne!(b, b);
        }
        assert_eq!(f.to_bits(), b.to_bits());
    }
}

#[test]
fn every_kind_of_number_comes_back_bit_for_bit() {
    let singles = [
        0.0f32,
        -0.0,
        1.0,
        -1.0,
        f32::INFINITY,
        f32::NEG_INFINITY,
        f32::NAN,
        -f32::NAN,
        f32::MIN_POSITIVE,
        f32::MAX,
        f32::MIN,
        std::f32::consts::PI,
        std::f32::consts::E,
        std::f32::consts::LN_2,
        f32::from_bits(1),
        f32::from_bits(0x7fa0_1234),
    ];
    for f in singles {
        let (e, m) = Binary32(f.to_bits()).to_split_bits();
        assert_eq!(Binary32::from_split_bits(e, m).0, f.to_bits());
        assert_eq!(e as u32, (f.to_bits() >> 23) & 0xff);
        assert_eq!(m, ((f.to_bits() >> 31) << 23) | (f.to_bits() & 0x7f_ffff));

        let d = f as f64;
        let (e, m) = Binary64(d.to_bits()).to_split_bits();
        assert_eq!(Binary64::from_split_bits(e, m).0, d.to_bits());
        assert_eq!(e as u64, (d.to_bits() >> 52) & 0x7ff);
        assert_eq!(m, ((d.to_bits() >> 63) << 52) | (d.to_bits() & 0xf_ffff_ffff_ffff));

        let b = half::bf16::from_f32(f);
        let (e, m) = Bfloat16(b.to_bits()).to_split_bits();
        assert_eq!(Bfloat16::from_split_bits(e, m).0, b.to_bits());
        assert_eq!(e as u16, (b.to_bits() >> 7) & 0xff);
        assert_eq!(m as u16, ((b.to_bits() >> 15) << 7) | (b.to_bits() & 0x7f));

        let h = half::f16::from_f32(f);
        let (e, m) = tsar::transform::Binary16(h.to_bits()).to_split_bits();
        assert_eq!(tsar::transform::Binary16::from_split_bits(e, m).0, h.to_bits());
        assert_eq!(e as u16, (h.to_bits() >> 10) & 0x1f);
        assert_eq!(m, ((h.to_bits() >> 15) << 10) | (h.to_bits() & 0x3ff));
    }
    for bits in [0u16, 1, 0x7fff, 0x8000, 0xffff, 0x7c00, 0x7e00, 0xfc01] {
        let (e, m) = tsar::transform::Binary16(bits).to_split_bits();
        assert_eq!(tsar::transform::Binary16::from_split_bits(e, m).0, bits);
        let (e, m) = Bfloat16(bits).to_split_bits();
        assert_eq!(Bfloat16::from_split_bits(e, m).0, bits);
    }
    assert_eq!(Binary32(1.0f32.to_bits()).to_split_bits(), (0x7f, 0));
    assert_eq!(Binary32((-1.5f32).to_bits()).to_split_bits(), (0x7f, 0x80_0000 | 0x40_0000));
    assert_eq!(Binary64(1.0f64.to_bits()).to_split_bits(), (0x3ff, 0));
    assert_eq!(Split::Float16.split_bits(0xbc00), (0x0f, 0x400));
}
