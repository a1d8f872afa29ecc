use floatplanes::ieee_float::{
    exp_adv, exp_diff, from_parts, get_exp, get_mantissa, get_sign, test_binary,
    test_exp_modular, Binary32, Binary64, IEEEFloat,
};
use num::traits::FloatConst;
use rand::Rng;

fn bits32(v: f32) -> u64 {
    v.to_bits() as u64
}

fn bits64(v: f64) -> u64 {
    v.to_bits()
}

#[test]
fn binary32() {
    assert!(test_binary::<Binary32>(bits32(0f32), false, 0, 0));
    assert!(test_binary::<Binary32>(bits32(f32::PI()), false, 128, 0x490fdb));
    assert!(test_binary::<Binary32>(bits32(-1.0f32 / 3.0f32), true, 125, 0x2aaaab));
    assert!(test_binary::<Binary32>(bits32(f32::NEG_INFINITY), true, 255, 0));
}

#[test]
fn binary64() {
    assert!(test_binary::<Binary64>(bits64(0f64), false, 0, 0));
    assert!(test_binary::<Binary64>(bits64(f64::PI()), false, 1024, 0x921fb54442d18));
    assert!(test_binary::<Binary64>(bits64(-1.0f64 / 3.0f64), true, 1021, 0x5_5555_5555_5555));
    assert!(test_binary::<Binary64>(bits64(f64::NEG_INFINITY), true, 2047, 0));
}

fn fuzz_binary<F: IEEEFloat>() {
    let mut rng = rand::thread_rng();
    let exp_bound: u16 = 1u16 << F::exp_bits();
    let mantissa_bound: u64 = 1u64 << F::mantissa_bits();

    for _ in 0..1_000_000 {
        let sign: bool = rng.gen();
        let exp: u16 = rng.gen_range(0..exp_bound);
        let mantissa: u64 = rng.gen_range(0..mantissa_bound);

        let value = from_parts::<F>(sign, exp, mantissa);
        assert_eq!(get_sign::<F>(value), sign);
        assert_eq!(get_exp::<F>(value), exp);
        assert_eq!(get_mantissa::<F>(value), mantissa);
    }
}

#[test]
fn fuzz_binary32() {
    fuzz_binary::<Binary32>();
}

#[test]
fn fuzz_binary64() {
    fuzz_binary::<Binary64>();
}

#[test]
fn exp_modular32() {
    assert!(test_exp_modular::<Binary32>());
}

#[test]
fn exp_modular64() {
    assert!(test_exp_modular::<Binary64>());
}

#[test]
fn field_round_trip_special_values32() {
    let values: Vec<f32> = vec![
        0.0,
        -0.0,
        f32::INFINITY,
        f32::NEG_INFINITY,
        f32::from_bits(0x7fff_ffff),
        f32::from_bits(1),
        f32::MIN_POSITIVE,
    ];
    for v in values {
        let b = bits32(v);
        let r = from_parts::<Binary32>(
            get_sign::<Binary32>(b),
            get_exp::<Binary32>(b),
            get_mantissa::<Binary32>(b),
        );
        assert_eq!(r, b);
    }
}

#[test]
fn field_round_trip_every_pattern_sampled32() {
    let mut b: u64 = 0;
    while b <= u32::MAX as u64 {
        let r = from_parts::<Binary32>(
            get_sign::<Binary32>(b),
            get_exp::<Binary32>(b),
            get_mantissa::<Binary32>(b),
        );
        assert_eq!(r, b);
        b += 65_521;
    }
}

#[test]
fn field_round_trip_random64() {
    let mut rng = rand::thread_rng();
    for _ in 0..100_000 {
        let b: u64 = rng.gen();
        let r = from_parts::<Binary64>(
            get_sign::<Binary64>(b),
            get_exp::<Binary64>(b),
            get_mantissa::<Binary64>(b),
        );
        assert_eq!(r, b);
    }
}

#[test]
fn exp_diff_wraps_and_centres() {
    assert_eq!(exp_diff::<Binary32>(0, 127), 127);
    assert_eq!(exp_diff::<Binary32>(127, 125), -2);
    assert_eq!(exp_diff::<Binary32>(0, 128), 128);
    assert_eq!(exp_diff::<Binary32>(128, 0), 128);
    assert_eq!(exp_diff::<Binary32>(0, 129), -127);
    assert_eq!(exp_diff::<Binary32>(255, 0), 1);
    assert_eq!(exp_diff::<Binary32>(0, 255), -1);
    assert_eq!(exp_diff::<Binary64>(0, 1024), 1024);
    assert_eq!(exp_diff::<Binary64>(0, 1025), -1023);
    assert_eq!(exp_diff::<Binary64>(2047, 1), 2);
    assert_eq!(exp_adv::<Binary32>(255, 1), 0);
    assert_eq!(exp_adv::<Binary32>(0, -1), 255);
    assert_eq!(exp_adv::<Binary64>(1000, -1024), 2024);
    assert_eq!(exp_adv::<Binary32>(0, 128), 128);
    assert_eq!(exp_adv::<Binary32>(5, 256), 5);
    assert_eq!(exp_adv::<Binary32>(5, -256), 5);
    assert_eq!(exp_adv::<Binary32>(200, 200), 144);
    assert_eq!(exp_adv::<Binary64>(3, -2048), 3);
}

#[test]
fn from_parts_masks_out_of_range_fields() {
    assert_eq!(from_parts::<Binary32>(false, 0x1ff, 0), 0x7f80_0000);
    assert_eq!(from_parts::<Binary32>(true, 0, (1u64 << 23) | 5), 0x8000_0005);
    assert_eq!(from_parts::<Binary32>(false, 0x100, u64::MAX), 0x007f_ffff);
    assert_eq!(from_parts::<Binary64>(false, 0xffff, 0), 0x7ff0_0000_0000_0000);
    assert_eq!(from_parts::<Binary64>(true, 1, u64::MAX), 0x801f_ffff_ffff_ffff);
}
