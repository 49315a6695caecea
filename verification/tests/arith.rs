use csscolorparser::arith::{eq, larger, lt, minus, over, plus, rem, smaller, times};

fn next(state: &mut u64) -> u64 {
    *state ^= *state << 13;
    *state ^= *state >> 7;
    *state ^= *state << 17;
    *state
}

fn sample(state: &mut u64) -> f64 {
    let bits = next(state);
    match next(state) % 10 {
        0 => f64::from_bits(bits),
        1 => (bits >> 11) as f64 / (1u64 << 53) as f64,
        2 => ((bits >> 11) as f64 / (1u64 << 53) as f64) * 720. - 360.,
        3 => f64::from_bits(bits & 0x800f_ffff_ffff_ffff),
        4 => f64::from_bits((bits & 0x800f_ffff_ffff_ffff) | 0x7fe0_0000_0000_0000),
        5 => ((bits % 2048) as f64 - 1024.) / 4.,
        6 => f64::from_bits((bits & 0x801f_ffff_ffff_ffff) | 0x3fe0_0000_0000_0000),
        7 => f64::from_bits((bits & 0x807f_ffff_ffff_ffff) | 0x4000_0000_0000_0000),
        8 => f64::from_bits((bits & 0x83ff_0000_0000_0000) | 0x3c00_0000_0000_0000),
        _ => [0., -0., 1., -1., 0.5, 255., 360., f64::INFINITY, f64::NEG_INFINITY, f64::NAN,
              f64::MAX, f64::MIN_POSITIVE, 5e-324, 2., 6., 60.][(bits % 16) as usize],
    }
}

fn same(got: u64, want: f64) -> bool {
    if want.is_nan() {
        f64::from_bits(got).is_nan()
    } else {
        got == want.to_bits()
    }
}

#[test]
fn times_agrees_with_hardware() {
    let mut state: u64 = 0x243f_6a88_85a3_08d3;
    for _ in 0..300_000 {
        let a = sample(&mut state);
        let b = sample(&mut state);
        assert!(same(times(a.to_bits(), b.to_bits()), a * b), "{:e} * {:e}", a, b);
    }
}

#[test]
fn over_agrees_with_hardware() {
    let mut state: u64 = 0x1319_8a2e_0370_7344;
    for _ in 0..300_000 {
        let a = sample(&mut state);
        let b = sample(&mut state);
        assert!(same(over(a.to_bits(), b.to_bits()), a / b), "{:e} / {:e}", a, b);
    }
}

#[test]
fn plus_and_minus_agree_with_hardware() {
    let mut state: u64 = 0xa409_3822_299f_31d0;
    for _ in 0..300_000 {
        let a = sample(&mut state);
        let b = sample(&mut state);
        assert!(same(plus(a.to_bits(), b.to_bits()), a + b), "{:e} + {:e}", a, b);
        assert!(same(minus(a.to_bits(), b.to_bits()), a - b), "{:e} - {:e}", a, b);
    }
}

#[test]
fn plus_agrees_with_hardware_on_neighbours() {
    let mut state: u64 = 0x082e_fa98_ec4e_6c89;
    for _ in 0..200_000 {
        let a = sample(&mut state);
        let shift = next(&mut state) % 70;
        let b = -a * (0.5f64).powi(shift as i32) * (1. + (next(&mut state) % 3) as f64 * f64::EPSILON);
        let c = f64::from_bits(a.to_bits() ^ (next(&mut state) % 4));
        assert!(same(plus(a.to_bits(), b.to_bits()), a + b), "{:e} + {:e}", a, b);
        assert!(same(minus(a.to_bits(), c.to_bits()), a - c), "{:e} - {:e}", a, c);
    }
}

#[test]
fn rem_agrees_with_hardware() {
    let mut state: u64 = 0x4528_21e6_38d0_1377;
    for _ in 0..60_000 {
        let a = sample(&mut state);
        let b = sample(&mut state);
        assert!(same(rem(a.to_bits(), b.to_bits()), a % b), "{:e} % {:e}", a, b);
        assert!(same(rem(a.to_bits(), 360f64.to_bits()), a % 360.), "{:e} % 360", a);
        assert!(same(rem(a.to_bits(), 6f64.to_bits()), a % 6.), "{:e} % 6", a);
    }
}

#[test]
fn comparisons_agree_with_hardware() {
    let mut state: u64 = 0xbe54_66cf_34e9_0c6c;
    for _ in 0..300_000 {
        let a = sample(&mut state);
        let b = if next(&mut state) % 4 == 0 { a } else { sample(&mut state) };
        assert_eq!(lt(a.to_bits(), b.to_bits()), a < b, "{:e} < {:e}", a, b);
        assert_eq!(eq(a.to_bits(), b.to_bits()), a == b, "{:e} == {:e}", a, b);
        if !(a == 0. && b == 0.) {
            assert!(same(larger(a.to_bits(), b.to_bits()), a.max(b)), "max {:e} {:e}", a, b);
            assert!(same(smaller(a.to_bits(), b.to_bits()), a.min(b)), "min {:e} {:e}", a, b);
        }
    }
}
