use csscolorparser::channel::{from_whole, to_nearest_byte, unit_from_byte, unit_to_byte};

fn reference_byte(x: f64) -> u8 {
    (x * 255.).round() as u8
}

#[test]
fn every_byte_has_its_own_pattern() {
    for b in 0..=255u8 {
        assert_eq!(from_whole(b), (b as f64).to_bits(), "byte {}", b);
    }
}

#[test]
fn every_byte_divides_as_the_hardware_does() {
    for b in 0..=255u8 {
        assert_eq!(unit_from_byte(b), (b as f64 / 255.).to_bits(), "byte {}", b);
    }
}

#[test]
fn every_byte_survives_the_round_trip() {
    for b in 0..=255u8 {
        assert_eq!(unit_to_byte(unit_from_byte(b)), b);
    }
}

#[test]
fn rounding_to_a_byte_agrees_with_hardware() {
    let mut state: u64 = 0x3f84_d5b5_b547_0917;
    for _ in 0..200_000 {
        state ^= state << 13;
        state ^= state >> 7;
        state ^= state << 17;
        let x = f64::from_bits(state);
        assert_eq!(to_nearest_byte(state), x.round() as u8, "bits = {:#x}", state);
        let y = ((state >> 11) as f64 / (1u64 << 53) as f64) * 600. - 200.;
        assert_eq!(to_nearest_byte(y.to_bits()), y.round() as u8, "y = {:e}", y);
        let half = ((state >> 20) % 512) as f64 - 128.5;
        assert_eq!(to_nearest_byte(half.to_bits()), half.round() as u8, "y = {:e}", half);
    }
}

#[test]
fn channel_to_byte_agrees_with_hardware_near_every_boundary() {
    for k in 0..=255u32 {
        let centre = (k as f64 + 0.5) / 255.;
        let mut x = centre;
        for _ in 0..300 {
            x = f64::from_bits(x.to_bits() - 1);
        }
        for _ in 0..600 {
            assert_eq!(unit_to_byte(x.to_bits()), reference_byte(x), "x = {:e}", x);
            x = f64::from_bits(x.to_bits() + 1);
        }
    }
}

#[test]
fn channel_to_byte_agrees_with_hardware_on_a_sweep() {
    let mut state: u64 = 0x9e37_79b9_7f4a_7c15;
    for _ in 0..100_000 {
        state ^= state << 13;
        state ^= state >> 7;
        state ^= state << 17;
        let x = f64::from_bits(state);
        assert_eq!(unit_to_byte(state), reference_byte(x), "bits = {:#x}", state);
        let unit = (state >> 11) as f64 / (1u64 << 53) as f64;
        assert_eq!(unit_to_byte(unit.to_bits()), reference_byte(unit), "x = {:e}", unit);
        let wide = unit * 4. - 2.;
        assert_eq!(unit_to_byte(wide.to_bits()), reference_byte(wide), "x = {:e}", wide);
    }
}

#[test]
fn channel_to_byte_handles_the_special_values() {
    for x in [
        0.0f64,
        -0.0,
        1.0,
        -1.0,
        0.5,
        f64::NAN,
        f64::INFINITY,
        f64::NEG_INFINITY,
        f64::MIN_POSITIVE,
        f64::MAX,
        f64::MIN,
        5e-324,
        1.0 - f64::EPSILON / 2.,
        1.0 + f64::EPSILON,
        0.001960784313725490,
        0.0019607843137254897,
    ] {
        assert_eq!(unit_to_byte(x.to_bits()), reference_byte(x), "x = {:e}", x);
    }
}

#[test]
fn a_half_rounds_away_from_zero() {
    assert_eq!(unit_to_byte(0.5f64.to_bits()), 128);
    assert_eq!(to_nearest_byte(0.5f64.to_bits()), 1);
    assert_eq!(to_nearest_byte(1.5f64.to_bits()), 2);
    assert_eq!(to_nearest_byte(2.5f64.to_bits()), 3);
    assert_eq!(to_nearest_byte(127.5f64.to_bits()), 128);
    assert_eq!(to_nearest_byte(254.5f64.to_bits()), 255);
    assert_eq!(to_nearest_byte(0.49999999999999994f64.to_bits()), 0);
    assert_eq!(to_nearest_byte(2.4999999999999996f64.to_bits()), 2);
    assert_eq!(to_nearest_byte((-0.5f64).to_bits()), 0);
    assert_eq!(to_nearest_byte(300f64.to_bits()), 255);
}
