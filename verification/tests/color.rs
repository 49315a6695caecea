use csscolorparser::Color;

fn rgba(r: f64, g: f64, b: f64, a: f64) -> Color {
    Color::from_rgba(r.to_bits(), g.to_bits(), b.to_bits(), a.to_bits())
}

fn floats(t: (u64, u64, u64, u64)) -> (f64, f64, f64, f64) {
    (f64::from_bits(t.0), f64::from_bits(t.1), f64::from_bits(t.2), f64::from_bits(t.3))
}

fn rgb_string(c: &Color) -> String {
    c.to_rgb_string(&format!("{}", f64::from_bits(c.a)))
}

#[test]
fn test_serde_serialize_to_hex() {
    let color = rgba(1.0, 1.0, 0.5, 0.5);
    assert_eq!(color.to_hex_string(), "#ffff8080");
}

#[test]
fn the_channels_given_are_the_channels_held() {
    let mut state: u64 = 0x2ff5_9a8e_11c3_7d01;
    for _ in 0..1000 {
        let mut draw = || {
            state ^= state << 13;
            state ^= state >> 7;
            state ^= state << 17;
            state
        };
        let t = (draw(), draw(), draw(), draw());
        assert_eq!(Color::from_rgba(t.0, t.1, t.2, t.3).rgba(), t);
        let c = Color::from_rgb(t.0, t.1, t.2);
        assert_eq!(c.rgba(), (t.0, t.1, t.2, 1f64.to_bits()));
        assert_eq!((c.red(), c.green(), c.blue(), c.alpha()), c.rgba());
    }
    assert_eq!(floats(rgba(0.1, 0.2, 0.3, 0.4).rgba()), (0.1, 0.2, 0.3, 0.4));
}

#[test]
fn pure_red_from_bytes_writes_as_expected() {
    let c = Color::from_rgb_u8(255, 0, 0);
    assert_eq!(floats(c.rgba()), (1., 0., 0., 1.));
    assert_eq!(c.rgba_u8(), (255, 0, 0, 255));
    assert_eq!(c.to_hex_string(), "#ff0000");
    assert_eq!(rgb_string(&c), "rgb(255,0,0)");
}

#[test]
fn half_alpha_writes_the_rgba_form() {
    let c = rgba(1., 1., 0.5, 0.5);
    assert_eq!(c.rgba_u8(), (255, 255, 128, 128));
    assert_eq!(c.to_hex_string(), "#ffff8080");
    assert_eq!(rgb_string(&c), "rgba(255,255,128,0.5)");
}

#[test]
fn the_rgba_form_depends_on_the_channel_not_on_its_byte() {
    let c = rgba(0., 0., 0., 0.999);
    assert_eq!(c.rgba_u8().3, 255);
    assert_eq!(c.to_hex_string(), "#000000");
    assert_eq!(rgb_string(&c), "rgba(0,0,0,0.999)");
    assert_eq!(rgb_string(&rgba(0., 0., 0., f64::NAN)), "rgb(0,0,0)");
    assert_eq!(rgb_string(&rgba(0., 0., 0., 2.)), "rgb(0,0,0)");
    assert_eq!(rgb_string(&rgba(0., 0., 0., -1.)), "rgba(0,0,0,-1)");
}

#[test]
fn bytes_round_trip_through_a_colour() {
    for v in 0..=255u8 {
        let c = Color::from_rgba_u8(v, 255 - v, v ^ 0x55, v.wrapping_mul(7));
        assert_eq!(c.rgba_u8(), (v, 255 - v, v ^ 0x55, v.wrapping_mul(7)));
        assert_eq!(
            floats(c.rgba()),
            (
                v as f64 / 255.,
                (255 - v) as f64 / 255.,
                (v ^ 0x55) as f64 / 255.,
                v.wrapping_mul(7) as f64 / 255.
            )
        );
        assert_eq!(Color::from_rgb_u8(v, v, v).rgba_u8(), (v, v, v, 255));
    }
}

#[test]
fn channels_out_of_range_saturate_as_bytes() {
    assert_eq!(rgba(-0.5, 1.5, f64::NAN, f64::INFINITY).rgba_u8(), (0, 255, 0, 255));
    assert_eq!(rgba(-0.0, 0.0019, 0.002, 0.998).rgba_u8(), (0, 0, 1, 254));
}

#[test]
fn the_default_is_opaque_black() {
    let c = Color::default();
    assert_eq!(floats(c.rgba()), (0., 0., 0., 1.));
    assert_eq!(c.to_hex_string(), "#000000");
}

#[test]
fn equality_is_that_of_the_numbers() {
    assert!(rgba(0., 0.5, 1., 1.) == rgba(-0., 0.5, 1., 1.));
    assert!(rgba(0., 0.5, 1., 1.) != rgba(0., 0.5, 1., 0.5));
    assert!(rgba(f64::NAN, 0., 0., 1.) != rgba(f64::NAN, 0., 0., 1.));
    assert!(Color::from_rgb_u8(255, 0, 0) == rgba(1., 0., 0., 1.));
    let c = rgba(0.1, 0.2, 0.3, 0.4);
    assert!(c.clone() == c);
}

#[test]
fn hue_constructors_reach_the_primaries() {
    let bits = |x: f64| x.to_bits();
    assert_eq!(Color::from_hsv(bits(0.), bits(1.), bits(1.)).to_hex_string(), "#ff0000");
    assert_eq!(Color::from_hsv(bits(120.), bits(1.), bits(1.)).to_hex_string(), "#00ff00");
    assert_eq!(Color::from_hsl(bits(240.), bits(1.), bits(0.5)).to_hex_string(), "#0000ff");
    assert_eq!(Color::from_hsl(bits(60.), bits(1.), bits(0.5)).to_hex_string(), "#ffff00");
    assert_eq!(Color::from_hwb(bits(180.), bits(0.), bits(0.)).to_hex_string(), "#00ffff");
    assert_eq!(Color::from_hwb(bits(0.), bits(0.5), bits(0.)).to_hex_string(), "#ff8080");
    assert_eq!(Color::from_hsv(bits(480.), bits(1.), bits(1.)).to_hex_string(), "#00ff00");
    assert_eq!(Color::from_hsl(bits(-120.), bits(1.), bits(0.5)).to_hex_string(), "#0000ff");
}

#[test]
fn hue_constructors_clamp_what_they_are_given() {
    let bits = |x: f64| x.to_bits();
    let c = Color::from_hsva(bits(0.), bits(7.), bits(3.), bits(1.5));
    assert_eq!(floats(c.rgba()), (1., 0., 0., 1.));
    let c = Color::from_hsla(bits(0.), bits(-2.), bits(0.25), bits(-1.));
    assert_eq!(floats(c.rgba()), (0.25, 0.25, 0.25, 0.));
    let c = Color::from_hsla(bits(0.), bits(1.), bits(9.), bits(0.5));
    assert_eq!(floats(c.rgba()), (1., 1., 1., 0.5));
}

#[test]
fn the_alpha_of_hwb_passes_unclamped() {
    let bits = |x: f64| x.to_bits();
    let c = Color::from_hwba(bits(0.), bits(0.), bits(0.), bits(1.5));
    assert_eq!(floats(c.rgba()), (1., 0., 0., 1.5));
    let c = Color::from_hwba(bits(90.), bits(2.), bits(2.), bits(-3.));
    assert_eq!(floats(c.rgba()), (0.5, 0.5, 0.5, -3.));
}

#[test]
fn grey_reports_hue_zero() {
    for v in [0u8, 1, 17, 128, 200, 255] {
        let c = Color::from_rgba_u8(v, v, v, 99);
        let x = v as f64 / 255.;
        let alpha = 99. / 255.;
        assert_eq!(floats(c.to_hsva()), (0., 0., x, alpha));
        assert_eq!(floats(c.to_hsla()), (0., 0., x, alpha));
        let (h, w, b, a) = floats(c.to_hwba());
        assert_eq!((h, w, b, a), (0., x, 1. - x, alpha));
    }
}

#[test]
fn no_saturation_gives_grey() {
    let bits = |x: f64| x.to_bits();
    for hue in [0., 33., 120., 359.5, 720.] {
        let c = Color::from_hsl(bits(hue), bits(0.), bits(0.3));
        assert_eq!(floats(c.rgba()), (0.3, 0.3, 0.3, 1.));
        let c = Color::from_hsv(bits(hue), bits(0.), bits(0.6));
        assert_eq!(floats(c.rgba()), (0.6, 0.6, 0.6, 1.));
        let c = Color::from_hwb(bits(hue), bits(0.3), bits(0.9));
        assert_eq!(floats(c.rgba()), (0.25, 0.25, 0.25, 1.));
    }
}

#[test]
fn alpha_passes_through_every_conversion() {
    let c = rgba(0.2, 0.4, 0.6, 0.123);
    assert_eq!(f64::from_bits(c.to_hsva().3), 0.123);
    assert_eq!(f64::from_bits(c.to_hsla().3), 0.123);
    assert_eq!(f64::from_bits(c.to_hwba().3), 0.123);
}

#[test]
fn blending_in_rgb_is_channel_by_channel() {
    let a = rgba(0., 0.25, 1., 1.);
    let b = rgba(1., 0.75, 0., 0.);
    let at = |t: f64| floats(a.interpolate_rgb(&b, t.to_bits()).rgba());
    assert_eq!(at(0.), (0., 0.25, 1., 1.));
    assert_eq!(at(1.), (1., 0.75, 0., 0.));
    assert_eq!(at(0.5), (0.5, 0.5, 0.5, 0.5));
    assert_eq!(at(2.), (2., 1.25, -1., -1.));
    assert_eq!(at(0.3), (0. + 0.3 * (1. - 0.), 0.25 + 0.3 * (0.75 - 0.25), 1. + 0.3 * (0. - 1.), 1. + 0.3 * (0. - 1.)));
}

#[test]
fn blending_in_hsv_goes_round_the_shorter_way() {
    let red = rgba(1., 0., 0., 1.);
    let blue = rgba(0., 0., 1., 1.);
    let mid = red.interpolate_hsv(&blue, 0.5f64.to_bits());
    assert_eq!(mid.to_hex_string(), "#ff00ff");
    assert_eq!(floats(mid.to_hsva()), (300., 1., 1., 1.));
    let red_again = red.interpolate_hsv(&blue, 0f64.to_bits());
    assert_eq!(red_again.to_hex_string(), "#ff0000");
    let green = rgba(0., 1., 0., 0.);
    let mid = red.interpolate_hsv(&green, 0.5f64.to_bits());
    assert_eq!(floats(mid.rgba()), (1., 1., 0., 0.5));
}

#[test]
fn tuples_and_arrays_convert_field_by_field() {
    let bits = |x: f64| x.to_bits();
    let four = (bits(0.1), bits(0.2), bits(0.3), bits(0.4));
    assert_eq!(Color::from(four).rgba(), four);
    assert_eq!(Color::from([four.0, four.1, four.2, four.3]).rgba(), four);
    let three = (four.0, four.1, four.2, bits(1.));
    assert_eq!(Color::from((four.0, four.1, four.2)).rgba(), three);
    assert_eq!(Color::from([four.0, four.1, four.2]).rgba(), three);
    assert_eq!(Color::from((1u8, 2u8, 3u8, 4u8)).rgba_u8(), (1, 2, 3, 4));
    assert_eq!(Color::from([1u8, 2, 3, 4]).rgba_u8(), (1, 2, 3, 4));
    assert_eq!(Color::from((1u8, 2u8, 3u8)).rgba_u8(), (1, 2, 3, 255));
    assert_eq!(Color::from([1u8, 2, 3]).rgba_u8(), (1, 2, 3, 255));
    assert_eq!(Color::from([255u8, 0, 0]).rgba(), (bits(1.), bits(0.), bits(0.), bits(1.)));
}
