use csscolorparser::binary64;
use csscolorparser::oklab::{linear_rgb_to_lms, lms_roots_to_oklab, oklab_to_linear_rgb};
use csscolorparser::transfer::{self, from_linear, to_linear, to_linear_base};

fn same(got: u64, want: f64) -> bool {
    if want.is_nan() {
        f64::from_bits(got).is_nan()
    } else {
        got == want.to_bits()
    }
}

fn ref_from_linear(x: f64) -> f64 {
    if x >= 0.0031308 {
        return 1.055 * x.powf(1. / 2.4) - 0.055;
    }
    12.92 * x
}

fn ref_to_linear(x: f64) -> f64 {
    if x >= 0.04045 {
        return ((x + 0.055) / 1.055).powf(2.4);
    }
    x / 12.92
}

fn encode(x: f64) -> f64 {
    f64::from_bits(from_linear(x.to_bits(), x.powf(1. / 2.4).to_bits()))
}

fn decode(x: f64) -> f64 {
    let base = f64::from_bits(to_linear_base(x.to_bits()));
    f64::from_bits(to_linear(x.to_bits(), base.powf(2.4).to_bits()))
}

fn ref_from_oklab(l: f64, a: f64, b: f64) -> (f64, f64, f64) {
    let l_ = (l + 0.3963377774 * a + 0.2158037573 * b).powi(3);
    let m_ = (l - 0.1055613458 * a - 0.0638541728 * b).powi(3);
    let s_ = (l - 0.0894841775 * a - 1.2914855480 * b).powi(3);
    let r = 4.0767245293 * l_ - 3.3072168827 * m_ + 0.2307590544 * s_;
    let g = -1.2681437731 * l_ + 2.6093323231 * m_ - 0.3411344290 * s_;
    let b = -0.0041119885 * l_ - 0.7034763098 * m_ + 1.7068625689 * s_;
    (ref_from_linear(r), ref_from_linear(g), ref_from_linear(b))
}

fn ref_to_oklab(r: f64, g: f64, b: f64) -> (f64, f64, f64) {
    let (r, g, b) = (ref_to_linear(r), ref_to_linear(g), ref_to_linear(b));
    let l_ = (0.4121656120 * r + 0.5362752080 * g + 0.0514575653 * b).cbrt();
    let m_ = (0.2118591070 * r + 0.6807189584 * g + 0.1074065790 * b).cbrt();
    let s_ = (0.0883097947 * r + 0.2818474174 * g + 0.6302613616 * b).cbrt();
    let l = 0.2104542553 * l_ + 0.7936177850 * m_ - 0.0040720468 * s_;
    let a = 1.9779984951 * l_ - 2.4285922050 * m_ + 0.4505937099 * s_;
    let b = 0.0259040371 * l_ + 0.7827717662 * m_ - 0.8086757660 * s_;
    (l, a, b)
}

fn from_oklab(l: f64, a: f64, b: f64) -> (f64, f64, f64) {
    let (r, g, b) = oklab_to_linear_rgb(l.to_bits(), a.to_bits(), b.to_bits());
    (encode(f64::from_bits(r)), encode(f64::from_bits(g)), encode(f64::from_bits(b)))
}

fn to_oklab(r: f64, g: f64, b: f64) -> (f64, f64, f64) {
    let (r, g, b) = (decode(r), decode(g), decode(b));
    let (l, m, s) = linear_rgb_to_lms(r.to_bits(), g.to_bits(), b.to_bits());
    let root = |x: u64| f64::from_bits(x).cbrt().to_bits();
    let (l, a, b) = lms_roots_to_oklab(root(l), root(m), root(s));
    (f64::from_bits(l), f64::from_bits(a), f64::from_bits(b))
}

struct Source(u64);

impl Source {
    fn next(&mut self) -> u64 {
        self.0 ^= self.0 << 13;
        self.0 ^= self.0 >> 7;
        self.0 ^= self.0 << 17;
        self.0
    }

    fn unit(&mut self) -> f64 {
        match self.next() % 4 {
            0 => (self.next() % 256) as f64 / 255.,
            1 => ((self.next() >> 11) as f64 / (1u64 << 53) as f64) * 0.05,
            _ => (self.next() >> 11) as f64 / (1u64 << 53) as f64,
        }
    }
}

#[test]
fn the_constants_are_the_patterns_of_their_values() {
    assert_eq!(binary64::ZERO, 0f64.to_bits());
    assert_eq!(binary64::HALF, 0.5f64.to_bits());
    assert_eq!(binary64::ONE, 1f64.to_bits());
    assert_eq!(binary64::TWO, 2f64.to_bits());
    assert_eq!(binary64::THREE, 3f64.to_bits());
    assert_eq!(binary64::FOUR, 4f64.to_bits());
    assert_eq!(binary64::SIX, 6f64.to_bits());
    assert_eq!(binary64::SIXTY, 60f64.to_bits());
    assert_eq!(binary64::HALF_TURN, 180f64.to_bits());
    assert_eq!(binary64::BYTE_MAX, 255f64.to_bits());
    assert_eq!(binary64::TURN, 360f64.to_bits());
    assert_eq!(binary64::TURN_AND_HALF, 540f64.to_bits());
    assert_eq!(binary64::INFINITY, f64::INFINITY.to_bits());
    assert_eq!(binary64::SIGN, (-0.0f64).to_bits());
    assert!(f64::from_bits(binary64::NAN).is_nan());
    assert_eq!(binary64::HIDDEN, 1u64 << 52);
    assert_eq!(binary64::LIMIT, 1u64 << 53);
    assert_eq!(transfer::ENCODE_KNEE, 0.0031308f64.to_bits());
    assert_eq!(transfer::DECODE_KNEE, 0.04045f64.to_bits());
    assert_eq!(transfer::SCALE, 1.055f64.to_bits());
    assert_eq!(transfer::OFFSET, 0.055f64.to_bits());
    assert_eq!(transfer::SLOPE, 12.92f64.to_bits());
    assert_eq!(transfer::GAMMA, 2.4f64.to_bits());
}

#[test]
fn the_transfer_curve_agrees_with_hardware() {
    let mut src = Source(0x7c97_c50d_d3f8_4d5b);
    for _ in 0..50_000 {
        let x = src.unit();
        assert!(same(encode(x).to_bits(), ref_from_linear(x)), "{:e}", x);
        assert!(same(decode(x).to_bits(), ref_to_linear(x)), "{:e}", x);
        let wild = f64::from_bits(src.next());
        assert!(same(encode(wild).to_bits(), ref_from_linear(wild)), "{:e}", wild);
        assert!(same(decode(wild).to_bits(), ref_to_linear(wild)), "{:e}", wild);
    }
}

#[test]
fn the_transfer_curve_changes_piece_at_its_knees() {
    let below = f64::from_bits(0.0031308f64.to_bits() - 1);
    assert_eq!(encode(0.0031308), 1.055 * 0.0031308f64.powf(1. / 2.4) - 0.055);
    assert_eq!(encode(below), 12.92 * below);
    let below = f64::from_bits(0.04045f64.to_bits() - 1);
    assert_eq!(decode(0.04045), ((0.04045 + 0.055) / 1.055f64).powf(2.4));
    assert_eq!(decode(below), below / 12.92);
    assert_eq!(encode(0.), 0.);
    assert_eq!(decode(0.), 0.);
    assert_eq!(encode(1.), 1.055 * 1. - 0.055);
    assert_eq!(decode(1.), 1.);
}

#[test]
fn oklab_agrees_with_hardware() {
    let mut src = Source(0xb547_0917_9216_d5d9);
    for _ in 0..30_000 {
        let (l, a, b) = (src.unit(), src.unit() - 0.5, src.unit() - 0.5);
        let got = from_oklab(l, a, b);
        let want = ref_from_oklab(l, a, b);
        assert!(same(got.0.to_bits(), want.0), "{:e} {:e} {:e}", l, a, b);
        assert!(same(got.1.to_bits(), want.1), "{:e} {:e} {:e}", l, a, b);
        assert!(same(got.2.to_bits(), want.2), "{:e} {:e} {:e}", l, a, b);
        let (r, g, b) = (src.unit(), src.unit(), src.unit());
        let got = to_oklab(r, g, b);
        let want = ref_to_oklab(r, g, b);
        assert!(same(got.0.to_bits(), want.0), "{:e} {:e} {:e}", r, g, b);
        assert!(same(got.1.to_bits(), want.1), "{:e} {:e} {:e}", r, g, b);
        assert!(same(got.2.to_bits(), want.2), "{:e} {:e} {:e}", r, g, b);
    }
}

#[test]
fn oklab_round_trip_returns_the_colour() {
    let colours = [
        (0., 0., 0.),
        (1., 1., 1.),
        (1., 0., 0.),
        (0.5, 0.5, 0.5),
        (0.25, 0.5, 0.75),
        (0.9, 0.1, 0.4),
        (0.2, 0.8, 0.3),
    ];
    for (r, g, b) in colours {
        let (l, a, bb) = to_oklab(r, g, b);
        let back = from_oklab(l, a, bb);
        assert!((back.0 - r).abs() < 1e-6, "{:?} -> {:?}", (r, g, b), back);
        assert!((back.1 - g).abs() < 1e-6, "{:?} -> {:?}", (r, g, b), back);
        assert!((back.2 - b).abs() < 1e-6, "{:?} -> {:?}", (r, g, b), back);
    }
}

#[test]
fn oklab_round_trip_of_the_gamut_corners_stays_within_two_millionths() {
    let corners = [(0., 1., 0.), (0., 0., 1.), (1., 1., 0.), (0., 1., 1.), (1., 0., 1.)];
    for (r, g, b) in corners {
        let (l, a, bb) = to_oklab(r, g, b);
        let back = from_oklab(l, a, bb);
        assert!((back.0 - r).abs() < 2e-6, "{:?} -> {:?}", (r, g, b), back);
        assert!((back.1 - g).abs() < 2e-6, "{:?} -> {:?}", (r, g, b), back);
        assert!((back.2 - b).abs() < 2e-6, "{:?} -> {:?}", (r, g, b), back);
    }
}

#[test]
fn oklab_of_white_and_black_is_lightness_alone() {
    let (l, a, b) = to_oklab(1., 1., 1.);
    assert!((l - 1.).abs() < 2e-4 && a.abs() < 2e-4 && b.abs() < 2e-4, "{:?}", (l, a, b));
    assert_eq!(to_oklab(0., 0., 0.), (0., 0., 0.));
    assert_eq!(from_oklab(0., 0., 0.), (0., 0., 0.));
    let (r, g, b) = from_oklab(1., 0., 0.);
    assert!((r - 1.).abs() < 1e-3 && (g - 1.).abs() < 1e-3 && (b - 1.).abs() < 1e-3);
}

#[test]
fn oklab_matrices_give_their_rows() {
    let one = 1f64.to_bits();
    let zero = 0f64.to_bits();
    let (l, m, s) = linear_rgb_to_lms(one, zero, zero);
    assert_eq!(
        (f64::from_bits(l), f64::from_bits(m), f64::from_bits(s)),
        (0.4121656120, 0.2118591070, 0.0883097947)
    );
    let (l, a, b) = lms_roots_to_oklab(zero, one, zero);
    assert_eq!(
        (f64::from_bits(l), f64::from_bits(a), f64::from_bits(b)),
        (0.7936177850, -2.4285922050, 0.7827717662)
    );
    let (r, g, b) = oklab_to_linear_rgb(one, zero, zero);
    assert_eq!(
        (f64::from_bits(r), f64::from_bits(g), f64::from_bits(b)),
        (
            4.0767245293 - 3.3072168827 + 0.2307590544,
            -1.2681437731 + 2.6093323231 - 0.3411344290,
            -0.0041119885 - 0.7034763098 + 1.7068625689
        )
    );
}
