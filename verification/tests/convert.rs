use csscolorparser::convert::{
    clamp0_1, hsl_to_rgb, hsv_to_hsl, hsv_to_rgb, hue_to_rgb, hwb_to_rgb, modulo, rgb_to_hsl,
    rgb_to_hsv, rgb_to_hwb,
};

type Triple = (f64, f64, f64);

fn bits((a, b, c): Triple) -> (u64, u64, u64) {
    (a.to_bits(), b.to_bits(), c.to_bits())
}

fn same(got: u64, want: f64) -> bool {
    if want.is_nan() {
        f64::from_bits(got).is_nan()
    } else {
        got == want.to_bits()
    }
}

fn same3(got: (u64, u64, u64), want: Triple) -> bool {
    same(got.0, want.0) && same(got.1, want.1) && same(got.2, want.2)
}

fn ref_modulo(x: f64, n: f64) -> f64 {
    (x % n + n) % n
}

fn ref_normalize(t: f64) -> f64 {
    let mut t = t % 360.;
    if t < 0. {
        t += 360.;
    }
    t
}

fn ref_hue(n1: f64, n2: f64, h: f64) -> f64 {
    let h = ref_modulo(h, 6.);
    if h < 1. {
        return n1 + ((n2 - n1) * h);
    }
    if h < 3. {
        return n2;
    }
    if h < 4. {
        return n1 + ((n2 - n1) * (4. - h));
    }
    n1
}

fn ref_hsl_to_rgb(h: f64, s: f64, l: f64) -> Triple {
    if s == 0. {
        return (l, l, l);
    }
    let n2 = if l < 0.5 { l * (1. + s) } else { l + s - (l * s) };
    let n1 = 2. * l - n2;
    let h = h / 60.;
    (ref_hue(n1, n2, h + 2.), ref_hue(n1, n2, h), ref_hue(n1, n2, h - 2.))
}

fn ref_hwb_to_rgb(hue: f64, white: f64, black: f64) -> Triple {
    if white + black >= 1. {
        let l = white / (white + black);
        return (l, l, l);
    }
    let (r, g, b) = ref_hsl_to_rgb(hue, 1., 0.5);
    (
        r * (1. - white - black) + white,
        g * (1. - white - black) + white,
        b * (1. - white - black) + white,
    )
}

fn ref_hsv_to_hsl(h: f64, s: f64, v: f64) -> Triple {
    let l = (2. - s) * v / 2.;
    let s = if l != 0. {
        if l == 1. {
            0.
        } else if l < 0.5 {
            s * v / (l * 2.)
        } else {
            s * v / (2. - l * 2.)
        }
    } else {
        s
    };
    (h, s, l)
}

fn ref_hsv_to_rgb(h: f64, s: f64, v: f64) -> Triple {
    let (h, s, l) = ref_hsv_to_hsl(h, s, v);
    ref_hsl_to_rgb(h, s, l)
}

fn ref_hue_of(r: f64, g: f64, b: f64, top: f64, d: f64) -> f64 {
    let dr = (top - r) / d;
    let dg = (top - g) / d;
    let db = (top - b) / d;
    let h = if r == top {
        db - dg
    } else if g == top {
        2. + dr - db
    } else {
        4. + dg - dr
    };
    ref_normalize((h * 60.) % 360.)
}

fn ref_rgb_to_hsv(r: f64, g: f64, b: f64) -> Triple {
    let v = r.max(g.max(b));
    let d = v - r.min(g.min(b));
    if d == 0. {
        return (0., 0., v);
    }
    (ref_hue_of(r, g, b, v, d), d / v, v)
}

fn ref_rgb_to_hsl(r: f64, g: f64, b: f64) -> Triple {
    let min = r.min(g.min(b));
    let max = r.max(g.max(b));
    let l = (max + min) / 2.;
    if min == max {
        return (0., 0., l);
    }
    let d = max - min;
    let s = if l < 0.5 { d / (max + min) } else { d / (2. - max - min) };
    (ref_hue_of(r, g, b, max, d), s, l)
}

fn ref_rgb_to_hwb(r: f64, g: f64, b: f64) -> Triple {
    let (hue, _, _) = ref_rgb_to_hsl(r, g, b);
    (hue, r.min(g.min(b)), 1. - r.max(g.max(b)))
}

struct Source(u64);

impl Source {
    fn next(&mut self) -> u64 {
        self.0 ^= self.0 << 13;
        self.0 ^= self.0 >> 7;
        self.0 ^= self.0 << 17;
        self.0
    }

    fn unit(&mut self) -> f64 {
        match self.next() % 6 {
            0 => (self.next() % 256) as f64 / 255.,
            1 => (self.next() % 11) as f64 / 10.,
            2 => (self.next() % 5) as f64 / 4.,
            _ => (self.next() >> 11) as f64 / (1u64 << 53) as f64,
        }
    }

    fn hue(&mut self) -> f64 {
        match self.next() % 4 {
            0 => (self.next() % 360) as f64,
            1 => (self.next() % 13) as f64 * 30.,
            _ => self.unit() * 360.,
        }
    }

    fn wild(&mut self) -> f64 {
        match self.next() % 4 {
            0 => f64::from_bits(self.next()),
            1 => self.unit() * 8. - 4.,
            2 => [0., -0., 1., f64::NAN, f64::INFINITY, -1., 0.5, 2.][(self.next() % 8) as usize],
            _ => self.unit(),
        }
    }
}

#[test]
fn hue_to_rgb_agrees_with_hardware() {
    let mut src = Source(0x3707_3440_4a40_9382);
    for _ in 0..20_000 {
        let (n1, n2, h) = (src.unit(), src.unit(), src.unit() * 16. - 5.);
        assert!(same(hue_to_rgb(n1.to_bits(), n2.to_bits(), h.to_bits()), ref_hue(n1, n2, h)));
        let (n1, n2, h) = (src.wild(), src.wild(), src.wild());
        assert!(same(hue_to_rgb(n1.to_bits(), n2.to_bits(), h.to_bits()), ref_hue(n1, n2, h)));
        let (x, n) = (src.wild(), src.wild());
        assert!(same(modulo(x.to_bits(), n.to_bits()), ref_modulo(x, n)));
        assert!(same(clamp0_1(x.to_bits()), x.clamp(0., 1.)));
    }
}

#[test]
fn hsl_to_rgb_agrees_with_hardware() {
    let mut src = Source(0x2299_f31d_0082_efa9);
    for _ in 0..20_000 {
        let t = (src.hue(), src.unit(), src.unit());
        let (h, s, l) = bits(t);
        assert!(same3(hsl_to_rgb(h, s, l), ref_hsl_to_rgb(t.0, t.1, t.2)), "{:?}", t);
        let t = (src.wild(), src.wild(), src.wild());
        let (h, s, l) = bits(t);
        assert!(same3(hsl_to_rgb(h, s, l), ref_hsl_to_rgb(t.0, t.1, t.2)), "{:?}", t);
    }
}

#[test]
fn hwb_to_rgb_agrees_with_hardware() {
    let mut src = Source(0x8ec4_e6c8_9452_821e);
    for _ in 0..20_000 {
        let t = (src.hue(), src.unit(), src.unit());
        let (h, w, b) = bits(t);
        assert!(same3(hwb_to_rgb(h, w, b), ref_hwb_to_rgb(t.0, t.1, t.2)), "{:?}", t);
        let t = (src.wild(), src.wild(), src.wild());
        let (h, w, b) = bits(t);
        assert!(same3(hwb_to_rgb(h, w, b), ref_hwb_to_rgb(t.0, t.1, t.2)), "{:?}", t);
    }
}

#[test]
fn hsv_to_rgb_agrees_with_hardware() {
    let mut src = Source(0x638d_0137_7be5_466c);
    for _ in 0..20_000 {
        let t = (src.hue(), src.unit(), src.unit());
        let (h, s, v) = bits(t);
        assert!(same3(hsv_to_hsl(h, s, v), ref_hsv_to_hsl(t.0, t.1, t.2)), "{:?}", t);
        assert!(same3(hsv_to_rgb(h, s, v), ref_hsv_to_rgb(t.0, t.1, t.2)), "{:?}", t);
        let t = (src.wild(), src.wild(), src.wild());
        let (h, s, v) = bits(t);
        assert!(same3(hsv_to_hsl(h, s, v), ref_hsv_to_hsl(t.0, t.1, t.2)), "{:?}", t);
        assert!(same3(hsv_to_rgb(h, s, v), ref_hsv_to_rgb(t.0, t.1, t.2)), "{:?}", t);
    }
}

fn no_two_zeros(t: Triple) -> bool {
    let zeros = [t.0, t.1, t.2].iter().filter(|x| **x == 0.).count();
    zeros < 2 || (t.0.to_bits() == t.1.to_bits() && t.1.to_bits() == t.2.to_bits())
        || [t.0, t.1, t.2].iter().all(|x| *x != 0. || x.is_sign_positive())
}

#[test]
fn rgb_to_hue_spaces_agree_with_hardware() {
    let mut src = Source(0x34e9_0c6c_c0ac_29b7);
    for _ in 0..20_000 {
        let t = (src.unit(), src.unit(), src.unit());
        let (r, g, b) = bits(t);
        assert!(same3(rgb_to_hsv(r, g, b), ref_rgb_to_hsv(t.0, t.1, t.2)), "{:?}", t);
        assert!(same3(rgb_to_hsl(r, g, b), ref_rgb_to_hsl(t.0, t.1, t.2)), "{:?}", t);
        assert!(same3(rgb_to_hwb(r, g, b), ref_rgb_to_hwb(t.0, t.1, t.2)), "{:?}", t);
        let t = (src.wild(), src.wild(), src.wild());
        if t.0.is_nan() || t.1.is_nan() || t.2.is_nan() || !no_two_zeros(t) {
            continue;
        }
        let (r, g, b) = bits(t);
        assert!(same3(rgb_to_hsv(r, g, b), ref_rgb_to_hsv(t.0, t.1, t.2)), "{:?}", t);
        assert!(same3(rgb_to_hsl(r, g, b), ref_rgb_to_hsl(t.0, t.1, t.2)), "{:?}", t);
        assert!(same3(rgb_to_hwb(r, g, b), ref_rgb_to_hwb(t.0, t.1, t.2)), "{:?}", t);
    }
}

#[test]
fn the_primaries_convert_exactly() {
    let zero = 0f64.to_bits();
    let one = 1f64.to_bits();
    let half = 0.5f64.to_bits();
    assert_eq!(hsl_to_rgb(zero, one, half), (one, zero, zero));
    assert_eq!(hsl_to_rgb(120f64.to_bits(), one, half), (zero, one, zero));
    assert_eq!(hsl_to_rgb(240f64.to_bits(), one, half), (zero, zero, one));
    assert_eq!(hsv_to_rgb(zero, one, one), (one, zero, zero));
    assert_eq!(hsv_to_rgb(60f64.to_bits(), one, one), (one, one, zero));
    assert_eq!(hwb_to_rgb(240f64.to_bits(), zero, zero), (zero, zero, one));
    assert_eq!(rgb_to_hsv(zero, one, zero), (120f64.to_bits(), one, one));
    assert_eq!(rgb_to_hsl(zero, zero, one), (240f64.to_bits(), one, half));
    assert_eq!(rgb_to_hwb(one, zero, zero), (zero, zero, zero));
    assert_eq!(rgb_to_hsl(one, zero, one), (300f64.to_bits(), one, half));
}

#[test]
fn grey_has_hue_zero_in_every_space() {
    for i in 0..=20 {
        let x = (i as f64 / 20.).to_bits();
        let zero = 0f64.to_bits();
        assert_eq!(rgb_to_hsv(x, x, x), (zero, zero, x));
        let (h, s, l) = rgb_to_hsl(x, x, x);
        assert_eq!((h, s, l), (zero, zero, x));
        let (h, w, b) = rgb_to_hwb(x, x, x);
        assert_eq!((h, w), (zero, x));
        assert_eq!(f64::from_bits(b), 1. - i as f64 / 20.);
        for k in 0..12 {
            let hue = (k as f64 * 30.).to_bits();
            assert_eq!(hsl_to_rgb(hue, zero, x), (x, x, x));
            let (r, g, b) = hsv_to_rgb(hue, zero, x);
            assert!(r == g && g == b);
            assert_eq!(f64::from_bits(r), i as f64 / 20.);
        }
    }
}

#[test]
fn whiteness_and_blackness_that_fill_the_colour_give_grey() {
    let cases = [(0.5, 0.5, 0.5), (1., 0., 1.), (0., 1., 0.), (0.75, 0.75, 0.5), (1., 1., 0.5)];
    for (w, b, grey) in cases {
        for k in 0..12 {
            let hue = (k as f64 * 30.).to_bits();
            let g = f64::to_bits(grey);
            assert_eq!(hwb_to_rgb(hue, f64::to_bits(w), f64::to_bits(b)), (g, g, g));
        }
    }
}

#[test]
fn value_to_lightness_keeps_its_edge_cases() {
    let zero = 0f64.to_bits();
    let one = 1f64.to_bits();
    let half = 0.5f64.to_bits();
    let hue = 200f64.to_bits();
    assert_eq!(hsv_to_hsl(hue, half, zero), (hue, half, zero));
    assert_eq!(hsv_to_hsl(hue, zero, one), (hue, zero, one));
    assert_eq!(hsv_to_hsl(hue, one, one), (hue, one, half));
    assert_eq!(hsv_to_hsl(hue, one, half), (hue, one, 0.25f64.to_bits()));
}
