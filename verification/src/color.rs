//! The colour value: red, green, blue and alpha, each a binary64 fraction
//! held as its bit pattern. By convention the four lie in `[0, 1]`; nothing
//! enforces that on a colour built from its channels.

use vstd::prelude::*;
use vstd::std_specs::cmp::PartialEqSpecImpl;
use vstd::std_specs::convert::FromSpecImpl;

use crate::angle::{interp_angle, interpolated_angle, normalize_angle, normalized_angle};
use crate::arith::{
    at_least, difference, eq, equal, less, lt, minus, plus, product, sum, times,
};
use crate::binary64::{is_nan, ONE, ZERO};
use crate::channel::{
    byte_of_unit, lemma_byte_round_trip, lemma_unit_of_full_byte, unit_from_byte, unit_of_byte,
    unit_to_byte,
};
use crate::convert::{
    clamp0_1, clamped, hsl_rgb, hsl_to_rgb, hsv_rgb, hsv_to_rgb, hwb_rgb, hwb_to_rgb,
    lemma_hsl_without_saturation, lemma_hsv_without_saturation, lemma_hwb_filled, rgb_hsl,
    rgb_hsv, rgb_hwb, rgb_to_hsl, rgb_to_hsv, rgb_to_hwb,
};
use crate::text::{hex_string, hex_text, rgb_string, rgb_text};

verus! {

/// The color
#[derive(Debug, Clone, Copy)]
pub struct Color {
    /// Red
    pub r: u64,
    /// Green
    pub g: u64,
    /// Blue
    pub b: u64,
    /// Alpha
    pub a: u64,
}

impl View for Color {
    type V = (u64, u64, u64, u64);

    open spec fn view(&self) -> (u64, u64, u64, u64) {
        (self.r, self.g, self.b, self.a)
    }
}

/// The colour of three channels brought into `[0, 1]` and an alpha.
pub open spec fn clamped_rgb(rgb: (u64, u64, u64), a: u64) -> Color {
    Color { r: clamped(rgb.0), g: clamped(rgb.1), b: clamped(rgb.2), a }
}

/// `x + t * (y - x)`: the fraction `t` of the way from `x` to `y`.
pub open spec fn blend(x: u64, y: u64, t: u64) -> u64 {
    sum(x, product(t, difference(y, x)))
}

fn lerp(x: u64, y: u64, t: u64) -> (r: u64)
    ensures
        r == blend(x, y, t),
{
    plus(x, times(t, minus(y, x)))
}

impl Color {
    /// The colour of a hue in degrees, a saturation, a value and an alpha:
    /// the hue brought into one turn, the others into `[0, 1]`, and the
    /// channels that come out into `[0, 1]` again.
    pub open spec fn of_hsva(h: u64, s: u64, v: u64, a: u64) -> Color {
        clamped_rgb(hsv_rgb(normalized_angle(h), clamped(s), clamped(v)), clamped(a))
    }

    /// The colour of a hue in degrees, a saturation, a lightness and an
    /// alpha, brought into range as for `of_hsva`.
    pub open spec fn of_hsla(h: u64, s: u64, l: u64, a: u64) -> Color {
        clamped_rgb(hsl_rgb(normalized_angle(h), clamped(s), clamped(l)), clamped(a))
    }

    /// The colour of a hue in degrees, a whiteness, a blackness and an
    /// alpha. The alpha is taken as it is.
    pub open spec fn of_hwba(h: u64, w: u64, b: u64, a: u64) -> Color {
        clamped_rgb(hwb_rgb(normalized_angle(h), clamped(w), clamped(b)), a)
    }

    /// The four channels as bytes.
    pub open spec fn bytes(&self) -> (u8, u8, u8, u8) {
        (
            byte_of_unit(self.r) as u8,
            byte_of_unit(self.g) as u8,
            byte_of_unit(self.b) as u8,
            byte_of_unit(self.a) as u8,
        )
    }

    /// Arguments:
    ///
    /// * `r`: Red value [0..1]
    /// * `g`: Green value [0..1]
    /// * `b`: Blue value [0..1]
    pub fn from_rgb(r: u64, g: u64, b: u64) -> (c: Color)
        ensures
            c == (Color { r, g, b, a: ONE }),
    {
        Color { r, g, b, a: ONE }
    }

    /// Arguments:
    ///
    /// * `r`: Red value [0..1]
    /// * `g`: Green value [0..1]
    /// * `b`: Blue value [0..1]
    /// * `a`: Alpha value [0..1]
    pub fn from_rgba(r: u64, g: u64, b: u64, a: u64) -> (c: Color)
        ensures
            c == (Color { r, g, b, a }),
    {
        Color { r, g, b, a }
    }

    /// Arguments:
    ///
    /// * `r`: Red value [0..255]
    /// * `g`: Green value [0..255]
    /// * `b`: Blue value [0..255]
    pub fn from_rgb_u8(r: u8, g: u8, b: u8) -> (c: Color)
        ensures
            c == (Color { r: unit_of_byte(r), g: unit_of_byte(g), b: unit_of_byte(b), a: ONE }),
    {
        Color { r: unit_from_byte(r), g: unit_from_byte(g), b: unit_from_byte(b), a: ONE }
    }

    /// Arguments:
    ///
    /// * `r`: Red value [0..255]
    /// * `g`: Green value [0..255]
    /// * `b`: Blue value [0..255]
    /// * `a`: Alpha value [0..255]
    pub fn from_rgba_u8(r: u8, g: u8, b: u8, a: u8) -> (c: Color)
        ensures
            c == (Color {
                r: unit_of_byte(r),
                g: unit_of_byte(g),
                b: unit_of_byte(b),
                a: unit_of_byte(a),
            }),
    {
        Color {
            r: unit_from_byte(r),
            g: unit_from_byte(g),
            b: unit_from_byte(b),
            a: unit_from_byte(a),
        }
    }

    /// Arguments:
    ///
    /// * `h`: Hue angle [0..360]
    /// * `s`: Saturation [0..1]
    /// * `v`: Value [0..1]
    pub fn from_hsv(h: u64, s: u64, v: u64) -> (c: Color)
        ensures
            c == Color::of_hsva(h, s, v, ONE),
    {
        Color::from_hsva(h, s, v, ONE)
    }

    /// Arguments:
    ///
    /// * `h`: Hue angle [0..360]
    /// * `s`: Saturation [0..1]
    /// * `v`: Value [0..1]
    /// * `a`: Alpha [0..1]
    pub fn from_hsva(h: u64, s: u64, v: u64, a: u64) -> (c: Color)
        ensures
            c == Color::of_hsva(h, s, v, a),
    {
        let (r, g, b) = hsv_to_rgb(normalize_angle(h), clamp0_1(s), clamp0_1(v));
        Color::from_rgba(clamp0_1(r), clamp0_1(g), clamp0_1(b), clamp0_1(a))
    }

    /// Arguments:
    ///
    /// * `h`: Hue angle [0..360]
    /// * `s`: Saturation [0..1]
    /// * `l`: Lightness [0..1]
    pub fn from_hsl(h: u64, s: u64, l: u64) -> (c: Color)
        ensures
            c == Color::of_hsla(h, s, l, ONE),
    {
        Color::from_hsla(h, s, l, ONE)
    }

    /// Arguments:
    ///
    /// * `h`: Hue angle [0..360]
    /// * `s`: Saturation [0..1]
    /// * `l`: Lightness [0..1]
    /// * `a`: Alpha [0..1]
    pub fn from_hsla(h: u64, s: u64, l: u64, a: u64) -> (c: Color)
        ensures
            c == Color::of_hsla(h, s, l, a),
    {
        let (r, g, b) = hsl_to_rgb(normalize_angle(h), clamp0_1(s), clamp0_1(l));
        Color::from_rgba(clamp0_1(r), clamp0_1(g), clamp0_1(b), clamp0_1(a))
    }

    /// Arguments:
    ///
    /// * `h`: Hue angle [0..360]
    /// * `w`: Whiteness [0..1]
    /// * `b`: Blackness [0..1]
    pub fn from_hwb(h: u64, w: u64, b: u64) -> (c: Color)
        ensures
            c == Color::of_hwba(h, w, b, ONE),
    {
        Color::from_hwba(h, w, b, ONE)
    }

    /// Arguments:
    ///
    /// * `h`: Hue angle [0..360]
    /// * `w`: Whiteness [0..1]
    /// * `b`: Blackness [0..1]
    /// * `a`: Alpha [0..1]
    pub fn from_hwba(h: u64, w: u64, b: u64, a: u64) -> (c: Color)
        ensures
            c == Color::of_hwba(h, w, b, a),
    {
        let (r, g, b) = hwb_to_rgb(normalize_angle(h), clamp0_1(w), clamp0_1(b));
        Color::from_rgba(clamp0_1(r), clamp0_1(g), clamp0_1(b), a)
    }

    /// Returns: `(r, g, b, a)`
    ///
    /// * Red, green, blue and alpha in the range [0..1]
    pub fn rgba(&self) -> (t: (u64, u64, u64, u64))
        ensures
            t == self@,
    {
        (self.r, self.g, self.b, self.a)
    }

    /// Returns: `(r, g, b, a)`
    ///
    /// * Red, green, blue and alpha in the range [0..255]
    pub fn rgba_u8(&self) -> (t: (u8, u8, u8, u8))
        ensures
            t == self.bytes(),
    {
        (unit_to_byte(self.r), unit_to_byte(self.g), unit_to_byte(self.b), unit_to_byte(self.a))
    }

    /// Get the red value [0..1].
    pub fn red(&self) -> (x: u64)
        ensures
            x == self.r,
    {
        self.r
    }

    /// Get the green value [0..1].
    pub fn green(&self) -> (x: u64)
        ensures
            x == self.g,
    {
        self.g
    }

    /// Get the blue value [0..1].
    pub fn blue(&self) -> (x: u64)
        ensures
            x == self.b,
    {
        self.b
    }

    /// Get the alpha value [0..1].
    pub fn alpha(&self) -> (x: u64)
        ensures
            x == self.a,
    {
        self.a
    }

    /// Returns: `(h, s, v, a)`
    ///
    /// * `h`: Hue angle [0..360]
    /// * `s`: Saturation [0..1]
    /// * `v`: Value [0..1]
    /// * `a`: Alpha [0..1]
    pub fn to_hsva(&self) -> (t: (u64, u64, u64, u64))
        ensures
            (t.0, t.1, t.2) == rgb_hsv(self.r, self.g, self.b),
            t.3 == self.a,
    {
        let (h, s, v) = rgb_to_hsv(self.r, self.g, self.b);
        (h, s, v, self.a)
    }

    /// Returns: `(h, s, l, a)`
    ///
    /// * `h`: Hue angle [0..360]
    /// * `s`: Saturation [0..1]
    /// * `l`: Lightness [0..1]
    /// * `a`: Alpha [0..1]
    pub fn to_hsla(&self) -> (t: (u64, u64, u64, u64))
        ensures
            (t.0, t.1, t.2) == rgb_hsl(self.r, self.g, self.b),
            t.3 == self.a,
    {
        let (h, s, l) = rgb_to_hsl(self.r, self.g, self.b);
        (h, s, l, self.a)
    }

    /// Returns: `(h, w, b, a)`
    ///
    /// * `h`: Hue angle [0..360]
    /// * `w`: Whiteness [0..1]
    /// * `b`: Blackness [0..1]
    /// * `a`: Alpha [0..1]
    pub fn to_hwba(&self) -> (t: (u64, u64, u64, u64))
        ensures
            (t.0, t.1, t.2) == rgb_hwb(self.r, self.g, self.b),
            t.3 == self.a,
    {
        let (h, w, b) = rgb_to_hwb(self.r, self.g, self.b);
        (h, w, b, self.a)
    }

    /// Get the RGB hexadecimal color string.
    pub fn to_hex_string(&self) -> (s: String)
        ensures
            s@ == hex_text(self.bytes().0, self.bytes().1, self.bytes().2, self.bytes().3),
    {
        let (r, g, b, a) = self.rgba_u8();
        hex_string(r, g, b, a)
    }

    /// Get the CSS `rgb()` format string. Where alpha is below one the
    /// `rgba()` form is written, with `alpha` as its last argument: the
    /// caller hands in the alpha channel's decimal text.
    pub fn to_rgb_string(&self, alpha: &str) -> (s: String)
        ensures
            s@ == rgb_text(
                self.bytes().0,
                self.bytes().1,
                self.bytes().2,
                if less(self.a, ONE) {
                    Some(alpha@)
                } else {
                    None
                },
            ),
    {
        let (r, g, b, _) = self.rgba_u8();
        if lt(self.a, ONE) {
            rgb_string(r, g, b, Some(alpha))
        } else {
            rgb_string(r, g, b, None)
        }
    }

    /// Blend this color with the other one, in the RGB color-space. `t` in the range [0..1].
    pub fn interpolate_rgb(&self, other: &Color, t: u64) -> (c: Color)
        ensures
            c@ == (
                blend(self.r, other.r, t),
                blend(self.g, other.g, t),
                blend(self.b, other.b, t),
                blend(self.a, other.a, t),
            ),
    {
        Color {
            r: lerp(self.r, other.r, t),
            g: lerp(self.g, other.g, t),
            b: lerp(self.b, other.b, t),
            a: lerp(self.a, other.a, t),
        }
    }

    /// Blend this color with the other one, in the HSV color-space. `t` in the range [0..1].
    pub fn interpolate_hsv(&self, other: &Color, t: u64) -> (c: Color)
        ensures
            ({
                let p = rgb_hsv(self.r, self.g, self.b);
                let q = rgb_hsv(other.r, other.g, other.b);
                c == Color::of_hsva(
                    interpolated_angle(p.0, q.0, t),
                    blend(p.1, q.1, t),
                    blend(p.2, q.2, t),
                    blend(self.a, other.a, t),
                )
            }),
    {
        let (h1, s1, v1, a1) = self.to_hsva();
        let (h2, s2, v2, a2) = other.to_hsva();
        Color::from_hsva(interp_angle(h1, h2, t), lerp(s1, s2, t), lerp(v1, v2, t), lerp(a1, a2, t))
    }
}

/// The channels a colour is built from are the channels read from it,
/// unchanged.
pub proof fn lemma_channels_round_trip(r: u64, g: u64, b: u64, a: u64)
    ensures
        (Color { r, g, b, a })@ == (r, g, b, a),
{
}

/// A colour built without saturation is grey, whatever hue it is given: its
/// red, green and blue are equal. So is one built from a whiteness and a
/// blackness that, brought into range, add up to one or more.
pub proof fn lemma_colourless_is_grey(h: u64, s: u64, x: u64, a: u64)
    ensures
        equal(s, ZERO) ==> Color::of_hsla(h, s, x, a).r == Color::of_hsla(h, s, x, a).g
            && Color::of_hsla(h, s, x, a).g == Color::of_hsla(h, s, x, a).b,
        equal(s, ZERO) && !is_nan(x) ==> Color::of_hsva(h, s, x, a).r == Color::of_hsva(
            h,
            s,
            x,
            a,
        ).g && Color::of_hsva(h, s, x, a).g == Color::of_hsva(h, s, x, a).b,
        at_least(sum(clamped(s), clamped(x)), ONE) ==> Color::of_hwba(h, s, x, a).r
            == Color::of_hwba(h, s, x, a).g && Color::of_hwba(h, s, x, a).g == Color::of_hwba(
            h,
            s,
            x,
            a,
        ).b,
{
    if equal(s, ZERO) {
        lemma_hsl_without_saturation(normalized_angle(h), clamped(s), clamped(x));
        if !is_nan(x) {
            lemma_hsv_without_saturation(normalized_angle(h), clamped(s), clamped(x));
        }
    }
    if at_least(sum(clamped(s), clamped(x)), ONE) {
        lemma_hwb_filled(normalized_angle(h), clamped(s), clamped(x));
    }
}

/// A colour made of four bytes has those four bytes, and so writes as their
/// hexadecimal string.
pub proof fn lemma_bytes_round_trip(r: u8, g: u8, b: u8, a: u8)
    ensures
        (Color {
            r: unit_of_byte(r),
            g: unit_of_byte(g),
            b: unit_of_byte(b),
            a: unit_of_byte(a),
        }).bytes() == (r, g, b, a),
        (Color { r: unit_of_byte(r), g: unit_of_byte(g), b: unit_of_byte(b), a: ONE }).bytes() == (
            r,
            g,
            b,
            255u8,
        ),
{
    lemma_byte_round_trip(r);
    lemma_byte_round_trip(g);
    lemma_byte_round_trip(b);
    lemma_byte_round_trip(a);
    lemma_byte_round_trip(255);
    lemma_unit_of_full_byte();
}

impl Default for Color {
    /// Opaque black.
    fn default() -> (c: Color)
        ensures
            c@ == (ZERO, ZERO, ZERO, ONE),
    {
        Color { r: ZERO, g: ZERO, b: ZERO, a: ONE }
    }
}

impl From<(u64, u64, u64, u64)> for Color {
    fn from(t: (u64, u64, u64, u64)) -> (c: Color) {
        Color::from_rgba(t.0, t.1, t.2, t.3)
    }
}

impl FromSpecImpl<(u64, u64, u64, u64)> for Color {
    open spec fn obeys_from_spec() -> bool {
        true
    }

    open spec fn from_spec(t: (u64, u64, u64, u64)) -> Color {
        Color { r: t.0, g: t.1, b: t.2, a: t.3 }
    }
}

impl From<(u64, u64, u64)> for Color {
    fn from(t: (u64, u64, u64)) -> (c: Color) {
        Color::from_rgb(t.0, t.1, t.2)
    }
}

impl FromSpecImpl<(u64, u64, u64)> for Color {
    open spec fn obeys_from_spec() -> bool {
        true
    }

    open spec fn from_spec(t: (u64, u64, u64)) -> Color {
        Color { r: t.0, g: t.1, b: t.2, a: ONE }
    }
}

impl From<[u64; 4]> for Color {
    fn from(t: [u64; 4]) -> (c: Color) {
        Color::from_rgba(t[0], t[1], t[2], t[3])
    }
}

impl FromSpecImpl<[u64; 4]> for Color {
    open spec fn obeys_from_spec() -> bool {
        true
    }

    open spec fn from_spec(t: [u64; 4]) -> Color {
        Color { r: t[0], g: t[1], b: t[2], a: t[3] }
    }
}

impl From<[u64; 3]> for Color {
    fn from(t: [u64; 3]) -> (c: Color) {
        Color::from_rgb(t[0], t[1], t[2])
    }
}

impl FromSpecImpl<[u64; 3]> for Color {
    open spec fn obeys_from_spec() -> bool {
        true
    }

    open spec fn from_spec(t: [u64; 3]) -> Color {
        Color { r: t[0], g: t[1], b: t[2], a: ONE }
    }
}

impl From<(u8, u8, u8, u8)> for Color {
    fn from(t: (u8, u8, u8, u8)) -> (c: Color) {
        Color::from_rgba_u8(t.0, t.1, t.2, t.3)
    }
}

impl FromSpecImpl<(u8, u8, u8, u8)> for Color {
    open spec fn obeys_from_spec() -> bool {
        true
    }

    open spec fn from_spec(t: (u8, u8, u8, u8)) -> Color {
        Color {
            r: unit_of_byte(t.0),
            g: unit_of_byte(t.1),
            b: unit_of_byte(t.2),
            a: unit_of_byte(t.3),
        }
    }
}

impl From<(u8, u8, u8)> for Color {
    fn from(t: (u8, u8, u8)) -> (c: Color) {
        Color::from_rgb_u8(t.0, t.1, t.2)
    }
}

impl FromSpecImpl<(u8, u8, u8)> for Color {
    open spec fn obeys_from_spec() -> bool {
        true
    }

    open spec fn from_spec(t: (u8, u8, u8)) -> Color {
        Color { r: unit_of_byte(t.0), g: unit_of_byte(t.1), b: unit_of_byte(t.2), a: ONE }
    }
}

impl From<[u8; 4]> for Color {
    fn from(t: [u8; 4]) -> (c: Color) {
        Color::from_rgba_u8(t[0], t[1], t[2], t[3])
    }
}

impl FromSpecImpl<[u8; 4]> for Color {
    open spec fn obeys_from_spec() -> bool {
        true
    }

    open spec fn from_spec(t: [u8; 4]) -> Color {
        Color {
            r: unit_of_byte(t[0]),
            g: unit_of_byte(t[1]),
            b: unit_of_byte(t[2]),
            a: unit_of_byte(t[3]),
        }
    }
}

impl From<[u8; 3]> for Color {
    fn from(t: [u8; 3]) -> (c: Color) {
        Color::from_rgb_u8(t[0], t[1], t[2])
    }
}

impl FromSpecImpl<[u8; 3]> for Color {
    open spec fn obeys_from_spec() -> bool {
        true
    }

    open spec fn from_spec(t: [u8; 3]) -> Color {
        Color { r: unit_of_byte(t[0]), g: unit_of_byte(t[1]), b: unit_of_byte(t[2]), a: ONE }
    }
}

impl PartialEq for Color {
    /// Channel by channel, as numbers: the two zeros are equal, and a NaN
    /// equals nothing.
    fn eq(&self, other: &Color) -> (r: bool) {
        eq(self.r, other.r) && eq(self.g, other.g) && eq(self.b, other.b) && eq(self.a, other.a)
    }
}

impl PartialEqSpecImpl for Color {
    open spec fn obeys_eq_spec() -> bool {
        true
    }

    open spec fn eq_spec(&self, other: &Color) -> bool {
        equal(self.r, other.r) && equal(self.g, other.g) && equal(self.b, other.b) && equal(
            self.a,
            other.a,
        )
    }
}

} // verus!
