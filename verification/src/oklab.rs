//! The linear maps of the Oklab colour space. Between linear-light red,
//! green and blue and Oklab's lightness and two colour axes stand two
//! matrices with a cube, or a cube root, between them. The cube is computed
//! here; the cube root is left to the caller.

use vstd::prelude::*;

use crate::arith::{difference, minus, opposite, plus, product, sum, times};
use crate::binary64::negated;

verus! {

/// 0.3963377774
pub const D0_3963377774: u64 = 0x3fd9_5d99_2006_8c8a;

/// 0.2158037573
pub const D0_2158037573: u64 = 0x3fcb_9f75_1ffa_8cc8;

/// 0.1055613458
pub const D0_1055613458: u64 = 0x3fbb_0611_7fee_c881;

/// 0.0638541728
pub const D0_0638541728: u64 = 0x3fb0_58bf_3fe3_9e34;

/// 0.0894841775
pub const D0_0894841775: u64 = 0x3fb6_e86f_5fdf_38b5;

/// 1.2914855480
pub const D1_2914855480: u64 = 0x3ff4_a9ec_bffe_aa8d;

/// 4.0767245293
pub const D4_0767245293: u64 = 0x4010_4e90_e000_93f6;

/// 3.3072168827
pub const D3_3072168827: u64 = 0x400a_752e_1fff_cdf7;

/// 0.2307590544
pub const D0_2307590544: u64 = 0x3fcd_8983_3ff3_b280;

/// 1.2681437731
pub const D1_2681437731: u64 = 0x3ff4_4a51_2001_72df;

/// 2.6093323231
pub const D2_6093323231: u64 = 0x4004_dfe9_a000_e1b3;

/// 0.3411344290
pub const D0_3411344290: u64 = 0x3fd5_d525_8006_0e7c;

/// 0.0041119885
pub const D0_0041119885: u64 = 0x3f70_d7bb_8210_7fc4;

/// 0.7034763098
pub const D0_7034763098: u64 = 0x3fe6_82e0_c003_41a7;

/// 1.7068625689
pub const D1_7068625689: u64 = 0x3ffb_4f4f_2003_12a0;

/// 0.4121656120
pub const D0_4121656120: u64 = 0x3fda_60eb_e004_da52;

/// 0.5362752080
pub const D0_5362752080: u64 = 0x3fe1_292a_a000_7fc6;

/// 0.0514575653
pub const D0_0514575653: u64 = 0x3faa_58a5_6030_c91f;

/// 0.2118591070
pub const D0_2118591070: u64 = 0x3fcb_1e32_fff6_5eb0;

/// 0.6807189584
pub const D0_6807189584: u64 = 0x3fe5_c873_2003_0bc0;

/// 0.1074065790
pub const D0_1074065790: u64 = 0x3fbb_7eff_602e_243c;

/// 0.0883097947
pub const D0_0883097947: u64 = 0x3fb6_9b78_8027_2950;

/// 0.2818474174
pub const D0_2818474174: u64 = 0x3fd2_09c9_c00c_7be3;

/// 0.6302613616
pub const D0_6302613616: u64 = 0x3fe4_2b19_e000_244b;

/// 0.2104542553
pub const D0_2104542553: u64 = 0x3fca_f02a_3fe8_a4fa;

/// 0.7936177850
pub const D0_7936177850: u64 = 0x3fe9_6551_2003_2aad;

/// 0.0040720468
pub const D0_0040720468: u64 = 0x3f70_add9_bd57_2b38;

/// 1.9779984951
pub const D1_9779984951: u64 = 0x3fff_a5e1_bfff_de12;

/// 2.4285922050
pub const D2_4285922050: u64 = 0x4003_6dc1_bffe_5d3e;

/// 0.4505937099
pub const D0_4505937099: u64 = 0x3fdc_d686_fff3_71a5;

/// 0.0259040371
pub const D0_0259040371: u64 = 0x3f9a_8696_80b7_29e0;

/// 0.7827717662
pub const D0_7827717662: u64 = 0x3fe9_0c77_6001_f502;

/// 0.8086757660
pub const D0_8086757660: u64 = 0x3fe9_e0ac_0001_353d;

/// `x * x * x`, each product rounded.
pub open spec fn cube(x: u64) -> u64 {
    product(product(x, x), x)
}

/// The three cone responses of an Oklab colour: three fixed combinations of
/// lightness `l` and the axes `a` and `b`, each cubed.
pub open spec fn oklab_lms(l: u64, a: u64, b: u64) -> (u64, u64, u64) {
    (
        cube(sum(sum(l, product(D0_3963377774, a)), product(D0_2158037573, b))),
        cube(difference(difference(l, product(D0_1055613458, a)), product(D0_0638541728, b))),
        cube(difference(difference(l, product(D0_0894841775, a)), product(D1_2914855480, b))),
    )
}

/// Linear-light red, green and blue of three cone responses.
pub open spec fn lms_linear(l: u64, m: u64, s: u64) -> (u64, u64, u64) {
    (
        sum(
            difference(product(D4_0767245293, l), product(D3_3072168827, m)),
            product(D0_2307590544, s),
        ),
        difference(
            sum(product(negated(D1_2681437731), l), product(D2_6093323231, m)),
            product(D0_3411344290, s),
        ),
        sum(
            difference(product(negated(D0_0041119885), l), product(D0_7034763098, m)),
            product(D1_7068625689, s),
        ),
    )
}

/// Linear-light red, green and blue of an Oklab colour.
pub open spec fn oklab_linear(l: u64, a: u64, b: u64) -> (u64, u64, u64) {
    let (l, m, s) = oklab_lms(l, a, b);
    lms_linear(l, m, s)
}

/// The three cone responses of linear-light red, green and blue.
pub open spec fn linear_lms(r: u64, g: u64, b: u64) -> (u64, u64, u64) {
    (
        sum(sum(product(D0_4121656120, r), product(D0_5362752080, g)), product(D0_0514575653, b)),
        sum(sum(product(D0_2118591070, r), product(D0_6807189584, g)), product(D0_1074065790, b)),
        sum(sum(product(D0_0883097947, r), product(D0_2818474174, g)), product(D0_6302613616, b)),
    )
}

/// Lightness and the two axes of Oklab, of the cube roots of three cone
/// responses.
pub open spec fn roots_oklab(l: u64, m: u64, s: u64) -> (u64, u64, u64) {
    (
        difference(
            sum(product(D0_2104542553, l), product(D0_7936177850, m)),
            product(D0_0040720468, s),
        ),
        sum(
            difference(product(D1_9779984951, l), product(D2_4285922050, m)),
            product(D0_4505937099, s),
        ),
        difference(
            sum(product(D0_0259040371, l), product(D0_7827717662, m)),
            product(D0_8086757660, s),
        ),
    )
}

fn cubed(x: u64) -> (r: u64)
    ensures
        r == cube(x),
{
    times(times(x, x), x)
}

/// Converts an Oklab colour to linear-light red, green and blue.
pub fn oklab_to_linear_rgb(l: u64, a: u64, b: u64) -> (rgb: (u64, u64, u64))
    ensures
        rgb == oklab_linear(l, a, b),
{
    let l_ = cubed(plus(plus(l, times(D0_3963377774, a)), times(D0_2158037573, b)));
    let m_ = cubed(minus(minus(l, times(D0_1055613458, a)), times(D0_0638541728, b)));
    let s_ = cubed(minus(minus(l, times(D0_0894841775, a)), times(D1_2914855480, b)));
    let r = plus(minus(times(D4_0767245293, l_), times(D3_3072168827, m_)), times(D0_2307590544, s_));
    let g = minus(
        plus(times(opposite(D1_2681437731), l_), times(D2_6093323231, m_)),
        times(D0_3411344290, s_),
    );
    let b = plus(
        minus(times(opposite(D0_0041119885), l_), times(D0_7034763098, m_)),
        times(D1_7068625689, s_),
    );
    (r, g, b)
}

/// Converts linear-light red, green and blue to the three cone responses,
/// of which the caller takes the cube roots.
pub fn linear_rgb_to_lms(r: u64, g: u64, b: u64) -> (lms: (u64, u64, u64))
    ensures
        lms == linear_lms(r, g, b),
{
    (
        plus(plus(times(D0_4121656120, r), times(D0_5362752080, g)), times(D0_0514575653, b)),
        plus(plus(times(D0_2118591070, r), times(D0_6807189584, g)), times(D0_1074065790, b)),
        plus(plus(times(D0_0883097947, r), times(D0_2818474174, g)), times(D0_6302613616, b)),
    )
}

/// Converts the cube roots of three cone responses to an Oklab colour.
pub fn lms_roots_to_oklab(l: u64, m: u64, s: u64) -> (lab: (u64, u64, u64))
    ensures
        lab == roots_oklab(l, m, s),
{
    (
        minus(plus(times(D0_2104542553, l), times(D0_7936177850, m)), times(D0_0040720468, s)),
        plus(minus(times(D1_9779984951, l), times(D2_4285922050, m)), times(D0_4505937099, s)),
        minus(plus(times(D0_0259040371, l), times(D0_7827717662, m)), times(D0_8086757660, s)),
    )
}

} // verus!
