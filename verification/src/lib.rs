//! Colours as red, green, blue and alpha, with conversions to and from the
//! hue-based representations HSL, HSV and HWB, blending, and CSS text forms.
//!
//! Every channel is an IEEE 754 binary64 number, handed in and out as its
//! bit pattern in a `u64`. The arithmetic on those patterns is the library's
//! own, done in whole numbers and proved to give the exact result rounded to
//! nearest, so that each conversion is the formula it states, bit for bit.
//! Powers and cube roots are not computed here: the transfer curve of
//! `transfer` and the matrices of `oklab` take them from the caller.

pub mod angle;
pub mod arith;
pub mod binary64;
pub mod channel;
pub mod color;
pub mod convert;
pub mod oklab;
pub mod rounding;
pub mod text;
pub mod transfer;
pub mod whole;

pub use color::Color;
