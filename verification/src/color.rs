//! An RGB color value type. Colors can be blended channel by channel, which
//! makes them usable as frame values of an interpolating animation.

use vstd::arithmetic::div_mod::{lemma_div_by_multiple, lemma_div_is_ordered};
use vstd::arithmetic::mul::lemma_mul_inequality;
use vstd::prelude::*;

use crate::interpolated::Interpolatable;

verus! {

/// A color with 8-bit red, green and blue channels.
#[derive(Clone, Copy, Debug, PartialEq, Eq, Structural)]
pub enum Color {
    RGB { r: u8, g: u8, b: u8 },
}

impl Color {
    /// Builds the color with the given red, green and blue channels.
    pub fn new_rgb(r: u8, g: u8, b: u8) -> (result: Color)
        ensures
            result == (Color::RGB { r, g, b }),
    {
        Color::RGB { r, g, b }
    }
}

/// Linear blend of one 8-bit channel: the value `num / den` of the way from
/// `a` to `b`, with the fractional part rounded toward `a`.
pub open spec fn blend_channel(a: int, b: int, num: int, den: int) -> int {
    if b >= a {
        a + (b - a) * num / den
    } else {
        a - (a - b) * num / den
    }
}

/// The distance moved toward the other channel value never exceeds the
/// distance between the two, so a blended channel stays an 8-bit value.
proof fn lemma_blend_step_bounded(diff: int, num: int, den: int)
    requires
        0 <= diff,
        0 <= num <= den,
        0 < den,
    ensures
        0 <= diff * num / den <= diff,
{
    lemma_mul_inequality(num, den, diff);
    lemma_mul_inequality(0, num, diff);
    assert(num * diff == diff * num) by (nonlinear_arith);
    assert(den * diff == diff * den) by (nonlinear_arith);
    lemma_div_is_ordered(0, diff * num, den);
    lemma_div_is_ordered(diff * num, diff * den, den);
    lemma_div_by_multiple(diff, den);
}

/// One channel of the color blend, in executable form.
fn lerp_channel(a: u8, b: u8, num: u64, den: u64) -> (result: u8)
    requires
        0 < den,
        num <= den,
    ensures
        result == blend_channel(a as int, b as int, num as int, den as int),
{
    if b >= a {
        let diff = (b - a) as u128;
        proof {
            assert((diff as int) * (num as int) <= 0xff * 0xffff_ffff_ffff_ffff)
                by (nonlinear_arith)
                requires
                    0 <= diff as int <= 0xff,
                    0 <= num as int <= 0xffff_ffff_ffff_ffff,
            ;
        }
        let moved = diff * (num as u128) / (den as u128);
        proof {
            lemma_blend_step_bounded(diff as int, num as int, den as int);
        }
        a + (moved as u8)
    } else {
        let diff = (a - b) as u128;
        proof {
            assert((diff as int) * (num as int) <= 0xff * 0xffff_ffff_ffff_ffff)
                by (nonlinear_arith)
                requires
                    0 <= diff as int <= 0xff,
                    0 <= num as int <= 0xffff_ffff_ffff_ffff,
            ;
        }
        let moved = diff * (num as u128) / (den as u128);
        proof {
            lemma_blend_step_bounded(diff as int, num as int, den as int);
        }
        a - (moved as u8)
    }
}

impl Interpolatable for Color {
    /// Channel-wise linear blend of two colors.
    open spec fn lerp_spec(self, end: Self, num: int, den: int) -> Self {
        match (self, end) {
            (Color::RGB { r, g, b }, Color::RGB { r: r2, g: g2, b: b2 }) => Color::RGB {
                r: blend_channel(r as int, r2 as int, num, den) as u8,
                g: blend_channel(g as int, g2 as int, num, den) as u8,
                b: blend_channel(b as int, b2 as int, num, den) as u8,
            },
        }
    }

    fn lerp(&self, end: &Self, num: u64, den: u64) -> (result: Self) {
        match (self, end) {
            (Color::RGB { r, g, b }, Color::RGB { r: r2, g: g2, b: b2 }) => Color::RGB {
                r: lerp_channel(*r, *r2, num, den),
                g: lerp_channel(*g, *g2, num, den),
                b: lerp_channel(*b, *b2, num, den),
            },
        }
    }
}

} // verus!
