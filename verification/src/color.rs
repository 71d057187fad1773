//! Colors and the squared-distance measure used to score placements.

use vstd::prelude::*;

verus! {

/// An RGB color: three 8-bit channels. Equality is exact per-channel equality.
#[derive(Clone, Copy, PartialEq, Eq, Structural, Debug)]
pub struct Color {
    pub r: u8,
    pub g: u8,
    pub b: u8,
}

/// Squared difference of one pair of channel values.
pub open spec fn channel_diff2(a: u8, b: u8) -> int {
    (a - b) * (a - b)
}

/// Color distance: the sum of squared per-channel differences.
pub open spec fn dist2(a: Color, b: Color) -> int {
    channel_diff2(a.r, b.r) + channel_diff2(a.g, b.g) + channel_diff2(a.b, b.b)
}

/// The largest possible squared channel difference is 255 * 255.
pub proof fn lemma_channel_diff2_bounds(a: u8, b: u8)
    ensures
        0 <= channel_diff2(a, b) <= 255 * 255,
{
    let d = a - b;
    assert(-255 <= d <= 255);
    assert(d * d <= 255 * 255) by (nonlinear_arith)
        requires
            -255 <= d <= 255,
    ;
    assert(d * d >= 0) by (nonlinear_arith);
}

/// Color distance is bounded by three maximal channel differences.
pub proof fn lemma_dist2_bounds(a: Color, b: Color)
    ensures
        0 <= dist2(a, b) <= 3 * 255 * 255,
{
    lemma_channel_diff2_bounds(a.r, b.r);
    lemma_channel_diff2_bounds(a.g, b.g);
    lemma_channel_diff2_bounds(a.b, b.b);
}

impl Color {
    pub fn new(r: u8, g: u8, b: u8) -> (c: Color)
        ensures
            c == (Color { r, g, b }),
    {
        Color { r, g, b }
    }

    /// Computes the color distance to `other` exactly, in integer arithmetic.
    pub fn distance2(&self, other: &Color) -> (d: u32)
        ensures
            d == dist2(*self, *other),
    {
        proof {
            lemma_dist2_bounds(*self, *other);
        }
        let dr: i32 = self.r as i32 - other.r as i32;
        let dg: i32 = self.g as i32 - other.g as i32;
        let db: i32 = self.b as i32 - other.b as i32;
        proof {
            lemma_channel_diff2_bounds(self.r, other.r);
            lemma_channel_diff2_bounds(self.g, other.g);
            lemma_channel_diff2_bounds(self.b, other.b);
        }
        (dr * dr + dg * dg + db * db) as u32
    }
}

} // verus!
