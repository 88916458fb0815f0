//! The scalar heuristics: each maps a pixel to one 8-bit value, which is used
//! both to decide whether the pixel is sorted and to order it.

use vstd::prelude::*;
use crate::pixel::{distance, Pixel};

verus! {

fn channel_distance(x: u8, y: u8) -> (d: u8)
    ensures
        d == distance(x as int, y as int),
{
    if x >= y {
        x - y
    } else {
        y - x
    }
}

/// The largest of the red, green and blue channels.
pub fn pixel_max(pixel: &Pixel) -> (m: u8)
    ensures
        m == pixel.max_channel(),
{
    if pixel.r >= pixel.g && pixel.r >= pixel.b {
        pixel.r
    } else if pixel.g >= pixel.b {
        pixel.g
    } else {
        pixel.b
    }
}

/// The smallest of the red, green and blue channels.
pub fn pixel_min(pixel: &Pixel) -> (m: u8)
    ensures
        m == pixel.min_channel(),
{
    if pixel.r <= pixel.g && pixel.r <= pixel.b {
        pixel.r
    } else if pixel.g <= pixel.b {
        pixel.g
    } else {
        pixel.b
    }
}

/// The chroma: largest colour channel minus smallest.
pub fn pixel_chroma(pixel: &Pixel) -> (c: u8)
    ensures
        c == pixel.chroma(),
{
    pixel_max(pixel) - pixel_min(pixel)
}

/// A quotient of two channel values is at most 1 when the dividend does not
/// exceed the divisor.
proof fn lemma_quotient_at_most_one(d: int, c: int)
    by (nonlinear_arith)
    requires
        0 <= d <= c,
        0 < c,
    ensures
        0 <= d / c <= 1,
{
}

/// The hue of a pixel.
pub fn pixel_hue(pixel: &Pixel) -> (h: u8)
    ensures
        h == pixel.hue(),
{
    let c = pixel_chroma(pixel);
    if c == 0 {
        return 0;
    }
    let m = pixel_max(pixel);
    if pixel.r == m {
        let d = channel_distance(pixel.g, pixel.b);
        proof {
            lemma_quotient_at_most_one(d as int, c as int);
        }
        d / c * 43
    } else if pixel.g == m {
        let d = channel_distance(pixel.b, pixel.r);
        proof {
            lemma_quotient_at_most_one(d as int, c as int);
        }
        d / c * 43 + 85
    } else {
        let d = channel_distance(pixel.r, pixel.g);
        proof {
            lemma_quotient_at_most_one(d as int, c as int);
        }
        d / c * 43 + 171
    }
}

/// The scalar by which pixels are selected and ordered.
#[derive(Clone, Copy, Debug, PartialEq, Eq, Hash, Structural)]
pub enum SortHeuristic {
    Luma,
    Brightness,
    Max,
    Min,
    Chroma,
    Hue,
    Saturation,
    Value,
    Red,
    Blue,
    Green,
}

impl SortHeuristic {
    /// The value that this heuristic gives a pixel. It lies between 0 and 255
    /// and never depends on the alpha channel.
    pub open spec fn value(self, p: Pixel) -> int {
        match self {
            SortHeuristic::Luma => p.luma(),
            SortHeuristic::Brightness => p.brightness(),
            SortHeuristic::Max => p.max_channel(),
            SortHeuristic::Min => p.min_channel(),
            SortHeuristic::Chroma => p.chroma(),
            SortHeuristic::Hue => p.hue(),
            SortHeuristic::Saturation => p.saturation(),
            SortHeuristic::Value => p.max_channel(),
            SortHeuristic::Red => p.r as int,
            SortHeuristic::Blue => p.b as int,
            SortHeuristic::Green => p.g as int,
        }
    }

    /// Every heuristic value fits in eight bits.
    pub proof fn lemma_value_is_byte(self, p: Pixel)
        ensures
            0 <= self.value(p) <= 255,
    {
        let c = p.chroma();
        if c > 0 {
            lemma_quotient_at_most_one(distance(p.g as int, p.b as int), c);
            lemma_quotient_at_most_one(distance(p.b as int, p.r as int), c);
            lemma_quotient_at_most_one(distance(p.r as int, p.g as int), c);
        }
        if p.max_channel() > 0 {
            lemma_quotient_at_most_one(c, p.max_channel());
        }
    }

    /// No heuristic looks at the alpha channel.
    pub proof fn lemma_value_ignores_alpha(self, p: Pixel, q: Pixel)
        requires
            p.r == q.r,
            p.g == q.g,
            p.b == q.b,
        ensures
            self.value(p) == self.value(q),
    {
    }

    /// Evaluates this heuristic on a pixel.
    pub fn func(&self, pixel: &Pixel) -> (v: u8)
        ensures
            v == self.value(*pixel),
    {
        match self {
            SortHeuristic::Red => pixel.r,
            SortHeuristic::Green => pixel.g,
            SortHeuristic::Blue => pixel.b,
            SortHeuristic::Max => pixel_max(pixel),
            SortHeuristic::Min => pixel_min(pixel),
            SortHeuristic::Chroma => pixel_chroma(pixel),
            SortHeuristic::Hue => pixel_hue(pixel),
            SortHeuristic::Saturation => {
                let v = pixel_max(pixel);
                if v == 0 {
                    0
                } else {
                    pixel_chroma(pixel) / v
                }
            },
            SortHeuristic::Value => pixel_max(pixel),
            SortHeuristic::Brightness => {
                pixel.r / 3 + pixel.g / 3 + pixel.b / 3 + (pixel.r % 3 + pixel.g % 3 + pixel.b % 3) / 3
            },
            SortHeuristic::Luma => {
                let sum: u16 = pixel.r as u16 * 2 + pixel.g as u16 + pixel.b as u16 * 4;
                assert(sum >> 3 == sum / 8) by (bit_vector);
                (sum >> 3) as u8
            },
        }
    }
}

} // verus!
