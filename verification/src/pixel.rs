//! The pixel: four 8-bit channels.

use vstd::prelude::*;

verus! {

/// The distance between two channel values.
pub open spec fn distance(x: int, y: int) -> int {
    if x >= y {
        x - y
    } else {
        y - x
    }
}

/// One pixel: red, green, blue and alpha, each an unsigned 8-bit value.
///
/// Sorting moves pixels around; it never alters a channel.
#[derive(Clone, Copy, Debug, PartialEq, Eq, Hash, Structural)]
pub struct Pixel {
    pub r: u8,
    pub g: u8,
    pub b: u8,
    pub a: u8,
}

impl Pixel {
    /// The largest of the three colour channels.
    pub open spec fn max_channel(self) -> int {
        if self.r >= self.g && self.r >= self.b {
            self.r as int
        } else if self.g >= self.b {
            self.g as int
        } else {
            self.b as int
        }
    }

    /// The smallest of the three colour channels.
    pub open spec fn min_channel(self) -> int {
        if self.r <= self.g && self.r <= self.b {
            self.r as int
        } else if self.g <= self.b {
            self.g as int
        } else {
            self.b as int
        }
    }

    /// The spread of the colour channels: largest minus smallest.
    pub open spec fn chroma(self) -> int {
        self.max_channel() - self.min_channel()
    }

    /// The hue, on a scale of 0 to 255 that is cut into three sectors, one for
    /// each colour channel that can be the largest. It is 0 for a grey pixel.
    /// Otherwise the distance between the two other channels, divided by the
    /// chroma and multiplied by 43, is added to the start of the sector: 0 for
    /// red, 85 for green, 171 for blue. Where several channels are the
    /// largest, red goes before green and green before blue. The division
    /// truncates.
    pub open spec fn hue(self) -> int {
        let c = self.chroma();
        if c == 0 {
            0
        } else if self.r == self.max_channel() {
            distance(self.g as int, self.b as int) / c * 43
        } else if self.g == self.max_channel() {
            distance(self.b as int, self.r as int) / c * 43 + 85
        } else {
            distance(self.r as int, self.g as int) / c * 43 + 171
        }
    }

    /// The saturation: 0 for a black pixel, otherwise the chroma divided by
    /// the largest channel. The division truncates.
    pub open spec fn saturation(self) -> int {
        if self.max_channel() == 0 {
            0
        } else {
            self.chroma() / self.max_channel()
        }
    }

    /// The brightness: the thirds of the three colour channels, plus the third
    /// of what those divisions left over.
    pub open spec fn brightness(self) -> int {
        self.r / 3 + self.g / 3 + self.b / 3 + (self.r % 3 + self.g % 3 + self.b % 3) / 3
    }

    /// The brightness is the mean of the three colour channels, rounded down.
    pub proof fn lemma_brightness_is_mean(self)
        ensures
            self.brightness() == (self.r + self.g + self.b) / 3,
    {
    }

    /// The luma: red twice, green once and blue four times, the sum shifted
    /// right by three bits, which divides it by eight.
    pub open spec fn luma(self) -> int {
        (self.r * 2 + self.g + self.b * 4) / 8
    }

    /// A pixel from its four channels.
    pub fn new(r: u8, g: u8, b: u8, a: u8) -> (p: Pixel)
        ensures
            p == (Pixel { r, g, b, a }),
    {
        Pixel { r, g, b, a }
    }
}

} // verus!
