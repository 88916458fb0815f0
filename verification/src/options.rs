//! The options of a sort: which pixels are sorted, and in which direction.

use vstd::prelude::*;
use crate::heuristic::SortHeuristic;
use crate::pixel::Pixel;

verus! {

/// What a sort is configured with.
#[derive(Clone, Copy, Debug, PartialEq, Eq, Structural)]
pub struct SortOptions {
    /// The scalar by which pixels are selected and ordered.
    pub heuristic: SortHeuristic,
    /// The lower bound of the range, inclusive.
    pub minimum: u8,
    /// The upper bound of the range, inclusive.
    pub maximum: u8,
    /// Sort the pixels outside the range rather than those inside.
    pub invert: bool,
    /// Sort downwards rather than upwards.
    pub reverse: bool,
    /// Leave fully transparent pixels alone.
    pub mask_alpha: bool,
}

impl SortOptions {
    /// Whether the heuristic places the pixel inside the range. No pixel is
    /// inside a range whose minimum exceeds its maximum.
    pub open spec fn in_range(self, p: Pixel) -> bool {
        self.minimum <= self.heuristic.value(p) <= self.maximum
    }

    /// Whether the alpha mask lets the pixel through: it holds back the pixels
    /// of alpha 0, and only if `mask_alpha` is set.
    pub open spec fn mask_passes(self, p: Pixel) -> bool {
        !(self.mask_alpha && p.a == 0)
    }

    /// Whether the pixel takes part in sorting: the mask lets it through, and
    /// it is inside the range, or outside it if `invert` is set.
    pub open spec fn sortable(self, p: Pixel) -> bool {
        (self.in_range(p) != self.invert) && self.mask_passes(p)
    }

    /// Decides whether a pixel takes part in sorting.
    pub fn is_sortable(&self, pixel: &Pixel) -> (yes: bool)
        ensures
            yes == self.sortable(*pixel),
    {
        let value = self.heuristic.func(pixel);
        let inside = self.minimum <= value && value <= self.maximum;
        let passes = !(self.mask_alpha && pixel.a == 0);
        (inside != self.invert) && passes
    }
}

impl Default for SortOptions {
    /// The options that hold where nothing else is asked for: luma, the full
    /// range, nothing inverted, reversed or masked.
    fn default() -> (options: SortOptions)
        ensures
            options == (SortOptions {
                heuristic: SortHeuristic::Luma,
                minimum: 0,
                maximum: 255,
                invert: false,
                reverse: false,
                mask_alpha: false,
            }),
    {
        SortOptions {
            heuristic: SortHeuristic::Luma,
            minimum: 0,
            maximum: 255,
            invert: false,
            reverse: false,
            mask_alpha: false,
        }
    }
}

} // verus!
