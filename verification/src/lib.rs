//! Pixel sorting: along a row of an image, every maximal run of pixels that a
//! heuristic places inside (or outside) a range of values is reordered by that
//! heuristic, while all other pixels stay where they are.

pub mod pixel;
pub mod heuristic;
pub mod name;
pub mod options;
pub mod run;
pub mod row;
pub mod laws;

pub use heuristic::{pixel_chroma, pixel_hue, pixel_max, pixel_min, SortHeuristic};
pub use options::SortOptions;
pub use pixel::Pixel;
pub use row::{run_length, sort_row};
pub use run::sort_run;
