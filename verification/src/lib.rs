//! Color statistics of a decoded image, for measuring its Shannon entropy.
//!
//! A [`PixelGrid`] holds the decoded samples. [`sample_rows`] chooses which
//! rows to look at, [`color_histogram`] tallies the colors found on them, and
//! [`sampled_histogram`] does both in one call. The [`Histogram`] lists every
//! distinct color with its number of occurrences, in the order in which the
//! colors were first met, so that a sum over it is reproducible: the entropy
//! in bits is the sum of `-p * log2(p)` over its lines, where `p` is a line's
//! count divided by the total.
//!
//! - [`color`]: samples and color keys
//! - [`grid`]: the image as a rectangle of samples
//! - [`percentage`]: the share of rows to look at, and how many rows it makes
//! - [`sampler`]: the choice of rows
//! - [`histogram`]: counting colors
//! - [`scan`]: from an image to its histogram

pub mod color;
pub mod grid;
pub mod histogram;
pub mod percentage;
pub mod sampler;
pub mod scan;

pub use color::{Rgb, Rgba};
pub use grid::{GridView, PixelGrid};
pub use histogram::{ColorCount, Histogram, Tally};
pub use percentage::{target_row_count, Percentage, FULL_UNITS, UNITS_PER_PERCENT};
pub use sampler::{every_row, keep_first, sample_rows};
pub use scan::{color_histogram, sampled_histogram};
