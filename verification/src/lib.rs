//! Extraction of a one-dimensional brightness signal from a fixed column of a
//! raster image: per-pixel sampling, selection of a single colour channel, and
//! joint normalization of the sampled values to the unit interval. Every step
//! carries a proved contract; coordinates are kept exact (x in thousandths of
//! a plotting unit, y as a rational number) so that nothing is left to
//! floating-point rounding.

mod image;
mod signal;

pub use image::ImageData;
pub use signal::SAMPLE_COLUMN;
pub use signal::SAMPLE_ROWS;
pub use signal::X_STEP_MILLI;
pub use signal::ErrorKind;
pub use signal::Point;
pub use signal::Signal;
pub use signal::get_points;
pub use signal::normalize_points;
pub use signal::sample_column;
pub use signal::min_scan;
pub use signal::max_scan;
pub use signal::raw_seq;
pub use signal::signal_of;
pub use signal::lemma_extracted_shape;
pub use signal::lemma_normalized_range;
pub use signal::lemma_degenerate_midpoint;
pub use signal::lemma_unknown_selector_empty;
pub use signal::lemma_extraction_deterministic;
