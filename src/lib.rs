//! Computation core of an interactive Mandelbrot renderer: the per-frame
//! image buffer, the split of its rows among workers and the gathering of
//! their results, and the histogram equalization of iteration counts.

mod equalize;
mod generate;
mod image;
mod settings;

pub use equalize::{
    count_at_most, equalize_image, equalized_count, escape_spread, lemma_equalize_monotonic,
    round_div,
};
pub use generate::{
    delivered, gather_rows, lemma_gather_independent_of_workers, lemma_rows_partition, row_ranges,
    rows_delivered, rows_failure, split_rows, worker_end, worker_start, GenerateError,
};
pub use image::{ImageModel, MandelImage, MandelPixel};
pub use settings::{ColorScheme, DrawSettings, SettingsEvent};
