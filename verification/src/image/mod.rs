//! Lossless row-by-row image compression.

pub mod spatial_predictor;
pub mod row_codec;
pub mod row_roundtrip;
pub mod image_codec;
pub mod image_roundtrip;

pub use spatial_predictor::{filter_row, unfilter_row, select_best_filter, FilterType};
pub use image_codec::{compress_image_grayscale, decompress_image_grayscale, compress_image_rgb,
    decompress_image_rgb, compress_image, decompress_image};
