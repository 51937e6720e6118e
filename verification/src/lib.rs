//! Tether: low-memory, lossless compression for streaming numeric data.

pub mod le_bytes;
pub mod entropy;
pub mod predictor;
pub mod stream;
pub mod memory_budget;
pub mod image;
pub mod codec;
pub mod codec_roundtrip;
pub mod streaming;
pub mod streaming_roundtrip;

pub use memory_budget::{MemoryBudget, MemoryProfile};
pub use stream::block_writer::BlockWriter;
pub use stream::block_reader::BlockReader;
pub use stream::{MAGIC, StreamDataType};
pub use predictor::PredictorMode;
pub use entropy::AdaptiveTable;
pub use codec::{compress, decompress, compress_i64, decompress_i64, compress_f64_bits,
    decompress_f64_bits};
