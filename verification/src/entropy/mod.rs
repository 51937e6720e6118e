pub mod adaptive_table;
pub mod rans_encoder;
pub mod rans_decoder;

pub use adaptive_table::AdaptiveTable;
pub use rans_encoder::RansEncoder;
pub use rans_decoder::RansDecoder;
