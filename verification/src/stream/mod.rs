pub mod bitstream;
pub mod block_writer;
pub mod block_reader;
pub mod block_roundtrip;


use vstd::prelude::*;

verus! {

/// Magic bytes at the start of every compressed stream: "TTH1".
pub const MAGIC: [u8; 4] = [84u8, 84u8, 72u8, 49u8];

pub const DEFAULT_BLOCK_SAMPLES: usize = 256;

pub const MICRO_BLOCK_SAMPLES: usize = 128;

/// Interpretation of a compressed stream's payload; its header byte is its
/// position in this list.
#[derive(Copy, Clone, Debug, PartialEq, Eq, Structural)]
pub enum StreamDataType {
    Bytes,
    I64,
    F64,
}

pub open spec fn data_type_code(t: StreamDataType) -> u8 {
    match t {
        StreamDataType::Bytes => 0,
        StreamDataType::I64 => 1,
        StreamDataType::F64 => 2,
    }
}

impl StreamDataType {
    pub fn from_u8(v: u8) -> (r: Option<Self>)
        ensures
            r is Some <==> v <= 2,
            r matches Some(t) ==> data_type_code(t) == v,
    {
        match v {
            0 => Some(Self::Bytes),
            1 => Some(Self::I64),
            2 => Some(Self::F64),
            _ => None,
        }
    }
}

} // verus!
