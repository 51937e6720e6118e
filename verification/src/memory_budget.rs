//! The explicit memory contract of the encoder and the decoder.

use vstd::prelude::*;

verus! {

/// Default hard memory ceiling of the encoder: 32 KB.
pub const MAX_ENCODER_MEMORY_BYTES: usize = 32768;

/// Default hard memory ceiling of the decoder: 32 KB.
pub const MAX_DECODER_MEMORY_BYTES: usize = 32768;

#[derive(Copy, Clone, Debug, PartialEq, Eq, Structural)]
pub enum MemoryProfile {
    /// Ultra-constrained MCU profile: max 4 KB working RAM
    Micro4KB,
    /// Constrained embedded profile: max 16 KB working RAM
    Embedded16KB,
    /// Standard embedded profile (default): max 32 KB working RAM
    Embedded32KB,
    /// Desktop-class profile: max 64 KB working RAM
    Desktop64KB,
}

#[derive(Copy, Clone, Debug)]
pub struct MemoryBudget {
    pub profile: MemoryProfile,
    pub max_encoder_bytes: usize,
    pub max_decoder_bytes: usize,
    pub block_samples: usize,
}

impl MemoryBudget {
    pub fn micro_4kb() -> (b: Self)
        ensures
            b.profile == MemoryProfile::Micro4KB,
            b.max_encoder_bytes == 4096,
            b.max_decoder_bytes == 4096,
            b.block_samples == 128,
    {
        MemoryBudget {
            profile: MemoryProfile::Micro4KB,
            max_encoder_bytes: 4096,
            max_decoder_bytes: 4096,
            block_samples: 128,
        }
    }

    pub fn embedded_16kb() -> (b: Self)
        ensures
            b.profile == MemoryProfile::Embedded16KB,
            b.max_encoder_bytes == 16384,
            b.max_decoder_bytes == 16384,
            b.block_samples == 256,
    {
        MemoryBudget {
            profile: MemoryProfile::Embedded16KB,
            max_encoder_bytes: 16384,
            max_decoder_bytes: 16384,
            block_samples: 256,
        }
    }

    pub fn embedded_32kb() -> (b: Self)
        ensures
            b.profile == MemoryProfile::Embedded32KB,
            b.max_encoder_bytes == 32768,
            b.max_decoder_bytes == 32768,
            b.block_samples == 256,
    {
        MemoryBudget {
            profile: MemoryProfile::Embedded32KB,
            max_encoder_bytes: 32768,
            max_decoder_bytes: 32768,
            block_samples: 256,
        }
    }

    pub fn desktop_64kb() -> (b: Self)
        ensures
            b.profile == MemoryProfile::Desktop64KB,
            b.max_encoder_bytes == 65536,
            b.max_decoder_bytes == 65536,
            b.block_samples == 512,
    {
        MemoryBudget {
            profile: MemoryProfile::Desktop64KB,
            max_encoder_bytes: 65536,
            max_decoder_bytes: 65536,
            block_samples: 512,
        }
    }

    /// Checks that a requested encoder working-memory size respects the budget.
    pub fn check_encoder_bound(&self, bytes_allocated: usize) -> (r: Result<(), &'static str>)
        ensures
            r is Ok <==> bytes_allocated <= self.max_encoder_bytes,
            r is Err ==> r == Err::<(), &'static str>(
                "Encoder working set exceeded configured MemoryBudget ceiling",
            ),
    {
        if bytes_allocated > self.max_encoder_bytes {
            Err("Encoder working set exceeded configured MemoryBudget ceiling")
        } else {
            Ok(())
        }
    }

    /// Checks that a requested decoder working-memory size respects the budget.
    pub fn check_decoder_bound(&self, bytes_allocated: usize) -> (r: Result<(), &'static str>)
        ensures
            r is Ok <==> bytes_allocated <= self.max_decoder_bytes,
            r is Err ==> r == Err::<(), &'static str>(
                "Decoder working set exceeded configured MemoryBudget ceiling",
            ),
    {
        if bytes_allocated > self.max_decoder_bytes {
            Err("Decoder working set exceeded configured MemoryBudget ceiling")
        } else {
            Ok(())
        }
    }
}

impl Default for MemoryBudget {
    fn default() -> (b: Self)
        ensures
            b.profile == MemoryProfile::Embedded32KB,
            b.max_encoder_bytes == 32768,
            b.max_decoder_bytes == 32768,
            b.block_samples == 256,
    {
        Self::embedded_32kb()
    }
}

} // verus!
