pub mod delta_xor;
pub mod adaptive_linear;
pub mod selector;
pub mod zero_run;

use vstd::prelude::*;

verus! {

/// Block encodings. The first byte of a block holds the mode's code, which is
/// its position in this list.
#[derive(Copy, Clone, Debug, PartialEq, Eq, Structural)]
pub enum PredictorMode {
    Raw,
    Delta,
    Xor,
    AdaptiveLinear,
    Constant,
    DeltaOfDelta,
    LinearRamp,
    RepeatHistory,
    DecimalFloat,
}

/// The byte that identifies a mode in a block header.
pub open spec fn mode_code(m: PredictorMode) -> u8 {
    match m {
        PredictorMode::Raw => 0,
        PredictorMode::Delta => 1,
        PredictorMode::Xor => 2,
        PredictorMode::AdaptiveLinear => 3,
        PredictorMode::Constant => 4,
        PredictorMode::DeltaOfDelta => 5,
        PredictorMode::LinearRamp => 6,
        PredictorMode::RepeatHistory => 7,
        PredictorMode::DecimalFloat => 8,
    }
}

impl PredictorMode {
    pub fn from_u8(val: u8) -> (r: Option<Self>)
        ensures
            r is Some <==> val <= 8,
            r matches Some(m) ==> mode_code(m) == val,
    {
        match val {
            0 => Some(Self::Raw),
            1 => Some(Self::Delta),
            2 => Some(Self::Xor),
            3 => Some(Self::AdaptiveLinear),
            4 => Some(Self::Constant),
            5 => Some(Self::DeltaOfDelta),
            6 => Some(Self::LinearRamp),
            7 => Some(Self::RepeatHistory),
            8 => Some(Self::DecimalFloat),
            _ => None,
        }
    }

    /// The mode's header byte.
    pub(crate) fn code(self) -> (c: u8)
        ensures
            c == mode_code(self),
    {
        match self {
            PredictorMode::Raw => 0,
            PredictorMode::Delta => 1,
            PredictorMode::Xor => 2,
            PredictorMode::AdaptiveLinear => 3,
            PredictorMode::Constant => 4,
            PredictorMode::DeltaOfDelta => 5,
            PredictorMode::LinearRamp => 6,
            PredictorMode::RepeatHistory => 7,
            PredictorMode::DecimalFloat => 8,
        }
    }
}

/// Every mode is recognized again from its header byte.
pub proof fn lemma_mode_code_roundtrip(m: PredictorMode)
    ensures
        mode_code(m) <= 8,
        forall|n: PredictorMode| mode_code(n) == mode_code(m) ==> n == m,
{
}

} // verus!
