//! Heuristic per-block tournament selector between candidate predictors.

use vstd::prelude::*;
use crate::predictor::PredictorMode;
use crate::predictor::adaptive_linear::{AdaptiveLinearPredictor, fir_predict, fir_run, fir_initial,
    coeffs_clamped, lemma_fir_prefix_state};
use crate::predictor::delta_xor::{prev_sample, delta2_prediction, last_two};

verus! {

pub open spec fn abs_i64(d: i64) -> nat {
    if d >= 0 {
        d as nat
    } else {
        (-d) as nat
    }
}

/// Sum of a list, saturating at `u64::MAX` at every step.
pub open spec fn saturating_sum(xs: Seq<nat>) -> nat
    decreases xs.len(),
{
    if xs.len() == 0 {
        0
    } else {
        let s = saturating_sum(xs.drop_last()) + xs.last();
        if s > u64::MAX {
            u64::MAX as nat
        } else {
            s
        }
    }
}

/// Absolute delta errors of a block.
pub open spec fn delta_errors(samples: Seq<i64>, prev: i64) -> Seq<nat> {
    Seq::new(
        samples.len(),
        |i: int| abs_i64(samples[i].wrapping_sub(prev_sample(samples, prev, i))),
    )
}

/// Absolute errors of the adaptive FIR predictor over a block.
pub open spec fn fir_errors(samples: Seq<i64>, history: Seq<i64>) -> Seq<nat> {
    Seq::new(
        samples.len(),
        |i: int|
            abs_i64(
                samples[i].wrapping_sub(
                    fir_predict(fir_run(samples.take(i), fir_initial(history)).1),
                ),
            ),
    )
}

/// Whether error sum `e` beats the delta error sum `d` by at least 5%.
pub open spec fn beats_by_five_percent(e: nat, d: nat) -> bool {
    d > 0 && e * 100 <= d * 95
}

/// The mode chosen for a block: the adaptive FIR predictor when its error sum
/// beats the delta error sum by at least 5%, else delta.
pub open spec fn selected_mode(samples: Seq<i64>, prev: i64, history: Seq<i64>) -> PredictorMode {
    if samples.len() > 0 && beats_by_five_percent(
        saturating_sum(fir_errors(samples, history)),
        saturating_sum(delta_errors(samples, prev)),
    ) {
        PredictorMode::AdaptiveLinear
    } else {
        PredictorMode::Delta
    }
}

/// Absolute delta-of-delta errors of a block: `p1` is the sample before the
/// block and `p2` the one before it.
pub open spec fn dod_errors(samples: Seq<i64>, p1: i64, p2: i64) -> Seq<nat> {
    Seq::new(
        samples.len(),
        |i: int| abs_i64(samples[i].wrapping_sub(delta2_prediction(samples, p1, p2, i))),
    )
}

/// Whether every sample of a non-empty block equals the first.
pub open spec fn all_equal(samples: Seq<i64>) -> bool {
    samples.len() >= 1 && forall|i: int| 0 <= i < samples.len() ==> #[trigger] samples[i] == samples[0]
}

/// The step from the first sample to the second.
pub open spec fn ramp_step(samples: Seq<i64>) -> i64 {
    samples[1].wrapping_sub(samples[0])
}

/// Whether the samples (two or more) step by the same amount, wrapping:
/// sample `i` is the first plus `i` steps.
pub open spec fn is_ramp(samples: Seq<i64>) -> bool {
    samples.len() >= 2 && forall|i: int|
        0 <= i < samples.len() ==> #[trigger] samples[i] == samples[0].wrapping_add(
            (i as i64).wrapping_mul(ramp_step(samples)),
        )
}

/// The block tournament: a block of equal samples is a constant block, a
/// block that steps evenly is a linear ramp; otherwise delta-of-delta when
/// its error sum beats delta by at least 5% and is no larger than the
/// adaptive FIR one, adaptive FIR when it beats delta by at least 5% and is
/// below delta-of-delta, else delta. `init` is the sample before the block and
/// `history[1]` the one before it.
#[verifier::opaque]
pub open spec fn block_mode(samples: Seq<i64>, init: i64, history: Seq<i64>) -> PredictorMode {
    if samples.len() == 0 {
        PredictorMode::Delta
    } else if all_equal(samples) {
        PredictorMode::Constant
    } else if is_ramp(samples) {
        PredictorMode::LinearRamp
    } else {
        let d = saturating_sum(delta_errors(samples, init));
        let dd = saturating_sum(dod_errors(samples, init, history[1]));
        let f = saturating_sum(fir_errors(samples, history));
        if beats_by_five_percent(dd, d) && dd <= f {
            PredictorMode::DeltaOfDelta
        } else if beats_by_five_percent(f, d) && f < dd {
            PredictorMode::AdaptiveLinear
        } else {
            PredictorMode::Delta
        }
    }
}

fn unsigned_abs(d: i64) -> (r: u64)
    ensures
        r as nat == abs_i64(d),
{
    if d >= 0 {
        d as u64
    } else {
        let u: u64 = d as u64;
        let r: u64 = 0u64.wrapping_sub(u);
        assert(r == -d) by (bit_vector)
            requires
                u == d as u64,
                r == 0u64.wrapping_sub(u),
                d < 0,
        ;
        r
    }
}

/// The saturating sum of the absolute delta errors.
fn delta_score(samples: &[i64], prev_sample: i64) -> (r: u64)
    ensures
        r as nat == saturating_sum(delta_errors(samples@, prev_sample)),
{
    let ghost de = delta_errors(samples@, prev_sample);
    let mut delta_score: u64 = 0;
    let mut prev: i64 = prev_sample;
    let mut i: usize = 0;
    proof {
        assert(de.take(0) =~= Seq::<nat>::empty());
    }
    while i < samples.len()
        invariant
            i <= samples@.len(),
            de == delta_errors(samples@, prev_sample),
            prev == crate::predictor::delta_xor::prev_sample(samples@, prev_sample, i as int),
            delta_score as nat == saturating_sum(de.take(i as int)),
        decreases samples@.len() - i,
    {
        let val: i64 = samples[i];
        let diff: i64 = val.wrapping_sub(prev);
        delta_score = delta_score.saturating_add(unsigned_abs(diff));
        proof {
            assert(de.take(i + 1).drop_last() =~= de.take(i as int));
        }
        prev = val;
        i = i + 1;
    }
    proof {
        assert(de.take(samples@.len() as int) =~= de);
    }
    delta_score
}

/// The saturating sum of the absolute adaptive FIR errors.
fn fir_score(samples: &[i64], history: [i64; 3]) -> (r: u64)
    ensures
        r as nat == saturating_sum(fir_errors(samples@, history@)),
{
    let ghost v0 = fir_initial(history@);
    let ghost fe = fir_errors(samples@, history@);
    let mut fir_score: u64 = 0;
    let mut fir = AdaptiveLinearPredictor::new(history);
    let mut j: usize = 0;
    proof {
        assert(fe.take(0) =~= Seq::<nat>::empty());
        assert(samples@.take(0) =~= Seq::<i64>::empty());
    }
    while j < samples.len()
        invariant
            j <= samples@.len(),
            v0 == fir_initial(history@),
            fe == fir_errors(samples@, history@),
            fir@ == fir_run(samples@.take(j as int), v0).1,
            coeffs_clamped(fir@),
            fir_score as nat == saturating_sum(fe.take(j as int)),
        decreases samples@.len() - j,
    {
        let val: i64 = samples[j];
        let pred: i64 = fir.predict();
        let err: i64 = val.wrapping_sub(pred);
        fir_score = fir_score.saturating_add(unsigned_abs(err));
        proof {
            assert(fe.take(j + 1).drop_last() =~= fe.take(j as int));
            lemma_fir_prefix_state(samples@, v0, j as int);
        }
        fir.update(val, pred);
        j = j + 1;
    }
    proof {
        assert(fe.take(samples@.len() as int) =~= fe);
    }
    fir_score
}

/// The saturating sum of the absolute delta-of-delta errors.
fn dod_score(samples: &[i64], p1: i64, p2: i64) -> (r: u64)
    ensures
        r as nat == saturating_sum(dod_errors(samples@, p1, p2)),
{
    let ghost ee = dod_errors(samples@, p1, p2);
    let mut score: u64 = 0;
    let mut a: i64 = p1;
    let mut b: i64 = p2;
    let mut i: usize = 0;
    proof {
        assert(ee.take(0) =~= Seq::<nat>::empty());
        assert(samples@.take(0) =~= Seq::<i64>::empty());
    }
    while i < samples.len()
        invariant
            i <= samples@.len(),
            ee == dod_errors(samples@, p1, p2),
            (a, b) == last_two(samples@.take(i as int), p1, p2),
            score as nat == saturating_sum(ee.take(i as int)),
        decreases samples@.len() - i,
    {
        let val: i64 = samples[i];
        let pred: i64 = a.wrapping_add(a.wrapping_sub(b));
        score = score.saturating_add(unsigned_abs(val.wrapping_sub(pred)));
        proof {
            assert(ee.take(i + 1).drop_last() =~= ee.take(i as int));
            let t1 = samples@.take(i + 1);
            assert(t1.drop_last() =~= samples@.take(i as int));
            if i >= 1 {
                assert(t1[t1.len() - 2] == samples@.take(i as int)[i - 1]);
            }
        }
        b = a;
        a = val;
        i = i + 1;
    }
    proof {
        assert(ee.take(samples@.len() as int) =~= ee);
    }
    score
}

/// Whether every sample equals the first.
fn check_all_equal(samples: &[i64]) -> (b: bool)
    requires
        samples@.len() >= 1,
    ensures
        b == all_equal(samples@),
{
    let first = samples[0];
    let mut i: usize = 1;
    while i < samples.len()
        invariant
            1 <= i <= samples@.len(),
            first == samples@[0],
            forall|k: int| 0 <= k < i ==> #[trigger] samples@[k] == first,
        decreases samples@.len() - i,
    {
        if samples[i] != first {
            return false;
        }
        i = i + 1;
    }
    true
}

/// Whether the samples step evenly.
fn check_ramp(samples: &[i64]) -> (b: bool)
    ensures
        b == is_ramp(samples@),
{
    if samples.len() < 2 {
        return false;
    }
    let first = samples[0];
    let step = samples[1].wrapping_sub(first);
    let mut i: usize = 0;
    while i < samples.len()
        invariant
            samples@.len() >= 2,
            i <= samples@.len() < 0x1_0000_0000_0000_0000,
            first == samples@[0],
            step == ramp_step(samples@),
            forall|k: int|
                0 <= k < i ==> #[trigger] samples@[k] == first.wrapping_add(
                    (k as i64).wrapping_mul(step),
                ),
        decreases samples@.len() - i,
    {
        #[verifier::truncate]
        let k: i64 = i as i64;
        let expect = first.wrapping_add(k.wrapping_mul(step));
        if samples[i] != expect {
            return false;
        }
        i = i + 1;
    }
    true
}

pub struct PredictorSelector;

impl PredictorSelector {
    /// Select the best predictor mode for an integer slice.
    ///
    /// Evaluates sum of absolute residuals for Delta vs Adaptive FIR.
    /// Prefers the simpler Delta predictor unless Adaptive FIR outperforms it by >= 5%.
    pub fn select_integer_mode(samples: &[i64], prev_sample: i64, history: [i64; 3]) -> (m:
        PredictorMode)
        ensures
            m == selected_mode(samples@, prev_sample, history@),
            m == PredictorMode::AdaptiveLinear <==> (samples@.len() > 0 && saturating_sum(
                delta_errors(samples@, prev_sample),
            ) > 0 && 100 * saturating_sum(fir_errors(samples@, history@)) <= 95 * saturating_sum(
                delta_errors(samples@, prev_sample),
            )),
            m != PredictorMode::AdaptiveLinear ==> m == PredictorMode::Delta,
    {
        if samples.len() == 0 {
            return PredictorMode::Delta;
        }
        let delta_score = delta_score(samples, prev_sample);
        let fir_score = fir_score(samples, history);
        if delta_score > 0 && (fir_score as u128) * 100 <= (delta_score as u128) * 95 {
            PredictorMode::AdaptiveLinear
        } else {
            PredictorMode::Delta
        }
    }

    /// Select the block encoding for an integer slice: constant, linear ramp,
    /// or the best of delta, delta-of-delta and adaptive FIR prediction.
    /// `prev_sample` is the sample before the block and `history[1]` the one
    /// before it.
    pub fn select_block_mode(samples: &[i64], prev_sample: i64, history: [i64; 3]) -> (m:
        PredictorMode)
        ensures
            m == block_mode(samples@, prev_sample, history@),
            samples@.len() >= 2 && (exists|k: int| 0 <= k < samples@.len() && #[trigger] samples@[k] != samples@[0])
                && (forall|i: int|
                0 <= i < samples@.len() ==> #[trigger] samples@[i] == samples@[0].wrapping_add(
                    (i as i64).wrapping_mul(samples@[1].wrapping_sub(samples@[0])),
                )) ==> m == PredictorMode::LinearRamp,
    {
        proof {
            reveal(block_mode);
        }
        if samples.len() == 0 {
            return PredictorMode::Delta;
        }
        if check_all_equal(samples) {
            return PredictorMode::Constant;
        }
        if check_ramp(samples) {
            return PredictorMode::LinearRamp;
        }
        let d = delta_score(samples, prev_sample);
        let dd = dod_score(samples, prev_sample, history[1]);
        let f = fir_score(samples, history);
        if d > 0 && (dd as u128) * 100 <= (d as u128) * 95 && dd <= f {
            PredictorMode::DeltaOfDelta
        } else if d > 0 && (f as u128) * 100 <= (d as u128) * 95 && f < dd {
            PredictorMode::AdaptiveLinear
        } else {
            PredictorMode::Delta
        }
    }
}


/// The adaptive FIR predictor is chosen for a block exactly when its error
/// sum is at most 95% of a positive delta error sum; in particular an FIR
/// error sum that is not smaller than the delta one gives delta.
pub proof fn lemma_integer_mode_rule(samples: Seq<i64>, prev: i64, history: Seq<i64>)
    ensures
        selected_mode(samples, prev, history) == PredictorMode::AdaptiveLinear <==> (samples.len()
            > 0 && saturating_sum(delta_errors(samples, prev)) > 0 && 100 * saturating_sum(
            fir_errors(samples, history),
        ) <= 95 * saturating_sum(delta_errors(samples, prev))),
        selected_mode(samples, prev, history) != PredictorMode::AdaptiveLinear ==> selected_mode(
            samples,
            prev,
            history,
        ) == PredictorMode::Delta,
        saturating_sum(fir_errors(samples, history)) >= saturating_sum(delta_errors(samples, prev))
            ==> selected_mode(samples, prev, history) == PredictorMode::Delta,
{
}

/// A block of two or more samples, not all equal, that steps evenly
/// (wrapping, by any step, negative included) is written as a linear ramp.
pub proof fn lemma_even_steps_are_ramp(samples: Seq<i64>, init: i64, history: Seq<i64>)
    requires
        samples.len() >= 2,
        exists|k: int| 0 <= k < samples.len() && #[trigger] samples[k] != samples[0],
        forall|i: int|
            0 <= i < samples.len() ==> #[trigger] samples[i] == samples[0].wrapping_add(
                (i as i64).wrapping_mul(samples[1].wrapping_sub(samples[0])),
            ),
    ensures
        block_mode(samples, init, history) == PredictorMode::LinearRamp,
{
    reveal(block_mode);
    let k = choose|k: int| 0 <= k < samples.len() && #[trigger] samples[k] != samples[0];
    assert(!all_equal(samples)) by {
        if all_equal(samples) {
            assert(samples[k] == samples[0]);
        }
    }
}

/// A block whose samples are all equal is written as a constant block.
pub proof fn lemma_equal_samples_are_constant(samples: Seq<i64>, init: i64, history: Seq<i64>)
    requires
        samples.len() >= 1,
        forall|i: int| 0 <= i < samples.len() ==> #[trigger] samples[i] == samples[0],
    ensures
        block_mode(samples, init, history) == PredictorMode::Constant,
{
    reveal(block_mode);
}

} // verus!
