//! Integer-only adaptive linear predictor: an order-3 FIR filter whose
//! coefficients adapt by sign-sign LMS. No floating point, no division, and a
//! fixed small state.

use vstd::prelude::*;
use vstd::arithmetic::power2::pow2;
use crate::predictor::delta_xor::{zigzag64, unzigzag64, zigzag_encode_i64, zigzag_decode_i64,
    reconstruct_residual_u64, emit_residual, extras_of, symbols_of, decode_residuals,
    lemma_zigzag_roundtrip, lemma_packed_take_step};
use crate::stream::bitstream::{BitReader, BitWriter, packed, total_bits};
use crate::predictor::zero_run::{pack_runs, expand_runs, pack_zero_runs, expand_zero_runs};

verus! {

pub const FIR_SCALE_SHIFT: u32 = 8;

pub const FIR_ROUND: i64 = 128;

pub const COEFF_MIN: i32 = -2048;

pub const COEFF_MAX: i32 = 2048;

pub open spec fn sgn_spec(v: i64) -> i32 {
    if v > 0 {
        1
    } else if v < 0 {
        -1i32
    } else {
        0
    }
}

fn sgn(val: i64) -> (r: i32)
    ensures
        r == sgn_spec(val),
{
    if val > 0 {
        1
    } else if val < 0 {
        -1
    } else {
        0
    }
}

/// Clamps a coefficient into `[COEFF_MIN, COEFF_MAX]`.
pub open spec fn clamp_coeff(x: int) -> i32 {
    if x < -2048 {
        -2048i32
    } else if x > 2048 {
        2048
    } else {
        x as i32
    }
}

/// The abstract predictor: three coefficients and the last three samples
/// (most recent first).
pub ghost struct FirView {
    pub coeffs: Seq<i32>,
    pub history: Seq<i64>,
}

/// The prediction: the coefficient-weighted sum of the history, rounded and
/// scaled down by `2^FIR_SCALE_SHIFT` (all wrapping).
pub open spec fn fir_predict(v: FirView) -> i64 {
    let p = (v.coeffs[0] as i64).wrapping_mul(v.history[0]).wrapping_add(
        (v.coeffs[1] as i64).wrapping_mul(v.history[1]),
    ).wrapping_add((v.coeffs[2] as i64).wrapping_mul(v.history[2])).wrapping_add(128i64);
    p >> 8u32
}

/// Coefficients whose adaptation step cannot overflow.
pub open spec fn coeffs_ok(v: FirView) -> bool {
    &&& v.coeffs.len() == 3
    &&& v.history.len() == 3
    &&& forall|k: int| 0 <= k < 3 ==> i32::MIN < #[trigger] v.coeffs[k] < i32::MAX
}

/// Coefficients in their clamping range.
pub open spec fn coeffs_clamped(v: FirView) -> bool {
    &&& v.coeffs.len() == 3
    &&& v.history.len() == 3
    &&& forall|k: int| 0 <= k < 3 ==> -2048 <= #[trigger] v.coeffs[k] <= 2048
}

/// The predictor after seeing `actual` where it predicted `pred`: each
/// coefficient moves by the sign of the error times the sign of its history
/// sample, clamped; the history shifts in `actual`.
pub open spec fn fir_update(v: FirView, actual: i64, pred: i64) -> FirView {
    let e = sgn_spec(actual.wrapping_sub(pred)) as int;
    FirView {
        coeffs: seq![
            clamp_coeff(v.coeffs[0] + e * sgn_spec(v.history[0])),
            clamp_coeff(v.coeffs[1] + e * sgn_spec(v.history[1])),
            clamp_coeff(v.coeffs[2] + e * sgn_spec(v.history[2])),
        ],
        history: seq![actual, v.history[0], v.history[1]],
    }
}

/// The predictor with which a block starts.
pub open spec fn fir_initial(history: Seq<i64>) -> FirView {
    FirView { coeffs: seq![512i32, -256i32, 0i32], history }
}

/// Running the predictor over `samples`: the zigzagged prediction errors and
/// the final predictor.
pub open spec fn fir_run(samples: Seq<i64>, v: FirView) -> (Seq<u64>, FirView)
    decreases samples.len(),
{
    if samples.len() == 0 {
        (Seq::empty(), v)
    } else {
        let (rs, st) = fir_run(samples.drop_last(), v);
        let pred = fir_predict(st);
        let x = samples.last();
        (rs.push(zigzag64(x.wrapping_sub(pred) as int) as u64), fir_update(st, x, pred))
    }
}

/// Running the predictor backwards from its errors: the rebuilt samples and
/// the final predictor.
pub open spec fn fir_undo(zs: Seq<u64>, v: FirView) -> (Seq<i64>, FirView)
    decreases zs.len(),
{
    if zs.len() == 0 {
        (Seq::empty(), v)
    } else {
        let (xs, st) = fir_undo(zs.drop_last(), v);
        let pred = fir_predict(st);
        let x = pred.wrapping_add(unzigzag64(zs.last() as int) as i64);
        (xs.push(x), fir_update(st, x, pred))
    }
}

pub proof fn lemma_fir_run_clamped(samples: Seq<i64>, v: FirView)
    requires
        coeffs_clamped(v),
    ensures
        coeffs_clamped(fir_run(samples, v).1),
        fir_run(samples, v).0.len() == samples.len(),
    decreases samples.len(),
{
    if samples.len() > 0 {
        lemma_fir_run_clamped(samples.drop_last(), v);
    }
}

/// Rebuilding from the prediction errors gives the samples back, and the
/// predictor ends in the same state.
pub proof fn lemma_fir_roundtrip(samples: Seq<i64>, v: FirView)
    ensures
        fir_undo(fir_run(samples, v).0, v) == (samples, fir_run(samples, v).1),
        fir_run(samples, v).0.len() == samples.len(),
    decreases samples.len(),
{
    if samples.len() > 0 {
        let pre = samples.drop_last();
        lemma_fir_roundtrip(pre, v);
        let (rs, st) = fir_run(pre, v);
        let pred = fir_predict(st);
        let x = samples.last();
        let d = x.wrapping_sub(pred);
        lemma_zigzag_roundtrip(d as int);
        let z = zigzag64(d as int) as u64;
        assert(zigzag64(d as int) < 0x1_0000_0000_0000_0000);
        assert(rs.push(z).drop_last() =~= rs);
        assert(pred.wrapping_add(d) == x);
        assert(pre.push(x) =~= samples);
    }
}

#[derive(Clone, Copy, Debug)]
pub struct AdaptiveLinearPredictor {
    pub coeffs: [i32; 3],
    pub history: [i64; 3],
}

impl View for AdaptiveLinearPredictor {
    type V = FirView;

    open spec fn view(&self) -> FirView {
        FirView { coeffs: self.coeffs@, history: self.history@ }
    }
}

impl AdaptiveLinearPredictor {
    /// Initialize with order-2 linear extrapolation coefficients (2 * x[n-1] - x[n-2]).
    pub fn new(initial_history: [i64; 3]) -> (p: Self)
        ensures
            p@ == fir_initial(initial_history@),
            coeffs_clamped(p@),
    {
        let p = AdaptiveLinearPredictor { coeffs: [512, -256, 0], history: initial_history };
        proof {
            assert(p.coeffs@ =~= seq![512i32, -256i32, 0i32]);
        }
        p
    }

    pub fn predict(&self) -> (p: i64)
        ensures
            p == fir_predict(self@),
    {
        let p: i64 = (self.coeffs[0] as i64).wrapping_mul(self.history[0]).wrapping_add(
            (self.coeffs[1] as i64).wrapping_mul(self.history[1]),
        ).wrapping_add((self.coeffs[2] as i64).wrapping_mul(self.history[2])).wrapping_add(
            FIR_ROUND,
        );
        p >> FIR_SCALE_SHIFT
    }

    pub fn update(&mut self, actual: i64, pred: i64)
        requires
            coeffs_ok(old(self)@),
        ensures
            final(self)@ == fir_update(old(self)@, actual, pred),
            coeffs_clamped(final(self)@),
    {
        let err: i64 = actual.wrapping_sub(pred);
        let sgn_e: i32 = sgn(err);
        self.coeffs[0] = clamp(self.coeffs[0] + sgn_e * sgn(self.history[0]));
        self.coeffs[1] = clamp(self.coeffs[1] + sgn_e * sgn(self.history[1]));
        self.coeffs[2] = clamp(self.coeffs[2] + sgn_e * sgn(self.history[2]));
        let h0: i64 = self.history[0];
        let h1: i64 = self.history[1];
        self.history[2] = h1;
        self.history[1] = h0;
        self.history[0] = actual;
        proof {
            assert(self.coeffs@ =~= fir_update(old(self)@, actual, pred).coeffs);
            assert(self.history@ =~= fir_update(old(self)@, actual, pred).history);
        }
    }
}

fn clamp(x: i32) -> (r: i32)
    ensures
        r == clamp_coeff(x as int),
{
    if x < COEFF_MIN {
        COEFF_MIN
    } else if x > COEFF_MAX {
        COEFF_MAX
    } else {
        x
    }
}

/// Adaptive FIR residual symbols, one per sample, and their extra bits.
fn encode_fir_units(
    samples: &[i64],
    initial_history: [i64; 3],
    symbols_out: &mut Vec<u8>,
    writer: &mut BitWriter,
) -> (h: [i64; 3])
    requires
        old(writer).wf(),
    ensures
        final(writer).wf(),
        final(symbols_out)@ == old(symbols_out)@ + symbols_of(
            fir_run(samples@, fir_initial(initial_history@)).0,
        ),
        final(writer).value() == old(writer).value() + pow2(old(writer).bit_len()) * packed(
            extras_of(fir_run(samples@, fir_initial(initial_history@)).0),
        ),
        final(writer).bit_len() == old(writer).bit_len() + total_bits(
            extras_of(fir_run(samples@, fir_initial(initial_history@)).0),
        ),
        h@ == fir_run(samples@, fir_initial(initial_history@)).1.history,
{
    let ghost v0 = fir_initial(initial_history@);
    let ghost rs = fir_run(samples@, v0).0;
    let ghost xs = extras_of(rs);
    let ghost w0 = writer.value();
    let ghost b0 = writer.bit_len();
    let mut fir = AdaptiveLinearPredictor::new(initial_history);
    let mut i: usize = 0;
    proof {
        assert(xs.take(0) =~= Seq::<(u64, u8)>::empty());
        assert(pow2(b0) * 0 == 0) by (nonlinear_arith);
        assert(samples@.take(0) =~= Seq::<i64>::empty());
        lemma_fir_run_clamped(samples@, v0);
    }
    while i < samples.len()
        invariant
            i <= samples@.len(),
            v0 == fir_initial(initial_history@),
            rs == fir_run(samples@, v0).0,
            rs.len() == samples@.len(),
            xs == extras_of(rs),
            fir@ == fir_run(samples@.take(i as int), v0).1,
            coeffs_clamped(fir@),
            forall|k: int| 0 <= k < i ==> rs[k] == fir_run(samples@.take(i as int), v0).0[k],
            writer.wf(),
            symbols_out@ == old(symbols_out)@ + symbols_of(rs).take(i as int),
            writer.value() == w0 + pow2(b0) * packed(xs.take(i as int)),
            writer.bit_len() == b0 + total_bits(xs.take(i as int)),
        decreases samples@.len() - i,
    {
        let val: i64 = samples[i];
        let pred: i64 = fir.predict();
        let err: i64 = val.wrapping_sub(pred);
        let z: u64 = zigzag_encode_i64(err);
        proof {
            lemma_fir_prefix(samples@, v0, i as int);
        }
        emit_residual(z, symbols_out, writer);
        proof {
            assert(z == rs[i as int]);
            lemma_packed_take_step(xs, i as int, w0, b0, writer.value());
            assert(symbols_out@ =~= old(symbols_out)@ + symbols_of(rs).take(i + 1));
        }
        fir.update(val, pred);
        i = i + 1;
        proof {
            lemma_fir_prefix(samples@, v0, i as int);
        }
    }
    proof {
        assert(xs.take(samples@.len() as int) =~= xs);
        assert(symbols_of(rs).take(samples@.len() as int) =~= symbols_of(rs));
        assert(samples@.take(samples@.len() as int) =~= samples@);
    }
    fir.history
}

/// The run over a prefix agrees with the run over the whole sequence.
proof fn lemma_fir_prefix(samples: Seq<i64>, v: FirView, i: int)
    requires
        0 <= i <= samples.len(),
    ensures
        fir_run(samples.take(i), v).0 =~= fir_run(samples, v).0.take(i),
        i < samples.len() ==> fir_run(samples.take(i + 1), v).1 == fir_update(
            fir_run(samples.take(i), v).1,
            samples[i],
            fir_predict(fir_run(samples.take(i), v).1),
        ),
        i < samples.len() ==> fir_run(samples, v).0[i] == zigzag64(
            samples[i].wrapping_sub(fir_predict(fir_run(samples.take(i), v).1)) as int,
        ) as u64,
    decreases samples.len() - i,
{
    if i < samples.len() {
        assert(samples.take(i + 1).drop_last() =~= samples.take(i));
        assert(samples.take(i + 1).last() == samples[i]);
        lemma_fir_prefix(samples, v, i + 1);
        lemma_fir_run_len(samples.take(i), v);
        lemma_fir_run_len(samples, v);
        let full = fir_run(samples, v).0;
        let a = fir_run(samples.take(i + 1), v).0;
        let b = fir_run(samples.take(i), v).0;
        assert(a == full.take(i + 1));
        assert(a.drop_last() =~= b);
        assert(full.take(i + 1).drop_last() =~= full.take(i));
        assert(a[i] == full[i]);
    } else {
        assert(samples.take(i) =~= samples);
        lemma_fir_run_len(samples, v);
    }
}

/// One more sample extends the run over a prefix by one predictor update.
pub proof fn lemma_fir_prefix_state(samples: Seq<i64>, v: FirView, i: int)
    requires
        0 <= i < samples.len(),
    ensures
        fir_run(samples.take(i + 1), v).1 == fir_update(
            fir_run(samples.take(i), v).1,
            samples[i],
            fir_predict(fir_run(samples.take(i), v).1),
        ),
{
    assert(samples.take(i + 1).drop_last() =~= samples.take(i));
    assert(samples.take(i + 1).last() == samples[i]);
}

proof fn lemma_fir_run_len(samples: Seq<i64>, v: FirView)
    ensures
        fir_run(samples, v).0.len() == samples.len(),
    decreases samples.len(),
{
    if samples.len() > 0 {
        lemma_fir_run_len(samples.drop_last(), v);
    }
}

proof fn lemma_fir_undo_len(zs: Seq<u64>, v: FirView)
    ensures
        fir_undo(zs, v).0.len() == zs.len(),
    decreases zs.len(),
{
    if zs.len() > 0 {
        lemma_fir_undo_len(zs.drop_last(), v);
    }
}

/// Adaptive FIR decoding of one symbol per sample.
fn decode_fir_units(
    symbols: &[u8],
    initial_history: [i64; 3],
    reader: &mut BitReader,
    samples_out: &mut Vec<i64>,
) -> (h: [i64; 3])
    requires
        old(reader).wf(),
    ensures
        final(reader).wf(),
        final(reader).data() == old(reader).data(),
        final(samples_out)@ == old(samples_out)@ + fir_undo(
            decode_residuals(symbols@, old(reader).data(), old(reader).bit_pos()).0,
            fir_initial(initial_history@),
        ).0,
        h@ == fir_undo(
            decode_residuals(symbols@, old(reader).data(), old(reader).bit_pos()).0,
            fir_initial(initial_history@),
        ).1.history,
        final(reader).bit_pos() == decode_residuals(
            symbols@,
            old(reader).data(),
            old(reader).bit_pos(),
        ).1,
{
    let ghost data = reader.data();
    let ghost p0 = reader.bit_pos();
    let ghost v0 = fir_initial(initial_history@);
    let mut fir = AdaptiveLinearPredictor::new(initial_history);
    let mut i: usize = 0;
    proof {
        assert(symbols@.take(0) =~= Seq::<u8>::empty());
    }
    while i < symbols.len()
        invariant
            i <= symbols@.len(),
            v0 == fir_initial(initial_history@),
            reader.wf(),
            reader.data() == data,
            reader.bit_pos() == decode_residuals(symbols@.take(i as int), data, p0).1,
            samples_out@ == old(samples_out)@ + fir_undo(
                decode_residuals(symbols@.take(i as int), data, p0).0,
                v0,
            ).0,
            fir@ == fir_undo(decode_residuals(symbols@.take(i as int), data, p0).0, v0).1,
            coeffs_clamped(fir@),
        decreases symbols@.len() - i,
    {
        let sym: u8 = symbols[i];
        let z: u64 = reconstruct_residual_u64(sym, reader);
        let err: i64 = zigzag_decode_i64(z);
        let pred: i64 = fir.predict();
        let val: i64 = pred.wrapping_add(err);
        samples_out.push(val);
        fir.update(val, pred);
        proof {
            let t1 = symbols@.take(i + 1);
            assert(t1.drop_last() =~= symbols@.take(i as int));
            assert(t1.last() == sym);
            let zs = decode_residuals(t1, data, p0).0;
            assert(zs.drop_last() =~= decode_residuals(symbols@.take(i as int), data, p0).0);
            assert(samples_out@ =~= old(samples_out)@ + fir_undo(zs, v0).0);
        }
        i = i + 1;
    }
    proof {
        assert(symbols@.take(symbols@.len() as int) =~= symbols@);
    }
    fir.history
}


/// Encode a block using the adaptive linear FIR predictor; runs of zero
/// residuals are packed into run symbols.
pub fn encode_adaptive_fir_block(
    samples: &[i64],
    initial_history: [i64; 3],
    symbols_out: &mut Vec<u8>,
    writer: &mut BitWriter,
) -> (h: [i64; 3])
    requires
        old(writer).wf(),
    ensures
        final(writer).wf(),
        final(symbols_out)@ == old(symbols_out)@ + pack_runs(
            symbols_of(fir_run(samples@, fir_initial(initial_history@)).0),
        ),
        final(writer).value() == old(writer).value() + pow2(old(writer).bit_len()) * packed(
            extras_of(fir_run(samples@, fir_initial(initial_history@)).0),
        ),
        final(writer).bit_len() == old(writer).bit_len() + total_bits(
            extras_of(fir_run(samples@, fir_initial(initial_history@)).0),
        ),
        h@ == fir_run(samples@, fir_initial(initial_history@)).1.history,
{
    let mut units: Vec<u8> = Vec::new();
    let h = encode_fir_units(samples, initial_history, &mut units, writer);
    pack_zero_runs(units.as_slice(), symbols_out);
    h
}

/// Decode a block using the adaptive linear FIR predictor; run symbols stand
/// for runs of zero residuals.
pub fn decode_adaptive_fir_block(
    symbols: &[u8],
    initial_history: [i64; 3],
    reader: &mut BitReader,
    samples_out: &mut Vec<i64>,
) -> (h: [i64; 3])
    requires
        old(reader).wf(),
    ensures
        final(reader).wf(),
        final(reader).data() == old(reader).data(),
        final(samples_out)@ == old(samples_out)@ + fir_undo(
            decode_residuals(expand_runs(symbols@), old(reader).data(), old(reader).bit_pos()).0,
            fir_initial(initial_history@),
        ).0,
        h@ == fir_undo(
            decode_residuals(expand_runs(symbols@), old(reader).data(), old(reader).bit_pos()).0,
            fir_initial(initial_history@),
        ).1.history,
        final(reader).bit_pos() == decode_residuals(
            expand_runs(symbols@),
            old(reader).data(),
            old(reader).bit_pos(),
        ).1,
{
    let units = expand_zero_runs(symbols);
    decode_fir_units(units.as_slice(), initial_history, reader, samples_out)
}

} // verus!
