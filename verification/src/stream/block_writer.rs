//! Block framing writer for compressed and raw blocks.
//!
//! A coded block is `[mode][sample count: u16][symbol count: u16]
//! [extra-bits length: u16][rANS payload length: u16][predictor seed]
//! [extra bits][rANS payload]`, all little endian. When that would not be
//! smaller than the samples themselves, the block is written raw instead:
//! `[0][sample count: u16][samples as 8-byte words]`.

use vstd::prelude::*;
use vstd::arithmetic::power2::pow2;
use crate::entropy::adaptive_table::{AdaptiveTable, TableView, observed_all};
use crate::entropy::rans_encoder::{RansEncoder, rans_payload};
use crate::le_bytes::{bytes_value, le_bytes, push_le, push_slice, lemma_le_bytes_of_value};
use crate::predictor::PredictorMode;
use crate::predictor::delta_xor::{encode_delta_i64_block, encode_xor_u64_block, delta_residuals,
    xor_residuals, symbols_of, extras_of, encode_delta2_i64_block, delta2_residuals};
use crate::predictor::adaptive_linear::{encode_adaptive_fir_block, fir_run, fir_initial};
use crate::predictor::selector::{PredictorSelector, block_mode, ramp_step};
use crate::predictor::zero_run::pack_runs;
use crate::stream::bitstream::{BitWriter, packed, total_bits};

verus! {

/// Words in little-endian byte order, one after another.
pub open spec fn words_le(ws: Seq<u64>) -> Seq<u8>
    decreases ws.len(),
{
    if ws.len() == 0 {
        Seq::empty()
    } else {
        words_le(ws.drop_last()) + le_bytes(ws.last() as nat, 8)
    }
}

/// A raw block holding `ws`.
pub open spec fn raw_block(ws: Seq<u64>) -> Seq<u8> {
    seq![0u8] + le_bytes(ws.len(), 2) + words_le(ws)
}

/// Samples as the 64-bit words of their two's complement bits.
pub open spec fn as_words(samples: Seq<i64>) -> Seq<u64> {
    Seq::new(samples.len(), |i: int| samples[i] as u64)
}

/// The bytes that hold a packed list of extra-bit fields.
pub open spec fn extra_bytes_of(xs: Seq<(u64, u8)>) -> Seq<u8> {
    le_bytes(packed(xs), (total_bits(xs) + 7) / 8)
}

/// A coded block with the given header fields and payloads.
pub open spec fn coded_block(
    mode: u8,
    n: nat,
    fixed: Seq<u8>,
    syms: Seq<u8>,
    extra: Seq<u8>,
    payload: Seq<u8>,
) -> Seq<u8> {
    seq![mode] + le_bytes(n, 2) + le_bytes(syms.len(), 2) + le_bytes(extra.len(), 2) + le_bytes(
        payload.len(),
        2,
    ) + fixed + extra + payload
}

/// Whether the coded form of a block is smaller than its raw samples, with
/// lengths that fit their 16-bit fields.
pub open spec fn coded_is_smaller(
    n: nat,
    fixed: Seq<u8>,
    extra: Seq<u8>,
    payload: Seq<u8>,
) -> bool {
    &&& 9 + fixed.len() + extra.len() + payload.len() < 8 * n
    &&& extra.len() < 65536
    &&& payload.len() < 65536
}

/// The bytes of a block of `n` samples with residuals `rs`, and the table
/// after it: coded when that is smaller (the table then observes its
/// symbols), raw otherwise (the table unchanged).
pub open spec fn coded_or_raw(mode: u8, words: Seq<u64>, fixed: Seq<u8>, rs: Seq<u64>, t: TableView) -> (
    Seq<u8>,
    TableView,
) {
    let syms = pack_runs(symbols_of(rs));
    let extra = extra_bytes_of(extras_of(rs));
    let payload = rans_payload(syms, t);
    if coded_is_smaller(words.len(), fixed, extra, payload) {
        (coded_block(mode, words.len(), fixed, syms, extra, payload), observed_all(t, syms))
    } else {
        (raw_block(words), t)
    }
}

/// A delta block.
pub open spec fn delta_block(samples: Seq<i64>, init: i64, t: TableView) -> (Seq<u8>, TableView) {
    if samples.len() == 0 {
        (Seq::empty(), t)
    } else {
        coded_or_raw(
            1,
            as_words(samples),
            le_bytes((init as u64) as nat, 8),
            delta_residuals(samples, init),
            t,
        )
    }
}

/// The seed of an adaptive FIR block: its three history samples.
pub open spec fn history_bytes(h: Seq<i64>) -> Seq<u8> {
    le_bytes((h[0] as u64) as nat, 8) + le_bytes((h[1] as u64) as nat, 8) + le_bytes(
        (h[2] as u64) as nat,
        8,
    )
}

/// An adaptive FIR block.
pub open spec fn fir_block(samples: Seq<i64>, history: Seq<i64>, t: TableView) -> (
    Seq<u8>,
    TableView,
) {
    if samples.len() == 0 {
        (Seq::empty(), t)
    } else {
        coded_or_raw(
            3,
            as_words(samples),
            history_bytes(history),
            fir_run(samples, fir_initial(history)).0,
            t,
        )
    }
}

/// A Gorilla XOR block.
pub open spec fn xor_block(samples: Seq<u64>, init: u64, t: TableView) -> (Seq<u8>, TableView) {
    if samples.len() == 0 {
        (Seq::empty(), t)
    } else {
        coded_or_raw(2, samples, le_bytes(init as nat, 8), xor_residuals(samples, init), t)
    }
}

/// A constant block: `[4][count: u16][value: 8 bytes]`.
pub open spec fn constant_block(samples: Seq<i64>) -> Seq<u8> {
    seq![4u8] + le_bytes(samples.len(), 2) + le_bytes((samples[0] as u64) as nat, 8)
}

/// A linear ramp block: `[6][count: u16][first sample: 8 bytes][step: 8 bytes]`.
pub open spec fn ramp_block(samples: Seq<i64>) -> Seq<u8> {
    seq![6u8] + le_bytes(samples.len(), 2) + le_bytes((samples[0] as u64) as nat, 8) + le_bytes(
        (ramp_step(samples) as u64) as nat,
        8,
    )
}

/// The seed of a delta-of-delta block: the sample before the block, then the
/// one before it.
pub open spec fn delta2_seed(p1: i64, p2: i64) -> Seq<u8> {
    le_bytes((p1 as u64) as nat, 8) + le_bytes((p2 as u64) as nat, 8)
}

/// A delta-of-delta block.
pub open spec fn delta2_block(samples: Seq<i64>, p1: i64, p2: i64, t: TableView) -> (
    Seq<u8>,
    TableView,
) {
    if samples.len() == 0 {
        (Seq::empty(), t)
    } else {
        coded_or_raw(
            5,
            as_words(samples),
            delta2_seed(p1, p2),
            delta2_residuals(samples, p1, p2),
            t,
        )
    }
}

/// The block that the automatic writer emits for the mode that the block
/// tournament picks.
#[verifier::opaque]
pub open spec fn auto_block(samples: Seq<i64>, init: i64, history: Seq<i64>, t: TableView) -> (
    Seq<u8>,
    TableView,
) {
    if samples.len() == 0 {
        (Seq::empty(), t)
    } else {
        match block_mode(samples, init, history) {
            PredictorMode::Constant => (constant_block(samples), t),
            PredictorMode::LinearRamp => (ramp_block(samples), t),
            PredictorMode::DeltaOfDelta => delta2_block(samples, init, history[1], t),
            PredictorMode::AdaptiveLinear => fir_block(samples, history, t),
            _ => delta_block(samples, init, t),
        }
    }
}

/// The `(last sample, history)` that the automatic writer hands to the next
/// block: the adaptive FIR predictor's history after an adaptive FIR block,
/// else the last three samples (taken from the history where the block is
/// shorter).
pub open spec fn auto_next_state(samples: Seq<i64>, init: i64, history: Seq<i64>) -> (i64, Seq<i64>) {
    let n = samples.len();
    if n == 0 {
        (init, history)
    } else if block_mode(samples, init, history) == PredictorMode::AdaptiveLinear {
        (samples[n - 1], fir_run(samples, fir_initial(history)).1.history)
    } else {
        plain_next_state(samples, history)
    }
}

/// The last sample of a non-empty block and its last three samples, most
/// recent first (taken from `history` where the block is shorter).
pub open spec fn plain_next_state(samples: Seq<i64>, history: Seq<i64>) -> (i64, Seq<i64>) {
    let n = samples.len();
    (
        samples[n - 1],
        seq![
            samples[n - 1],
            if n > 1 {
                samples[n - 2]
            } else {
                history[0]
            },
            if n > 2 {
                samples[n - 3]
            } else {
                history[1]
            },
        ],
    )
}

pub struct BlockWriter;

/// Flushes a bit writer and states its bytes as the packed fields.
pub(crate) fn finish_extra(bw: BitWriter, Ghost(xs): Ghost<Seq<(u64, u8)>>) -> (extra: Vec<u8>)
    requires
        bw.wf(),
        bw.value() == packed(xs),
        bw.bit_len() == total_bits(xs),
    ensures
        extra@ == extra_bytes_of(xs),
        bytes_value(extra@) == packed(xs),
        8 * extra@.len() >= total_bits(xs),
{
    let extra = bw.finish();
    proof {
        lemma_le_bytes_of_value(extra@);
        assert(extra@.len() == (total_bits(xs) + 7) / 8);
    }
    extra
}

/// Writes the coded form of a block when it is smaller than the raw samples,
/// observing its symbols; reports whether it did.
fn emit_coded_block(
    mode: u8,
    sample_count: usize,
    fixed: &[u8],
    symbols: &[u8],
    extra: &[u8],
    table: &mut AdaptiveTable,
    out: &mut Vec<u8>,
) -> (written: bool)
    requires
        old(table)@.wf(),
    ensures
        final(table)@.wf(),
        written == coded_is_smaller(
            sample_count as nat,
            fixed@,
            extra@,
            rans_payload(symbols@, old(table)@),
        ),
        written ==> final(out)@ == old(out)@ + coded_block(
            mode,
            sample_count as nat,
            fixed@,
            symbols@,
            extra@,
            rans_payload(symbols@, old(table)@),
        ),
        written ==> final(table)@ == observed_all(old(table)@, symbols@),
        !written ==> final(out)@ == old(out)@,
        !written ==> final(table)@ == old(table)@,
{
    let mut rans = RansEncoder::new();
    rans.encode_block(symbols, table);
    let payload = rans.finish();
    let raw_size: u128 = sample_count as u128 * 8;
    let compressed_size: u128 = 9 + fixed.len() as u128 + extra.len() as u128
        + payload.len() as u128;
    if compressed_size >= raw_size || extra.len() > 65535 || payload.len() > 65535 {
        return false;
    }
    let ghost t0 = table@;
    let mut i: usize = 0;
    proof {
        assert(symbols@.take(0) =~= Seq::<u8>::empty());
    }
    while i < symbols.len()
        invariant
            i <= symbols@.len(),
            table@.wf(),
            table@ == observed_all(t0, symbols@.take(i as int)),
        decreases symbols@.len() - i,
    {
        table.observe(symbols[i]);
        proof {
            assert(symbols@.take(i + 1).drop_last() =~= symbols@.take(i as int));
        }
        i = i + 1;
    }
    proof {
        assert(symbols@.take(symbols@.len() as int) =~= symbols@);
    }
    out.push(mode);
    push_le(out, sample_count as u64, 2);
    push_le(out, symbols.len() as u64, 2);
    push_le(out, extra.len() as u64, 2);
    push_le(out, payload.len() as u64, 2);
    push_slice(out, fixed);
    push_slice(out, extra);
    push_slice(out, payload.as_slice());
    proof {
        assert(out@ =~= old(out)@ + coded_block(
            mode,
            sample_count as nat,
            fixed@,
            symbols@,
            extra@,
            payload@,
        ));
    }
    true
}

/// Appends the little-endian words of `samples` (two's complement bits).
fn push_i64_words(samples: &[i64], out: &mut Vec<u8>)
    ensures
        final(out)@ == old(out)@ + words_le(as_words(samples@)),
{
    let mut i: usize = 0;
    proof {
        assert(as_words(samples@).take(0) =~= Seq::<u64>::empty());
        assert(old(out)@ + words_le(Seq::<u64>::empty()) =~= old(out)@);
    }
    while i < samples.len()
        invariant
            i <= samples@.len(),
            out@ == old(out)@ + words_le(as_words(samples@).take(i as int)),
        decreases samples@.len() - i,
    {
        push_le(out, samples[i] as u64, 8);
        proof {
            let ws = as_words(samples@);
            assert(ws.take(i + 1).drop_last() =~= ws.take(i as int));
            assert(out@ =~= old(out)@ + words_le(ws.take(i + 1)));
        }
        i = i + 1;
    }
    proof {
        assert(as_words(samples@).take(samples@.len() as int) =~= as_words(samples@));
    }
}

/// Writes a delta-of-delta block (`prev1` is the sample before the block and
/// `prev2` the one before it), or a raw block when that is not smaller.
fn write_delta2_block(
    samples: &[i64],
    prev1: i64,
    prev2: i64,
    table: &mut AdaptiveTable,
    out: &mut Vec<u8>,
)
    requires
        old(table)@.wf(),
        samples@.len() > 0,
    ensures
        final(table)@.wf(),
        final(out)@ == old(out)@ + delta2_block(samples@, prev1, prev2, old(table)@).0,
        final(table)@ == delta2_block(samples@, prev1, prev2, old(table)@).1,
{
    let ghost rs = delta2_residuals(samples@, prev1, prev2);
    let mut symbols: Vec<u8> = Vec::with_capacity(samples.len());
    let mut bit_writer = BitWriter::new();
    encode_delta2_i64_block(samples, prev1, prev2, &mut symbols, &mut bit_writer);
    proof {
        assert(symbols@ =~= pack_runs(symbols_of(rs)));
        assert(pow2(0) * packed(extras_of(rs)) == packed(extras_of(rs))) by {
            vstd::arithmetic::power2::lemma2_to64();
        }
    }
    let extra = finish_extra(bit_writer, Ghost(extras_of(rs)));
    let mut fixed: Vec<u8> = Vec::new();
    push_le(&mut fixed, prev1 as u64, 8);
    push_le(&mut fixed, prev2 as u64, 8);
    proof {
        assert(fixed@ =~= delta2_seed(prev1, prev2));
    }
    let written = emit_coded_block(
        PredictorMode::DeltaOfDelta.code(),
        samples.len(),
        fixed.as_slice(),
        symbols.as_slice(),
        extra.as_slice(),
        table,
        out,
    );
    if !written {
        out.push(PredictorMode::Raw.code());
        push_le(out, samples.len() as u64, 2);
        push_i64_words(samples, out);
        proof {
            assert(out@ =~= old(out)@ + raw_block(as_words(samples@)));
        }
    }
}

impl BlockWriter {
    /// Write an integer block automatically selecting its encoding: constant,
    /// linear ramp, delta, delta-of-delta or adaptive linear FIR.
    pub fn write_auto_i64_block(
        samples: &[i64],
        initial_sample: i64,
        initial_history: [i64; 3],
        table: &mut AdaptiveTable,
        out: &mut Vec<u8>,
    ) -> (r: (i64, [i64; 3]))
        requires
            old(table)@.wf(),
        ensures
            final(table)@.wf(),
            final(out)@ == old(out)@ + auto_block(
                samples@,
                initial_sample,
                initial_history@,
                old(table)@,
            ).0,
            final(table)@ == auto_block(
                samples@,
                initial_sample,
                initial_history@,
                old(table)@,
            ).1,
            (r.0, r.1@) == auto_next_state(samples@, initial_sample, initial_history@),
    {
        proof {
            reveal(auto_block);
            reveal(block_mode);
        }
        if samples.len() == 0 {
            proof {
                assert(out@ =~= out@ + Seq::<u8>::empty());
            }
            return (initial_sample, initial_history);
        }
        let mode = PredictorSelector::select_block_mode(samples, initial_sample, initial_history);
        let len = samples.len();
        let last_val: i64 = samples[len - 1];
        match mode {
            PredictorMode::AdaptiveLinear => {
                let new_hist = Self::write_adaptive_fir_block(samples, initial_history, table, out);
                return (last_val, new_hist);
            },
            PredictorMode::Constant => {
                out.push(PredictorMode::Constant.code());
                push_le(out, len as u64, 2);
                push_le(out, samples[0] as u64, 8);
                proof {
                    assert(out@ =~= old(out)@ + constant_block(samples@));
                }
            },
            PredictorMode::LinearRamp => {
                let step: i64 = samples[1].wrapping_sub(samples[0]);
                out.push(PredictorMode::LinearRamp.code());
                push_le(out, len as u64, 2);
                push_le(out, samples[0] as u64, 8);
                push_le(out, step as u64, 8);
                proof {
                    assert(out@ =~= old(out)@ + ramp_block(samples@));
                }
            },
            PredictorMode::DeltaOfDelta => {
                write_delta2_block(samples, initial_sample, initial_history[1], table, out);
            },
            _ => {
                Self::write_delta_i64_block(samples, initial_sample, table, out);
            },
        }
        let h0: i64 = last_val;
        let h1: i64 = if len > 1 {
            samples[len - 2]
        } else {
            initial_history[0]
        };
        let h2: i64 = if len > 2 {
            samples[len - 3]
        } else {
            initial_history[1]
        };
        let h: [i64; 3] = [h0, h1, h2];
        proof {
            assert(h@ =~= auto_next_state(samples@, initial_sample, initial_history@).1);
        }
        (last_val, h)
    }

    /// Write a block using integer delta prediction + rANS.
    pub fn write_delta_i64_block(
        samples: &[i64],
        initial_sample: i64,
        table: &mut AdaptiveTable,
        out: &mut Vec<u8>,
    )
        requires
            old(table)@.wf(),
        ensures
            final(table)@.wf(),
            final(out)@ == old(out)@ + delta_block(samples@, initial_sample, old(table)@).0,
            final(table)@ == delta_block(samples@, initial_sample, old(table)@).1,
    {
        if samples.len() == 0 {
            proof {
                assert(out@ =~= out@ + Seq::<u8>::empty());
            }
            return;
        }
        let ghost rs = delta_residuals(samples@, initial_sample);
        let mut symbols: Vec<u8> = Vec::with_capacity(samples.len());
        let mut bit_writer = BitWriter::new();
        encode_delta_i64_block(samples, initial_sample, &mut symbols, &mut bit_writer);
        proof {
            assert(symbols@ =~= pack_runs(symbols_of(rs)));
            assert(pow2(0) * packed(extras_of(rs)) == packed(extras_of(rs))) by {
                vstd::arithmetic::power2::lemma2_to64();
            }
        }
        let extra = finish_extra(bit_writer, Ghost(extras_of(rs)));
        let mut fixed: Vec<u8> = Vec::new();
        push_le(&mut fixed, initial_sample as u64, 8);
        proof {
            assert(fixed@ =~= le_bytes((initial_sample as u64) as nat, 8));
        }
        let written = emit_coded_block(
            PredictorMode::Delta.code(),
            samples.len(),
            fixed.as_slice(),
            symbols.as_slice(),
            extra.as_slice(),
            table,
            out,
        );
        if !written {
            out.push(PredictorMode::Raw.code());
            push_le(out, samples.len() as u64, 2);
            push_i64_words(samples, out);
            proof {
                assert(out@ =~= old(out)@ + raw_block(as_words(samples@)));
            }
        }
    }

    /// Write a block using Adaptive Linear FIR prediction + rANS.
    pub fn write_adaptive_fir_block(
        samples: &[i64],
        initial_history: [i64; 3],
        table: &mut AdaptiveTable,
        out: &mut Vec<u8>,
    ) -> (h: [i64; 3])
        requires
            old(table)@.wf(),
        ensures
            final(table)@.wf(),
            final(out)@ == old(out)@ + fir_block(samples@, initial_history@, old(table)@).0,
            final(table)@ == fir_block(samples@, initial_history@, old(table)@).1,
            samples@.len() > 0 ==> h@ == fir_run(samples@, fir_initial(initial_history@)).1.history,
            samples@.len() == 0 ==> h == initial_history,
    {
        if samples.len() == 0 {
            proof {
                assert(out@ =~= out@ + Seq::<u8>::empty());
            }
            return initial_history;
        }
        let ghost rs = fir_run(samples@, fir_initial(initial_history@)).0;
        let mut symbols: Vec<u8> = Vec::with_capacity(samples.len());
        let mut bit_writer = BitWriter::new();
        let new_history = encode_adaptive_fir_block(
            samples,
            initial_history,
            &mut symbols,
            &mut bit_writer,
        );
        proof {
            assert(symbols@ =~= pack_runs(symbols_of(rs)));
            assert(pow2(0) * packed(extras_of(rs)) == packed(extras_of(rs))) by {
                vstd::arithmetic::power2::lemma2_to64();
            }
        }
        let extra = finish_extra(bit_writer, Ghost(extras_of(rs)));
        let mut fixed: Vec<u8> = Vec::new();
        push_le(&mut fixed, initial_history[0] as u64, 8);
        push_le(&mut fixed, initial_history[1] as u64, 8);
        push_le(&mut fixed, initial_history[2] as u64, 8);
        proof {
            assert(fixed@ =~= history_bytes(initial_history@));
        }
        let written = emit_coded_block(
            PredictorMode::AdaptiveLinear.code(),
            samples.len(),
            fixed.as_slice(),
            symbols.as_slice(),
            extra.as_slice(),
            table,
            out,
        );
        if !written {
            out.push(PredictorMode::Raw.code());
            push_le(out, samples.len() as u64, 2);
            push_i64_words(samples, out);
            proof {
                assert(out@ =~= old(out)@ + raw_block(as_words(samples@)));
            }
        }
        new_history
    }

    /// Write a block using Gorilla XOR prediction + rANS.
    pub fn write_xor_u64_block(
        samples: &[u64],
        initial_sample: u64,
        table: &mut AdaptiveTable,
        out: &mut Vec<u8>,
    )
        requires
            old(table)@.wf(),
        ensures
            final(table)@.wf(),
            final(out)@ == old(out)@ + xor_block(samples@, initial_sample, old(table)@).0,
            final(table)@ == xor_block(samples@, initial_sample, old(table)@).1,
    {
        if samples.len() == 0 {
            proof {
                assert(out@ =~= out@ + Seq::<u8>::empty());
            }
            return;
        }
        let ghost rs = xor_residuals(samples@, initial_sample);
        let mut symbols: Vec<u8> = Vec::with_capacity(samples.len());
        let mut bit_writer = BitWriter::new();
        encode_xor_u64_block(samples, initial_sample, &mut symbols, &mut bit_writer);
        proof {
            assert(symbols@ =~= pack_runs(symbols_of(rs)));
            assert(pow2(0) * packed(extras_of(rs)) == packed(extras_of(rs))) by {
                vstd::arithmetic::power2::lemma2_to64();
            }
        }
        let extra = finish_extra(bit_writer, Ghost(extras_of(rs)));
        let mut fixed: Vec<u8> = Vec::new();
        push_le(&mut fixed, initial_sample, 8);
        let written = emit_coded_block(
            PredictorMode::Xor.code(),
            samples.len(),
            fixed.as_slice(),
            symbols.as_slice(),
            extra.as_slice(),
            table,
            out,
        );
        if !written {
            Self::write_raw_u64_block(samples, out);
        }
    }

    /// Write an uncompressed raw block.
    pub fn write_raw_u64_block(samples: &[u64], out: &mut Vec<u8>)
        ensures
            final(out)@ == old(out)@ + raw_block(samples@),
    {
        out.push(PredictorMode::Raw.code());
        push_le(out, samples.len() as u64, 2);
        let mut i: usize = 0;
        let ghost start = out@;
        proof {
            assert(samples@.take(0) =~= Seq::<u64>::empty());
            assert(start + words_le(Seq::<u64>::empty()) =~= start);
        }
        while i < samples.len()
            invariant
                i <= samples@.len(),
                out@ == start + words_le(samples@.take(i as int)),
            decreases samples@.len() - i,
        {
            push_le(out, samples[i], 8);
            proof {
                assert(samples@.take(i + 1).drop_last() =~= samples@.take(i as int));
                assert(out@ =~= start + words_le(samples@.take(i + 1)));
            }
            i = i + 1;
        }
        proof {
            assert(samples@.take(samples@.len() as int) =~= samples@);
            assert(out@ =~= old(out)@ + raw_block(samples@));
        }
    }
}

} // verus!
